use crate::font::{Font, FontView};
use crate::text::{is_white_space, is_whitespace, push_char};
use vstd::prelude::*;

verus! {

/// Drops one carriage return that ends `x`.
pub open spec fn strip_cr(x: Seq<char>) -> Seq<char> {
    if x.len() > 0 && x.last() == '\r' {
        x.drop_last()
    } else {
        x
    }
}

/// Scanning `s` for lines: the lines ended by a newline so far (a carriage return
/// before the newline dropped), and the unfinished line.
pub open spec fn line_scan(s: Seq<char>) -> (Seq<Seq<char>>, Seq<char>)
    decreases s.len(),
{
    if s.len() == 0 {
        (Seq::empty(), Seq::empty())
    } else {
        let (done, cur) = line_scan(s.drop_last());
        if s.last() == '\n' {
            (done.push(strip_cr(cur)), Seq::empty())
        } else {
            (done, cur.push(s.last()))
        }
    }
}

/// The lines of `s`, as `str::lines` gives them: split at each newline, a
/// carriage return right before the newline dropped, and no empty last line after
/// a final newline.
pub open spec fn text_lines(s: Seq<char>) -> Seq<Seq<char>> {
    let (done, cur) = line_scan(s);
    if cur.len() > 0 {
        done.push(cur)
    } else {
        done
    }
}

/// Scanning `s` for words: the words ended by white space so far, and the word in
/// progress.
pub open spec fn word_scan(s: Seq<char>) -> (Seq<Seq<char>>, Seq<char>)
    decreases s.len(),
{
    if s.len() == 0 {
        (Seq::empty(), Seq::empty())
    } else {
        let (done, cur) = word_scan(s.drop_last());
        if is_white_space(s.last()) {
            if cur.len() > 0 {
                (done.push(cur), Seq::empty())
            } else {
                (done, cur)
            }
        } else {
            (done, cur.push(s.last()))
        }
    }
}

/// The words of `s`: its maximal runs of characters that are not white space.
pub open spec fn split_words(s: Seq<char>) -> Seq<Seq<char>> {
    let (done, cur) = word_scan(s);
    if cur.len() > 0 {
        done.push(cur)
    } else {
        done
    }
}

/// The words joined with one space between each two.
pub open spec fn join_words(ws: Seq<Seq<char>>) -> Seq<char>
    decreases ws.len(),
{
    if ws.len() == 0 {
        Seq::empty()
    } else if ws.len() == 1 {
        ws[0]
    } else {
        join_words(ws.drop_last()) + seq![' '] + ws.last()
    }
}

/// The words each followed by one space.
pub open spec fn appended(ws: Seq<Seq<char>>) -> Seq<char>
    decreases ws.len(),
{
    if ws.len() == 0 {
        Seq::empty()
    } else {
        appended(ws.drop_last()) + ws.last() + seq![' ']
    }
}

/// How many words the greedy fill takes, having taken `n`: it takes another
/// while words remain and those taken, each followed by a space, are narrower
/// than `ww`.
pub open spec fn taken(font: FontView, ww: int, ws: Seq<Seq<char>>, n: nat) -> nat
    decreases ws.len() - n,
{
    if n < ws.len() && font.text_width(appended(ws.take(n as int))) < ww {
        taken(font, ww, ws, n + 1)
    } else {
        n
    }
}

/// How many words make the next line. All that remain where they fit, each
/// followed by a space; otherwise the word that carried the fill past the width
/// goes on to the next line, unless it is the line's only word.
pub open spec fn line_words(font: FontView, ww: int, ws: Seq<Seq<char>>) -> nat {
    let t = taken(font, ww, ws, 0);
    if t == ws.len() && font.text_width(appended(ws.take(t as int))) < ww {
        t
    } else if t >= 2 {
        (t - 1) as nat
    } else {
        1
    }
}

/// The lines that the words `ws` flow into.
pub open spec fn flow(font: FontView, ww: int, ws: Seq<Seq<char>>) -> Seq<Seq<char>>
    decreases ws.len(),
{
    let k = line_words(font, ww, ws);
    if ws.len() == 0 || k < 1 || k > ws.len() {
        Seq::empty()
    } else {
        seq![join_words(ws.take(k as int))] + flow(font, ww, ws.skip(k as int))
    }
}

/// The word groups that make the lines of `ws`, in order.
pub open spec fn flow_groups(font: FontView, ww: int, ws: Seq<Seq<char>>) -> Seq<Seq<Seq<char>>>
    decreases ws.len(),
{
    let k = line_words(font, ww, ws);
    if ws.len() == 0 || k < 1 || k > ws.len() {
        Seq::empty()
    } else {
        seq![ws.take(k as int)] + flow_groups(font, ww, ws.skip(k as int))
    }
}

/// The groups one after another.
pub open spec fn concat_groups(gs: Seq<Seq<Seq<char>>>) -> Seq<Seq<char>>
    decreases gs.len(),
{
    if gs.len() == 0 {
        Seq::empty()
    } else {
        gs[0] + concat_groups(gs.drop_first())
    }
}

/// The word groups of one logical line; a line without words is one empty group.
pub open spec fn line_groups(font: FontView, ww: int, line: Seq<char>) -> Seq<Seq<Seq<char>>> {
    let ws = split_words(line);
    if ws.len() == 0 {
        seq![Seq::empty()]
    } else {
        flow_groups(font, ww, ws)
    }
}

/// The word groups of the display lines of the logical lines `ls`.
pub open spec fn page_groups(font: FontView, ww: int, ls: Seq<Seq<char>>) -> Seq<Seq<Seq<char>>>
    decreases ls.len(),
{
    if ls.len() == 0 {
        Seq::empty()
    } else {
        page_groups(font, ww, ls.drop_last()) + line_groups(font, ww, ls.last())
    }
}

/// The word groups of the display lines of a page.
pub open spec fn display_groups(font: FontView, ww: int, page: Seq<char>) -> Seq<Seq<Seq<char>>> {
    page_groups(font, ww, text_lines(page))
}

/// A group fits the width: where it holds two or more words, the words, each
/// followed by a space, are narrower than `ww`.
pub open spec fn group_fits(font: FontView, ww: int, g: Seq<Seq<char>>) -> bool {
    g.len() >= 2 ==> font.text_width(appended(g)) < ww
}

/// The width of a concatenation is the sum of the widths.
pub proof fn lemma_width_additive(font: FontView, a: Seq<char>, b: Seq<char>)
    ensures
        font.text_width(a + b) == font.text_width(a) + font.text_width(b),
    decreases b.len(),
{
    if b.len() == 0 {
        assert(a + b =~= a);
    } else {
        lemma_width_additive(font, a, b.drop_last());
        assert((a + b).drop_last() =~= a + b.drop_last());
        assert((a + b).last() == b.last());
    }
}

/// The words of a group, each followed by a space, are the group joined with
/// spaces and then one more space.
pub proof fn lemma_appended_join(g: Seq<Seq<char>>)
    requires
        g.len() > 0,
    ensures
        appended(g) == join_words(g) + seq![' '],
    decreases g.len(),
{
    if g.len() == 1 {
        assert(g.drop_last().len() == 0);
        assert(appended(g.drop_last()) =~= Seq::<char>::empty());
        assert(g.last() == g[0]);
        assert(appended(g) =~= join_words(g) + seq![' ']);
    } else {
        lemma_appended_join(g.drop_last());
        assert(appended(g) =~= join_words(g) + seq![' ']);
    }
}

/// No word with its space is wider than the group's words with their spaces.
pub proof fn lemma_word_in_appended(font: FontView, g: Seq<Seq<char>>, j: int)
    requires
        0 <= j < g.len(),
    ensures
        font.text_width(g[j] + seq![' ']) <= font.text_width(appended(g)),
    decreases g.len(),
{
    let a = appended(g.drop_last());
    assert(appended(g) =~= a + (g.last() + seq![' ']));
    lemma_width_additive(font, a, g.last() + seq![' ']);
    if j < g.len() - 1 {
        lemma_word_in_appended(font, g.drop_last(), j);
    }
}

/// Every count of words below what the fill takes still fits.
pub proof fn lemma_taken_fits(font: FontView, ww: int, ws: Seq<Seq<char>>, n: nat, m: nat)
    requires
        n <= m < taken(font, ww, ws, n),
    ensures
        font.text_width(appended(ws.take(m as int))) < ww,
    decreases ws.len() - n,
{
    if n < ws.len() && font.text_width(appended(ws.take(n as int))) < ww {
        if m > n {
            lemma_taken_fits(font, ww, ws, n + 1, m);
        }
    }
}

/// The lines of `ws` are its word groups joined with spaces; the groups hold
/// every word once, in order; each group has a word, and each group of two or
/// more words fits the width.
pub proof fn lemma_flow_groups(font: FontView, ww: int, ws: Seq<Seq<char>>)
    ensures
        flow(font, ww, ws) == flow_groups(font, ww, ws).map_values(|g: Seq<Seq<char>>| join_words(g)),
        concat_groups(flow_groups(font, ww, ws)) == ws,
        forall|i: int|
            0 <= i < flow_groups(font, ww, ws).len() ==> (#[trigger] flow_groups(font, ww, ws)[i]).len()
                >= 1 && group_fits(font, ww, flow_groups(font, ww, ws)[i]),
    decreases ws.len(),
{
    let gs = flow_groups(font, ww, ws);
    if ws.len() == 0 {
        assert(gs.map_values(|g: Seq<Seq<char>>| join_words(g)) =~= Seq::<Seq<char>>::empty());
    } else {
        lemma_line_words_bound(font, ww, ws);
        lemma_taken_bound(font, ww, ws, 0);
        let k = line_words(font, ww, ws);
        let t = taken(font, ww, ws, 0);
        let rest = ws.skip(k as int);
        lemma_flow_groups(font, ww, rest);
        let first = ws.take(k as int);
        if k >= 2 && k < t {
            lemma_taken_fits(font, ww, ws, 0, k);
        }
        assert(group_fits(font, ww, first));
        assert(gs[0] == first);
        assert(gs.drop_first() =~= flow_groups(font, ww, rest));
        assert(gs.map_values(|g: Seq<Seq<char>>| join_words(g)) =~= seq![join_words(first)]
            + flow_groups(font, ww, rest).map_values(|g: Seq<Seq<char>>| join_words(g)));
        assert(first + rest =~= ws);
        assert forall|i: int| 0 <= i < gs.len() implies (#[trigger] gs[i]).len() >= 1 && group_fits(
            font,
            ww,
            gs[i],
        ) by {
            if i > 0 {
                assert(gs[i] == flow_groups(font, ww, rest)[i - 1]);
            }
        }
    }
}

/// The display lines of the logical lines `ls` are their word groups joined with
/// spaces, and each group of two or more words fits the width.
pub proof fn lemma_page_groups(font: FontView, ww: int, ls: Seq<Seq<char>>)
    ensures
        flow_lines(font, ww, ls) == page_groups(font, ww, ls).map_values(|g: Seq<Seq<char>>| join_words(g)),
        forall|i: int|
            0 <= i < page_groups(font, ww, ls).len() ==> group_fits(
                font,
                ww,
                #[trigger] page_groups(font, ww, ls)[i],
            ),
    decreases ls.len(),
{
    if ls.len() > 0 {
        lemma_page_groups(font, ww, ls.drop_last());
        let line = ls.last();
        let ws = split_words(line);
        let lg = line_groups(font, ww, line);
        let prev = page_groups(font, ww, ls.drop_last());
        if ws.len() == 0 {
            assert(lg.map_values(|g: Seq<Seq<char>>| join_words(g)) =~= flow_line(font, ww, line));
            assert(group_fits(font, ww, lg[0]));
        } else {
            lemma_flow_groups(font, ww, ws);
        }
        assert(page_groups(font, ww, ls).map_values(|g: Seq<Seq<char>>| join_words(g)) =~= prev.map_values(
            |g: Seq<Seq<char>>| join_words(g),
        ) + lg.map_values(|g: Seq<Seq<char>>| join_words(g)));
        assert forall|i: int| 0 <= i < page_groups(font, ww, ls).len() implies group_fits(
            font,
            ww,
            #[trigger] page_groups(font, ww, ls)[i],
        ) by {
            if i >= prev.len() {
                assert(page_groups(font, ww, ls)[i] == lg[i - prev.len()]);
            } else {
                assert(page_groups(font, ww, ls)[i] == prev[i]);
            }
        }
    }
}

/// Each display line of a page is a group of its words joined with single
/// spaces. A line of two or more words, followed by a space, is narrower than the
/// width; so a word that with its space is not narrower than the width stands on
/// a line of its own.
pub proof fn lemma_display_lines_fit(font: FontView, ww: int, page: Seq<char>)
    ensures
        ({
            let gs = display_groups(font, ww, page);
            let ls = lay_out(font, ww, page);
            &&& ls.len() == gs.len()
            &&& forall|i: int| 0 <= i < ls.len() ==> #[trigger] ls[i] == join_words(gs[i])
            &&& forall|i: int|
                0 <= i < ls.len() && gs[i].len() >= 2 ==> font.text_width(#[trigger] ls[i] + seq![' ']) < ww
            &&& forall|i: int, j: int|
                0 <= i < ls.len() && gs[i].len() >= 2 && 0 <= j < gs[i].len() ==> font.text_width(
                    #[trigger] gs[i][j] + seq![' '],
                ) < ww
        }),
{
    let gs = page_groups(font, ww, text_lines(page));
    let ls = lay_out(font, ww, page);
    lemma_page_groups(font, ww, text_lines(page));
    assert forall|i: int| 0 <= i < ls.len() && gs[i].len() >= 2 implies font.text_width(
        #[trigger] ls[i] + seq![' '],
    ) < ww by {
        assert(group_fits(font, ww, gs[i]));
        lemma_appended_join(gs[i]);
    }
    assert forall|i: int, j: int| 0 <= i < ls.len() && gs[i].len() >= 2 && 0 <= j < gs[i].len() implies font.text_width(
        #[trigger] gs[i][j] + seq![' '],
    ) < ww by {
        assert(group_fits(font, ww, gs[i]));
        lemma_word_in_appended(font, gs[i], j);
    }
}

/// The lines that one logical line flows into; a line without words stays one
/// empty line.
pub open spec fn flow_line(font: FontView, ww: int, line: Seq<char>) -> Seq<Seq<char>> {
    let ws = split_words(line);
    if ws.len() == 0 {
        seq![Seq::empty()]
    } else {
        flow(font, ww, ws)
    }
}

/// The display lines of the logical lines `ls`, in order.
pub open spec fn flow_lines(font: FontView, ww: int, ls: Seq<Seq<char>>) -> Seq<Seq<char>>
    decreases ls.len(),
{
    if ls.len() == 0 {
        Seq::empty()
    } else {
        flow_lines(font, ww, ls.drop_last()) + flow_line(font, ww, ls.last())
    }
}

/// The display lines of a page: each of its lines re-flowed to width `ww`.
pub open spec fn lay_out(font: FontView, ww: int, page: Seq<char>) -> Seq<Seq<char>> {
    flow_lines(font, ww, text_lines(page))
}

pub proof fn lemma_taken_bound(font: FontView, ww: int, ws: Seq<Seq<char>>, n: nat)
    requires
        n <= ws.len(),
    ensures
        n <= taken(font, ww, ws, n) <= ws.len(),
    decreases ws.len() - n,
{
    if n < ws.len() && font.text_width(appended(ws.take(n as int))) < ww {
        lemma_taken_bound(font, ww, ws, n + 1);
    }
}

/// Every line takes at least one word and no more than there are: the flow
/// always moves on.
pub proof fn lemma_line_words_bound(font: FontView, ww: int, ws: Seq<Seq<char>>)
    requires
        ws.len() > 0,
    ensures
        1 <= line_words(font, ww, ws) <= ws.len(),
{
    lemma_taken_bound(font, ww, ws, 0);
}

/// The logical lines of `s`.
pub fn split_lines(s: &str) -> (r: Vec<Vec<char>>)
    ensures
        r@.map_values(|l: Vec<char>| l@) == text_lines(s@),
{
    let ghost t = s@;
    let mut done: Vec<Vec<char>> = Vec::new();
    let mut cur: Vec<char> = Vec::new();
    for ch in it: s.chars()
        invariant
            it.seq() == t,
            done@.map_values(|l: Vec<char>| l@) == line_scan(t.take(it.index())).0,
            cur@ == line_scan(t.take(it.index())).1,
    {
        let ghost k = it.index();
        proof {
            assert(t.take(k + 1).drop_last() =~= t.take(k));
        }
        if ch == '\n' {
            let n = cur.len();
            if n > 0 && cur[n - 1] == '\r' {
                cur.pop();
            }
            proof {
                assert(cur@ =~= strip_cr(line_scan(t.take(k)).1));
            }
            done.push(cur);
            cur = Vec::new();
        } else {
            cur.push(ch);
        }
        proof {
            assert(done@.map_values(|l: Vec<char>| l@) =~= line_scan(t.take(k + 1)).0);
        }
    }
    proof {
        assert(t.take(t.len() as int) =~= t);
    }
    if cur.len() > 0 {
        done.push(cur);
    }
    proof {
        assert(done@.map_values(|l: Vec<char>| l@) =~= text_lines(t));
    }
    done
}

/// The words of `line`.
pub fn words_of(line: &Vec<char>) -> (r: Vec<Vec<char>>)
    ensures
        r@.map_values(|w: Vec<char>| w@) == split_words(line@),
{
    let ghost t = line@;
    let mut done: Vec<Vec<char>> = Vec::new();
    let mut cur: Vec<char> = Vec::new();
    let mut i: usize = 0;
    while i < line.len()
        invariant
            t == line@,
            i <= t.len(),
            done@.map_values(|l: Vec<char>| l@) == word_scan(t.take(i as int)).0,
            cur@ == word_scan(t.take(i as int)).1,
        decreases t.len() - i,
    {
        let ch = line[i];
        proof {
            assert(t.take(i + 1).drop_last() =~= t.take(i as int));
            assert(t.take(i + 1).last() == ch);
        }
        if is_whitespace(ch) {
            if cur.len() > 0 {
                done.push(cur);
                cur = Vec::new();
            }
        } else {
            cur.push(ch);
        }
        i = i + 1;
        proof {
            assert(done@.map_values(|l: Vec<char>| l@) =~= word_scan(t.take(i as int)).0);
        }
    }
    proof {
        assert(t.take(t.len() as int) =~= t);
    }
    if cur.len() > 0 {
        done.push(cur);
    }
    proof {
        assert(done@.map_values(|l: Vec<char>| l@) =~= split_words(t));
    }
    done
}

/// Appends the characters of `w` to `s`.
fn push_all(s: &mut String, w: &Vec<char>)
    ensures
        final(s)@ == old(s)@ + w@,
{
    let mut i: usize = 0;
    while i < w.len()
        invariant
            i <= w@.len(),
            s@ == old(s)@ + w@.take(i as int),
        decreases w@.len() - i,
    {
        push_char(s, w[i]);
        i = i + 1;
        assert(s@ =~= old(s)@ + w@.take(i as int));
    }
    assert(w@.take(i as int) =~= w@);
}

/// The words `ws[from..to]` joined with single spaces.
pub fn join_range(ws: &Vec<Vec<char>>, from: usize, to: usize) -> (r: String)
    requires
        from <= to <= ws@.len(),
    ensures
        r@ == join_words(ws@.map_values(|w: Vec<char>| w@).subrange(from as int, to as int)),
{
    let ghost v = ws@.map_values(|w: Vec<char>| w@);
    let mut r = String::new();
    let mut i: usize = from;
    while i < to
        invariant
            from <= i <= to <= ws@.len(),
            v == ws@.map_values(|w: Vec<char>| w@),
            r@ == join_words(v.subrange(from as int, i as int)),
        decreases to - i,
    {
        let ghost before = v.subrange(from as int, i as int);
        if i > from {
            push_char(&mut r, ' ');
        }
        push_all(&mut r, &ws[i]);
        i = i + 1;
        proof {
            let after = v.subrange(from as int, i as int);
            assert(after.drop_last() =~= before);
            assert(after.last() == ws@[i - 1]@);
            if i - 1 == from {
                assert(before.len() == 0);
                assert(r@ =~= after[0]);
            } else {
                assert(r@ =~= join_words(before) + seq![' '] + after.last());
            }
        }
    }
    r
}

/// Flows `words` into lines at most `ww` pixels wide (as the greedy fill measures
/// them) and appends those lines to `out`.
pub fn flow_words(font: &Font, ww: u32, words: &Vec<Vec<char>>, out: &mut Vec<String>)
    requires
        words@.len() > 0,
    ensures
        final(out)@.map_values(|l: String| l@) == old(out)@.map_values(|l: String| l@) + flow(
            font@,
            ww as int,
            words@.map_values(|w: Vec<char>| w@),
        ),
{
    let ghost v = words@.map_values(|w: Vec<char>| w@);
    let ghost wwi = ww as int;
    let mut start: usize = 0;
    proof {
        assert(v.skip(0) =~= v);
    }
    while start < words.len()
        invariant
            v == words@.map_values(|w: Vec<char>| w@),
            start <= words@.len(),
            wwi == ww as int,
            old(out)@.map_values(|l: String| l@) + flow(font@, wwi, v) == out@.map_values(
                |l: String| l@,
            ) + flow(font@, wwi, v.skip(start as int)),
        decreases words@.len() - start,
    {
        let ghost rest = v.skip(start as int);
        let mut s = String::new();
        let mut n: usize = 0;
        while n < words.len() - start && font.text_width(s.as_str()) < ww as usize
            invariant
                v == words@.map_values(|w: Vec<char>| w@),
                start < words@.len(),
                start + n <= words@.len(),
                rest == v.skip(start as int),
                s@ == appended(rest.take(n as int)),
                taken(font@, wwi, rest, 0) == taken(font@, wwi, rest, n as nat),
                wwi == ww as int,
            decreases words@.len() - start - n,
        {
            proof {
                assert(font@.text_width(appended(rest.take(n as int))) < wwi);
                assert(n < rest.len());
            }
            push_all(&mut s, &words[start + n]);
            push_char(&mut s, ' ');
            proof {
                assert(rest.take(n + 1).drop_last() =~= rest.take(n as int));
                assert(rest.take(n + 1).last() == words@[start + n]@);
                assert(s@ =~= appended(rest.take(n + 1)));
            }
            n = n + 1;
        }
        proof {
            lemma_line_words_bound(font@, wwi, rest);
            assert(taken(font@, wwi, rest, n as nat) == n);
        }
        let fits = font.text_width(s.as_str()) < ww as usize;
        let k: usize = if start + n == words.len() && fits {
            n
        } else if n >= 2 {
            n - 1
        } else {
            1
        };
        proof {
            assert(k == line_words(font@, wwi, rest));
            assert(rest.take(k as int) =~= v.subrange(start as int, start + k));
            assert(rest.skip(k as int) =~= v.skip(start + k));
        }
        let line = join_range(words, start, start + k);
        let ghost before = out@.map_values(|l: String| l@);
        out.push(line);
        proof {
            assert(out@.map_values(|l: String| l@) =~= before.push(line@));
            assert(flow(font@, wwi, rest) == seq![join_words(rest.take(k as int))] + flow(
                font@,
                wwi,
                rest.skip(k as int),
            ));
            assert(before + flow(font@, wwi, rest) =~= before.push(line@) + flow(
                font@,
                wwi,
                v.skip(start + k),
            ));
        }
        start = start + k;
    }
    proof {
        assert(v.skip(start as int) =~= Seq::<Seq<char>>::empty());
        assert(out@.map_values(|l: String| l@) + Seq::<Seq<char>>::empty() =~= out@.map_values(
            |l: String| l@,
        ));
    }
}

} // verus!
