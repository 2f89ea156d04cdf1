use crate::font::{Font, FontView};
use crate::text::{
    byte_offset, is_white_space, is_whitespace, lemma_encode_prefix_len, lemma_encode_take_step,
    lemma_boundary_piece, lemma_prefix_boundary, piece, utf8_len,
};
use vstd::string::StrSliceExecFns;
use vstd::string::StringExecFns;
use vstd::string::StringSliceAdditionalSpecFns;
use vstd::prelude::*;
use vstd::utf8::*;

verus! {

/// The state of the line breaker after a prefix of the text: the width since the
/// last break, the width of the word in progress, the byte offset of the last
/// white space since the last break, and the breaks so far.
pub struct WrapState {
    pub scrap: int,
    pub word: int,
    pub last_ws: Option<int>,
    pub breaks: Seq<int>,
}

pub open spec fn wrap_init() -> WrapState {
    WrapState { scrap: 0, word: 0, last_ws: None, breaks: Seq::empty() }
}

/// The line breaker's reaction to the character `c` starting at byte offset `at`.
///
/// A newline always breaks. Without a maximum width nothing else does. With one,
/// a character whose glyph would carry the line past the maximum breaks it at the
/// last white space since the previous break, or right before itself when there is
/// none; the width from the break point up to and including the character carries
/// over to the new line.
pub open spec fn wrap_step(font: FontView, max: Option<u32>, st: WrapState, at: int, c: char) -> WrapState {
    if c == '\n' {
        WrapState { scrap: 0, word: 0, last_ws: None, breaks: st.breaks.push(at) }
    } else {
        match max {
            None => st,
            Some(m) => {
                let ws = is_white_space(c);
                let last = if ws {
                    Some(at)
                } else {
                    st.last_ws
                };
                let word = if ws {
                    0
                } else {
                    st.word
                };
                let g = font.width(c) as int;
                if st.scrap + g > m {
                    match last {
                        Some(b) => WrapState {
                            scrap: word + g,
                            word: word + g,
                            last_ws: None,
                            breaks: st.breaks.push(b),
                        },
                        None => WrapState { scrap: g, word: g, last_ws: None, breaks: st.breaks.push(at) },
                    }
                } else {
                    WrapState { scrap: st.scrap + g, word: word + g, last_ws: last, breaks: st.breaks }
                }
            },
        }
    }
}

/// The line breaker's state after the characters of `s`.
pub open spec fn wrap_prefix(font: FontView, max: Option<u32>, s: Seq<char>) -> WrapState
    decreases s.len(),
{
    if s.len() == 0 {
        wrap_init()
    } else {
        wrap_step(
            font,
            max,
            wrap_prefix(font, max, s.drop_last()),
            encode_utf8(s.drop_last()).len() as int,
            s.last(),
        )
    }
}

/// The break list of `s`: the breaks of the scan, then the text's byte length.
pub open spec fn break_list(font: FontView, max: Option<u32>, s: Seq<char>) -> Seq<int> {
    wrap_prefix(font, max, s).breaks.push(encode_utf8(s).len() as int)
}

/// The invariant of the scan over the first `n` characters of `t`.
pub open spec fn wrap_inv(font: FontView, max: Option<u32>, t: Seq<char>, n: int) -> bool {
    let st = wrap_prefix(font, max, t.take(n));
    let end = byte_offset(t, n);
    &&& forall|i: int| 0 <= i < st.breaks.len() ==> is_char_boundary(encode_utf8(t), #[trigger] st.breaks[i])
    &&& forall|i: int| 0 <= i < st.breaks.len() ==> 0 <= #[trigger] st.breaks[i] < end
    &&& forall|i: int, j: int| 0 <= i < j < st.breaks.len() ==> st.breaks[i] < st.breaks[j]
    &&& st.last_ws matches Some(b) ==> {
        &&& is_char_boundary(encode_utf8(t), b)
        &&& 0 <= b < end
        &&& st.breaks.len() > 0 ==> st.breaks.last() < b
        &&& max matches Some(m) && st.scrap <= m
    }
    &&& 0 <= st.word <= st.scrap <= 2 * (u32::MAX as int)
}

pub proof fn lemma_wrap_inv(font: FontView, max: Option<u32>, t: Seq<char>, n: int)
    requires
        0 <= n <= t.len(),
        forall|c: char| #[trigger] font.width(c) <= u32::MAX,
    ensures
        wrap_inv(font, max, t, n),
    decreases n,
{
    if n == 0 {
        assert(t.take(0) =~= Seq::<char>::empty());
    } else {
        lemma_wrap_inv(font, max, t, n - 1);
        let s = t.take(n);
        assert(s.drop_last() =~= t.take(n - 1));
        assert(s.last() == t[n - 1]);
        let prev = wrap_prefix(font, max, t.take(n - 1));
        let at = byte_offset(t, n - 1);
        lemma_encode_take_step(t, n - 1);
        lemma_prefix_boundary(t, n - 1);
        let st = wrap_prefix(font, max, s);
        assert(st == wrap_step(font, max, prev, at, t[n - 1]));
        assert forall|i: int| 0 <= i < st.breaks.len() implies 0 <= #[trigger] st.breaks[i] < byte_offset(t, n) by {
            if i < prev.breaks.len() {
                assert(st.breaks[i] == prev.breaks[i]);
            }
        }
        assert forall|i: int| 0 <= i < st.breaks.len() implies is_char_boundary(encode_utf8(t), #[trigger] st.breaks[i]) by {
            if i < prev.breaks.len() {
                assert(st.breaks[i] == prev.breaks[i]);
            }
        }
        assert forall|i: int, j: int| 0 <= i < j < st.breaks.len() implies st.breaks[i] < st.breaks[j] by {
            if j < prev.breaks.len() {
                assert(st.breaks[i] == prev.breaks[i]);
                assert(st.breaks[j] == prev.breaks[j]);
            } else {
                assert(st.breaks[i] == prev.breaks[i]);
            }
        }
    }
}

/// A text together with the byte offsets at which its lines end.
///
/// The text never changes once the value is made; wrapping it again only
/// replaces the break list.
#[derive(Debug, Clone)]
pub struct WrappedText {
    text: String,
    breaks: Vec<usize>,
}

/// The break list as integers.
pub open spec fn breaks_view(b: Seq<usize>) -> Seq<int> {
    b.map_values(|x: usize| x as int)
}

/// A break list fit for `t`: not empty, strictly increasing, on character
/// boundaries, and ending at the text's byte length.
pub open spec fn valid_breaks(t: Seq<char>, b: Seq<int>) -> bool {
    &&& b.len() > 0
    &&& b.last() == encode_utf8(t).len()
    &&& forall|i: int| 0 <= i < b.len() ==> is_char_boundary(encode_utf8(t), #[trigger] b[i])
    &&& forall|i: int, j: int| 0 <= i < j < b.len() ==> b[i] < b[j]
}

/// Drops the first character where it is white space.
pub open spec fn strip_leading_space(s: Seq<char>) -> Seq<char> {
    if s.len() > 0 && is_white_space(s[0]) {
        s.drop_first()
    } else {
        s
    }
}

/// The `i`-th line: the text from the previous break (or the start) to the
/// `i`-th break, without a leading white space character.
pub open spec fn line_of(t: Seq<char>, b: Seq<int>, i: int) -> Seq<char> {
    strip_leading_space(piece(t, if i == 0 { 0 } else { b[i - 1] }, b[i]))
}

/// All lines of `t` under the break list `b`.
pub open spec fn lines_of(t: Seq<char>, b: Seq<int>) -> Seq<Seq<char>> {
    Seq::new(b.len(), |i: int| line_of(t, b, i))
}

/// The lines joined with a newline between each two.
pub open spec fn join_lines(ls: Seq<Seq<char>>) -> Seq<char>
    decreases ls.len(),
{
    if ls.len() == 0 {
        Seq::empty()
    } else if ls.len() == 1 {
        ls[0]
    } else {
        join_lines(ls.drop_last()) + seq!['\n'] + ls.last()
    }
}

/// Every break list that the line breaker produces is fit for its text: its
/// offsets lie on character boundaries and it ends at the text's byte length.
pub proof fn lemma_breaks_on_boundaries(font: &Font, max: Option<u32>, t: Seq<char>)
    ensures
        break_list(font@, max, t).last() == encode_utf8(t).len(),
        forall|i: int|
            0 <= i < break_list(font@, max, t).len() ==> is_char_boundary(
                encode_utf8(t),
                #[trigger] break_list(font@, max, t)[i],
            ),
{
    lemma_breaks_valid(font, max, t);
}

/// The break list that the line breaker produces is strictly increasing.
pub proof fn lemma_breaks_increasing(font: &Font, max: Option<u32>, t: Seq<char>)
    ensures
        forall|i: int, j: int|
            0 <= i < j < break_list(font@, max, t).len() ==> break_list(font@, max, t)[i]
                < break_list(font@, max, t)[j],
{
    lemma_breaks_valid(font, max, t);
}

/// The byte offsets of the newlines of `s`, in order.
pub open spec fn newline_offsets(s: Seq<char>) -> Seq<int>
    decreases s.len(),
{
    if s.len() == 0 {
        Seq::empty()
    } else if s.last() == '\n' {
        newline_offsets(s.drop_last()).push(encode_utf8(s.drop_last()).len() as int)
    } else {
        newline_offsets(s.drop_last())
    }
}

/// Without a maximum width, lines break exactly at the newlines and at the end
/// of the text.
pub proof fn lemma_no_wrap_breaks(font: &Font, t: Seq<char>)
    ensures
        break_list(font@, None, t) == newline_offsets(t).push(encode_utf8(t).len() as int),
{
    lemma_no_wrap_scan(font@, t);
}

proof fn lemma_no_wrap_scan(font: FontView, s: Seq<char>)
    ensures
        wrap_prefix(font, None, s).breaks == newline_offsets(s),
    decreases s.len(),
{
    if s.len() > 0 {
        lemma_no_wrap_scan(font, s.drop_last());
    }
}

proof fn lemma_breaks_valid(font: &Font, max: Option<u32>, t: Seq<char>)
    ensures
        valid_breaks(t, break_list(font@, max, t)),
{
    font.lemma_width_bound();
    lemma_wrap_inv(font@, max, t, t.len() as int);
    assert(t.take(t.len() as int) =~= t);
    let st = wrap_prefix(font@, max, t);
    let b = break_list(font@, max, t);
    vstd::utf8::encode_utf8_valid_utf8(t);
    vstd::utf8::is_char_boundary_start_end_of_seq(encode_utf8(t));
    assert forall|i: int| 0 <= i < b.len() implies is_char_boundary(encode_utf8(t), #[trigger] b[i]) by {
        if i < st.breaks.len() {
            assert(b[i] == st.breaks[i]);
        }
    }
    assert forall|i: int, j: int| 0 <= i < j < b.len() implies b[i] < b[j] by {
        assert(b[i] == st.breaks[i]);
        if j < st.breaks.len() {
            assert(b[j] == st.breaks[j]);
        }
    }
}

impl Default for WrappedText {
    /// The empty text, as one empty line.
    fn default() -> (r: Self)
        ensures
            r.wf(),
            r.spec_text().len() == 0,
            r.spec_breaks() == seq![0int],
    {
        let mut breaks: Vec<usize> = Vec::new();
        breaks.push(0);
        let r = WrappedText { text: String::new(), breaks };
        proof {
            assert(r.spec_breaks() =~= seq![0int]);
            assert(encode_utf8(r.spec_text()) =~= Seq::<u8>::empty());
            vstd::utf8::is_char_boundary_start_end_of_seq(Seq::<u8>::empty());
        }
        r
    }
}

impl WrappedText {
    /// The text.
    pub closed spec fn spec_text(&self) -> Seq<char> {
        self.text@
    }

    /// The break list.
    pub closed spec fn spec_breaks(&self) -> Seq<int> {
        breaks_view(self.breaks@)
    }

    /// The break list fits the text.
    pub open spec fn wf(&self) -> bool {
        valid_breaks(self.spec_text(), self.spec_breaks())
    }

    /// Wraps `text` to lines at most `width` pixels wide under the glyphs of `font`.
    pub fn new(text: String, width: u32, font: &Font) -> (r: Self)
        ensures
            r.wf(),
            r.spec_text() == text@,
            r.spec_breaks() == break_list(font@, Some(width), text@),
    {
        Self::new_without_width(text, Some(width), font)
    }

    /// Wraps `text` to lines at most `width` pixels wide, or only at its newlines
    /// where `width` is `None`.
    pub fn new_without_width(text: String, width: Option<u32>, font: &Font) -> (r: Self)
        ensures
            r.wf(),
            r.spec_text() == text@,
            r.spec_breaks() == break_list(font@, width, text@),
    {
        let mut ret = WrappedText { text, breaks: Vec::new() };
        ret.rewrap(width, font);
        proof {
            lemma_breaks_valid(font, width, text@);
        }
        ret
    }

    /// The lines, in order: one for each break.
    pub fn lines(&self) -> (r: Vec<&str>)
        requires
            self.wf(),
        ensures
            r@.map_values(|s: &str| s@) == lines_of(self.spec_text(), self.spec_breaks()),
    {
        let ghost t = self.text@;
        let ghost bytes = encode_utf8(t);
        let ghost b = self.spec_breaks();
        let s = self.text.as_str();
        proof {
            vstd::utf8::encode_utf8_valid_utf8(t);
        }
        let mut r: Vec<&str> = Vec::new();
        let mut runner: usize = 0;
        let mut i: usize = 0;
        while i < self.breaks.len()
            invariant
                s@ == t,
                b == breaks_view(self.breaks@),
                valid_breaks(t, b),
                valid_utf8(bytes),
                bytes == encode_utf8(t),
                i <= self.breaks.len(),
                runner == if i == 0 { 0 } else { b[i - 1] },
                is_char_boundary(bytes, runner as int),
                runner <= bytes.len(),
                r@.len() == i,
                forall|j: int| 0 <= j < i ==> (#[trigger] r@[j])@ == line_of(t, b, j),
            decreases self.breaks.len() - i,
        {
            let bp = self.breaks[i];
            proof {
                assert(b[i as int] == bp);
                if i > 0 {
                    assert(b[i - 1] < b[i as int]);
                }
                if i + 1 < b.len() {
                    assert(b[i as int] < b.last());
                }
                lemma_boundary_piece(bytes, runner as int, bp as int);
            }
            let (left, _) = s.split_at(bp);
            let (_, a) = left.split_at(runner);
            proof {
                assert(a.spec_bytes() =~= bytes.subrange(runner as int, bp as int));
                vstd::utf8::encode_utf8_decode_utf8(a@);
                assert(a@ == piece(t, runner as int, bp as int));
            }
            let line = if !a.is_empty() && is_whitespace(a.get_char(0)) {
                a.substring_char(1, a.unicode_len())
            } else {
                a
            };
            proof {
                if a@.len() > 0 {
                    assert(a@.subrange(1, a@.len() as int) =~= a@.drop_first());
                }
            }
            r.push(line);
            runner = bp;
            i = i + 1;
        }
        proof {
            assert(r@.map_values(|s: &str| s@) =~= lines_of(t, b));
        }
        r
    }

    /// The break list: the byte offset at which each line ends.
    pub fn breaks(&self) -> (r: Vec<usize>)
        ensures
            breaks_view(r@) == self.spec_breaks(),
    {
        let mut r: Vec<usize> = Vec::new();
        let mut i: usize = 0;
        while i < self.breaks.len()
            invariant
                i <= self.breaks@.len(),
                r@ == self.breaks@.take(i as int),
            decreases self.breaks@.len() - i,
        {
            r.push(self.breaks[i]);
            i = i + 1;
            assert(r@ =~= self.breaks@.take(i as int));
        }
        assert(r@ =~= self.breaks@);
        r
    }

    /// The text.
    pub fn text(&self) -> (r: &str)
        ensures
            r@ == self.spec_text(),
    {
        self.text.as_str()
    }

    /// The number of lines.
    pub fn lines_count(&self) -> (r: usize)
        ensures
            r == self.spec_breaks().len(),
    {
        self.breaks.len()
    }

    /// The lines joined with newlines.
    pub fn wrapped(&self) -> (r: String)
        requires
            self.wf(),
        ensures
            r@ == join_lines(lines_of(self.spec_text(), self.spec_breaks())),
    {
        let lines = self.lines();
        let ghost ls = lines_of(self.spec_text(), self.spec_breaks());
        let mut r = String::new();
        let mut i: usize = 0;
        while i < lines.len()
            invariant
                lines@.map_values(|s: &str| s@) == ls,
                i <= lines.len(),
                r@ == join_lines(ls.take(i as int)),
            decreases lines.len() - i,
        {
            proof {
                assert(ls.take(i + 1).drop_last() =~= ls.take(i as int));
                assert(ls[i as int] == lines@[i as int]@);
            }
            if i > 0 {
                r.append("\n");
                proof {
                    reveal_strlit("\n");
                }
            }
            r.append(lines[i]);
            proof {
                if i == 0 {
                    assert(r@ =~= ls.take(1)[0]);
                } else {
                    assert(r@ =~= join_lines(ls.take(i as int)) + seq!['\n'] + ls.take(i + 1).last());
                }
            }
            i = i + 1;
        }
        proof {
            assert(ls.take(lines.len() as int) =~= ls);
        }
        r
    }

    /// Recomputes the break list for the maximum line width `maxwidth` (no width
    /// limit at all where it is `None`) and the glyph widths of `font`.
    pub fn rewrap(&mut self, maxwidth: Option<u32>, font: &Font)
        ensures
            final(self).wf(),
            final(self).spec_text() == old(self).spec_text(),
            final(self).spec_breaks() == break_list(font@, maxwidth, old(self).spec_text()),
    {
        let ghost t = self.text@;
        let n = self.text.as_str().as_bytes().len();
        proof {
            lemma_encode_prefix_len(t, t.len() as int);
            assert(t.take(t.len() as int) =~= t);
        }
        self.breaks.clear();
        proof {
            font.lemma_width_bound();
        }
        let mut scrap: u64 = 0;
        let mut word: u64 = 0;
        let mut last_ws: Option<usize> = None;
        let mut idx: usize = 0;
        for ch in it: self.text.as_str().chars()
            invariant
                it.seq() == t,
                self.text@ == t,
                forall|c: char| #[trigger] font@.width(c) <= u32::MAX,
                n == encode_utf8(t).len(),
                idx as int == byte_offset(t, it.index()),
                ({
                    let st = wrap_prefix(font@, maxwidth, t.take(it.index()));
                    &&& scrap as int == st.scrap
                    &&& word as int == st.word
                    &&& breaks_view(self.breaks@) == st.breaks
                    &&& match last_ws {
                        Some(b) => st.last_ws == Some(b as int),
                        None => st.last_ws is None,
                    }
                }),
        {
            let ghost k = it.index();
            proof {
                lemma_wrap_inv(font@, maxwidth, t, k);
                lemma_encode_take_step(t, k);
                assert(t.take(k + 1).drop_last() =~= t.take(k));
                assert(t.take(k + 1).last() == t[k]);
            }
            let ghost prev = wrap_prefix(font@, maxwidth, t.take(k));
            let ch_len = utf8_len(ch);
            if ch == '\n' {
                scrap = 0;
                word = 0;
                last_ws = None;
                self.breaks.push(idx);
            } else {
                match maxwidth {
                    None => {},
                    Some(m) => {
                        if is_whitespace(ch) {
                            last_ws = Some(idx);
                            word = 0;
                        }
                        let g = font.glyph_width(ch) as u64;
                        if scrap + g > m as u64 {
                            match last_ws {
                                Some(b) => {
                                    word = word + g;
                                    self.breaks.push(b);
                                },
                                None => {
                                    word = g;
                                    self.breaks.push(idx);
                                },
                            }
                            scrap = word;
                            last_ws = None;
                        } else {
                            word = word + g;
                            scrap = scrap + g;
                        }
                    },
                }
            }
            proof {
                assert(breaks_view(self.breaks@) =~= wrap_prefix(font@, maxwidth, t.take(k + 1)).breaks);
            }
            idx = idx + ch_len;
        }
        proof {
            assert(t.take(t.len() as int) =~= t);
        }
        self.breaks.push(n);
        proof {
            assert(breaks_view(self.breaks@) =~= break_list(font@, maxwidth, t));
            lemma_breaks_valid(font, maxwidth, t);
        }
    }
}

} // verus!
