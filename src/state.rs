use crate::font::{Font, FontView};
use crate::layout::{
    display_groups, flow_line, flow_lines, flow_words, join_words, lay_out, lemma_display_lines_fit,
    split_lines, text_lines, words_of,
};
use crate::render::{blit_byte, block_pixels, composite, BlockView, Pixel, PIXEL_SIZE};
use crate::text::{chars_of, push_char};
use vstd::prelude::*;
use vstd::string::StringExecFns;

verus! {

/// The name of the normal mode.
pub const NORMAL_MODE: &'static str = "normal";

/// The name of the mode that types an address.
pub const INSERT_MODE: &'static str = "insert";

/// The name of the mode that numbers the links of the page.
pub const LINK_MODE: &'static str = "link";

/// The input mode of the browser.
#[derive(PartialEq, Eq, Structural, Clone, Copy, Debug)]
pub enum Mode {
    Normal,
    Insert,
    Link,
}

/// The name of a mode.
pub open spec fn mode_name(m: Mode) -> Seq<char> {
    match m {
        Mode::Normal => seq!['n', 'o', 'r', 'm', 'a', 'l'],
        Mode::Insert => seq!['i', 'n', 's', 'e', 'r', 't'],
        Mode::Link => seq!['l', 'i', 'n', 'k'],
    }
}

impl Mode {
    /// The mode's name, as the status line shows it.
    pub fn to_string(&self) -> (r: String)
        ensures
            r@ == mode_name(*self),
    {
        let name = match self {
            Mode::Normal => "normal",
            Mode::Insert => "insert",
            Mode::Link => "link",
        };
        proof {
            reveal_strlit("normal");
            reveal_strlit("insert");
            reveal_strlit("link");
        }
        let mut r = String::new();
        r.append(name);
        r
    }
}

/// The decimal digits of `n`.
pub open spec fn decimal(n: nat) -> Seq<char>
    decreases n,
{
    if n < 10 {
        seq![digit_char(n)]
    } else {
        decimal(n / 10).push(digit_char(n % 10))
    }
}

/// The digit character of `d`, for `d` below ten.
pub open spec fn digit_char(d: nat) -> char {
    (('0' as u32) + d) as char
}

/// The decimal digits of `n`.
pub fn decimal_string(n: usize) -> (r: String)
    ensures
        r@ == decimal(n as nat),
    decreases n,
{
    let d = (n % 10) as u32;
    let c = char_of_digit(d);
    if n < 10 {
        let mut r = String::new();
        push_char(&mut r, c);
        assert(r@ =~= decimal(n as nat));
        r
    } else {
        let mut r = decimal_string(n / 10);
        push_char(&mut r, c);
        r
    }
}

/// The digit character of `d`.
fn char_of_digit(d: u32) -> (c: char)
    requires
        d < 10,
    ensures
        c == digit_char(d as nat),
{
    let c = match d {
        0 => '0',
        1 => '1',
        2 => '2',
        3 => '3',
        4 => '4',
        5 => '5',
        6 => '6',
        7 => '7',
        8 => '8',
        _ => '9',
    };
    c
}

/// Whether two texts are equal.
pub fn text_eq(a: &str, b: &str) -> (r: bool)
    ensures
        r == (a@ == b@),
{
    let x = chars_of(a);
    let y = chars_of(b);
    if x.len() != y.len() {
        return false;
    }
    let mut i: usize = 0;
    while i < x.len()
        invariant
            x@ == a@,
            y@ == b@,
            x@.len() == y@.len(),
            i <= x@.len(),
            x@.take(i as int) == y@.take(i as int),
        decreases x@.len() - i,
    {
        if x[i] != y[i] {
            assert(x@[i as int] != y@[i as int]);
            return false;
        }
        i = i + 1;
        assert(x@.take(i as int) =~= y@.take(i as int));
    }
    assert(x@ =~= x@.take(i as int));
    assert(y@ =~= y@.take(i as int));
    true
}

/// A text to be drawn: its characters, whether its colours are swapped, and
/// the frame row of its top.
pub struct Placement {
    pub text: Seq<char>,
    pub inverted: bool,
    pub row: int,
}

/// Whether a line is a link line: one that starts with `=>`.
pub open spec fn is_link_line(line: Seq<char>) -> bool {
    line.len() >= 2 && line[0] == '=' && line[1] == '>'
}

/// The placements of the page lines from index `i` on: each non-empty line at
/// `row`, with its link number over it in link mode; an empty line only moves the
/// row on. Drawing stops once the next line would leave fewer than three line
/// heights above the bottom.
pub open spec fn plan_lines(
    fh: int,
    lines: Seq<Seq<char>>,
    link_mode: bool,
    wh: int,
    i: int,
    row: int,
    link: nat,
) -> Seq<Placement>
    decreases lines.len() - i,
{
    if i < 0 || i >= lines.len() {
        Seq::empty()
    } else {
        let line = lines[i];
        if line.len() == 0 {
            if row + fh + 3 * fh > wh {
                Seq::empty()
            } else {
                plan_lines(fh, lines, link_mode, wh, i + 1, row + fh, link)
            }
        } else {
            let base = seq![Placement { text: line, inverted: false, row }];
            let ps = if is_link_line(line) && link_mode {
                base.push(Placement { text: decimal(link), inverted: true, row })
            } else {
                base
            };
            let next_link = if is_link_line(line) {
                link + 1
            } else {
                link
            };
            if row + fh + 3 * fh > wh {
                ps
            } else {
                ps + plan_lines(fh, lines, link_mode, wh, i + 1, row + fh, next_link)
            }
        }
    }
}

/// The block that a placement draws under the colours `fg` and `bg`.
pub open spec fn placed(font: FontView, fg: Pixel, bg: Pixel, p: Placement) -> BlockView {
    let (f, b) = if p.inverted {
        (bg, fg)
    } else {
        (fg, bg)
    };
    BlockView {
        height: font.height,
        width: font.text_width(p.text),
        pixels: block_pixels(font, p.text, f, b, font.height),
    }
}

/// Whether a placement lies wholly inside a frame of `len` bytes, `fw` pixels
/// wide, that holds at least one row.
pub open spec fn fits(font: FontView, p: Placement, fw: int, len: int) -> bool {
    &&& fw * PIXEL_SIZE <= len
    &&& p.row >= 0
    &&& font.text_width(p.text) <= fw
    &&& (p.row + font.height) * fw * PIXEL_SIZE <= len
}

/// The frame after drawing each placement that fits, in order.
pub open spec fn paint(font: FontView, fg: Pixel, bg: Pixel, frame: Seq<u8>, fw: int, ps: Seq<Placement>) -> Seq<u8>
    decreases ps.len(),
{
    if ps.len() == 0 {
        frame
    } else {
        let f = paint(font, fg, bg, frame, fw, ps.drop_last());
        let p = ps.last();
        if fits(font, p, fw, f.len() as int) {
            Seq::new(f.len(), |i: int| blit_byte(f, placed(font, fg, bg, p), fw, p.row, i))
        } else {
            f
        }
    }
}

/// The browser's page state.
pub struct State {
    pub font: Font,
    pub foreground: Pixel,
    pub background: Pixel,
    pub page_address: String,
    pub page_content: String,
    pub window_width: u32,
    pub window_height: u32,
    pub content_lines: Vec<String>,
    pub starting_line: usize,
    pub mode: String,
}

/// The views of a list of strings.
pub open spec fn string_views(v: Seq<String>) -> Seq<Seq<char>> {
    v.map_values(|s: String| s@)
}

/// The placements of a plan as the exec values hold them.
pub open spec fn plan_view(v: Seq<(String, bool, usize)>) -> Seq<Placement> {
    v.map_values(|e: (String, bool, usize)| Placement { text: e.0@, inverted: e.1, row: e.2 as int })
}

/// Whether `row + k * fh` passes `wh`.
fn passes(row: usize, fh: usize, k: usize, wh: usize) -> (r: bool)
    ensures
        r == (row + fh * k > wh),
{
    match fh.checked_mul(k) {
        None => {
            assert(fh * k >= 0) by (nonlinear_arith);
            true
        },
        Some(m) => match row.checked_add(m) {
            None => true,
            Some(t) => t > wh,
        },
    }
}

/// Whether `line` starts with `=>`.
fn starts_with_arrow(line: &str) -> (r: bool)
    ensures
        r == is_link_line(line@),
{
    let cs = chars_of(line);
    cs.len() >= 2 && cs[0] == '=' && cs[1] == '>'
}

/// Whether `text` drawn at `row` lies wholly inside a frame of `flen` bytes,
/// `frame_width` pixels wide.
fn fits_frame(font: &Font, text: &str, row: usize, frame_width: usize, flen: usize) -> (ok: bool)
    ensures
        ok == fits(font@, Placement { text: text@, inverted: false, row: row as int }, frame_width as int, flen as int),
{
    let height = font.height();
    let w = font.text_width(text);
    let mut ok = false;
    if w <= frame_width {
        match frame_width.checked_mul(PIXEL_SIZE) {
            Some(stride) => {
                if stride <= flen {
                    match row.checked_add(height) {
                        Some(bottom) => match bottom.checked_mul(stride) {
                            Some(end) => {
                                ok = end <= flen;
                                proof {
                                    assert(bottom * stride == (row + height) * frame_width * PIXEL_SIZE) by (nonlinear_arith)
                                        requires
                                            stride == frame_width * PIXEL_SIZE,
                                            bottom == row + height,
                                    ;
                                }
                            },
                            None => {
                                proof {
                                    assert(bottom * stride == (row + height) * frame_width * PIXEL_SIZE) by (nonlinear_arith)
                                        requires
                                            stride == frame_width * PIXEL_SIZE,
                                            bottom == row + height,
                                    ;
                                }
                            },
                        },
                        None => {
                            ok = frame_width == 0;
                            proof {
                                if frame_width >= 1 {
                                    assert((row + height) * frame_width * PIXEL_SIZE >= row + height) by (nonlinear_arith)
                                        requires
                                            frame_width >= 1,
                                    ;
                                }
                            }
                        },
                    }
                }
            },
            None => {},
        }
    }
    proof {
        let tw = font@.text_width(text@);
        assert(w <= frame_width ==> tw <= frame_width || frame_width == usize::MAX);
        assert(ok ==> tw <= frame_width);
        assert(ok ==> frame_width * PIXEL_SIZE <= flen);
        assert(ok ==> (row + height) * frame_width * PIXEL_SIZE <= flen);
        assert(!ok ==> !(tw <= frame_width && frame_width * PIXEL_SIZE <= flen && (row + height) * frame_width * PIXEL_SIZE <= flen));
    }
    ok
}

/// Where every line starts at least three line heights above the bottom, all
/// placements of the page lines do.
pub proof fn lemma_plan_lines_rows(
    fh: int,
    lines: Seq<Seq<char>>,
    link_mode: bool,
    wh: int,
    i: int,
    row: int,
    link: nat,
)
    requires
        fh >= 0,
        row + 3 * fh <= wh,
    ensures
        forall|k: int|
            0 <= k < plan_lines(fh, lines, link_mode, wh, i, row, link).len() ==> (#[trigger] plan_lines(
                fh,
                lines,
                link_mode,
                wh,
                i,
                row,
                link,
            )[k]).row + 3 * fh <= wh,
    decreases lines.len() - i,
{
    let ps = plan_lines(fh, lines, link_mode, wh, i, row, link);
    if 0 <= i < lines.len() {
        let line = lines[i];
        let next_link = if is_link_line(line) {
            link + 1
        } else {
            link
        };
        if line.len() == 0 {
            if row + fh + 3 * fh <= wh {
                lemma_plan_lines_rows(fh, lines, link_mode, wh, i + 1, row + fh, link);
                assert(ps == plan_lines(fh, lines, link_mode, wh, i + 1, row + fh, link));
            } else {
                assert(ps.len() == 0);
            }
        } else {
            let base = seq![Placement { text: line, inverted: false, row }];
            let head = if is_link_line(line) && link_mode {
                base.push(Placement { text: decimal(link), inverted: true, row })
            } else {
                base
            };
            if row + fh + 3 * fh <= wh {
                lemma_plan_lines_rows(fh, lines, link_mode, wh, i + 1, row + fh, next_link);
                let rest = plan_lines(fh, lines, link_mode, wh, i + 1, row + fh, next_link);
                assert(ps == head + rest);
                assert forall|k: int| 0 <= k < ps.len() implies (#[trigger] ps[k]).row + 3 * fh <= wh by {
                    if k >= head.len() {
                        assert(ps[k] == rest[k - head.len()]);
                    } else {
                        assert(ps[k] == head[k]);
                    }
                }
            } else {
                assert(ps == head);
                assert forall|k: int| 0 <= k < ps.len() implies (#[trigger] ps[k]).row + 3 * fh <= wh by {
                    assert(ps[k] == head[k]);
                }
            }
        }
    } else {
        assert(ps.len() == 0);
    }
}

impl State {
    /// The placements of the page lines in the plan.
    pub open spec fn spec_body(&self) -> Seq<Placement> {
        let fh = self.font@.height as int;
        plan_lines(
            fh,
            string_views(self.content_lines@),
            self.mode@ == LINK_MODE@,
            self.window_height as int,
            self.starting_line as int,
            fh,
            0,
        )
    }

    /// Where the window is at least four line heights high, every page line is
    /// drawn wholly above the mode row.
    pub proof fn lemma_page_lines_above_mode_row(&self)
        requires
            self.window_height >= 4 * self.font@.height,
        ensures
            forall|k: int|
                0 <= k < self.spec_body().len() ==> (#[trigger] self.spec_body()[k]).row + self.font@.height
                    <= self.window_height - self.font@.height,
    {
        let fh = self.font@.height as int;
        lemma_plan_lines_rows(
            fh,
            string_views(self.content_lines@),
            self.mode@ == LINK_MODE@,
            self.window_height as int,
            self.starting_line as int,
            fh,
            0,
        );
    }

    /// What `draw` puts where: the address inverted at the top, the page lines
    /// from `starting_line` on below it, and the mode inverted on the bottom row.
    pub open spec fn spec_plan(&self) -> Seq<Placement> {
        let fh = self.font@.height as int;
        let wh = self.window_height as int;
        let top = seq![Placement { text: self.page_address@, inverted: true, row: 0 }];
        let body = self.spec_body();
        let bottom = if fh <= wh {
            seq![Placement { text: self.mode@, inverted: true, row: wh - fh }]
        } else {
            Seq::empty()
        };
        top + body + bottom
    }

    /// A state for the page `page_content` at `page_address`, in normal mode,
    /// scrolled to the top, with no display lines yet.
    pub fn new(
        font: Font,
        foreground: Pixel,
        background: Pixel,
        page_address: String,
        page_content: String,
        window_width: u32,
        window_height: u32,
    ) -> (r: Self)
        ensures
            r.font == font,
            r.foreground == foreground,
            r.background == background,
            r.page_address == page_address,
            r.page_content == page_content,
            r.window_width == window_width,
            r.window_height == window_height,
            r.content_lines@.len() == 0,
            r.starting_line == 0,
            r.mode@ == NORMAL_MODE@,
    {
        let mut mode = String::new();
        mode.append(NORMAL_MODE);
        State {
            font,
            foreground,
            background,
            page_address,
            page_content,
            window_width,
            window_height,
            content_lines: Vec::new(),
            starting_line: 0,
            mode,
        }
    }

    /// Re-flows the page into display lines no wider than the window: each line
    /// of the page is split into words, which fill lines greedily.
    pub fn prepare_lines(&mut self)
        ensures
            string_views(final(self).content_lines@) == lay_out(
                old(self).font@,
                old(self).window_width as int,
                old(self).page_content@,
            ),
            final(self).font == old(self).font,
            final(self).page_content == old(self).page_content,
            final(self).page_address == old(self).page_address,
            final(self).window_width == old(self).window_width,
            final(self).window_height == old(self).window_height,
            final(self).starting_line == old(self).starting_line,
            final(self).mode == old(self).mode,
            final(self).foreground == old(self).foreground,
            final(self).background == old(self).background,
            ({
                let gs = display_groups(old(self).font@, old(self).window_width as int, old(self).page_content@);
                let ls = string_views(final(self).content_lines@);
                let ww = old(self).window_width as int;
                &&& ls.len() == gs.len()
                &&& forall|i: int| 0 <= i < ls.len() ==> #[trigger] ls[i] == join_words(gs[i])
                &&& forall|i: int|
                    0 <= i < ls.len() && gs[i].len() >= 2 ==> old(self).font@.text_width(
                        #[trigger] ls[i] + seq![' '],
                    ) < ww
                &&& forall|i: int, j: int|
                    0 <= i < ls.len() && gs[i].len() >= 2 && 0 <= j < gs[i].len()
                        ==> old(self).font@.text_width(#[trigger] gs[i][j] + seq![' ']) < ww
            }),
    {
        proof {
            lemma_display_lines_fit(self.font@, self.window_width as int, self.page_content@);
        }
        let lines = split_lines(self.page_content.as_str());
        let ghost ls = text_lines(self.page_content@);
        let ghost ww = self.window_width as int;
        let mut out: Vec<String> = Vec::new();
        let mut i: usize = 0;
        while i < lines.len()
            invariant
                lines@.map_values(|l: Vec<char>| l@) == ls,
                ww == self.window_width as int,
                i <= lines@.len(),
                string_views(out@) == flow_lines(self.font@, ww, ls.take(i as int)),
            decreases lines@.len() - i,
        {
            let ghost before = string_views(out@);
            let words = words_of(&lines[i]);
            if words.len() == 0 {
                out.push(String::new());
            } else {
                flow_words(&self.font, self.window_width, &words, &mut out);
            }
            proof {
                assert(ls.take(i + 1).drop_last() =~= ls.take(i as int));
                assert(ls.take(i + 1).last() == lines@[i as int]@);
                assert(string_views(out@) =~= before + flow_line(self.font@, ww, lines@[i as int]@));
            }
            i = i + 1;
        }
        proof {
            assert(ls.take(i as int) =~= ls);
        }
        self.content_lines = out;
    }

    /// Takes the new window size.
    pub fn resize(&mut self, window_width: u32, window_height: u32)
        ensures
            final(self).window_width == window_width,
            final(self).window_height == window_height,
            final(self).font == old(self).font,
            final(self).foreground == old(self).foreground,
            final(self).background == old(self).background,
            final(self).page_address == old(self).page_address,
            final(self).page_content == old(self).page_content,
            final(self).content_lines == old(self).content_lines,
            final(self).starting_line == old(self).starting_line,
            final(self).mode == old(self).mode,
    {
        self.window_width = window_width;
        self.window_height = window_height;
    }

    /// Takes a new page and its address.
    pub fn update(&mut self, page_address: String, page_content: String)
        ensures
            final(self).page_address == page_address,
            final(self).page_content == page_content,
            final(self).font == old(self).font,
            final(self).foreground == old(self).foreground,
            final(self).background == old(self).background,
            final(self).window_width == old(self).window_width,
            final(self).window_height == old(self).window_height,
            final(self).content_lines == old(self).content_lines,
            final(self).starting_line == old(self).starting_line,
            final(self).mode == old(self).mode,
    {
        self.page_address = page_address;
        self.page_content = page_content;
    }

    /// Scrolls so that display line `starting_line` comes first.
    pub fn set_starting_line(&mut self, starting_line: usize)
        ensures
            final(self).starting_line == starting_line,
            final(self).font == old(self).font,
            final(self).foreground == old(self).foreground,
            final(self).background == old(self).background,
            final(self).page_address == old(self).page_address,
            final(self).page_content == old(self).page_content,
            final(self).window_width == old(self).window_width,
            final(self).window_height == old(self).window_height,
            final(self).content_lines == old(self).content_lines,
            final(self).mode == old(self).mode,
    {
        self.starting_line = starting_line;
    }

    /// Takes the name of the new mode.
    pub fn set_mode(&mut self, mode: String)
        ensures
            final(self).mode == mode,
            final(self).font == old(self).font,
            final(self).foreground == old(self).foreground,
            final(self).background == old(self).background,
            final(self).page_address == old(self).page_address,
            final(self).page_content == old(self).page_content,
            final(self).window_width == old(self).window_width,
            final(self).window_height == old(self).window_height,
            final(self).content_lines == old(self).content_lines,
            final(self).starting_line == old(self).starting_line,
    {
        self.mode = mode;
    }

    /// Takes the new page address.
    pub fn set_address(&mut self, address: String)
        ensures
            final(self).page_address == address,
            final(self).font == old(self).font,
            final(self).foreground == old(self).foreground,
            final(self).background == old(self).background,
            final(self).page_content == old(self).page_content,
            final(self).window_width == old(self).window_width,
            final(self).window_height == old(self).window_height,
            final(self).content_lines == old(self).content_lines,
            final(self).starting_line == old(self).starting_line,
            final(self).mode == old(self).mode,
    {
        self.page_address = address;
    }

    /// The pixel width of `s` in this state's font, saturating at `usize::MAX`.
    pub fn width(&self, s: &str) -> (r: usize)
        ensures
            r as nat == crate::font::min_nat(self.font@.text_width(s@), usize::MAX as nat),
    {
        self.font.text_width(s)
    }

    /// `s` composited in the state's own colours.
    pub fn draw_default(&self, s: &str) -> (r: crate::render::Block)
        requires
            self.font@.wf(),
            self.font@.text_width(s@) <= usize::MAX,
        ensures
            r.wf(),
            r@ == placed(self.font@, self.foreground, self.background, Placement { text: s@, inverted: false, row: 0 }),
    {
        composite(s, &self.font, self.foreground, self.background)
    }

    /// Draws the page into `frame`, a frame `frame_width` pixels wide: each
    /// placement of the plan that fits, in order, and nothing else.
    pub fn draw(&self, frame: &mut [u8], frame_width: usize)
        requires
            self.font@.wf(),
        ensures
            final(frame)@ == paint(
                self.font@,
                self.foreground,
                self.background,
                old(frame)@,
                frame_width as int,
                self.spec_plan(),
            ),
            self.window_height >= 4 * self.font@.height ==> forall|k: int|
                0 <= k < self.spec_body().len() ==> (#[trigger] self.spec_body()[k]).row + self.font@.height
                    <= self.window_height - self.font@.height,
    {
        let plan = self.plan();
        let ghost ps = plan_view(plan@);
        let ghost font = self.font@;
        let height = self.font.height();
        let flen = frame.len();
        let mut i: usize = 0;
        while i < plan.len()
            invariant
                ps == plan_view(plan@),
                font == self.font@,
                font.wf(),
                height == font.height,
                flen == old(frame)@.len(),
                i <= plan@.len(),
                frame@.len() == old(frame)@.len(),
                frame@ == paint(font, self.foreground, self.background, old(frame)@, frame_width as int, ps.take(i as int)),
            decreases plan@.len() - i,
        {
            let ghost prev = frame@;
            let ghost p = ps[i as int];
            proof {
                assert(ps.take(i + 1).drop_last() =~= ps.take(i as int));
                assert(ps.take(i + 1).last() == p);
            }
            let entry = &plan[i];
            let text = entry.0.as_str();
            let inverted = entry.1;
            let row = entry.2;
            let w = self.font.text_width(text);
            proof {
                assert(p.text == text@);
                assert(p.row == row as int);
                assert(p.inverted == inverted);
                assert(flen == prev.len());
            }
            let ok = fits_frame(&self.font, text, row, frame_width, flen);
            proof {
                assert(ok == fits(font, p, frame_width as int, prev.len() as int));
            }
            if ok {
                let block = if inverted {
                    composite(text, &self.font, self.background, self.foreground)
                } else {
                    composite(text, &self.font, self.foreground, self.background)
                };
                block.draw_onto_pixels(frame, frame_width, row);
                proof {
                    assert(frame@ =~= paint(font, self.foreground, self.background, old(frame)@, frame_width as int, ps.take(i + 1)));
                }
            }
            i = i + 1;
        }
        proof {
            assert(ps.take(i as int) =~= ps);
        }
    }

    /// The placements that `draw` paints, in order.
    pub fn plan(&self) -> (r: Vec<(String, bool, usize)>)
        ensures
            plan_view(r@) == self.spec_plan(),
            self.window_height >= 4 * self.font@.height ==> forall|k: int|
                0 <= k < self.spec_body().len() ==> (#[trigger] self.spec_body()[k]).row + self.font@.height
                    <= self.window_height - self.font@.height,
    {
        proof {
            if self.window_height >= 4 * self.font@.height {
                self.lemma_page_lines_above_mode_row();
            }
        }
        let fh = self.font.height();
        let wh = self.window_height as usize;
        let link_mode = text_eq(self.mode.as_str(), LINK_MODE);
        let ghost lines = string_views(self.content_lines@);
        let ghost top = seq![Placement { text: self.page_address@, inverted: true, row: 0 }];
        let ghost body = plan_lines(fh as int, lines, link_mode, wh as int, self.starting_line as int, fh as int, 0);
        let mut r: Vec<(String, bool, usize)> = Vec::new();
        r.push((self.page_address.clone(), true, 0));
        let mut i: usize = self.starting_line;
        let mut row: usize = fh;
        let mut link: usize = 0;
        let mut stopped = false;
        proof {
            assert(plan_view(r@) =~= top);
        }
        while i < self.content_lines.len() && !stopped
            invariant
                lines == string_views(self.content_lines@),
                fh == self.font@.height,
                wh == self.window_height,
                link_mode == (self.mode@ == LINK_MODE@),
                top == seq![Placement { text: self.page_address@, inverted: true, row: 0 }],
                body == plan_lines(fh as int, lines, link_mode, wh as int, self.starting_line as int, fh as int, 0),
                !stopped ==> link <= i,
                stopped ==> plan_view(r@) == top + body,
                !stopped ==> plan_view(r@) + plan_lines(fh as int, lines, link_mode, wh as int, i as int, row as int, link as nat) == top + body,
            decreases self.content_lines@.len() - i, if stopped { 0int } else { 1int },
        {
            let ghost before = plan_view(r@);
            let line = &self.content_lines[i];
            proof {
                assert(lines[i as int] == line@);
            }
            if line.as_str().is_empty() {
                let stop = passes(row, fh, 4, wh);
                proof {
                    assert(row + fh * 4 == row + fh + 3 * fh);
                }
                if stop {
                    proof {
                        assert(plan_view(r@) =~= top + body);
                    }
                    stopped = true;
                } else {
                    row = row + fh;
                    i = i + 1;
                }
            } else {
                let is_link = starts_with_arrow(line.as_str());
                r.push((line.clone(), false, row));
                if is_link && link_mode {
                    r.push((decimal_string(link), true, row));
                }
                if is_link {
                    link = link + 1;
                }
                let stop = passes(row, fh, 4, wh);
                proof {
                    assert(row + fh * 4 == row + fh + 3 * fh);
                    let ps = plan_view(r@).skip(before.len() as int);
                    assert(plan_view(r@) =~= before + ps);
                }
                if stop {
                    proof {
                        assert(plan_view(r@) =~= top + body);
                    }
                    stopped = true;
                } else {
                    row = row + fh;
                    i = i + 1;
                }
            }
        }
        proof {
            if !stopped {
                assert(plan_view(r@) =~= top + body);
            }
        }
        let ghost done = plan_view(r@);
        if fh <= wh {
            r.push((self.mode.clone(), true, wh - fh));
        }
        proof {
            assert(plan_view(r@) =~= top + body + (if fh <= wh {
                seq![Placement { text: self.mode@, inverted: true, row: wh - fh }]
            } else {
                Seq::empty()
            }));
        }
        r
    }
}

} // verus!
