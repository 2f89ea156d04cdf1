use crate::font::{Font, FontView};
use vstd::prelude::*;

verus! {

/// The number of bytes of one pixel.
pub const PIXEL_SIZE: usize = 4;

/// One pixel: four colour bytes.
pub type Pixel = [u8; PIXEL_SIZE];

/// One row of the glyph of `c`: `fg` where its mask is set, `bg` elsewhere;
/// nothing for a character without a glyph.
pub open spec fn glyph_row(font: FontView, c: char, fg: Pixel, bg: Pixel, y: int) -> Seq<Pixel> {
    match font.glyph(c) {
        Some(g) => Seq::new(
            g.width,
            |x: int|
                if g.mask[y * g.width + x] {
                    fg
                } else {
                    bg
                },
        ),
        None => Seq::empty(),
    }
}

/// Row `y` of a composited line: the glyph rows of its characters side by side.
pub open spec fn row_pixels(font: FontView, s: Seq<char>, fg: Pixel, bg: Pixel, y: int) -> Seq<Pixel>
    decreases s.len(),
{
    if s.len() == 0 {
        Seq::empty()
    } else {
        row_pixels(font, s.drop_last(), fg, bg, y) + glyph_row(font, s.last(), fg, bg, y)
    }
}

/// The first `h` rows of a composited line, row after row.
pub open spec fn block_pixels(font: FontView, s: Seq<char>, fg: Pixel, bg: Pixel, h: nat) -> Seq<Pixel>
    decreases h,
{
    if h == 0 {
        Seq::empty()
    } else {
        block_pixels(font, s, fg, bg, (h - 1) as nat) + row_pixels(font, s, fg, bg, h - 1)
    }
}

/// The mathematical picture of a block: its size and its pixels, row-major.
pub struct BlockView {
    pub height: nat,
    pub width: nat,
    pub pixels: Seq<Pixel>,
}

/// A rectangle of pixels, row-major.
pub struct Block {
    height: usize,
    width: usize,
    pixels: Vec<Pixel>,
}

impl View for Block {
    type V = BlockView;

    closed spec fn view(&self) -> BlockView {
        BlockView { height: self.height as nat, width: self.width as nat, pixels: self.pixels@ }
    }
}

/// The frame byte at `i` after `block` was copied in at row `start` of a frame
/// `fw` pixels wide whose bytes were `old`.
pub open spec fn blit_byte(old: Seq<u8>, block: BlockView, fw: int, start: int, i: int) -> u8 {
    let stride = fw * PIXEL_SIZE;
    let row = i / stride;
    let col = i % stride;
    if fw > 0 && start <= row < start + block.height && col < block.width * PIXEL_SIZE {
        block.pixels[(row - start) * block.width + col / PIXEL_SIZE as int][col % PIXEL_SIZE as int]
    } else {
        old[i]
    }
}

/// After a blit, the frame rows from `start` on read back exactly the block's
/// rows: byte `c` of pixel `x` in block row `y` sits at frame row `start + y`,
/// column `x`.
pub proof fn lemma_blit_reads_back(old: Seq<u8>, block: BlockView, fw: int, start: int, y: int, x: int, c: int)
    requires
        0 <= start,
        block.width <= fw,
        0 <= y < block.height,
        0 <= x < block.width,
        0 <= c < PIXEL_SIZE,
    ensures
        blit_byte(old, block, fw, start, ((start + y) * fw + x) * PIXEL_SIZE + c) == block.pixels[y * block.width
            + x][c],
{
    let stride = fw * PIXEL_SIZE;
    let i = ((start + y) * fw + x) * PIXEL_SIZE + c;
    let col = x * PIXEL_SIZE + c;
    assert(i == (start + y) * stride + col) by (nonlinear_arith)
        requires
            i == ((start + y) * fw + x) * PIXEL_SIZE + c,
            stride == fw * PIXEL_SIZE,
            col == x * PIXEL_SIZE + c,
    ;
    assert(col < stride) by (nonlinear_arith)
        requires
            x < fw,
            c < PIXEL_SIZE,
            col == x * PIXEL_SIZE + c,
            stride == fw * PIXEL_SIZE,
    ;
    vstd::arithmetic::div_mod::lemma_fundamental_div_mod_converse(i, stride, start + y, col);
    vstd::arithmetic::div_mod::lemma_fundamental_div_mod_converse(col, PIXEL_SIZE as int, x, c);
    assert(col < block.width * PIXEL_SIZE) by (nonlinear_arith)
        requires
            x < block.width,
            c < PIXEL_SIZE,
            col == x * PIXEL_SIZE + c,
    ;
}

/// Each row of a composited line holds as many pixels as the summed widths of
/// the characters' glyphs, a character without a glyph counting zero.
pub proof fn lemma_row_len(font: FontView, s: Seq<char>, fg: Pixel, bg: Pixel, y: int)
    ensures
        row_pixels(font, s, fg, bg, y).len() == font.text_width(s),
    decreases s.len(),
{
    if s.len() > 0 {
        lemma_row_len(font, s.drop_last(), fg, bg, y);
    }
}

/// A composited line holds its height times its text width in pixels.
pub proof fn lemma_block_len(font: FontView, s: Seq<char>, fg: Pixel, bg: Pixel, h: nat)
    ensures
        block_pixels(font, s, fg, bg, h).len() == h * font.text_width(s),
    decreases h,
{
    if h == 0 {
        assert(h * font.text_width(s) == 0);
    } else {
        let w = font.text_width(s);
        let hp = (h - 1) as nat;
        lemma_block_len(font, s, fg, bg, hp);
        lemma_row_len(font, s, fg, bg, h - 1);
        assert(block_pixels(font, s, fg, bg, h) == block_pixels(font, s, fg, bg, hp) + row_pixels(
            font,
            s,
            fg,
            bg,
            h - 1,
        ));
        assert(h * w == hp * w + w) by (nonlinear_arith)
            requires
                hp == h - 1,
        ;
    }
}

/// The pixel at column `x` of row `y` of a composited line is the one that the
/// row's glyphs put there.
pub proof fn lemma_block_pixel(font: FontView, s: Seq<char>, fg: Pixel, bg: Pixel, h: nat, y: int, x: int)
    requires
        0 <= y < h,
        0 <= x < font.text_width(s),
    ensures
        block_pixels(font, s, fg, bg, h)[y * font.text_width(s) + x] == row_pixels(font, s, fg, bg, y)[x],
    decreases h,
{
    let w = font.text_width(s);
    let hp = (h - 1) as nat;
    lemma_block_len(font, s, fg, bg, hp);
    lemma_row_len(font, s, fg, bg, h - 1);
    let whole = block_pixels(font, s, fg, bg, h);
    assert(whole == block_pixels(font, s, fg, bg, hp) + row_pixels(font, s, fg, bg, h - 1));
    if y < h - 1 {
        lemma_block_pixel(font, s, fg, bg, hp, y, x);
        assert(y * w + x < hp * w) by (nonlinear_arith)
            requires
                y < hp,
                x < w,
        ;
    } else {
        assert(y * w == hp * w);
    }
}

/// Composites one line of text: each character's glyph in turn, `fg` where its
/// mask is set and `bg` elsewhere; characters without a glyph take no columns.
pub fn composite(line: &str, font: &Font, fg: Pixel, bg: Pixel) -> (r: Block)
    requires
        font@.wf(),
        font@.text_width(line@) <= usize::MAX,
    ensures
        r.wf(),
        r@.height == font@.height,
        r@.width == font@.text_width(line@),
        r@.pixels == block_pixels(font@, line@, fg, bg, font@.height),
{
    let height = font.height();
    let width = font.text_width(line);
    let ghost s = line@;
    let mut pixels: Vec<Pixel> = Vec::new();
    let mut y: usize = 0;
    while y < height
        invariant
            line@ == s,
            font@.wf(),
            height == font@.height,
            y <= height,
            pixels@ == block_pixels(font@, s, fg, bg, y as nat),
        decreases height - y,
    {
        let ghost before = pixels@;
        for ch in it: line.chars()
            invariant
                it.seq() == s,
                font@.wf(),
                height == font@.height,
                y < height,
                pixels@ == before + row_pixels(font@, s.take(it.index()), fg, bg, y as int),
        {
            let ghost k = it.index();
            proof {
                assert(s.take(k + 1).drop_last() =~= s.take(k));
                assert(s.take(k + 1).last() == ch);
            }
            let ghost mid = pixels@;
            match font.glyph(ch) {
                Some(g) => {
                    let gw = g.width as usize;
                    let ml = g.mask.len();
                    let mut xg: usize = 0;
                    while xg < gw
                        invariant
                            gw == g.width,
                            g.mask@.len() == gw * height,
                            ml == g.mask@.len(),
                            y < height,
                            xg <= gw,
                            pixels@ == mid + glyph_row(font@, ch, fg, bg, y as int).take(xg as int),
                            font@.glyph(ch) == Some(g@),
                        decreases gw - xg,
                    {
                        proof {
                            assert(y * gw + xg < gw * height) by (nonlinear_arith)
                                requires
                                    y < height,
                                    xg < gw,
                            ;
                        }
                        let on = g.mask[y * gw + xg];
                        pixels.push(if on { fg } else { bg });
                        proof {
                            assert(glyph_row(font@, ch, fg, bg, y as int).take(xg + 1) =~= glyph_row(
                                font@,
                                ch,
                                fg,
                                bg,
                                y as int,
                            ).take(xg as int).push(if on { fg } else { bg }));
                        }
                        xg = xg + 1;
                    }
                    proof {
                        assert(glyph_row(font@, ch, fg, bg, y as int).take(gw as int) =~= glyph_row(
                            font@,
                            ch,
                            fg,
                            bg,
                            y as int,
                        ));
                    }
                },
                None => {
                    assert(glyph_row(font@, ch, fg, bg, y as int) =~= Seq::<Pixel>::empty());
                },
            }
            proof {
                assert(pixels@ =~= before + row_pixels(font@, s.take(k + 1), fg, bg, y as int));
            }
        }
        proof {
            assert(s.take(s.len() as int) =~= s);
        }
        y = y + 1;
    }
    proof {
        lemma_block_len(font@, s, fg, bg, height as nat);
    }
    Block { height, width, pixels }
}

impl Block {
    /// The pixel count matches the size.
    pub open spec fn wf(&self) -> bool {
        self@.pixels.len() == self@.height * self@.width
    }

    /// The width in pixels.
    pub fn width(&self) -> (r: usize)
        ensures
            r == self@.width,
    {
        self.width
    }

    /// The height in pixels.
    pub fn height(&self) -> (r: usize)
        ensures
            r == self@.height,
    {
        self.height
    }

    /// The rows, top to bottom; `None` for a block without columns.
    pub fn rows(&self) -> (r: Option<Vec<&[Pixel]>>)
        requires
            self.wf(),
        ensures
            self@.width == 0 <==> r is None,
            r matches Some(rows) ==> rows@.len() == self@.height && forall|y: int|
                0 <= y < self@.height ==> (#[trigger] rows@[y])@ == self@.pixels.subrange(
                    y * self@.width,
                    (y + 1) * self@.width,
                ),
    {
        if self.width == 0 {
            return None;
        }
        let all = self.pixels.as_slice();
        let total = all.len();
        let mut rows: Vec<&[Pixel]> = Vec::new();
        let mut y: usize = 0;
        while y < self.height
            invariant
                self.wf(),
                all@ == self.pixels@,
                total == all@.len(),
                y <= self.height,
                rows@.len() == y,
                forall|j: int|
                    0 <= j < y ==> (#[trigger] rows@[j])@ == self@.pixels.subrange(
                        j * self@.width,
                        (j + 1) * self@.width,
                    ),
            decreases self.height - y,
        {
            proof {
                assert((y + 1) * self.width <= self.height * self.width) by (nonlinear_arith)
                    requires
                        y < self.height,
                ;
                assert((y + 1) * self.width == y * self.width + self.width) by (nonlinear_arith);
            }
            let start = y * self.width;
            rows.push(&all[start..start + self.width]);
            y = y + 1;
        }
        Some(rows)
    }

    /// Copies the block into `frame`, a frame `frame_width` pixels wide, with its
    /// top row at row `start_y` and its left column at column 0. Every other byte
    /// of the frame keeps its value.
    pub fn draw_onto_pixels(self, frame: &mut [u8], frame_width: usize, start_y: usize)
        requires
            self.wf(),
            self@.width <= frame_width,
            (start_y + self@.height) * frame_width * PIXEL_SIZE <= old(frame)@.len(),
        ensures
            final(frame)@.len() == old(frame)@.len(),
            forall|i: int|
                0 <= i < old(frame)@.len() ==> #[trigger] final(frame)@[i] == blit_byte(
                    old(frame)@,
                    self@,
                    frame_width as int,
                    start_y as int,
                    i,
                ),
    {
        let ghost old_frame = frame@;
        let ghost b = self@;
        let ghost fw = frame_width as int;
        let ghost stride = fw * PIXEL_SIZE;
        let w = self.width;
        let h = self.height;
        let flen = frame.len();
        let total = self.pixels.len();
        if w == 0 {
            return;
        }
        proof {
            assert(start_y + h <= (start_y + h) * frame_width * PIXEL_SIZE) by (nonlinear_arith)
                requires
                    frame_width >= 1,
            ;
        }
        let mut y: usize = 0;
        while y < h
            invariant
                self.wf(),
                b == self@,
                w == b.width,
                h == b.height,
                w <= frame_width,
                stride == frame_width * PIXEL_SIZE,
                (start_y + h) * frame_width * PIXEL_SIZE <= old_frame.len(),
                flen == old_frame.len(),
                total == b.pixels.len(),
                w >= 1,
                fw == frame_width,
                start_y + h <= flen,
                stride > 0,
                y <= h,
                frame@.len() == old_frame.len(),
                forall|i: int|
                    0 <= i < old_frame.len() ==> #[trigger] frame@[i] == (if start_y <= i / stride < start_y + y
                        && i % stride < w * PIXEL_SIZE {
                        blit_byte(old_frame, b, fw, start_y as int, i)
                    } else {
                        old_frame[i]
                    }),
            decreases h - y,
        {
            proof {
                assert((start_y + y + 1) * frame_width * PIXEL_SIZE <= (start_y + h) * frame_width
                    * PIXEL_SIZE) by (nonlinear_arith)
                    requires
                        y < h,
                ;
                assert((start_y + y + 1) * frame_width * PIXEL_SIZE == (start_y + y) * frame_width
                    * PIXEL_SIZE + frame_width * PIXEL_SIZE) by (nonlinear_arith);
                assert(y * w + w <= h * w) by (nonlinear_arith)
                    requires
                        y < h,
                ;
                assert((start_y + y) * frame_width * PIXEL_SIZE == (start_y + y) * stride) by (nonlinear_arith)
                    requires
                        stride == frame_width * PIXEL_SIZE,
                ;
                assert((start_y + y) * frame_width <= (start_y + y) * frame_width * PIXEL_SIZE) by (nonlinear_arith);
                assert(w * PIXEL_SIZE <= frame_width * PIXEL_SIZE) by (nonlinear_arith)
                    requires
                        w <= frame_width,
                ;
            }
            let base = (start_y + y) * frame_width * PIXEL_SIZE;
            let row_start = y * w;
            let mut j: usize = 0;
            while j < w * PIXEL_SIZE
                invariant
                    self.wf(),
                    b == self@,
                    w == b.width,
                    h == b.height,
                    w <= frame_width,
                    stride == frame_width * PIXEL_SIZE,
                    y < h,
                    row_start == y * w,
                    row_start + w <= h * w,
                    base == (start_y + y) * stride,
                    base + stride <= old_frame.len(),
                    flen == old_frame.len(),
                    total == b.pixels.len(),
                    w * PIXEL_SIZE <= stride,
                    stride > 0,
                    w >= 1,
                    fw == frame_width,
                    j <= w * PIXEL_SIZE,
                    frame@.len() == old_frame.len(),
                    forall|i: int|
                        0 <= i < old_frame.len() ==> #[trigger] frame@[i] == (if (start_y <= i / stride
                            < start_y + y && i % stride < w * PIXEL_SIZE) || (i / stride == start_y + y
                            && i % stride < j) {
                            blit_byte(old_frame, b, fw, start_y as int, i)
                        } else {
                            old_frame[i]
                        }),
                decreases w * PIXEL_SIZE - j,
            {
                let idx = base + j;
                proof {
                    vstd::arithmetic::div_mod::lemma_fundamental_div_mod_converse(
                        idx as int,
                        stride,
                        start_y + y,
                        j as int,
                    );
                    assert(j / PIXEL_SIZE < w) by (nonlinear_arith)
                        requires
                            j < w * PIXEL_SIZE,
                    ;
                }
                let ghost prev = frame@;
                let v = self.pixels[row_start + j / PIXEL_SIZE][j % PIXEL_SIZE];
                frame[idx] = v;
                proof {
                    assert forall|i: int| 0 <= i < old_frame.len() implies #[trigger] frame@[i] == (if (
                    start_y <= i / stride < start_y + y && i % stride < w * PIXEL_SIZE) || (i / stride
                        == start_y + y && i % stride < j + 1) {
                        blit_byte(old_frame, b, fw, start_y as int, i)
                    } else {
                        old_frame[i]
                    }) by {
                        if i != idx {
                            vstd::arithmetic::div_mod::lemma_fundamental_div_mod(i, stride);
                            assert(stride * (start_y + y) == (start_y + y) * stride) by (nonlinear_arith);
                            assert(frame@[i] == prev[i]);
                        } else {
                            assert(i / stride == start_y + y);
                            assert(i % stride == j);
                            assert((i / stride - start_y) * w + (i % stride) / PIXEL_SIZE as int == row_start as int + (j
                                / PIXEL_SIZE) as int);
                            assert(frame@[i] == v);
                        }
                    }
                }
                j = j + 1;
            }
            y = y + 1;
        }
        proof {
            assert forall|i: int| 0 <= i < old_frame.len() implies #[trigger] frame@[i] == blit_byte(
                old_frame,
                b,
                fw,
                start_y as int,
                i,
            ) by {
                assert(frame@[i] == (if start_y <= i / stride < start_y + h && i % stride < w * PIXEL_SIZE {
                    blit_byte(old_frame, b, fw, start_y as int, i)
                } else {
                    old_frame[i]
                }));
            }
        }
    }
}

} // verus!
