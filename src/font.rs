use fleck::Font as FleckFont;
use vstd::prelude::*;

verus! {

/// The mathematical picture of one glyph: its advance width and its row-major
/// coverage mask.
pub struct GlyphView {
    pub width: nat,
    pub mask: Seq<bool>,
}

/// One glyph of a bitmap font: a pixel width and a row-major coverage mask of
/// `width * height` bits, where `height` is the font's line height.
pub struct Glyph {
    pub width: u32,
    pub mask: Vec<bool>,
}

impl View for Glyph {
    type V = GlyphView;

    open spec fn view(&self) -> GlyphView {
        GlyphView { width: self.width as nat, mask: self.mask@ }
    }
}

/// The mathematical picture of a font: a line height and, indexed by code point,
/// the glyph of each character that has one.
pub struct FontView {
    pub height: nat,
    pub table: Seq<Option<GlyphView>>,
}

impl FontView {
    /// The glyph of `c`, if the font has one.
    pub open spec fn glyph(self, c: char) -> Option<GlyphView> {
        if (c as u32 as int) < self.table.len() {
            self.table[c as u32 as int]
        } else {
            None
        }
    }

    /// The advance width of `c`: zero for a character without a glyph.
    pub open spec fn width(self, c: char) -> nat {
        match self.glyph(c) {
            Some(g) => g.width,
            None => 0,
        }
    }

    /// Every glyph's mask holds exactly `width * height` bits.
    pub open spec fn wf(self) -> bool {
        forall|i: int|
            0 <= i < self.table.len() && (#[trigger] self.table[i]) is Some ==> self.table[i]->0.mask.len()
                == self.table[i]->0.width * self.height
    }

    /// The summed advance width of a run of characters.
    pub open spec fn text_width(self, s: Seq<char>) -> nat
        decreases s.len(),
    {
        if s.len() == 0 {
            0
        } else {
            self.text_width(s.drop_last()) + self.width(s.last())
        }
    }
}

/// The smaller of `a` and `b`.
pub open spec fn min_nat(a: nat, b: nat) -> nat {
    if a <= b {
        a
    } else {
        b
    }
}

/// A bitmap font: a fixed line height and a lookup table from character to glyph.
pub struct Font {
    height: usize,
    table: Vec<Option<Glyph>>,
}

impl View for Font {
    type V = FontView;

    closed spec fn view(&self) -> FontView {
        FontView { height: self.height as nat, table: self.table@.map_values(|g: Option<Glyph>| opt_glyph_view(g)) }
    }
}

/// The view of an optional glyph.
pub open spec fn opt_glyph_view(g: Option<Glyph>) -> Option<GlyphView> {
    match g {
        Some(g) => Some(g@),
        None => None,
    }
}

/// Relies on fleck::Font::height: every fleck font is 16 pixels high.
#[verifier::external_body]
fn fleck_height(font: &FleckFont) -> (r: usize)
    ensures
        r == 16,
{
    font.height()
}

/// Relies on fleck::Font::glyph: every code point below 256 has a glyph whose
/// rows (16 of them) each give one coverage bit per column of its `u8` width.
#[verifier::external_body]
fn fleck_glyph(font: &FleckFont, code: u8) -> (r: Glyph)
    ensures
        r.width <= 255,
        r.mask@.len() == r.width * 16,
{
    match font.glyph(code as char) {
        Some(g) => Glyph { width: g.width as u32, mask: g.flatten().collect() },
        None => Glyph { width: 0, mask: Vec::new() },
    }
}

#[verifier::external_type_specification]
#[verifier::external_body]
pub struct ExFleckFont(FleckFont);

impl Font {
    /// A font of the given line height without any glyph.
    pub fn new(height: usize) -> (r: Font)
        ensures
            r@.wf(),
            r@.height == height,
            forall|c: char| #[trigger] r@.glyph(c) is None,
    {
        let r = Font { height, table: Vec::new() };
        assert(r@.table.len() == 0);
        r
    }

    /// Every stored glyph's mask holds `width * height` bits.
    closed spec fn inv(&self) -> bool {
        forall|i: int|
            0 <= i < self.table@.len() && (#[trigger] self.table@[i]) is Some
                ==> self.table@[i]->0.mask@.len() == self.table@[i]->0.width * self.height
    }

    proof fn lemma_inv_wf(&self)
        requires
            self.inv(),
        ensures
            self@.wf(),
            self@.table.len() == self.table@.len(),
            forall|i: int| 0 <= i < self.table@.len() ==> #[trigger] self@.table[i] == opt_glyph_view(self.table@[i]),
    {
        assert forall|i: int| 0 <= i < self@.table.len() && (#[trigger] self@.table[i]) is Some implies self@.table[i]->0.mask.len()
            == self@.table[i]->0.width * self@.height by {
            assert(self@.table[i] == opt_glyph_view(self.table@[i]));
        }
    }

    proof fn lemma_wf_inv(&self)
        requires
            self@.wf(),
        ensures
            self.inv(),
    {
        assert forall|i: int| 0 <= i < self.table@.len() && (#[trigger] self.table@[i]) is Some implies
            self.table@[i]->0.mask@.len() == self.table@[i]->0.width * self.height by {
            assert(self@.table[i] == opt_glyph_view(self.table@[i]));
        }
    }

    /// Gives `ch` the glyph `glyph`, replacing any glyph it had.
    pub fn set_glyph(&mut self, ch: char, glyph: Glyph)
        requires
            old(self)@.wf(),
            glyph.mask@.len() == glyph.width * old(self)@.height,
        ensures
            final(self)@.wf(),
            final(self)@.height == old(self)@.height,
            final(self)@.glyph(ch) == Some(glyph@),
            forall|c: char| c != ch ==> #[trigger] final(self)@.glyph(c) == old(self)@.glyph(c),
    {
        proof {
            self.lemma_wf_inv();
        }
        let code = ch as u32 as usize;
        let ghost old_table = self.table@;
        while self.table.len() <= code
            invariant
                self.height == old(self).height,
                self.inv(),
                old_table.len() <= self.table@.len(),
                forall|i: int| 0 <= i < old_table.len() ==> self.table@[i] == old_table[i],
                forall|i: int| old_table.len() <= i < self.table@.len() ==> self.table@[i] is None,
            decreases code + 1 - self.table.len(),
        {
            self.table.push(None);
        }
        self.table.set(code, Some(glyph));
        proof {
            self.lemma_inv_wf();
            old(self).lemma_wf_inv();
            old(self).lemma_inv_wf();
            assert forall|c: char| c != ch implies #[trigger] self@.glyph(c) == old(self)@.glyph(c) by {
                vstd::utf8::char_u32_cast(c, c as u32);
                vstd::utf8::char_u32_cast(ch, ch as u32);
                assert(c as u32 != ch as u32);
            }
        }
    }

    /// No glyph is wider than a `u32` can say.
    pub proof fn lemma_width_bound(&self)
        ensures
            forall|c: char| #[trigger] self@.width(c) <= u32::MAX,
    {
        assert forall|c: char| #[trigger] self@.width(c) <= u32::MAX by {
            let i = c as u32 as int;
            if i < self.table@.len() {
                assert(self@.table[i] == opt_glyph_view(self.table@[i]));
            }
        }
    }

    /// The line height shared by every glyph.
    pub fn height(&self) -> (r: usize)
        ensures
            r == self@.height,
    {
        self.height
    }

    /// The glyph of `ch`, if the font has one.
    pub fn glyph(&self, ch: char) -> (r: Option<&Glyph>)
        ensures
            match r {
                Some(g) => self@.glyph(ch) == Some(g@),
                None => self@.glyph(ch) is None,
            },
    {
        let code = ch as u32 as usize;
        if code < self.table.len() {
            match &self.table[code] {
                Some(g) => Some(g),
                None => None,
            }
        } else {
            None
        }
    }

    /// The advance width of `ch`: zero where the font has no glyph for it.
    pub fn glyph_width(&self, ch: char) -> (r: u32)
        ensures
            r as nat == self@.width(ch),
    {
        match self.glyph(ch) {
            Some(g) => g.width,
            None => 0,
        }
    }

    /// The summed advance width of the characters of `s`, saturating at `usize::MAX`.
    pub fn text_width(&self, s: &str) -> (r: usize)
        ensures
            r as nat == min_nat(self@.text_width(s@), usize::MAX as nat),
    {
        let mut total: usize = 0;
        let ghost chars = s@;
        for ch in it: s.chars()
            invariant
                it.seq() == chars,
                total as nat == min_nat(self@.text_width(chars.take(it.index())), usize::MAX as nat),
        {
            let ghost k = it.index();
            assert(chars.take(k + 1).drop_last() == chars.take(k));
            let w = self.glyph_width(ch) as usize;
            total = total.saturating_add(w);
        }
        assert(chars.take(chars.len() as int) == chars);
        total
    }

    /// Converts a fleck font into this crate's font: every code point below 256
    /// gets the glyph that fleck gives it, and no other character has one.
    pub fn from_fleck(font: &FleckFont) -> (r: Font)
        ensures
            r@.wf(),
            r@.height == 16,
            forall|c: char| #[trigger] r@.glyph(c) is Some <==> (c as u32) < 256,
    {
        let mut r = Font::new(fleck_height(font));
        let mut code: u32 = 0;
        while code < 256
            invariant
                r@.wf(),
                r@.height == 16,
                code <= 256,
                forall|c: char| #[trigger] r@.glyph(c) is Some <==> (c as u32) < code,
            decreases 256 - code,
        {
            let g = fleck_glyph(font, code as u8);
            let ch = code as u8 as char;
            assert(ch as u32 == code);
            r.set_glyph(ch, g);
            code = code + 1;
        }
        r
    }
}

} // verus!
