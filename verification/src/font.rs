//! Where a character's glyph sits in the ProFont glyph sheets.
use vstd::prelude::*;

verus! {

/// Glyphs per row of a ProFont glyph sheet.
pub const GLYPHS_PER_ROW: usize = 32;

/// The index of the glyph of `c` in the ProFont faces: the characters from `' '`
/// to `'~'` come first, then those from U+00A0 to U+00FF; any other character
/// is drawn with the glyph of `'?'`.
pub open spec fn profont_glyph_index(c: char) -> int {
    let v = c as int;
    if 0x20 <= v <= 0x7e {
        v - 0x20
    } else if 0xa0 <= v <= 0xff {
        v - 0xa0 + 95
    } else {
        0x3f - 0x20
    }
}

/// Calls `GlyphMapping::index` of `profont::PROFONT_18_POINT`'s glyph mapping.
/// The contract claims what the mapping's source shows: a `StrGlyphMapping` over
/// the ranges `' '..='~'` and `'\u{A0}'..='ÿ'`, numbered in that order, with the
/// index of `'?'` for every character outside them.
#[verifier::external_body]
pub(crate) fn profont_18_glyph_index(c: char) -> (res: usize)
    ensures
        res == profont_glyph_index(c),
{
    profont::PROFONT_18_POINT.glyph_mapping.index(c)
}

/// Row and column of glyph number `charindex` in a glyph sheet.
pub fn glyph_cell(charindex: usize) -> (res: (usize, usize))
    ensures
        res.0 == charindex / GLYPHS_PER_ROW,
        res.1 == charindex % GLYPHS_PER_ROW,
{
    (charindex / GLYPHS_PER_ROW, charindex % GLYPHS_PER_ROW)
}

/// Row and column of the glyph of `c` in the 18 point ProFont glyph sheet.
pub fn char_cell(c: char) -> (res: (usize, usize))
    ensures
        res.0 == profont_glyph_index(c) / 32,
        res.1 == profont_glyph_index(c) % 32,
{
    let charindex: usize = profont_18_glyph_index(c);
    glyph_cell(charindex)
}

/// The characters the ProFont faces have glyphs for: `' '` to `'~'` and U+00A0 to U+00FF.
pub open spec fn in_profont(c: char) -> bool {
    (0x20 <= c as int && c as int <= 0x7e) || (0xa0 <= c as int && c as int <= 0xff)
}

/// Glyphs follow the order of their characters: of two characters of the font,
/// the later one has the later glyph, and all 191 glyphs are numbered from 0.
pub proof fn lemma_glyph_order(c1: char, c2: char)
    requires
        in_profont(c1),
        in_profont(c2),
        (c1 as int) < (c2 as int),
    ensures
        0 <= profont_glyph_index(c1) < profont_glyph_index(c2) < 191,
{
}

/// The first glyph is `' '`, `'~'` is followed directly by U+00A0, and every
/// character outside the font is drawn with the glyph of `'?'`.
pub proof fn lemma_glyph_ends(c: char)
    ensures
        profont_glyph_index(' ') == 0,
        profont_glyph_index('~') + 1 == profont_glyph_index('\u{a0}'),
        profont_glyph_index('\u{ff}') == 190,
        !in_profont(c) ==> profont_glyph_index(c) == profont_glyph_index('?'),
{
}

/// Different characters of the font sit in different cells of the glyph sheet.
pub proof fn lemma_char_cells_distinct(c1: char, c2: char)
    requires
        in_profont(c1),
        in_profont(c2),
        c1 != c2,
    ensures
        (profont_glyph_index(c1) / 32, profont_glyph_index(c1) % 32)
            != (profont_glyph_index(c2) / 32, profont_glyph_index(c2) % 32),
{
    let i1 = profont_glyph_index(c1);
    let i2 = profont_glyph_index(c2);
    if (c1 as int) < (c2 as int) {
        lemma_glyph_order(c1, c2);
    } else {
        assert((c1 as int) != (c2 as int));
        lemma_glyph_order(c2, c1);
    }
    vstd::arithmetic::div_mod::lemma_fundamental_div_mod(i1, 32);
    vstd::arithmetic::div_mod::lemma_fundamental_div_mod(i2, 32);
}

} // verus!
