//! Pure helpers behind the native menu bar: icon validation, "select all"
//! and "copy" over byte selections.
use vstd::prelude::*;
use crate::offsets::{byte_len, ceil_char, chars_and_len, lemma_ceil_char, lemma_off_end, lemma_off_mono, sel_chars, snap_selection};
use crate::text::{slice_of, string_of};

verus! {

/// RGBA bytes whose dimensions are safe to hand to a native menu backend.
#[derive(Debug, Clone, PartialEq, Eq)]
pub struct MenuIconRgba {
    rgba: Vec<u8>,
    width: u32,
    height: u32,
}

impl MenuIconRgba {
    /// The pixel bytes.
    pub closed spec fn pixels(&self) -> Seq<u8> {
        self.rgba@
    }

    /// The width in pixels.
    pub closed spec fn spec_width(&self) -> u32 {
        self.width
    }

    /// The height in pixels.
    pub closed spec fn spec_height(&self) -> u32 {
        self.height
    }
}

/// An icon of `width` x `height` pixels with `len` RGBA bytes is usable: no
/// zero dimension, and exactly four bytes per pixel (a size that fits in
/// `usize`).
pub open spec fn icon_ok(len: nat, width: u32, height: u32) -> bool {
    &&& width > 0
    &&& height > 0
    &&& width * height * 4 <= usize::MAX
    &&& len == width * height * 4
}

/// Rejects zero-area or malformed images before a platform encoder sees them.
pub fn validated_menu_icon_rgba(rgba: Vec<u8>, width: u32, height: u32) -> (r: Option<MenuIconRgba>)
    ensures
        r is Some <==> icon_ok(rgba@.len(), width, height),
        r matches Some(icon) ==> icon.pixels() == rgba@ && icon.spec_width() == width
            && icon.spec_height() == height,
{
    if width == 0 || height == 0 {
        return None;
    }
    let w = width as usize;
    let h = height as usize;
    let wh = match w.checked_mul(h) {
        Some(v) => v,
        None => {
            proof {
                assert(width * height * 4 > usize::MAX) by (nonlinear_arith)
                    requires
                        width * height > usize::MAX,
                        width > 0,
                        height > 0,
                ;
            }
            return None;
        },
    };
    let expected = match wh.checked_mul(4) {
        Some(v) => v,
        None => return None,
    };
    if rgba.len() != expected {
        return None;
    }
    Some(MenuIconRgba { rgba, width, height })
}

/// The byte range covering the whole note (used by "Selecionar tudo").
pub fn select_all_range(len: usize) -> (r: (usize, usize))
    ensures
        r == (0usize, len),
{
    (0, len)
}

/// Char-boundary-safe substring extraction for "Copiar": the selection is
/// clamped to the text, put in order, and each end snapped forward to the
/// next character boundary, so a selection ending mid-character never panics.
pub fn copy_slice(content: &str, sel: (usize, usize)) -> (r: String)
    ensures
        r@ == content@.subrange(
            sel_chars(content@, sel.0 as int, sel.1 as int).0,
            sel_chars(content@, sel.0 as int, sel.1 as int).1,
        ),
{
    let (cs, len) = chars_and_len(content);
    let (ca, cb, _a, _b) = snap_selection(cs.as_slice(), len, sel.0, sel.1);
    let part = slice_of(cs.as_slice(), ca, cb);
    string_of(part.as_slice())
}

/// Copying the "select all" range gives the whole note back: the byte range
/// `(0, len)` covers every character.
pub proof fn law_select_all_copies_everything(cs: Seq<char>)
    ensures
        sel_chars(cs, 0, byte_len(cs) as int) == (0int, cs.len() as int),
{
    lemma_off_end(cs);
    let l = byte_len(cs) as int;
    lemma_ceil_char(cs, l);
    let c = ceil_char(cs, l);
    if c < cs.len() {
        lemma_off_mono(cs, c, cs.len() as int);
    }
}

/// The order of a selection's ends does not matter to what is copied.
pub proof fn law_copy_ignores_selection_order(cs: Seq<char>, s0: int, s1: int)
    ensures
        sel_chars(cs, s0, s1) == sel_chars(cs, s1, s0),
{
}

} // verus!
