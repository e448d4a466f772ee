//! The pixel buffer, `tiny_skia::Pixmap`, and what is taken from its methods.

use tiny_skia::Pixmap;
use vstd::prelude::*;

verus! {

/// The pixel buffer of the `tiny_skia` crate.
#[verifier::external_type_specification]
#[verifier::external_body]
pub struct ExPixmap(Pixmap);

/// The bytes that a pixmap holds: its pixels row by row, four bytes each, and
/// what may follow them.
pub uninterp spec fn pixmap_bytes(pixmap: Pixmap) -> Seq<u8>;

/// The number of columns of a pixmap.
pub uninterp spec fn pixmap_width(pixmap: Pixmap) -> nat;

/// The number of rows of a pixmap.
pub uninterp spec fn pixmap_height(pixmap: Pixmap) -> nat;

/// `Pixmap::width` gives the number of columns, which is never zero.
pub assume_specification[ Pixmap::width ](pixmap: &Pixmap) -> (r: u32)
    ensures
        r == pixmap_width(*pixmap),
        r > 0,
;

/// `Pixmap::height` gives the number of rows, which is never zero.
pub assume_specification[ Pixmap::height ](pixmap: &Pixmap) -> (r: u32)
    ensures
        r == pixmap_height(*pixmap),
        r > 0,
;

/// `Pixmap::data` gives the bytes, four for each pixel. A pixmap that was made
/// from a longer buffer holds more.
pub assume_specification[ Pixmap::data ](pixmap: &Pixmap) -> (r: &[u8])
    ensures
        r@ == pixmap_bytes(*pixmap),
        r@.len() >= pixmap_width(*pixmap) * pixmap_height(*pixmap) * 4,
;

/// `Pixmap::data_mut` gives the bytes to write to. What is written there is
/// what the pixmap then holds; its size stays.
pub assume_specification[ Pixmap::data_mut ](pixmap: &mut Pixmap) -> (r: &mut [u8])
    ensures
        r@ == pixmap_bytes(*old(pixmap)),
        r@.len() >= pixmap_width(*old(pixmap)) * pixmap_height(*old(pixmap)) * 4,
        pixmap_bytes(*final(pixmap)) == final(r)@,
        pixmap_width(*final(pixmap)) == pixmap_width(*old(pixmap)),
        pixmap_height(*final(pixmap)) == pixmap_height(*old(pixmap)),
;

} // verus!
