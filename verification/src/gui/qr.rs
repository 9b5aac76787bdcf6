//! The QR code of an invitation.

use vstd::prelude::*;
use vstd::utf8::encode_utf8;

verus! {

/// The modules of the QR code that the `qr_code` crate makes of bytes: the
/// number of modules on each side, and row by row whether each is dark.
pub uninterp spec fn qr_modules(data: Seq<u8>) -> Option<(usize, Seq<bool>)>;

/// `qr_code::QrCode::new`, `width` and `to_vec`: the smallest code of medium
/// error correction, `None` where the data is too long for one. There are as
/// many modules as a square of that width has.
#[verifier::external_body]
fn qr_encode(data: &[u8]) -> (r: Option<(usize, Vec<bool>)>)
    ensures
        r is Some <==> qr_modules(data@) is Some,
        r matches Some(q) ==> qr_modules(data@) == Some((q.0, q.1@)),
        r matches Some(q) ==> q.1@.len() == q.0 * q.0,
{
    let qr = qr_code::QrCode::new(data).ok()?;
    Some((qr.width(), qr.to_vec()))
}

/// The QR code of a text: its width, and row by row whether each module is
/// dark. An empty text has none.
pub fn qr_cells(text: &str) -> (r: Option<(usize, Vec<bool>)>)
    ensures
        text@.len() == 0 ==> r is None,
        text@.len() > 0 ==> (r is Some <==> qr_modules(encode_utf8(text@)) is Some),
        r matches Some(q) ==> qr_modules(encode_utf8(text@)) == Some((q.0, q.1@)) && q.1@.len()
            == q.0 * q.0,
{
    if text.is_empty() {
        return None;
    }
    qr_encode(text.as_bytes())
}

/// Where a module stands: its column and its row.
pub fn cell_at(width: usize, i: usize) -> (r: (usize, usize))
    requires
        0 < width,
    ensures
        r.0 < width,
        i == r.1 * width + r.0,
{
    proof {
        vstd::arithmetic::div_mod::lemma_fundamental_div_mod(i as int, width as int);
        vstd::arithmetic::mul::lemma_mul_is_commutative(width as int, i as int / width as int);
    }
    (i % width, i / width)
}

} // verus!
