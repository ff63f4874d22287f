//! The calls that leave verified code.
//!
//! Nothing in this module is proved. Each function makes one call into
//! another crate and states what that crate's source or documentation says of
//! the result; the rest of the library is verified against these statements.

use crate::encoding::{base64_url, is_lower_hex};
use base64::Engine;
use md5::Digest;
use rand::seq::SliceRandom;
use vstd::prelude::*;

verus! {

/// The MD5 digest of a byte string.
pub uninterp spec fn md5_digest(data: Seq<u8>) -> Seq<u8>;

/// The shape of a random UUID written out: 36 characters, hyphens after the
/// 8th, 12th, 16th and 20th digit, lower-case hexadecimal digits elsewhere,
/// the version digit `4` and a variant digit among `8`, `9`, `a`, `b`.
pub open spec fn is_random_uuid_text(text: Seq<u8>) -> bool {
    &&& text.len() == 36
    &&& forall|i: int|
        0 <= i < 36 ==> if i == 8 || i == 13 || i == 18 || i == 23 {
            text[i] == 0x2d
        } else {
            is_lower_hex(#[trigger] text[i])
        }
    &&& text[14] == 0x34
    &&& (text[19] == 0x38 || text[19] == 0x39 || text[19] == 0x61 || text[19] == 0x62)
}

/// Calls `Md5::digest` of the `md-5` crate. Claims that the result is the
/// MD5 digest of `data`, a value that depends on `data` alone, and that it is
/// 16 bytes long.
#[verifier::external_body]
pub(crate) fn md5_of(data: &[u8]) -> (digest: Vec<u8>)
    ensures
        digest@ == md5_digest(data@),
        digest@.len() == 16,
{
    md5::Md5::digest(data).to_vec()
}

/// Calls `Engine::encode` of the `base64` crate on its `URL_SAFE` engine.
/// Claims that the result is the padded base64 text of `data` in the
/// URL-safe alphabet, as `base64_url` writes it out. The call panics when the
/// length of the text does not fit in `usize`, so such inputs are left out.
#[verifier::external_body]
pub(crate) fn base64_url_of(data: &[u8]) -> (text: Vec<u8>)
    requires
        base64_url(data@).len() <= usize::MAX,
    ensures
        text@ == base64_url(data@),
{
    base64::engine::general_purpose::URL_SAFE.encode(data).into_bytes()
}

/// Calls `SliceRandom::choose_multiple` of the `rand` crate, asking for as
/// many items as the slice holds, with the thread-local generator. Claims
/// what holds of every outcome: the result holds the items of the slice, each
/// as often as the slice does, in some order. For a slice longer than
/// `u32::MAX` the crate samples by rejection, which is not meant for taking
/// every item, so such slices are left out.
#[verifier::external_body]
pub(crate) fn in_random_order(items: &[usize]) -> (out: Vec<usize>)
    requires
        items@.len() <= u32::MAX,
    ensures
        out@.to_multiset() == items@.to_multiset(),
{
    let mut rng = rand::thread_rng();
    items.choose_multiple(&mut rng, items.len()).copied().collect()
}

/// Calls `Uuid::new_v4` of the `uuid` crate and writes the result out with
/// `to_string`. Claims what holds of every outcome: the text has the shape
/// of a random UUID in hyphenated lower-case form.
#[verifier::external_body]
pub(crate) fn random_uuid_text() -> (text: Vec<u8>)
    ensures
        is_random_uuid_text(text@),
{
    uuid::Uuid::new_v4().to_string().into_bytes()
}

} // verus!
