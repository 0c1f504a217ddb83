//! The notices of the third-party software in the app, kept compressed in
//! the executable and restored when a person asks to read them.
use vstd::prelude::*;
use crate::message::message;

verus! {

/// The largest text the notices may restore to.
pub const NOTICES_LIMIT: usize = 16 * 1024 * 1024;

/// What `miniz_oxide` restores from zlib data, when the result is no longer
/// than `limit` bytes; `None` when the data is not zlib or restores to more.
pub uninterp spec fn zlib_restored(data: Seq<u8>, limit: usize) -> Option<Seq<u8>>;

pub open spec fn bytes_view(r: Option<Vec<u8>>) -> Option<Seq<u8>> {
    match r {
        Some(v) => Some(v@),
        None => None,
    }
}

/// `miniz_oxide::inflate::decompress_to_vec_zlib_with_limit`: the restored
/// bytes, which its buffer never lets grow past the limit, or `None` on any
/// error it reports.
#[verifier::external_body]
fn restore_zlib(data: &[u8], limit: usize) -> (r: Option<Vec<u8>>)
    ensures
        bytes_view(r) == zlib_restored(data@, limit),
        r matches Some(v) ==> v@.len() <= limit,
{
    miniz_oxide::inflate::decompress_to_vec_zlib_with_limit(data, limit).ok()
}

/// The notices from what was restored: the text, or the message that it is
/// not available.
pub fn notices_from(restored: Option<Vec<u8>>) -> (r: Result<Vec<u8>, String>)
    ensures
        match restored {
            Some(v) => r matches Ok(t) && t@ == v@,
            None => r matches Err(e) && e@ == "LICENSE_TEXT_UNAVAILABLE"@,
        },
{
    match restored {
        Some(v) => Ok(v),
        None => Err(message("LICENSE_TEXT_UNAVAILABLE")),
    }
}

/// The notices, restored from the compressed bytes the executable carries.
pub fn text(compressed: &[u8]) -> (r: Result<Vec<u8>, String>)
    ensures
        match zlib_restored(compressed@, NOTICES_LIMIT) {
            Some(v) => r matches Ok(t) && t@ == v,
            None => r matches Err(e) && e@ == "LICENSE_TEXT_UNAVAILABLE"@,
        },
{
    notices_from(restore_zlib(compressed, NOTICES_LIMIT))
}

} // verus!
