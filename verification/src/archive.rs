//! Unpacking a zstd archive held in memory.

use vstd::prelude::*;

verus! {

/// The largest back-reference distance accepted, as a power of two: archives
/// written with a long window must still unpack.
pub const WINDOW_LOG_MAX: u32 = 31;

/// What the zstd decoder makes of `archive` when it accepts windows of up to
/// `2^window_log` bytes: the unpacked bytes, or `None` where the bytes are no
/// valid archive for that limit.
pub uninterp spec fn zstd_decoded(archive: Seq<u8>, window_log: u32) -> Option<Seq<u8>>;

/// The archive is not a valid zstd stream.
#[derive(Debug)]
pub struct FormatError {}

/// An unpacked archive and its size in bytes.
#[derive(Debug)]
pub struct Extracted {
    pub data: Vec<u8>,
    pub size: u64,
}

/// Runs a `zstd::Decoder` over `archive`, with `window_log_max` set to
/// `window_log`, and copies all it yields with `std::io::copy`. Any error on
/// the way becomes `None`. The contract claims that the outcome is the one
/// named `zstd_decoded` for these bytes and this limit.
#[verifier::external_body]
fn decode(archive: &[u8], window_log: u32) -> (r: Option<Vec<u8>>)
    ensures
        match r {
            Some(data) => zstd_decoded(archive@, window_log) == Some(data@),
            None => zstd_decoded(archive@, window_log) is None,
        },
{
    let mut decoder = match zstd::Decoder::new(archive) {
        Ok(decoder) => decoder,
        Err(_) => return None,
    };
    if decoder.window_log_max(window_log).is_err() {
        return None;
    }
    let mut data: Vec<u8> = Vec::new();
    match std::io::copy(&mut decoder, &mut data) {
        Ok(_) => Some(data),
        Err(_) => None,
    }
}

/// Unpacks `archive` and reports the size of what came out.
pub fn extract_archive(archive: &[u8]) -> (r: Result<Extracted, FormatError>)
    ensures
        match r {
            Ok(extracted) => zstd_decoded(archive@, WINDOW_LOG_MAX) == Some(extracted.data@)
                && extracted.size == extracted.data@.len(),
            Err(_) => zstd_decoded(archive@, WINDOW_LOG_MAX) is None,
        },
{
    match decode(archive, WINDOW_LOG_MAX) {
        Some(data) => {
            let size: u64 = data.len() as u64;
            Ok(Extracted { data, size })
        },
        None => Err(FormatError {  }),
    }
}

} // verus!
