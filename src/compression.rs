//! The zlib layer around the record stream, provided by `yazi`.
use vstd::prelude::*;

verus! {

/// The zlib stream that `yazi::compress` makes of `b` at its fastest level.
pub uninterp spec fn zlib_compressed(b: Seq<u8>) -> Seq<u8>;

/// What `yazi::decompress` gives back for the zlib stream `b`, or `None`
/// where `b` is not a valid one.
pub uninterp spec fn zlib_decompressed(b: Seq<u8>) -> Option<Seq<u8>>;

/// Relies on `yazi::compress` with `Format::Zlib` and
/// `CompressionLevel::BestSpeed`: its output depends on the input alone, and
/// it does not fail when it writes into a `Vec`, whose sink always accepts.
#[verifier::external_body]
pub(crate) fn compress_fast(data: &[u8]) -> (r: Option<Vec<u8>>)
    ensures
        r is Some,
        r matches Some(c) ==> c@ == zlib_compressed(data@),
{
    yazi::compress(data, yazi::Format::Zlib, yazi::CompressionLevel::BestSpeed).ok()
}

/// Relies on `yazi::decompress` with `Format::Zlib`: its output depends on
/// the input alone, and a stream that `yazi::compress` made decompresses to
/// the bytes it was made from. A failure of the call comes back as `None`.
#[verifier::external_body]
pub(crate) fn decompress_zlib(data: &[u8]) -> (r: Option<Vec<u8>>)
    ensures
        r matches Some(d) ==> zlib_decompressed(data@) == Some(d@),
        r is None ==> zlib_decompressed(data@) is None,
        (exists|x: Seq<u8>| #[trigger] zlib_compressed(x) == data@) ==> r is Some,
        r matches Some(d) ==> forall|x: Seq<u8>| #[trigger] zlib_compressed(x) == data@ ==> d@ == x,
{
    match yazi::decompress(data, yazi::Format::Zlib) {
        Ok((d, _)) => Some(d),
        Err(_) => None,
    }
}

} // verus!
