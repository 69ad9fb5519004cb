//! The zlib streams of flate2 that hold the compressed table.
use vstd::prelude::*;

use flate2::read::ZlibDecoder;

verus! {

#[verifier::external_type_specification]
#[verifier::external_body]
#[verifier::reject_recursive_types(R)]
pub struct ExZlibDecoder<R>(ZlibDecoder<R>);

/// The bytes that decompressing the zlib stream `data` yields, up to the end
/// of the stream or up to the first corrupt part of it.
pub uninterp spec fn inflated(data: Seq<u8>) -> Seq<u8>;

/// The decompressed bytes that a decoder has not handed out yet.
pub uninterp spec fn unread(d: ZlibDecoder<&'static [u8]>) -> Seq<u8>;

/// True when `data` is one complete, well-formed zlib stream.
pub uninterp spec fn is_zlib(data: Seq<u8>) -> bool;

/// True when a decoder reads a well-formed stream and no read of it has
/// failed: every byte of `unread` is still to be handed out.
pub uninterp spec fn intact(d: ZlibDecoder<&'static [u8]>) -> bool;

/// Relies on flate2's `ZlibDecoder::new`: a decoder over `data` that has not
/// read anything yet.
#[verifier::external_body]
pub(crate) fn open_decoder(data: &'static [u8]) -> (d: ZlibDecoder<&'static [u8]>)
    ensures
        unread(d) == inflated(data@),
        is_zlib(data@) ==> intact(d),
{
    ZlibDecoder::new(data)
}

/// Relies on `Read::read_exact` of flate2's `ZlibDecoder`: when it succeeds it
/// has handed out the next `n` decompressed bytes. It fails at the end of the
/// stream or on a corrupt stream; nothing is stated of the decoder then. On a
/// well-formed stream the decoder hands out every decompressed byte, so a
/// read fails there only for want of bytes.
#[verifier::external_body]
pub(crate) fn read_exactly(d: &mut ZlibDecoder<&'static [u8]>, n: usize) -> (r: Option<Vec<u8>>)
    ensures
        r matches Some(v) ==> {
            &&& n <= unread(*old(d)).len()
            &&& v@ == unread(*old(d)).take(n as int)
            &&& unread(*final(d)) == unread(*old(d)).skip(n as int)
        },
        intact(*old(d)) ==> (r is Some <==> n <= unread(*old(d)).len()),
        intact(*old(d)) && r is Some ==> intact(*final(d)),
{
    let mut buf = vec![0u8; n];
    match std::io::Read::read_exact(d, &mut buf) {
        Ok(()) => Some(buf),
        Err(_) => None,
    }
}

/// Relies on flate2's `ZlibEncoder` at `Compression::best()`, writing into a
/// `Vec`, which cannot fail: the stream it produces decompresses to `bytes`.
#[verifier::external_body]
pub(crate) fn compress_best(bytes: &[u8]) -> (r: Vec<u8>)
    ensures
        inflated(r@) == bytes@,
        is_zlib(r@),
{
    let mut e = flate2::write::ZlibEncoder::new(Vec::new(), flate2::Compression::best());
    std::io::Write::write_all(&mut e, bytes).expect("writing into a Vec does not fail");
    e.finish().expect("writing into a Vec does not fail")
}

} // verus!
