//! The compressors that point payloads go through.

use vstd::prelude::*;

verus! {

/// What `brotli::BrotliDecompress` makes of some bytes: what was compressed, or
/// what it has to say against them.
pub uninterp spec fn brotli_unpacked(bytes: Seq<u8>) -> Result<Seq<u8>, Seq<char>>;

/// `brotli::BrotliDecompress` on bytes in memory: the outcome depends on the
/// bytes alone. Which bytes are a stream is left to the crate.
#[verifier::external_body]
pub(crate) fn brotli_decompress(bytes: &[u8]) -> (r: Result<Vec<u8>, String>)
    ensures
        match r {
            Ok(out) => brotli_unpacked(bytes@) == Ok::<Seq<u8>, Seq<char>>(out@),
            Err(e) => brotli_unpacked(bytes@) == Err::<Seq<u8>, Seq<char>>(e@),
        },
{
    let mut out: Vec<u8> = Vec::new();
    let mut input = std::io::Cursor::new(bytes);
    brotli::BrotliDecompress(&mut input, &mut out).map_err(|e| e.to_string())?;
    Ok(out)
}

/// Bits of the window that payloads are compressed with: four megabytes.
pub const BROTLI_WINDOW: u32 = 22;

/// Whether a stream is one that `brotli::BrotliCompress` writes for some bytes, at
/// some quality and with a window of some bits.
pub uninterp spec fn brotli_wrote(
    bytes: Seq<u8>,
    quality: u32,
    window: u32,
    stream: Seq<u8>,
) -> bool;

/// Whether a stream is some bytes as they are compressed here, at some quality:
/// it is not empty, and it decompresses to them.
pub open spec fn packs(bytes: Seq<u8>, quality: u32, stream: Seq<u8>) -> bool {
    &&& stream.len() > 0
    &&& brotli_unpacked(stream) == Ok::<Seq<u8>, Seq<char>>(bytes)
    &&& brotli_wrote(bytes, quality, BROTLI_WINDOW, stream)
}

/// `brotli::BrotliCompress` on bytes in memory, at some quality and with a window
/// of some bits. Claims that it succeeds, and that what it wrote decompresses to
/// what it was given: its errors come from the reader, from the writer or from
/// misuse of the stream, and bytes in memory give none of these. What it wrote is
/// some bytes, even for none: the decompressor refuses an empty stream.
/// Which of the streams it writes for these bytes, this quality and this window is
/// not claimed: the encoder's cost estimates go through the machine's own
/// mathematical library.
#[verifier::external_body]
pub(crate) fn brotli_compress(bytes: &[u8], quality: u32, window: u32) -> (r: Result<
    Vec<u8>,
    String,
>)
    ensures
        match r {
            Ok(out) => {
                &&& out@.len() > 0
                &&& brotli_unpacked(out@) == Ok::<Seq<u8>, Seq<char>>(bytes@)
                &&& brotli_wrote(bytes@, quality, window, out@)
            },
            Err(_) => false,
        },
{
    let mut out: Vec<u8> = Vec::new();
    let mut input = std::io::Cursor::new(bytes);
    let params = brotli::enc::BrotliEncoderParams {
        quality: quality as i32,
        lgwin: window as i32,
        ..Default::default()
    };
    brotli::BrotliCompress(&mut input, &mut out, &params).map_err(|e| e.to_string())?;
    Ok(out)
}

} // verus!
