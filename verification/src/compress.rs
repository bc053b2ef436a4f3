//! Compression of one file's content (raw Deflate). Each file is compressed on
//! its own before it goes into the archive.

use crate::bytes::push_all;
use crate::error::{IoError, IoErrorKind};
use flate2::read::DeflateDecoder;
use std::io::{Read, Write};
use vstd::prelude::*;
use vstd::slice::slice_subrange;

verus! {

/// Size of the blocks in which decompressed data is read.
pub const READ_BLOCK_SIZE: usize = 64 * 1024;

/// What Deflate (default level) makes of `data`, if it succeeds.
pub uninterp spec fn deflate(data: Seq<u8>) -> Option<Seq<u8>>;

/// What a decoder gives out of `data` when it is read in blocks of
/// [`READ_BLOCK_SIZE`] until it stops: the bytes that come out, and whether it
/// stopped because the stream ended (`None`) or because it cannot be decoded
/// any further.
pub uninterp spec fn inflate(data: Seq<u8>) -> (Seq<u8>, Option<IoErrorKind>);

#[verifier::external_type_specification]
#[verifier::external_body]
#[verifier::reject_recursive_types(R)]
pub struct ExDeflateDecoder<R>(DeflateDecoder<R>);

/// What a decoder still holds: the bytes that reading it in blocks of
/// [`READ_BLOCK_SIZE`] still gives, and how it stops after them.
pub uninterp spec fn pending(decoder: DeflateDecoder<&[u8]>) -> (Seq<u8>, Option<IoErrorKind>);

/// `flate2::write::DeflateEncoder` into a `Vec`: `write_all`, then `finish`. The
/// outcome is determined by the data, and what it makes decodes to the data
/// again, up to the end of the stream. Nothing is said of the message of a
/// failure.
#[verifier::external_body]
fn deflate_all(data: &[u8]) -> (result: Result<Vec<u8>, IoError>)
    ensures
        match result {
            Ok(compressed) => {
                &&& deflate(data@) == Some(compressed@)
                &&& inflate(compressed@) == (data@, None::<IoErrorKind>)
            },
            Err(error) => deflate(data@) is None && error.kind == IoErrorKind::Other,
        },
{
    let mut encoder = flate2::write::DeflateEncoder::new(Vec::new(), flate2::Compression::default());
    match encoder.write_all(data) {
        Ok(()) => {},
        Err(e) => return Err(IoError { kind: IoErrorKind::Other, message: e.to_string() }),
    }
    match encoder.finish() {
        Ok(compressed) => Ok(compressed),
        Err(e) => Err(IoError { kind: IoErrorKind::Other, message: e.to_string() }),
    }
}

/// `flate2::read::DeflateDecoder::new`: a decoder that holds what `data` decodes
/// to.
#[verifier::external_body]
fn decoder_of(data: &[u8]) -> (decoder: DeflateDecoder<&[u8]>)
    ensures
        pending(decoder) == inflate(data@),
{
    DeflateDecoder::new(data)
}

/// `flate2::read::DeflateDecoder::read` into a buffer of [`READ_BLOCK_SIZE`]
/// bytes: takes the next bytes out of the decoder. Zero bytes mean that the
/// stream has ended. A stream that stops short is an `UnexpectedEof`, one that
/// cannot be decoded an `InvalidInput`; nothing is said of the message.
#[verifier::external_body]
fn read_block(decoder: &mut DeflateDecoder<&[u8]>, block: &mut [u8; READ_BLOCK_SIZE]) -> (result:
    Result<usize, IoError>)
    ensures
        match result {
            Ok(n) => {
                let (bytes, stop) = pending(*old(decoder));
                &&& n <= READ_BLOCK_SIZE
                &&& n <= bytes.len()
                &&& final(block)@.take(n as int) == bytes.take(n as int)
                &&& pending(*final(decoder)) == (bytes.skip(n as int), stop)
                &&& n == 0 ==> bytes.len() == 0 && stop is None
            },
            Err(error) => {
                let (bytes, stop) = pending(*old(decoder));
                &&& bytes.len() == 0
                &&& stop == Some(error.kind)
                &&& error.kind == IoErrorKind::UnexpectedEof || error.kind
                    == IoErrorKind::InvalidInput
            },
        },
{
    let error = match decoder.read(block) {
        Ok(n) => return Ok(n),
        Err(e) => e,
    };
    let kind = match error.kind() {
        std::io::ErrorKind::UnexpectedEof => IoErrorKind::UnexpectedEof,
        std::io::ErrorKind::InvalidInput => IoErrorKind::InvalidInput,
        _ => IoErrorKind::Other,
    };
    Err(IoError { kind, message: error.to_string() })
}

/// Compresses `data`. What comes out decompresses to `data` again.
pub fn compress_bytes(data: &[u8]) -> (result: Result<Vec<u8>, IoError>)
    ensures
        match result {
            Ok(compressed) => {
                &&& deflate(data@) == Some(compressed@)
                &&& inflate(compressed@) == (data@, None::<IoErrorKind>)
            },
            Err(error) => deflate(data@) is None && error.kind == IoErrorKind::Other,
        },
{
    deflate_all(data)
}

/// What decompressing `data` to at most `max_len` bytes gives: the bytes, or the
/// nature of the failure. Output that would be too long is an `OutOfMemory`,
/// whatever comes after the limit.
pub open spec fn inflate_capped(data: Seq<u8>, max_len: nat) -> Result<Seq<u8>, IoErrorKind> {
    let (bytes, stop) = inflate(data);
    if bytes.len() > max_len {
        Err(IoErrorKind::OutOfMemory)
    } else {
        match stop {
            None => Ok(bytes),
            Some(kind) => Err(kind),
        }
    }
}

/// Decompression undoes compression, provided that the limit leaves room for
/// the data.
pub proof fn law_inflate_of_deflate(data: Seq<u8>, compressed: Seq<u8>, max_len: nat)
    requires
        inflate(compressed) == (data, None::<IoErrorKind>),
    ensures
        inflate_capped(compressed, max_len) == (if data.len() <= max_len {
            Ok::<Seq<u8>, IoErrorKind>(data)
        } else {
            Err::<Seq<u8>, IoErrorKind>(IoErrorKind::OutOfMemory)
        }),
{
}

/// Decompresses `data`, without a limit on what comes out: for trusted data
/// only. Use [`decompress_bytes_capped`] on anything else.
pub fn decompress_bytes(data: &[u8]) -> (result: Result<Vec<u8>, IoError>)
    ensures
        match result {
            Ok(out) => inflate_capped(data@, usize::MAX as nat) == Ok::<Seq<u8>, IoErrorKind>(
                out@,
            ),
            Err(error) => inflate_capped(data@, usize::MAX as nat) == Err::<Seq<u8>, IoErrorKind>(
                error.kind,
            ),
        },
{
    decompress_bytes_capped(data, usize::MAX)
}

/// Decompresses `data`, and fails as soon as more than `max_len` bytes would
/// come out, without ever holding more than that: a small input cannot expand
/// beyond the limit. Going over the limit is told apart (`OutOfMemory`) from a
/// stream that cannot be decoded.
pub fn decompress_bytes_capped(data: &[u8], max_len: usize) -> (result: Result<Vec<u8>, IoError>)
    ensures
        match result {
            Ok(out) => inflate_capped(data@, max_len as nat) == Ok::<Seq<u8>, IoErrorKind>(out@)
                && out@.len() <= max_len,
            Err(error) => {
                &&& inflate_capped(data@, max_len as nat) == Err::<Seq<u8>, IoErrorKind>(
                    error.kind,
                )
                &&& error.kind == IoErrorKind::OutOfMemory <==> inflate(data@).0.len() > max_len
                &&& error.kind == IoErrorKind::OutOfMemory ==> error.message@
                    == "sortie décompressée dépasse la limite autorisée (décompression bombe suspectée)"@
            },
        },
{
    let mut decoder = decoder_of(data);
    let mut out: Vec<u8> = Vec::new();
    let mut block: [u8; READ_BLOCK_SIZE] = [0u8; READ_BLOCK_SIZE];
    let ghost bytes = inflate(data@).0;
    let ghost stop = inflate(data@).1;
    proof {
        assert(out@ + bytes =~= bytes);
    }
    loop
        invariant
            out@.len() <= max_len,
            bytes == inflate(data@).0,
            stop == inflate(data@).1,
            out@ + pending(decoder).0 == bytes,
            pending(decoder).1 == stop,
        decreases pending(decoder).0.len(),
    {
        let ghost before = pending(decoder).0;
        match read_block(&mut decoder, &mut block) {
            Ok(n) => {
                if n == 0 {
                    proof {
                        assert(out@ + before =~= out@);
                    }
                    return Ok(out);
                }
                if n > max_len - out.len() {
                    return Err(
                        IoError::new(
                            IoErrorKind::OutOfMemory,
                            "sortie décompressée dépasse la limite autorisée (décompression bombe suspectée)",
                        ),
                    );
                }
                let ghost sofar = out@;
                let piece = slice_subrange(&block, 0, n);
                push_all(&mut out, piece);
                proof {
                    assert(piece@ =~= before.take(n as int));
                    assert(out@ + before.skip(n as int) =~= sofar + before);
                }
            },
            Err(error) => {
                proof {
                    assert(out@ + before =~= out@);
                }
                return Err(error);
            },
        }
    }
}

/// What decompression under a limit comes to: too much output is an `OutOfMemory`,
/// whatever follows; otherwise a stream that ends gives all that comes out of it, and
/// one that cannot be decoded its failure.
pub proof fn law_decompression_under_a_limit(data: Seq<u8>, max_len: nat)
    ensures
        inflate(data).0.len() > max_len ==> inflate_capped(data, max_len) == Err::<
            Seq<u8>,
            IoErrorKind,
        >(IoErrorKind::OutOfMemory),
        inflate(data).0.len() <= max_len && inflate(data).1 is None ==> inflate_capped(
            data,
            max_len,
        ) == Ok::<Seq<u8>, IoErrorKind>(inflate(data).0),
        inflate(data).0.len() <= max_len && inflate(data).1 is Some ==> inflate_capped(
            data,
            max_len,
        ) == Err::<Seq<u8>, IoErrorKind>(inflate(data).1->Some_0),
{
}

} // verus!
