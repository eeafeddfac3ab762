//! Gzip frames, through async-compression driven to completion in memory.
use vstd::prelude::*;
use tokio::io::{AsyncReadExt, AsyncWriteExt};

verus! {

/// The gzip stream that async-compression's encoder writes for `data`, or
/// nothing where the encoder reports an error.
pub uninterp spec fn gzip_of(data: Seq<u8>) -> Option<Seq<u8>>;

/// What async-compression's decoder reads out of `data`: the decompressed
/// bytes, or nothing where `data` is not a gzip stream.
pub uninterp spec fn gunzip_of(data: Seq<u8>) -> Option<Seq<u8>>;

/// Relies on `async_compression::tokio::write::GzipEncoder`: writing `data`
/// into an encoder over a `Vec` and shutting it down leaves the gzip stream in
/// the `Vec`; `None` stands for an error that it reports.
#[verifier::external_body]
pub(crate) fn gzip_compress(data: &[u8]) -> (r: Option<Vec<u8>>)
    ensures
        r is Some <==> gzip_of(data@) is Some,
        r matches Some(v) ==> gzip_of(data@) == Some(v@),
{
    let mut enc = async_compression::tokio::write::GzipEncoder::new(Vec::new());
    let wrote = futures::executor::block_on(enc.write_all(data));
    let shut = futures::executor::block_on(enc.shutdown());
    wrote.and(shut).ok().map(|_| enc.into_inner())
}

/// Relies on `async_compression::tokio::bufread::GzipDecoder`: reading it to
/// the end yields the decompressed bytes, or an error on a malformed stream;
/// a stream that the matching `GzipEncoder` wrote decompresses to the bytes
/// it was given.
#[verifier::external_body]
pub(crate) fn gzip_decompress(data: &[u8]) -> (r: Option<Vec<u8>>)
    ensures
        r is Some <==> gunzip_of(data@) is Some,
        r matches Some(v) ==> gunzip_of(data@) == Some(v@),
        r is Some || !exists|d: Seq<u8>| #[trigger] gzip_of(d) == Some(data@),
        r matches Some(v) ==> forall|d: Seq<u8>| #[trigger] gzip_of(d) == Some(data@) ==> v@ == d,
{
    let mut dec = async_compression::tokio::bufread::GzipDecoder::new(data);
    let mut out = Vec::new();
    let done = futures::executor::block_on(dec.read_to_end(&mut out));
    done.ok().map(|_| out)
}

} // verus!
