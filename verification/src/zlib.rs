use vstd::prelude::*;

verus! {

/// The zlib stream that compression produces for a given input. The
/// compressor is a pure function of its input bytes, so the result can be
/// named even though writing it out would take pages.
pub uninterp spec fn deflate_of(s: Seq<u8>) -> Seq<u8>;

/// What zlib decompression returns for a given stream: the recovered bytes,
/// or nothing when the stream is not a well-formed zlib stream.
pub uninterp spec fn inflate_of(s: Seq<u8>) -> Option<Seq<u8>>;

/// Relies on miniz_oxide::deflate::compress_to_vec_zlib: it produces a
/// zlib stream, and zlib compression is lossless, so decompressing the
/// result yields the input again.
#[verifier::external_body]
pub(crate) fn zlib_compress(data: &Vec<u8>) -> (r: Vec<u8>)
    ensures
        r@ == deflate_of(data@),
        inflate_of(r@) == Some(data@),
{
    miniz_oxide::deflate::compress_to_vec_zlib(data.as_slice(), 6)
}

/// Relies on miniz_oxide::inflate::decompress_to_vec_zlib: it recovers the
/// bytes a zlib stream encodes, and fails exactly on streams that are not
/// well-formed zlib.
#[verifier::external_body]
pub(crate) fn zlib_decompress(data: &Vec<u8>) -> (r: Option<Vec<u8>>)
    ensures
        match r {
            Some(v) => inflate_of(data@) == Some(v@),
            None => inflate_of(data@) is None,
        },
{
    match miniz_oxide::inflate::decompress_to_vec_zlib(data.as_slice()) {
        Ok(v) => Some(v),
        Err(_) => None,
    }
}

} // verus!
