use vstd::prelude::*;

use crate::errors::RepoError;

verus! {

/// What zlib decompression yields on a byte string: the decoded bytes, or
/// nothing where the bytes are not a valid zlib stream. The outcome is a
/// function of the input bytes alone.
pub uninterp spec fn inflate_of(data: Seq<u8>) -> Option<Seq<u8>>;

/// Relies on flate2::write::ZlibEncoder: compression into a `Vec` cannot
/// fail — the encoder's write and finish paths error only through the
/// underlying writer, and a `Vec`'s writer never does — and zlib
/// decompression of the produced stream restores exactly the input.
#[verifier::external_body]
pub fn compress(contents: &Vec<u8>) -> (r: Vec<u8>)
    ensures
        inflate_of(r@) == Some(contents@),
{
    let mut encoder = flate2::write::ZlibEncoder::new(
        Vec::new(),
        flate2::Compression::default(),
    );
    std::io::Write::write_all(&mut encoder, contents.as_slice())
        .expect("writing into a Vec cannot fail");
    encoder.finish().expect("finishing into a Vec cannot fail")
}

/// Relies on flate2::read::ZlibDecoder: decoding is determined by the input
/// bytes, and an invalid stream reports an error instead of data.
#[verifier::external_body]
pub fn decompress(compressed: &Vec<u8>) -> (r: Result<Vec<u8>, RepoError>)
    ensures
        match r {
            Ok(d) => inflate_of(compressed@) == Some(d@),
            Err(e) => e == RepoError::InvalidObjectFormat && inflate_of(compressed@) is None,
        },
{
    let mut decoder = flate2::read::ZlibDecoder::new(compressed.as_slice());
    let mut out = Vec::new();
    match std::io::Read::read_to_end(&mut decoder, &mut out) {
        Ok(_) => Ok(out),
        Err(_) => Err(RepoError::InvalidObjectFormat),
    }
}

} // verus!
