//! The digests that name chunks (SHA-256 from `rust-crypto`) and the
//! compression of stored chunks (`zstd`).

use vstd::prelude::*;
use crypto::digest::Digest;
use crypto::sha2::Sha256;

verus! {

/// The 32-byte SHA-256 digest of `data`.
pub uninterp spec fn sha256_digest(data: Seq<u8>) -> [u8; 32];

/// The lower-case hexadecimal digits, by value.
pub open spec fn hex_digits() -> Seq<char> {
    seq!['0', '1', '2', '3', '4', '5', '6', '7', '8', '9', 'a', 'b', 'c', 'd', 'e', 'f']
}

/// Lower-case hexadecimal text of `bytes`: two digits per byte, high nibble first.
pub open spec fn lower_hex(bytes: Seq<u8>) -> Seq<char> {
    Seq::new(
        2 * bytes.len(),
        |i: int|
            if i % 2 == 0 {
                hex_digits()[(bytes[i / 2] / 16) as int]
            } else {
                hex_digits()[(bytes[i / 2] % 16) as int]
            },
    )
}

/// `Sha256::new`, `Sha256::input` and `Digest::result_str` of `rust-crypto`,
/// run in that order over `data`: the result is the lower-case hex text
/// (`rustc_serialize`'s `to_hex`) of the 32-byte SHA-256 digest of `data`.
#[verifier::external_body]
pub(crate) fn sha256_hex(data: &[u8]) -> (s: String)
    ensures
        s@ == lower_hex(sha256_digest(data@)@),
        s@.len() == 64,
{
    let mut hasher = Sha256::new();
    hasher.input(data);
    hasher.result_str()
}

/// What `zstd::stream::encode_all` gives for `data` at compression `level`.
pub uninterp spec fn zstd_encoded(data: Seq<u8>, level: i32) -> Seq<u8>;

/// What zstd's streaming `Decoder`, copied from to its end with `io::copy`,
/// yields for `data`: the decoded bytes, up to the point where the data ends
/// or stops being valid zstd.
pub uninterp spec fn zstd_stream_decoded(data: Seq<u8>) -> Seq<u8>;

/// `zstd::stream::encode_all` over a byte slice: one zstd frame holding
/// `data`, which decoding gives back (the compression is lossless). It
/// succeeds: zstd clamps the level into its range, reading a slice and writing
/// into a `Vec` do not fail, and failing to create the context panics inside
/// the crate, so an error comes back only where zstd cannot allocate its
/// working memory, a limit of the machine that this library, as with every
/// allocation, leaves out of its contracts.
#[verifier::external_body]
pub(crate) fn zstd_encode(data: &[u8], level: i32) -> (r: Option<Vec<u8>>)
    ensures
        r is Some,
        r matches Some(v) ==> v@ == zstd_encoded(data@, level) && zstd_stream_decoded(v@) == data@,
{
    zstd::stream::encode_all(data, level).ok()
}

/// `zstd::stream::read::Decoder::new` over a byte slice, read to its end by
/// `std::io::copy` into a `Vec`, an error of the copy ignored: the bytes
/// decoded before the data ended or turned out not to be valid zstd.
/// (`Decoder::new` fails only where zstd cannot allocate its context; the
/// result is then empty.)
#[verifier::external_body]
pub(crate) fn zstd_stream_decode(data: &[u8]) -> (r: Vec<u8>)
    ensures
        r@ == zstd_stream_decoded(data@),
{
    let mut buffer = Vec::new();
    if let Ok(mut decoder) = zstd::stream::read::Decoder::new(data) {
        let _ = std::io::copy(&mut decoder, &mut buffer);
    }
    buffer
}

} // verus!
