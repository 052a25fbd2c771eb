use std::io::Read;
use std::io::Write;
use vstd::prelude::*;

verus! {

/// What `str::to_lowercase` returns: the Unicode lowercase form of a string.
/// The mapping is a fixed function of the input characters alone; its full
/// table is far too large to state, so contracts refer to it by this name.
pub uninterp spec fn lower_of(s: Seq<char>) -> Seq<char>;

/// Relies on `str::to_lowercase`: the result depends on the characters of
/// `s` alone.
#[verifier::external_body]
pub(crate) fn lowercase(s: &str) -> (r: String)
    ensures
        r@ == lower_of(s@),
{
    s.to_lowercase()
}

/// What `strsim::levenshtein` returns: the edit distance between two strings
/// (the minimum number of character insertions, deletions and substitutions
/// turning one into the other), a function of the two character sequences
/// alone.
pub uninterp spec fn lev_of(a: Seq<char>, b: Seq<char>) -> nat;

/// Relies on `strsim::levenshtein`: the distance depends on the two
/// character sequences alone.
#[verifier::external_body]
pub(crate) fn levenshtein(a: &str, b: &str) -> (r: usize)
    ensures
        r as nat == lev_of(a@, b@),
{
    strsim::levenshtein(a, b)
}

/// What gzip decompression yields on a byte string: `Some` decoded payload
/// for a well-formed gzip stream, `None` otherwise — a function of the input
/// bytes alone.
pub uninterp spec fn gunzip_of(b: Seq<u8>) -> Option<Seq<u8>>;

/// Relies on `flate2::write::GzEncoder`: gzip compression is lossless, so
/// decompressing whatever it produced yields exactly the bytes that were
/// written. Writing into an in-memory `Vec<u8>` cannot fail, so the encoder
/// is infallible here.
#[verifier::external_body]
pub(crate) fn gzip_compress(data: &Vec<u8>) -> (r: Vec<u8>)
    ensures
        gunzip_of(r@) == Some(data@),
{
    let mut enc = flate2::write::GzEncoder::new(Vec::new(), flate2::Compression::default());
    enc.write_all(data).unwrap();
    enc.finish().unwrap()
}

/// Relies on `flate2::read::GzDecoder`: decoding a byte slice either yields
/// the decompressed payload or fails, deterministically in the input bytes.
#[verifier::external_body]
pub(crate) fn gzip_decompress(data: &Vec<u8>) -> (r: Option<Vec<u8>>)
    ensures
        match r {
            Some(v) => gunzip_of(data@) == Some(v@),
            None => gunzip_of(data@) is None,
        },
{
    let mut dec = flate2::read::GzDecoder::new(data.as_slice());
    let mut out = Vec::new();
    match dec.read_to_end(&mut out) {
        Ok(_) => Some(out),
        Err(_) => None,
    }
}

/// Relies on `String::push`: appends the given character to the end of the
/// string. (vstd gives this method no specification.)
pub assume_specification[ String::push ](s: &mut String, ch: char)
    ensures
        final(s)@ == old(s)@.push(ch),
;

/// Relies on `char::from_u32`: returns `Some` exactly for valid Unicode
/// scalar values (everything up to 0x10FFFF except the surrogate range), and
/// the returned character has the given scalar value. (vstd gives this
/// function no specification.)
pub assume_specification[ char::from_u32 ](i: u32) -> (r: Option<char>)
    ensures
        r matches Some(c) ==> c as u32 == i && c == i as char,
        r is Some <==> (i < 0xD800 || (0xE000 <= i && i <= 0x10FFFF)),
;

} // verus!
