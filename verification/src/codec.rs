//! The stored form of an object: a header and the payload, hashed with SHA-1
//! and compressed with zlib.

use crate::error::Error;
use crate::text::copy_range;
use crate::text::decimal;
use crate::text::format_decimal;
use crate::text::is_space;
use crate::text::is_word;
use crate::text::lemma_decimal_digits;
use crate::text::lemma_run_len_is;
use crate::text::run_len;
use crate::text::scan;
use crate::text::Delim;
use crate::text::NUL;
use crate::text::SPACE;
use flate2::read::ZlibDecoder;
use flate2::write::ZlibEncoder;
use flate2::Compression;
use sha1::Digest;
use sha1::Sha1;
use std::io::Read;
use std::io::Write;
use vstd::prelude::*;

verus! {

/// The SHA-1 digest of a byte string.
pub uninterp spec fn sha1_digest(data: Seq<u8>) -> Seq<u8>;

/// The zlib stream that the compressor makes of a byte string at its default
/// level, if it makes one.
pub uninterp spec fn zlib_compressed(data: Seq<u8>) -> Option<Seq<u8>>;

/// The bytes that a zlib stream decompresses to, if it is one.
pub uninterp spec fn zlib_decompressed(data: Seq<u8>) -> Option<Seq<u8>>;

/// Calls `sha1::Sha1::digest`. Not proved: that the twenty bytes returned are
/// the SHA-1 digest of `data`, which `sha1_digest` names.
#[verifier::external_body]
fn sha1_of(data: &[u8]) -> (digest: [u8; 20])
    ensures
        digest@ == sha1_digest(data@),
{
    Sha1::digest(data).into()
}

/// Runs `data` through `flate2::write::ZlibEncoder` at the default level.
/// Not proved: that the stream returned is the one `zlib_compressed` names,
/// that `None` comes back exactly when the encoder reports an error, and that
/// the stream decompresses to `data` again.
#[verifier::external_body]
fn deflate(data: &[u8]) -> (out: Option<Vec<u8>>)
    ensures
        match out {
            Some(stream) => zlib_compressed(data@) == Some(stream@),
            None => zlib_compressed(data@) is None,
        },
        out matches Some(stream) ==> zlib_decompressed(stream@) == Some(data@),
{
    let mut encoder = ZlibEncoder::new(Vec::new(), Compression::default());
    encoder.write_all(data).ok()?;
    encoder.finish().ok()
}

/// Reads `data` to its end through `flate2::read::ZlibDecoder`. Not proved:
/// that the bytes returned are those `zlib_decompressed` names, and that
/// `None` comes back exactly when the decoder reports an error.
#[verifier::external_body]
fn inflate(data: &[u8]) -> (out: Option<Vec<u8>>)
    ensures
        match out {
            Some(bytes) => zlib_decompressed(data@) == Some(bytes@),
            None => zlib_decompressed(data@) is None,
        },
{
    let mut decoder = ZlibDecoder::new(data);
    let mut bytes = Vec::new();
    decoder.read_to_end(&mut bytes).ok()?;
    Some(bytes)
}

/// The compressed form of `data`.
pub fn compress_object(data: &[u8]) -> (r: Result<Vec<u8>, Error>)
    ensures
        match r {
            Ok(stream) => zlib_compressed(data@) == Some(stream@) && zlib_decompressed(stream@)
                == Some(data@),
            Err(e) => e == Error::CompressionFailed && zlib_compressed(data@) is None,
        },
{
    match deflate(data) {
        Some(stream) => Ok(stream),
        None => Err(Error::CompressionFailed),
    }
}

/// The bytes that `data` was compressed from.
pub fn decompress_object(data: &[u8]) -> (r: Result<Vec<u8>, Error>)
    ensures
        match r {
            Ok(bytes) => zlib_decompressed(data@) == Some(bytes@),
            Err(e) => e == Error::MalformedObject && zlib_decompressed(data@) is None,
        },
{
    match inflate(data) {
        Some(bytes) => Ok(bytes),
        None => Err(Error::MalformedObject),
    }
}

/// The header of an object: its kind, a space, the payload's length in
/// decimal, and a NUL byte.
pub open spec fn header(kind: Seq<u8>, len: nat) -> Seq<u8> {
    kind + seq![SPACE] + decimal(len) + seq![NUL]
}

/// What is hashed and, compressed, stored for an object: header, then payload.
pub open spec fn object_bytes(kind: Seq<u8>, payload: Seq<u8>) -> Seq<u8> {
    header(kind, payload.len()) + payload
}

/// The bytes of an object: its header, then the payload.
pub fn encode_object(kind: &[u8], payload: &[u8]) -> (raw: Vec<u8>)
    ensures
        raw@ == object_bytes(kind@, payload@),
{
    let mut raw: Vec<u8> = Vec::new();
    raw.extend_from_slice(kind);
    raw.push(SPACE);
    let digits = format_decimal(payload.len());
    raw.extend_from_slice(digits.as_slice());
    raw.push(NUL);
    raw.extend_from_slice(payload);
    assert(raw@ =~= object_bytes(kind@, payload@));
    raw
}

/// The payload of an object's bytes: what follows the first NUL byte.
pub open spec fn payload_of(raw: Seq<u8>) -> Option<Seq<u8>> {
    let n = run_len(raw, Delim::Byte(NUL)) as int;
    if n < raw.len() {
        Some(raw.skip(n + 1))
    } else {
        None
    }
}

/// The payload of an object's bytes, if they have a header.
pub fn object_payload(raw: &[u8]) -> (r: Option<Vec<u8>>)
    ensures
        match r {
            Some(p) => payload_of(raw@) == Some(p@),
            None => payload_of(raw@) is None,
        },
{
    let n = scan(raw, 0, Delim::Byte(NUL));
    assert(raw@.skip(0) =~= raw@);
    if n < raw.len() {
        Some(copy_range(raw, n + 1, raw.len()))
    } else {
        None
    }
}

/// A kind without a NUL byte leaves the header's own NUL the first one, so
/// the payload is found again behind it.
pub proof fn lemma_payload_of_object(kind: Seq<u8>, payload: Seq<u8>)
    requires
        !kind.contains(NUL),
    ensures
        payload_of(object_bytes(kind, payload)) == Some(payload),
{
    let digits = decimal(payload.len());
    let raw = object_bytes(kind, payload);
    let n: int = (kind.len() + 1 + digits.len()) as int;
    lemma_decimal_digits(payload.len());
    assert forall|j: int| 0 <= j < n implies !Delim::Byte(NUL).stops(#[trigger] raw[j]) by {
        if j < kind.len() {
            assert(raw[j] == kind[j]);
            assert(kind.contains(kind[j]));
        } else if j > kind.len() {
            assert(raw[j] == digits[j - kind.len() - 1]);
        }
    }
    assert(raw[n] == NUL);
    lemma_run_len_is(raw, Delim::Byte(NUL), n);
    assert(raw.skip(n + 1) =~= payload);
}

/// The lowercase hexadecimal digit of a number below sixteen.
pub open spec fn hex_digit(n: u8) -> u8 {
    if n < 10 {
        (48 + n) as u8
    } else {
        (87 + n) as u8
    }
}

/// The lowercase hexadecimal text of a byte string, two digits to a byte.
pub open spec fn hex(data: Seq<u8>) -> Seq<u8> {
    Seq::new(
        2 * data.len(),
        |i: int|
            if i % 2 == 0 {
                hex_digit(data[i / 2] / 16)
            } else {
                hex_digit(data[i / 2] % 16)
            },
    )
}

/// The hexadecimal digit of a number below sixteen.
fn hex_digit_of(n: u8) -> (c: u8)
    requires
        n < 16,
    ensures
        c == hex_digit(n),
{
    if n < 10 {
        48 + n
    } else {
        87 + n
    }
}

/// The lowercase hexadecimal text of `data`.
pub fn to_hex(data: &[u8]) -> (out: Vec<u8>)
    ensures
        out@ == hex(data@),
{
    let mut out: Vec<u8> = Vec::new();
    let mut i: usize = 0;
    while i < data.len()
        invariant
            i <= data.len(),
            out@ == hex(data@.take(i as int)),
        decreases data.len() - i,
    {
        let b = data[i];
        out.push(hex_digit_of(b / 16));
        out.push(hex_digit_of(b % 16));
        i += 1;
        assert(out@ =~= hex(data@.take(i as int)));
    }
    assert(data@.take(i as int) =~= data@);
    out
}

/// Different byte strings have different hexadecimal texts.
pub proof fn lemma_hex_injective(a: Seq<u8>, b: Seq<u8>)
    requires
        hex(a) == hex(b),
    ensures
        a == b,
{
    assert(hex(a).len() == 2 * a.len());
    assert(hex(b).len() == 2 * b.len());
    assert forall|i: int| 0 <= i < a.len() implies a[i] == b[i] by {
        assert(hex(a)[2 * i] == hex(b)[2 * i]);
        assert(hex(a)[2 * i + 1] == hex(b)[2 * i + 1]);
        assert(hex(a)[2 * i] == hex_digit(a[i] / 16));
        assert(hex(a)[2 * i + 1] == hex_digit(a[i] % 16));
        assert(hex(b)[2 * i] == hex_digit(b[i] / 16));
        assert(hex(b)[2 * i + 1] == hex_digit(b[i] % 16));
    }
    assert(a =~= b);
}

/// The hexadecimal text of a byte string is one word.
pub proof fn lemma_hex_is_word(data: Seq<u8>)
    requires
        data.len() > 0,
    ensures
        is_word(hex(data)),
        hex(data).len() == 2 * data.len(),
{
    assert forall|i: int| 0 <= i < hex(data).len() implies !is_space(#[trigger] hex(data)[i]) by {
        let b = data[i / 2];
        assert(hex(data)[i] == hex_digit(b / 16) || hex(data)[i] == hex_digit(b % 16));
    }
}

/// The hash under which an object is stored: the hexadecimal text of the
/// SHA-1 digest of its header and payload.
pub open spec fn object_id(kind: Seq<u8>, payload: Seq<u8>) -> Seq<u8> {
    hex(sha1_digest(object_bytes(kind, payload)))
}

/// The hash of an object's bytes: forty hexadecimal digits, one word.
pub fn hash_bytes(raw: &[u8]) -> (hash: Vec<u8>)
    ensures
        hash@ == hex(sha1_digest(raw@)),
        hash@.len() == 40,
        is_word(hash@),
{
    let digest = sha1_of(raw);
    proof {
        lemma_hex_is_word(digest@);
    }
    to_hex(digest.as_slice())
}

} // verus!
