//! Small helpers: key validation, clocks, digests, compression, encryption.

use vstd::prelude::*;
use vstd::string::StringSliceAdditionalSpecFns;
use vstd::utf8::{decode_utf8, valid_utf8};
use crate::types::Error;
use aes_gcm::aead::{Aead, KeyInit};
use base64::Engine;
use sha2::Digest;
use std::io::{Read, Write};

verus! {

/// What `char::is_alphanumeric` reports for `c` (Unicode alphabetic or numeric).
pub uninterp spec fn alphanumeric(c: char) -> bool;

/// Relies on `char::is_alphanumeric`: the answer depends on the character alone.
#[verifier::external_body]
fn char_is_alphanumeric(c: char) -> (r: bool)
    ensures
        r == alphanumeric(c),
{
    c.is_alphanumeric()
}

/// A character allowed inside one dot-separated part of a key.
pub open spec fn key_char(c: char) -> bool {
    alphanumeric(c) || c == '_' || c == '-'
}

/// Number of `'.'` characters in `s`.
pub open spec fn dot_count(s: Seq<char>) -> nat
    decreases s.len(),
{
    if s.len() == 0 {
        0
    } else {
        dot_count(s.drop_last()) + if s.last() == '.' { 1nat } else { 0nat }
    }
}

/// A key is `part` or `part.part`, where every part is a non-empty run of
/// key characters.
pub open spec fn valid_key(s: Seq<char>) -> bool {
    &&& s.len() > 0
    &&& s[0] != '.'
    &&& s.last() != '.'
    &&& dot_count(s) <= 1
    &&& forall|i: int| 0 <= i < s.len() && s[i] != '.' ==> key_char(#[trigger] s[i])
}

/// Checks the `namespace.key` / `key` shape of a configuration key.
pub fn is_valid_key(key: &str) -> (r: bool)
    ensures
        r == valid_key(key@),
{
    let n = key.unicode_len();
    if n == 0 {
        return false;
    }
    let mut dots: usize = 0;
    let mut i: usize = 0;
    while i < n
        invariant
            n == key@.len(),
            0 <= i <= n,
            dots == dot_count(key@.subrange(0, i as int)),
            dots <= 1,
            forall|j: int| 0 <= j < i && key@[j] != '.' ==> key_char(#[trigger] key@[j]),
            forall|j: int| 0 <= j < i && key@[j] == '.' ==> 0 < j < n - 1,
        decreases n - i,
    {
        let c = key.get_char(i);
        assert(key@.subrange(0, i + 1).drop_last() =~= key@.subrange(0, i as int));
        if c == '.' {
            if i == 0 || i + 1 == n || dots == 1 {
                proof {
                    if dots == 1 && i != 0 && i + 1 != n {
                        lemma_dot_count_prefix(key@, i + 1);
                    }
                }
                return false;
            }
            dots = dots + 1;
        } else {
            let ok = char_is_alphanumeric(c) || c == '_' || c == '-';
            if !ok {
                return false;
            }
        }
        i = i + 1;
    }
    assert(key@.subrange(0, n as int) =~= key@);
    true
}

/// The dots of a prefix never outnumber those of the whole sequence.
proof fn lemma_dot_count_prefix(s: Seq<char>, k: int)
    requires
        0 <= k <= s.len(),
    ensures
        dot_count(s.subrange(0, k)) <= dot_count(s),
    decreases s.len() - k,
{
    if k < s.len() {
        assert(s.subrange(0, k + 1).drop_last() =~= s.subrange(0, k));
        lemma_dot_count_prefix(s, k + 1);
    } else {
        assert(s.subrange(0, k) =~= s);
    }
}

/// Relies on `SystemTime::now` and `duration_since(UNIX_EPOCH)`: whole
/// seconds since the epoch, or none when the clock reads earlier.
#[verifier::external_body]
fn seconds_since_epoch() -> (r: Option<u64>) {
    std::time::SystemTime::now().duration_since(std::time::UNIX_EPOCH).ok().map(|d| d.as_secs())
}

/// Seconds since the Unix epoch; 0 when the clock reads earlier.
pub fn get_current_timestamp() -> (r: u64) {
    match seconds_since_epoch() {
        Some(s) => s,
        None => 0,
    }
}

/// Relies on `uuid::Uuid::new_v4` and its hyphenated text form: a random
/// identifier of 36 characters.
#[verifier::external_body]
fn random_uuid_text() -> (r: String)
    ensures
        r@.len() == 36,
{
    uuid::Uuid::new_v4().hyphenated().to_string()
}

/// A fresh random (version 4) UUID in its hyphenated text form.
pub fn generate_uuid() -> (r: String)
    ensures
        r@.len() == 36,
{
    random_uuid_text()
}

/// What `chrono` prints for the UTC time `secs` seconds after the epoch,
/// as `%Y-%m-%d %H:%M:%S`, where that time is representable.
pub uninterp spec fn utc_text(secs: i64) -> Option<Seq<char>>;

/// Relies on `chrono::DateTime::from_timestamp` and `format`: the text
/// depends on the seconds alone; the epoch itself is representable.
#[verifier::external_body]
fn format_utc(secs: i64) -> (r: Option<String>)
    ensures
        r is Some <==> utc_text(secs) is Some,
        r is Some ==> r->0@ == utc_text(secs)->0,
        secs == 0 ==> r is Some,
{
    chrono::DateTime::from_timestamp(secs, 0).map(|d| d.format("%Y-%m-%d %H:%M:%S").to_string())
}

/// The UTC time `timestamp` as `YYYY-MM-DD HH:MM:SS`; a time outside
/// what can be represented prints as the epoch.
pub fn format_timestamp(timestamp: u64) -> (r: String)
    ensures
        timestamp <= i64::MAX && utc_text(timestamp as i64) is Some ==> r@ == utc_text(timestamp as i64)->0,
        timestamp > i64::MAX || utc_text(timestamp as i64) is None ==> r@ == utc_text(0)->0,
{
    if timestamp <= i64::MAX as u64 {
        if let Some(t) = format_utc(timestamp as i64) {
            return t;
        }
    }
    match format_utc(0) {
        Some(t) => t,
        None => String::new(),
    }
}

/// The lowercase hexadecimal SHA-256 digest of `data`.
pub uninterp spec fn sha256_hex(data: Seq<u8>) -> Seq<char>;

/// Relies on `sha2::Sha256` and its lowercase hex form: the digest of the
/// bytes alone, 32 bytes printed as 64 hex digits.
#[verifier::external_body]
fn sha256_hex_digest(data: &[u8]) -> (r: String)
    ensures
        r@ == sha256_hex(data@),
        r@.len() == 64,
{
    format!("{:x}", sha2::Sha256::digest(data))
}

/// The SHA-256 digest of `data` in lowercase hex.
pub fn calculate_hash(data: &[u8]) -> (r: String)
    ensures
        r@ == sha256_hex(data@),
        r@.len() == 64,
{
    sha256_hex_digest(data)
}

/// The gzip stream `flate2` writes for `data` at the default level.
pub uninterp spec fn gzip_of(data: Seq<u8>) -> Seq<u8>;

/// Relies on `flate2::write::GzEncoder` at the default level: the stream
/// depends on the bytes alone (the header carries no time and an unknown
/// system); writing into a `Vec` does not fail, and the decoder reads the
/// bytes back.
#[verifier::external_body]
fn gzip(data: &[u8]) -> (r: Option<Vec<u8>>)
    ensures
        r is Some,
        r->0@ == gzip_of(data@),
        gunzip_of(r->0@) == Some(data@),
{
    let mut encoder = flate2::write::GzEncoder::new(Vec::new(), flate2::Compression::default());
    encoder.write_all(data).ok()?;
    encoder.finish().ok()
}

/// What `flate2` decodes from the gzip stream `data`, if it is one.
pub uninterp spec fn gunzip_of(data: Seq<u8>) -> Option<Seq<u8>>;

/// Relies on `flate2::read::GzDecoder`: the bytes decoded from `data`, or
/// none where it is not a valid gzip stream.
#[verifier::external_body]
fn gunzip(data: &[u8]) -> (r: Option<Vec<u8>>)
    ensures
        r is Some <==> gunzip_of(data@) is Some,
        r is Some ==> gunzip_of(data@) == Some(r->0@),
{
    let mut decoder = flate2::read::GzDecoder::new(data);
    let mut out = Vec::new();
    decoder.read_to_end(&mut out).ok()?;
    Some(out)
}

/// Compresses `data` as a gzip stream, which decompresses to `data`.
pub fn compress_data(data: &[u8]) -> (r: Result<Vec<u8>, Error>)
    ensures
        r is Ok,
        r->Ok_0@ == gzip_of(data@),
        gunzip_of(r->Ok_0@) == Some(data@),
{
    match gzip(data) {
        Some(v) => Ok(v),
        None => Err(Error::Internal("compression failed".to_string())),
    }
}

/// Decompresses a gzip stream; an error where `data` is not one.
pub fn decompress_data(data: &[u8]) -> (r: Result<Vec<u8>, Error>)
    ensures
        r is Ok <==> gunzip_of(data@) is Some,
        r is Ok ==> gunzip_of(data@) == Some(r->Ok_0@),
{
    match gunzip(data) {
        Some(v) => Ok(v),
        None => Err(Error::Validation("not a gzip stream".to_string())),
    }
}

/// The nonce used for configuration values.
pub const VALUE_NONCE: [u8; 12] = [117, 110, 105, 113, 117, 101, 32, 110, 111, 110, 99, 101];

/// The AES-256-GCM ciphertext (with its tag) of `plaintext` under `key`
/// and `nonce`.
pub uninterp spec fn gcm_sealed(key: Seq<u8>, nonce: Seq<u8>, plaintext: Seq<u8>) -> Seq<u8>;

/// The plaintext AES-256-GCM recovers from `ciphertext` under `key` and
/// `nonce`, if the tag checks.
pub uninterp spec fn gcm_opened(key: Seq<u8>, nonce: Seq<u8>, ciphertext: Seq<u8>) -> Option<Seq<u8>>;

/// Relies on `aes_gcm::Aes256Gcm` (`new_from_slice`, `encrypt`): a key that
/// is not 32 bytes is refused; otherwise the ciphertext depends on key,
/// nonce and plaintext alone. `Nonce::from_slice` needs 12 bytes.
#[verifier::external_body]
fn gcm_seal(key: &[u8], nonce: &[u8], plaintext: &[u8]) -> (r: Option<Vec<u8>>)
    requires
        nonce@.len() == 12,
    ensures
        key@.len() != 32 ==> r is None,
        r is Some ==> r->0@ == gcm_sealed(key@, nonce@, plaintext@),
        r is Some ==> gcm_opened(key@, nonce@, r->0@) == Some(plaintext@),
{
    let cipher = aes_gcm::Aes256Gcm::new_from_slice(key).ok()?;
    cipher.encrypt(aes_gcm::Nonce::from_slice(nonce), plaintext).ok()
}

/// Relies on `aes_gcm::Aes256Gcm` (`new_from_slice`, `decrypt`): a key that
/// is not 32 bytes is refused; otherwise the plaintext, where the tag
/// checks. `Nonce::from_slice` needs 12 bytes.
#[verifier::external_body]
fn gcm_open(key: &[u8], nonce: &[u8], ciphertext: &[u8]) -> (r: Option<Vec<u8>>)
    requires
        nonce@.len() == 12,
    ensures
        key@.len() != 32 ==> r is None,
        key@.len() == 32 ==> (r is Some <==> gcm_opened(key@, nonce@, ciphertext@) is Some),
        r is Some ==> gcm_opened(key@, nonce@, ciphertext@) == Some(r->0@),
{
    let cipher = aes_gcm::Aes256Gcm::new_from_slice(key).ok()?;
    cipher.decrypt(aes_gcm::Nonce::from_slice(nonce), ciphertext).ok()
}

/// The standard (padded) base64 text of `bytes`.
pub uninterp spec fn base64_text(bytes: Seq<u8>) -> Seq<char>;

/// The bytes whose standard base64 text is `text`, if it is one.
pub uninterp spec fn base64_bytes(text: Seq<char>) -> Option<Seq<u8>>;

/// Relies on `base64`'s `STANDARD` engine, `encode`.
#[verifier::external_body]
fn base64_encode(bytes: &[u8]) -> (r: String)
    ensures
        r@ == base64_text(bytes@),
        base64_bytes(r@) == Some(bytes@),
{
    base64::engine::general_purpose::STANDARD.encode(bytes)
}

/// Relies on `base64`'s `STANDARD` engine, `decode`: none where the text is
/// not valid base64.
#[verifier::external_body]
fn base64_decode(text: &str) -> (r: Option<Vec<u8>>)
    ensures
        r is Some <==> base64_bytes(text@) is Some,
        r is Some ==> base64_bytes(text@) == Some(r->0@),
{
    base64::engine::general_purpose::STANDARD.decode(text).ok()
}

/// Relies on `String::from_utf8`: the text the bytes encode, where they
/// are valid UTF-8.
#[verifier::external_body]
fn utf8_text(bytes: Vec<u8>) -> (r: Option<String>)
    ensures
        r is Some <==> valid_utf8(bytes@),
        r is Some ==> r->0@ == decode_utf8(bytes@),
{
    String::from_utf8(bytes).ok()
}

/// Encrypts `value` with AES-256-GCM under a 32-byte `key` and returns the
/// ciphertext as base64 text. Any other key length is refused.
pub fn encrypt_value(value: &str, key: &[u8]) -> (r: Result<String, Error>)
    ensures
        key@.len() != 32 ==> r is Err,
        r is Ok ==> r->Ok_0@ == base64_text(gcm_sealed(key@, VALUE_NONCE@, value.spec_bytes())),
        r is Ok ==> base64_bytes(r->Ok_0@) == Some(gcm_sealed(key@, VALUE_NONCE@, value.spec_bytes())),
        r is Ok ==> gcm_opened(key@, VALUE_NONCE@, gcm_sealed(key@, VALUE_NONCE@, value.spec_bytes())) == Some(
            value.spec_bytes(),
        ),
{
    let bytes = value.as_bytes();
    let nonce: &[u8] = &VALUE_NONCE;
    match gcm_seal(key, nonce, bytes) {
        Some(ct) => Ok(base64_encode(ct.as_slice())),
        None => Err(Error::Validation("encryption refused".to_string())),
    }
}

/// Reverses `encrypt_value`: decodes the base64 text, decrypts it under
/// `key` and reads the plaintext as UTF-8.
pub fn decrypt_value(encrypted: &str, key: &[u8]) -> (r: Result<String, Error>)
    ensures
        key@.len() != 32 ==> r is Err,
        key@.len() == 32 ==> (r is Ok <==> (base64_bytes(encrypted@) is Some && gcm_opened(
            key@,
            VALUE_NONCE@,
            base64_bytes(encrypted@)->0,
        ) is Some && valid_utf8(gcm_opened(key@, VALUE_NONCE@, base64_bytes(encrypted@)->0)->0))),
        r is Ok ==> exists|ct: Seq<u8>, pt: Seq<u8>|
            base64_bytes(encrypted@) == Some(ct) && gcm_opened(key@, VALUE_NONCE@, ct) == Some(pt) && valid_utf8(pt) && r->Ok_0@
                == decode_utf8(pt),
{
    let ct = match base64_decode(encrypted) {
        Some(ct) => ct,
        None => {
            return Err(Error::Validation("not base64".to_string()));
        },
    };
    let nonce: &[u8] = &VALUE_NONCE;
    let pt = match gcm_open(key, nonce, ct.as_slice()) {
        Some(pt) => pt,
        None => {
            return Err(Error::Validation("decryption failed".to_string()));
        },
    };
    let ghost pts = pt@;
    match utf8_text(pt) {
        Some(s) => {
            assert(base64_bytes(encrypted@) == Some(ct@) && gcm_opened(key@, VALUE_NONCE@, ct@) == Some(pts));
            Ok(s)
        },
        None => Err(Error::Validation("not UTF-8".to_string())),
    }
}

} // verus!
