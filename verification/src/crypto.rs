//! Integrity sealing (a SHA-256 header line) and passphrase encryption
//! (age) of stored payloads.
use vstd::prelude::*;
use sha2::Digest;
use vstd::utf8::{decode_utf8, encode_utf8, valid_utf8};
use crate::config::{header_magic, integrity_prefix, magic, sha_label};
use crate::error::Error;
use crate::text::{
    chars_eq, chars_of, digit_char, extend_chars, extend_str, find_char, has_prefix, slice_chars,
    starts_with, string_of, seq_find, lemma_find_at,
};

verus! {

// ---------------------------------------------------------------------------
// Digests
// ---------------------------------------------------------------------------

/// The SHA-256 digest of `data`.
pub uninterp spec fn sha256_of(data: Seq<u8>) -> Seq<u8>;

/// SHA-256 (`sha2::Sha256`: `new`, `update`, `finalize`) of `data`: the
/// result is the name `sha256_of` applied to the input, 32 bytes long. The
/// hash function itself is not stated.
#[verifier::external_body]
fn sha256_digest(data: &[u8]) -> (r: Vec<u8>)
    ensures
        r@ == sha256_of(data@),
        r@.len() == 32,
{
    let mut hasher = sha2::Sha256::new();
    hasher.update(data);
    hasher.finalize().to_vec()
}

/// The lower-case hexadecimal digit for `d < 16`.
pub open spec fn hex_digit(d: nat) -> char {
    if d < 10 {
        digit_char(d)
    } else if d == 10 {
        'a'
    } else if d == 11 {
        'b'
    } else if d == 12 {
        'c'
    } else if d == 13 {
        'd'
    } else if d == 14 {
        'e'
    } else {
        'f'
    }
}

/// Two lower-case hexadecimal digits per byte, most significant first.
pub open spec fn hex_of(bytes: Seq<u8>) -> Seq<char>
    decreases bytes.len(),
{
    if bytes.len() == 0 {
        Seq::empty()
    } else {
        hex_of(bytes.drop_last()) + seq![
            hex_digit((bytes.last() / 16) as nat),
            hex_digit((bytes.last() % 16) as nat),
        ]
    }
}

/// `hex::encode`: each byte as two lower-case hexadecimal digits, in order
/// (as the crate documents).
#[verifier::external_body]
fn hex_encode(bytes: &[u8]) -> (r: String)
    ensures
        r@ == hex_of(bytes@),
{
    hex::encode(bytes)
}

/// Whether `c` is a lower-case hexadecimal digit.
pub open spec fn is_hex_char(c: char) -> bool {
    ('0' <= c && c <= '9') || ('a' <= c && c <= 'f')
}

proof fn lemma_hex_chars(bytes: Seq<u8>)
    ensures
        forall|i: int| 0 <= i < hex_of(bytes).len() ==> is_hex_char(#[trigger] hex_of(bytes)[i]),
        hex_of(bytes).len() == 2 * bytes.len(),
    decreases bytes.len(),
{
    if bytes.len() > 0 {
        lemma_hex_chars(bytes.drop_last());
        let h = hex_of(bytes.drop_last());
        let hi = (bytes.last() / 16) as nat;
        let lo = (bytes.last() % 16) as nat;
        assert(is_hex_char(hex_digit(hi)));
        assert(is_hex_char(hex_digit(lo)));
        assert forall|i: int| 0 <= i < hex_of(bytes).len() implies is_hex_char(#[trigger] hex_of(bytes)[i]) by {
            if i < h.len() {
                assert(hex_of(bytes)[i] == h[i]);
            }
        }
    }
}

/// The hexadecimal SHA-256 digest of the UTF-8 bytes of `s`.
pub open spec fn digest_text(s: Seq<char>) -> Seq<char> {
    hex_of(sha256_of(encode_utf8(s)))
}

/// The lower-case hexadecimal SHA-256 digest of the UTF-8 bytes of `data`.
pub fn sha256_hex(data: &str) -> (r: String)
    ensures
        r@ == digest_text(data@),
        r@.len() == 64,
{
    let digest = sha256_digest(data.as_bytes());
    proof {
        lemma_hex_chars(digest@);
    }
    hex_encode(digest.as_slice())
}

// ---------------------------------------------------------------------------
// Sealing
// ---------------------------------------------------------------------------

/// A payload with its integrity header: the marker, `SHA=`, the digest of
/// the payload, a newline, then the payload.
pub open spec fn sealed(payload: Seq<char>) -> Seq<char> {
    seal_header(payload) + seq!['\n'] + payload
}

/// The header line that sealing `payload` writes: the marker, `SHA=` and
/// the digest of the payload.
pub open spec fn seal_header(payload: Seq<char>) -> Seq<char> {
    magic() + sha_label() + digest_text(payload)
}

/// Prepends the integrity header to `payload_json`.
pub fn seal(payload_json: &str) -> (r: String)
    ensures
        r@ == sealed(payload_json@),
{
    let hash = sha256_hex(payload_json);
    let mut out: Vec<char> = Vec::new();
    extend_str(&mut out, header_magic());
    extend_str(&mut out, integrity_prefix());
    extend_str(&mut out, hash.as_str());
    out.push('\n');
    extend_str(&mut out, payload_json);
    assert(out@ =~= sealed(payload_json@));
    string_of(out.as_slice())
}

/// `s` with every leading copy of `p` removed (`str::trim_start_matches`
/// with a non-empty string pattern).
pub open spec fn trim_start_matches(s: Seq<char>, p: Seq<char>) -> Seq<char>
    decreases s.len(),
{
    if p.len() > 0 && starts_with(s, p) {
        trim_start_matches(s.skip(p.len() as int), p)
    } else {
        s
    }
}

/// Removes every leading copy of the non-empty `p` from `s`.
fn strip_all_prefixes(s: &[char], p: &[char]) -> (r: Vec<char>)
    requires
        p@.len() > 0,
    ensures
        r@ == trim_start_matches(s@, p@),
{
    let mut lo: usize = 0;
    let mut rest = slice_chars(s, 0, s.len());
    assert(rest@ =~= s@);
    while has_prefix(rest.as_slice(), p)
        invariant
            p@.len() > 0,
            trim_start_matches(s@, p@) == trim_start_matches(rest@, p@),
        decreases rest@.len(),
    {
        let next = slice_chars(rest.as_slice(), p.len(), rest.len());
        assert(next@ =~= rest@.skip(p@.len() as int));
        rest = next;
    }
    rest
}

/// What unsealing `payload` gives: the text after the first newline when
/// the line before it begins with the marker and, once every leading
/// marker and then every leading `SHA=` are removed, is the digest of that
/// text.
pub open spec fn unseal_result(payload: Seq<char>) -> Option<Seq<char>> {
    match seq_find(payload, '\n') {
        None => None,
        Some(nl) => {
            let header = payload.take(nl);
            let json = payload.skip(nl + 1);
            if !starts_with(header, magic()) {
                None
            } else if trim_start_matches(trim_start_matches(header, magic()), sha_label())
                == digest_text(json) {
                Some(json)
            } else {
                None
            }
        },
    }
}

/// Checks the integrity header of `payload` and returns the payload
/// without it.
pub fn unseal(payload: &str) -> (r: Result<String, Error>)
    ensures
        r matches Ok(s) ==> unseal_result(payload@) == Some(s@),
        r is Err ==> unseal_result(payload@) is None,
        seq_find(payload@, '\n') is None ==> (r matches Err(Error::InvalidFormat(m)) && m@
            == "Missing header newline"@),
        seq_find(payload@, '\n') matches Some(nl) ==> (!starts_with(payload@.take(nl), magic())
            ==> (r matches Err(Error::InvalidFormat(m)) && m@ == "Invalid magic header"@)),
        seq_find(payload@, '\n') matches Some(nl) ==> (starts_with(payload@.take(nl), magic())
            && unseal_result(payload@) is None ==> (r matches Err(Error::Integrity(m)) && m@
            == "Data corrupted or tampered!"@)),
{
    let cs = chars_of(payload);
    let nl = match find_char(cs.as_slice(), '\n') {
        Some(i) => i,
        None => {
            return Err(Error::InvalidFormat("Missing header newline".to_string()));
        },
    };
    let header = slice_chars(cs.as_slice(), 0, nl);
    let json = slice_chars(cs.as_slice(), nl + 1, cs.len());
    assert(header@ =~= payload@.take(nl as int));
    assert(json@ =~= payload@.skip(nl + 1));
    let m = chars_of(header_magic());
    if !has_prefix(header.as_slice(), m.as_slice()) {
        return Err(Error::InvalidFormat("Invalid magic header".to_string()));
    }
    let label = chars_of(integrity_prefix());
    let after_magic = strip_all_prefixes(header.as_slice(), m.as_slice());
    let expected = strip_all_prefixes(after_magic.as_slice(), label.as_slice());
    let json_text = string_of(json.as_slice());
    let actual = sha256_hex(json_text.as_str());
    let actual_chars = chars_of(actual.as_str());
    if !chars_eq(expected.as_slice(), actual_chars.as_slice()) {
        return Err(Error::Integrity("Data corrupted or tampered!".to_string()));
    }
    Ok(json_text)
}

/// Unsealing the header of `payload` followed by `body` gives `body` when
/// its digest is that of `payload`, and fails otherwise.
proof fn lemma_unseal_under_header(payload: Seq<char>, body: Seq<char>)
    ensures
        unseal_result(seal_header(payload) + seq!['\n'] + body) == (if digest_text(body) == digest_text(payload) {
            Some(body)
        } else {
            None
        }),
        ({
            let s = seal_header(payload) + seq!['\n'] + body;
            seq_find(s, '\n') matches Some(nl) && starts_with(s.take(nl), magic())
        }),
{
    let h = digest_text(payload);
    let header = seal_header(payload);
    let s = header + seq!['\n'] + body;
    lemma_hex_chars(sha256_of(encode_utf8(payload)));
    let nl = header.len() as int;
    assert(s[nl] == '\n');
    assert forall|j: int| 0 <= j < nl implies s[j] != '\n' by {
        assert(s[j] == header[j]);
        if j >= magic().len() + sha_label().len() {
            assert(header[j] == h[j - magic().len() - sha_label().len()]);
            assert(is_hex_char(h[j - magic().len() - sha_label().len()]));
        }
    }
    lemma_find_at(s, '\n', nl);
    assert(s.take(nl) =~= header);
    assert(s.skip(nl + 1) =~= body);
    assert(header.subrange(0, magic().len() as int) =~= magic());
    let after = sha_label() + h;
    assert(header.skip(magic().len() as int) =~= after);
    assert(!starts_with(after, magic())) by {
        assert(after[0] == 'S');
    }
    assert(trim_start_matches(header, magic()) == after) by {
        reveal_with_fuel(trim_start_matches, 2);
    }
    assert(after.subrange(0, sha_label().len() as int) =~= sha_label());
    assert(after.skip(sha_label().len() as int) =~= h);
    assert(!starts_with(h, sha_label())) by {
        if starts_with(h, sha_label()) {
            assert(is_hex_char(h[0]));
            assert(h.subrange(0, 4)[0] == h[0]);
        }
    }
    assert(trim_start_matches(after, sha_label()) == h) by {
        reveal_with_fuel(trim_start_matches, 2);
    }
}

/// Sealing and then unsealing gives back the payload, whatever it holds.
pub proof fn law_unseal_seal(payload: Seq<char>)
    ensures
        unseal_result(sealed(payload)) == Some(payload),
{
    lemma_unseal_under_header(payload, payload);
}

/// Tampering is detected: when the text after a sealed header is replaced
/// by other text whose digest differs, unsealing fails, and the header
/// line still begins with the marker, so [`unseal`] answers with its
/// integrity error.
pub proof fn law_unseal_detects_tampering(payload: Seq<char>, other: Seq<char>)
    requires
        digest_text(other) != digest_text(payload),
    ensures
        unseal_result(seal_header(payload) + seq!['\n'] + other) is None,
        ({
            let s = seal_header(payload) + seq!['\n'] + other;
            seq_find(s, '\n') matches Some(nl) && starts_with(s.take(nl), magic())
        }),
{
    lemma_unseal_under_header(payload, other);
}

// ---------------------------------------------------------------------------
// Passphrase encryption
// ---------------------------------------------------------------------------

/// A failure reported by age, by the variant of `age_crypto::Error` that
/// carried it, with its message.
pub enum AgeFailure {
    Encrypt(String),
    Decrypt(String),
}

/// The plaintext that an age ciphertext holds under a passphrase: what
/// authenticated decryption with that passphrase yields, if anything.
pub uninterp spec fn age_plaintext(ciphertext: Seq<u8>, passphrase: Seq<char>) -> Option<Seq<u8>>;

/// `age_crypto::encrypt_with_passphrase`: on success the ciphertext holds
/// `plaintext` under `passphrase`. The ciphertext itself depends on random
/// salt and nonces and is not stated; neither is success.
#[verifier::external_body]
fn age_encrypt(plaintext: &[u8], passphrase: &str) -> (r: Result<Vec<u8>, AgeFailure>)
    ensures
        r matches Ok(c) ==> age_plaintext(c@, passphrase@) == Some(plaintext@),
{
    match age_crypto::encrypt_with_passphrase(plaintext, passphrase) {
        Ok(data) => Ok(data.to_vec()),
        Err(e @ age_crypto::Error::Encrypt(_)) => Err(AgeFailure::Encrypt(e.to_string())),
        Err(e @ age_crypto::Error::Decrypt(_)) => Err(AgeFailure::Decrypt(e.to_string())),
    }
}

/// `age_crypto::decrypt_with_passphrase`: on success the result is what
/// the ciphertext holds under `passphrase`. Whether it succeeds also
/// depends on the scrypt work limit that age measures on this machine, so
/// success is not stated.
/// Every failure of `decrypt_with_passphrase` (a ciphertext it cannot
/// read, a passphrase that opens nothing, a read that fails) is its
/// `Decrypt` variant.
#[verifier::external_body]
fn age_decrypt(ciphertext: &[u8], passphrase: &str) -> (r: Result<Vec<u8>, AgeFailure>)
    ensures
        r matches Ok(p) ==> age_plaintext(ciphertext@, passphrase@) == Some(p@),
        r is Err ==> r matches Err(AgeFailure::Decrypt(_)),
{
    match age_crypto::decrypt_with_passphrase(ciphertext, passphrase) {
        Ok(p) => Ok(p),
        Err(e @ age_crypto::Error::Encrypt(_)) => Err(AgeFailure::Encrypt(e.to_string())),
        Err(e @ age_crypto::Error::Decrypt(_)) => Err(AgeFailure::Decrypt(e.to_string())),
    }
}

/// `String::from_utf8`: the string when `bytes` are valid UTF-8.
#[verifier::external_body]
pub(crate) fn utf8_string(bytes: Vec<u8>) -> (r: Option<String>)
    ensures
        r is Some <==> valid_utf8(bytes@),
        r matches Some(s) ==> s@ == decode_utf8(bytes@),
{
    String::from_utf8(bytes).ok()
}

/// Seals `plaintext` and encrypts it with `passphrase`.
pub fn encrypt(plaintext: &str, passphrase: &str) -> (r: Result<Vec<u8>, Error>)
    ensures
        r matches Ok(c) ==> age_plaintext(c@, passphrase@) == Some(encode_utf8(sealed(plaintext@))),
        r matches Err(e) ==> e is Crypto,
{
    let sealed_text = seal(plaintext);
    match age_encrypt(sealed_text.as_str().as_bytes(), passphrase) {
        Ok(c) => Ok(c),
        Err(AgeFailure::Encrypt(m)) => Err(Error::Crypto(m)),
        Err(AgeFailure::Decrypt(m)) => Err(Error::Crypto(m)),
    }
}

/// What decrypting `ciphertext` with `passphrase` gives when it succeeds:
/// the unsealed text of the UTF-8 plaintext.
pub open spec fn decrypt_result(ciphertext: Seq<u8>, passphrase: Seq<char>) -> Option<Seq<char>> {
    match age_plaintext(ciphertext, passphrase) {
        Some(bytes) => if valid_utf8(bytes) {
            unseal_result(decode_utf8(bytes))
        } else {
            None
        },
        None => None,
    }
}

/// Whether `r` is what unsealing `payload` gives: the payload without its
/// header, or the error for a missing newline, a wrong marker or a digest
/// that does not match.
pub open spec fn unsealed_as(payload: Seq<char>, r: Result<String, Error>) -> bool {
    match seq_find(payload, '\n') {
        None => r matches Err(Error::InvalidFormat(m)) && m@ == "Missing header newline"@,
        Some(nl) => if !starts_with(payload.take(nl), magic()) {
            r matches Err(Error::InvalidFormat(m)) && m@ == "Invalid magic header"@
        } else {
            match unseal_result(payload) {
                Some(s) => r matches Ok(x) && x@ == s,
                None => r matches Err(Error::Integrity(m)) && m@ == "Data corrupted or tampered!"@,
            }
        },
    }
}

/// Whether `r` is what opening the decrypted `bytes` gives: an error when
/// they are not UTF-8, else what unsealing their text gives.
pub open spec fn opened_as(bytes: Seq<u8>, r: Result<String, Error>) -> bool {
    if !valid_utf8(bytes) {
        r matches Err(Error::InvalidFormat(m)) && m@ == "Payload is not UTF-8"@
    } else {
        unsealed_as(decode_utf8(bytes), r)
    }
}

/// Whether `r` is an answer of [`decrypt`]: a success holds the unsealed
/// plaintext; a failed age decryption is answered `InvalidPassword`; any
/// other answer is what opening the decrypted bytes gives. (Whether age
/// succeeds is not stated: its work limit for the passphrase's key is
/// measured on the machine.)
pub open spec fn decrypt_answer(ciphertext: Seq<u8>, passphrase: Seq<char>, r: Result<String, Error>) -> bool {
    &&& r matches Ok(s) ==> decrypt_result(ciphertext, passphrase) == Some(s@)
    &&& (r matches Err(Error::InvalidPassword)) || (age_plaintext(ciphertext, passphrase) matches Some(b) && opened_as(
        b,
        r,
    ))
    &&& age_plaintext(ciphertext, passphrase) is None ==> (r matches Err(Error::InvalidPassword))
}

/// Reads the bytes that decryption gave as UTF-8 text and unseals it.
pub fn open_plaintext(bytes: Vec<u8>) -> (r: Result<String, Error>)
    ensures
        opened_as(bytes@, r),
{
    let ghost b = bytes@;
    match utf8_string(bytes) {
        Some(s) => {
            let r = unseal(s.as_str());
            assert(unsealed_as(s@, r));
            r
        },
        None => Err(Error::InvalidFormat("Payload is not UTF-8".to_string())),
    }
}

/// Decrypts `ciphertext` with `passphrase` and checks its integrity header.
/// A failed decryption is answered with `InvalidPassword`; otherwise the
/// answer is what opening the decrypted bytes gives.
pub fn decrypt(ciphertext: &[u8], passphrase: &str) -> (r: Result<String, Error>)
    ensures
        decrypt_answer(ciphertext@, passphrase@, r),
{
    let plain = match age_decrypt(ciphertext, passphrase) {
        Ok(p) => p,
        Err(AgeFailure::Decrypt(_)) => {
            return Err(Error::InvalidPassword);
        },
        Err(AgeFailure::Encrypt(m)) => {
            return Err(Error::Crypto(m));
        },
    };
    open_plaintext(plain)
}

/// Decrypting what [`encrypt`] produced with the same passphrase gives back
/// the plaintext, or an error: never other data.
pub proof fn law_decrypt_encrypt(plaintext: Seq<char>, passphrase: Seq<char>, ciphertext: Seq<u8>)
    requires
        age_plaintext(ciphertext, passphrase) == Some(encode_utf8(sealed(plaintext))),
    ensures
        decrypt_result(ciphertext, passphrase) == Some(plaintext),
{
    vstd::utf8::encode_utf8_valid_utf8(sealed(plaintext));
    vstd::utf8::encode_utf8_decode_utf8(sealed(plaintext));
    law_unseal_seal(plaintext);
}

/// Decrypting, with the passphrase it was encrypted with, what holds the
/// sealed `plaintext` gives `plaintext` back, unless age refuses, which is
/// answered with `InvalidPassword`: no other data and no other error.
pub proof fn law_decrypt_answers_plaintext(
    plaintext: Seq<char>,
    passphrase: Seq<char>,
    ciphertext: Seq<u8>,
    r: Result<String, Error>,
)
    requires
        age_plaintext(ciphertext, passphrase) == Some(encode_utf8(sealed(plaintext))),
        decrypt_answer(ciphertext, passphrase, r),
    ensures
        (r matches Ok(s) && s@ == plaintext) || (r matches Err(Error::InvalidPassword)),
{
    law_decrypt_encrypt(plaintext, passphrase, ciphertext);
    vstd::utf8::encode_utf8_valid_utf8(sealed(plaintext));
    vstd::utf8::encode_utf8_decode_utf8(sealed(plaintext));
    lemma_unseal_under_header(plaintext, plaintext);
}

} // verus!
