//! Authenticated-encryption envelope: seals a byte payload under a 256-bit
//! shared key with a fresh random 96-bit nonce, and opens such envelopes.
//!
//! A sealed message is `nonce (12 bytes) || ciphertext || tag (16 bytes)`.

use vstd::prelude::*;

use crate::text::{chars_of, string_from_chars, trim_chars, trimmed};
use crate::ChannelError;

use base64::engine::general_purpose::STANDARD as BASE64_STANDARD;
use base64::Engine;
use chacha20poly1305::aead::{Aead, KeyInit, OsRng};
use chacha20poly1305::{ChaCha20Poly1305, Nonce};
use rand::RngCore;

verus! {

/// The ciphertext-with-tag that ChaCha20-Poly1305 produces for a given key,
/// nonce and plaintext. The cipher is deterministic in these three inputs;
/// this name stands for its (pages-long) definition.
pub uninterp spec fn aead_ct_of(key: Seq<u8>, nonce: Seq<u8>, plaintext: Seq<u8>) -> Seq<u8>;

/// `sealed` is an envelope that the key opens to `plaintext`: it carries a
/// 12-byte nonce followed by exactly the ciphertext-with-tag of `plaintext`
/// under that nonce.
pub open spec fn opens_to(key: Seq<u8>, sealed: Seq<u8>, plaintext: Seq<u8>) -> bool {
    &&& sealed.len() >= 12
    &&& aead_ct_of(key, sealed.take(12), plaintext) == sealed.skip(12)
}

/// Generates a random 256-bit encryption key.
///
/// Relies on `rand_core::OsRng` (re-exported by `chacha20poly1305::aead`):
/// `fill_bytes` fills the buffer from the operating system's secure random
/// source. Nothing can be promised of the value drawn.
#[verifier::external_body]
pub fn generate_key() -> [u8; 32] {
    let mut key = [0u8; 32];
    OsRng.fill_bytes(&mut key);
    key
}

/// Draws a fresh 12-byte nonce.
///
/// Relies on `rand_core::OsRng` (re-exported by `chacha20poly1305::aead`):
/// `fill_bytes` fills the buffer from the operating system's secure random
/// source. Only the length holds of every outcome.
#[verifier::external_body]
fn random_nonce() -> (r: Vec<u8>)
    ensures
        r@.len() == 12,
{
    let mut bytes = [0u8; 12];
    OsRng.fill_bytes(&mut bytes);
    bytes.to_vec()
}

/// Relies on `chacha20poly1305::ChaCha20Poly1305` through `aead::Aead::encrypt`:
/// ChaCha20-Poly1305 encryption is a deterministic function of key, nonce and
/// plaintext, producing `ciphertext || tag` with a 16-byte tag, and its only
/// failure is a block-counter guard first reachable at plaintexts of about
/// 2^38 bytes, which the precondition rules out.
#[verifier::external_body]
fn aead_seal(key: &[u8; 32], nonce: &[u8], plaintext: &[u8]) -> (r: Vec<u8>)
    requires
        nonce@.len() == 12,
        plaintext@.len() < 0x1_0000_0000,
    ensures
        r@ == aead_ct_of(key@, nonce@, plaintext@),
        r@.len() == plaintext@.len() + 16,
{
    let cipher = ChaCha20Poly1305::new(key.into());
    cipher
        .encrypt(Nonce::from_slice(nonce), plaintext)
        .expect("plaintext length is within the cipher's bound")
}

/// Relies on `chacha20poly1305::ChaCha20Poly1305` through `aead::Aead::decrypt`:
/// decryption recomputes the Poly1305 tag (a deterministic function of key,
/// nonce and ciphertext body) and, when it matches, inverts the keystream,
/// returning the unique plaintext whose encryption under this key and nonce
/// is exactly `ct`; it fails precisely when no plaintext encrypts to `ct`.
#[verifier::external_body]
fn aead_open(key: &[u8; 32], nonce: &[u8], ct: &[u8]) -> (r: Option<Vec<u8>>)
    requires
        nonce@.len() == 12,
    ensures
        match r {
            Some(p) => {
                &&& aead_ct_of(key@, nonce@, p@) == ct@
                &&& p@.len() + 16 == ct@.len()
                &&& forall|q: Seq<u8>| aead_ct_of(key@, nonce@, q) == ct@ ==> q == p@
            },
            None => forall|q: Seq<u8>| aead_ct_of(key@, nonce@, q) != ct@,
        },
{
    let cipher = ChaCha20Poly1305::new(key.into());
    cipher.decrypt(Nonce::from_slice(nonce), ct).ok()
}

/// Seals `data` under `key`: generates a fresh random nonce and returns
/// `nonce || ciphertext || tag`, an envelope that the same key opens back to
/// `data`. Never fails for inputs within the length bound.
pub fn encrypt(data: &[u8], key: &[u8; 32]) -> (r: Result<Vec<u8>, ChannelError>)
    requires
        data@.len() < 0x1_0000_0000,
    ensures
        r matches Ok(sealed) && sealed@.len() == data@.len() + 28 && opens_to(
            key@,
            sealed@,
            data@,
        ),
{
    let nonce = random_nonce();
    let mut ct = aead_seal(key, nonce.as_slice(), data);
    let mut sealed = nonce;
    let ghost nonce_seq = sealed@;
    let ghost ct_seq = ct@;
    sealed.append(&mut ct);
    proof {
        assert(sealed@.take(12) =~= nonce_seq);
        assert(sealed@.skip(12) =~= ct_seq);
    }
    Ok(sealed)
}

/// Opens a sealed envelope under `key`. Returns `MalformedInput` exactly when
/// the envelope is shorter than a nonce, `AuthenticationFailure` exactly when
/// no plaintext seals to it under this key (wrong key, or tampered bytes),
/// and otherwise the unique plaintext it was sealed from.
pub fn decrypt(encrypted_data: &[u8], key: &[u8; 32]) -> (r: Result<Vec<u8>, ChannelError>)
    ensures
        r matches Ok(p) ==> opens_to(key@, encrypted_data@, p@),
        forall|p: Seq<u8>|
            opens_to(key@, encrypted_data@, p) ==> (r matches Ok(q) && q@ == p),
        r matches Err(e) ==> if encrypted_data@.len() < 12 {
            e == ChannelError::MalformedInput
        } else {
            &&& e == ChannelError::AuthenticationFailure
            &&& forall|p: Seq<u8>| !opens_to(key@, encrypted_data@, p)
        },
{
    if encrypted_data.len() < 12 {
        return Err(ChannelError::MalformedInput);
    }
    let nonce = vstd::slice::slice_subrange(encrypted_data, 0, 12);
    let ct = vstd::slice::slice_subrange(encrypted_data, 12, encrypted_data.len());
    proof {
        assert(nonce@ =~= encrypted_data@.take(12));
        assert(ct@ =~= encrypted_data@.skip(12));
    }
    match aead_open(key, nonce, ct) {
        Some(p) => Ok(p),
        None => Err(ChannelError::AuthenticationFailure),
    }
}

/// The lowercase hex digit for a nibble.
pub open spec fn hex_digit(n: u8) -> char
    recommends
        n < 16,
{
    if n == 0 {
        '0'
    } else if n == 1 {
        '1'
    } else if n == 2 {
        '2'
    } else if n == 3 {
        '3'
    } else if n == 4 {
        '4'
    } else if n == 5 {
        '5'
    } else if n == 6 {
        '6'
    } else if n == 7 {
        '7'
    } else if n == 8 {
        '8'
    } else if n == 9 {
        '9'
    } else if n == 10 {
        'a'
    } else if n == 11 {
        'b'
    } else if n == 12 {
        'c'
    } else if n == 13 {
        'd'
    } else if n == 14 {
        'e'
    } else {
        'f'
    }
}

/// The nibble a hex digit stands for, either case accepted.
pub open spec fn hex_nibble(c: char) -> Option<u8> {
    if c == '0' {
        Some(0u8)
    } else if c == '1' {
        Some(1u8)
    } else if c == '2' {
        Some(2u8)
    } else if c == '3' {
        Some(3u8)
    } else if c == '4' {
        Some(4u8)
    } else if c == '5' {
        Some(5u8)
    } else if c == '6' {
        Some(6u8)
    } else if c == '7' {
        Some(7u8)
    } else if c == '8' {
        Some(8u8)
    } else if c == '9' {
        Some(9u8)
    } else if c == 'a' || c == 'A' {
        Some(10u8)
    } else if c == 'b' || c == 'B' {
        Some(11u8)
    } else if c == 'c' || c == 'C' {
        Some(12u8)
    } else if c == 'd' || c == 'D' {
        Some(13u8)
    } else if c == 'e' || c == 'E' {
        Some(14u8)
    } else if c == 'f' || c == 'F' {
        Some(15u8)
    } else {
        None
    }
}

/// The canonical (lowercase) hex spelling of a byte string.
pub open spec fn key_hex(k: Seq<u8>) -> Seq<char> {
    Seq::new(
        k.len() * 2,
        |i: int|
            if i % 2 == 0 {
                hex_digit(k[i / 2] >> 4)
            } else {
                hex_digit(k[i / 2] & 0xf)
            },
    )
}

/// `t` spells the 32-byte key `k` in hex, either case.
pub open spec fn is_hex_key(t: Seq<char>, k: Seq<u8>) -> bool {
    &&& t.len() == 64
    &&& k.len() == 32
    &&& forall|i: int|
        0 <= i < 32 ==> hex_nibble(t[2 * i]) == Some(k[i] >> 4) && hex_nibble(t[2 * i + 1])
            == Some(k[i] & 0xf)
}

/// The canonical spelling of a key does spell it: hex encoding round-trips.
pub proof fn lemma_key_hex_spells_key(k: Seq<u8>)
    requires
        k.len() == 32,
    ensures
        is_hex_key(key_hex(k), k),
{
    assert forall|i: int| 0 <= i < 32 implies hex_nibble(key_hex(k)[2 * i]) == Some(k[i] >> 4)
        && hex_nibble(key_hex(k)[2 * i + 1]) == Some(k[i] & 0xf) by {
        let b = k[i];
        assert(b >> 4 < 16 && b & 0xf < 16) by (bit_vector);
        assert((2 * i) / 2 == i && (2 * i + 1) / 2 == i);
    }
}

/// A hex text spells at most one key.
pub proof fn lemma_hex_key_unique(t: Seq<char>, k1: Seq<u8>, k2: Seq<u8>)
    requires
        is_hex_key(t, k1),
        is_hex_key(t, k2),
    ensures
        k1 == k2,
{
    assert forall|i: int| 0 <= i < 32 implies k1[i] == k2[i] by {
        let a = k1[i];
        let b = k2[i];
        assert(a >> 4 == b >> 4 && a & 0xf == b & 0xf ==> a == b) by (bit_vector);
    }
    assert(k1 =~= k2);
}

pub(crate) fn hex_digit_exec(n: u8) -> (r: char)
    requires
        n < 16,
    ensures
        r == hex_digit(n),
{
    match n {
        0 => '0',
        1 => '1',
        2 => '2',
        3 => '3',
        4 => '4',
        5 => '5',
        6 => '6',
        7 => '7',
        8 => '8',
        9 => '9',
        10 => 'a',
        11 => 'b',
        12 => 'c',
        13 => 'd',
        14 => 'e',
        _ => 'f',
    }
}

pub(crate) fn hex_nibble_exec(c: char) -> (r: Option<u8>)
    ensures
        r == hex_nibble(c),
        r matches Some(n) ==> n < 16,
{
    match c {
        '0' => Some(0),
        '1' => Some(1),
        '2' => Some(2),
        '3' => Some(3),
        '4' => Some(4),
        '5' => Some(5),
        '6' => Some(6),
        '7' => Some(7),
        '8' => Some(8),
        '9' => Some(9),
        'a' | 'A' => Some(10),
        'b' | 'B' => Some(11),
        'c' | 'C' => Some(12),
        'd' | 'D' => Some(13),
        'e' | 'E' => Some(14),
        'f' | 'F' => Some(15),
        _ => None,
    }
}

/// Relies on std's `TryInto` from a 32-byte slice to `[u8; 32]`: the array
/// holds exactly the slice's bytes.
#[verifier::external_body]
fn key_bytes_to_array(v: &Vec<u8>) -> (r: [u8; 32])
    requires
        v@.len() == 32,
    ensures
        r@ == v@,
{
    v.as_slice().try_into().expect("length checked by the caller")
}

/// Spells a key in lowercase hex, as it is stored in the key file.
pub fn key_to_hex(key: &[u8; 32]) -> (r: String)
    ensures
        r@ == key_hex(key@),
        r@.len() == 64,
{
    let mut out: Vec<char> = Vec::new();
    let mut i: usize = 0;
    while i < 32
        invariant
            i <= 32,
            out@.len() == 2 * i,
            forall|j: int| 0 <= j < out@.len() ==> out@[j] == key_hex(key@)[j],
        decreases 32 - i,
    {
        let b = key[i];
        proof {
            assert(b >> 4 < 16 && b & 0xf < 16) by (bit_vector);
            assert((2 * i as int) / 2 == i as int && (2 * i as int + 1) / 2 == i as int);
        }
        out.push(hex_digit_exec(b >> 4));
        out.push(hex_digit_exec(b & 0xf));
        i = i + 1;
    }
    proof {
        assert(out@ =~= key_hex(key@));
    }
    string_from_chars(&out)
}

/// Reads a key out of hex text, ignoring surrounding whitespace: `Some(k)`
/// exactly when the trimmed text is 64 hex digits spelling `k`.
pub fn key_from_hex(s: &str) -> (r: Option<[u8; 32]>)
    ensures
        match r {
            Some(k) => is_hex_key(trimmed(s@), k@),
            None => forall|k: Seq<u8>| !is_hex_key(trimmed(s@), k),
        },
{
    let raw = chars_of(s);
    let t = trim_chars(&raw);
    if t.len() != 64 {
        return None;
    }
    let mut kv: Vec<u8> = Vec::new();
    let mut i: usize = 0;
    while i < 32
        invariant
            i <= 32,
            t@.len() == 64,
            t@ == trimmed(s@),
            kv@.len() == i,
            forall|j: int|
                0 <= j < i ==> hex_nibble(t@[2 * j]) == Some(kv@[j] >> 4) && hex_nibble(
                    t@[2 * j + 1],
                ) == Some(kv@[j] & 0xf),
        decreases 32 - i,
    {
        let hi = match hex_nibble_exec(t[2 * i]) {
            Some(n) => n,
            None => {
                proof {
                    assert forall|k: Seq<u8>| !is_hex_key(trimmed(s@), k) by {
                        if is_hex_key(trimmed(s@), k) {
                            assert(hex_nibble(trimmed(s@)[2 * i as int]) == Some(k[i as int] >> 4));
                        }
                    }
                }
                return None;
            },
        };
        let lo = match hex_nibble_exec(t[2 * i + 1]) {
            Some(n) => n,
            None => {
                proof {
                    assert forall|k: Seq<u8>| !is_hex_key(trimmed(s@), k) by {
                        if is_hex_key(trimmed(s@), k) {
                            assert(hex_nibble(trimmed(s@)[2 * i as int + 1]) == Some(
                                k[i as int] & 0xf,
                            ));
                        }
                    }
                }
                return None;
            },
        };
        let b = (hi << 4) | lo;
        proof {
            let hi_ = hi;
            let lo_ = lo;
            assert(hi_ < 16 && lo_ < 16 ==> ((hi_ << 4) | lo_) >> 4 == hi_ && ((hi_ << 4) | lo_)
                & 0xf == lo_) by (bit_vector);
        }
        kv.push(b);
        i = i + 1;
    }
    Some(key_bytes_to_array(&kv))
}

/// The standard base64 spelling of a byte string. The alphabet and padding
/// are the RFC 4648 standard ones; this name stands for the encoding.
pub uninterp spec fn base64_of(bytes: Seq<u8>) -> Seq<char>;

/// Relies on `base64::engine::general_purpose::STANDARD.encode`: the output
/// is a function of the input bytes alone.
#[verifier::external_body]
fn b64_encode(data: &[u8]) -> (r: String)
    ensures
        r@ == base64_of(data@),
{
    BASE64_STANDARD.encode(data)
}

/// Relies on `base64::engine::general_purpose::STANDARD.decode`: with
/// canonical padding required and trailing bits rejected, decoding succeeds
/// exactly on canonical encodings and inverts `encode`.
#[verifier::external_body]
fn b64_decode(s: &str) -> (r: Option<Vec<u8>>)
    ensures
        match r {
            Some(v) => s@ == base64_of(v@) && forall|w: Seq<u8>| s@ == base64_of(w) ==> w == v@,
            None => forall|w: Seq<u8>| s@ != base64_of(w),
        },
{
    match BASE64_STANDARD.decode(s) {
        Ok(v) => Some(v),
        Err(_) => None,
    }
}

/// Seals `data` under `key` and spells the envelope in base64.
pub fn encrypt_to_base64(data: &[u8], key: &[u8; 32]) -> (r: Result<String, ChannelError>)
    requires
        data@.len() < 0x1_0000_0000,
    ensures
        r matches Ok(s) && exists|sealed: Seq<u8>|
            s@ == base64_of(sealed) && sealed.len() == data@.len() + 28 && opens_to(
                key@,
                sealed,
                data@,
            ),
{
    match encrypt(data, key) {
        Ok(sealed) => {
            let s = b64_encode(sealed.as_slice());
            proof {
                assert(s@ == base64_of(sealed@) && sealed@.len() == data@.len() + 28 && opens_to(
                    key@,
                    sealed@,
                    data@,
                ));
            }
            Ok(s)
        },
        Err(e) => Err(e),
    }
}

/// Reads a base64-spelled envelope and opens it under `key`: the inverse of
/// `encrypt_to_base64` with the same key.
pub fn decrypt_from_base64(encoded: &str, key: &[u8; 32]) -> (r: Result<Vec<u8>, ChannelError>)
    ensures
        r matches Ok(p) ==> exists|sealed: Seq<u8>|
            encoded@ == base64_of(sealed) && opens_to(key@, sealed, p@),
        forall|sealed: Seq<u8>, p: Seq<u8>|
            (encoded@ == base64_of(sealed) && opens_to(key@, sealed, p)) ==> (r matches Ok(q)
                && q@ == p),
        r matches Err(e) ==> ((forall|v: Seq<u8>| encoded@ != base64_of(v)) ==> e
            == ChannelError::MalformedInput),
        r matches Err(e) ==> (forall|v: Seq<u8>|
            encoded@ == base64_of(v) ==> (if v.len() < 12 {
                e == ChannelError::MalformedInput
            } else {
                e == ChannelError::AuthenticationFailure && (forall|p: Seq<u8>|
                    !opens_to(key@, v, p))
            })),
{
    match b64_decode(encoded) {
        Some(sealed) => decrypt(sealed.as_slice(), key),
        None => Err(ChannelError::MalformedInput),
    }
}

} // verus!
