//! Sealing a Telegram session for storage: base64 inside, a key stream over it, base64 outside.
//!
//! With an empty key the inner base64 is stored as it is.
use crate::base64;
use grammers_session::Session;
use std::string::FromUtf8Error;
use vstd::arithmetic::div_mod::*;
use vstd::prelude::*;
use vstd::utf8::*;

verus! {

/// The failure of `String::from_utf8`, carried and dropped.
#[verifier::external_type_specification]
#[verifier::external_body]
pub struct ExFromUtf8Error(FromUtf8Error);

/// `String::from_utf8` succeeds exactly on valid UTF-8, with the string that the bytes encode.
pub assume_specification[ String::from_utf8 ](vec: Vec<u8>) -> (r: Result<String, FromUtf8Error>)
    ensures
        r is Ok <==> valid_utf8(vec@),
        r matches Ok(s) ==> s@ == decode_utf8(vec@),
;

/// How many bytes of the key stream form one block.
pub const BLOCK: usize = 32;

/// The byte `b` with its bits turned left by three places.
pub open spec fn turned(b: u8) -> u8 {
    (b as int % 32 * 8 + b as int / 32) as u8
}

/// The sum of the three bytes, times `0x6d`, with some bits flipped; all modulo 256.
#[verifier::opaque]
pub open spec fn scrambled(key_byte: u8, counter: int, i: int) -> u8 {
    ((key_byte + counter + i) * 0x6d % 256) as u8 ^ 0xa3
}

/// Byte `i` of block `counter`, before mixing: the key is repeated along the block.
pub open spec fn raw_byte(key: Seq<u8>, counter: int, i: int) -> u8 {
    scrambled(key[i % key.len() as int], counter % 256, i)
}

/// Byte `i` of block `counter`: each byte but the first has the one before it added and is turned.
pub open spec fn mixed_byte(key: Seq<u8>, counter: int, i: int) -> u8
    decreases i,
{
    if i <= 0 {
        raw_byte(key, counter, 0)
    } else {
        turned(((raw_byte(key, counter, i) + mixed_byte(key, counter, i - 1)) % 256) as u8)
    }
}

/// Byte `j` of the key stream of `key`: the blocks follow each other; an empty key gives zeros.
pub open spec fn stream_byte(key: Seq<u8>, j: int) -> u8 {
    if key.len() == 0 {
        0
    } else {
        mixed_byte(key, j / BLOCK as int, j % BLOCK as int)
    }
}

/// The first `len` bytes of the key stream of `key`.
pub open spec fn keystream(key: Seq<u8>, len: nat) -> Seq<u8> {
    Seq::new(len, |j: int| stream_byte(key, j))
}

/// `data` with each byte combined, by exclusive or, with the byte of `mask` in the same place.
pub open spec fn xored(data: Seq<u8>, mask: Seq<u8>) -> Seq<u8> {
    Seq::new(data.len(), |i: int| data[i] ^ mask[i])
}

/// What `encrypt_session` makes of `raw` under `key`.
pub open spec fn encrypted(raw: Seq<char>, key: Seq<char>) -> Seq<char> {
    if key.len() == 0 {
        raw
    } else {
        let data = encode_utf8(raw);
        base64::encoded(xored(data, keystream(encode_utf8(key), data.len())))
    }
}

/// What `decrypt_session` makes of `stored` under `key`; `None` where no text comes out.
pub open spec fn decrypted(stored: Seq<char>, key: Seq<char>) -> Option<Seq<char>> {
    if key.len() == 0 {
        Some(stored)
    } else {
        let data = base64::decoded(stored);
        let plain = xored(data, keystream(encode_utf8(key), data.len()));
        if valid_utf8(plain) {
            Some(decode_utf8(plain))
        } else {
            None
        }
    }
}

fn turn(b: u8) -> (r: u8)
    ensures
        r == turned(b),
{
    b % 32 * 8 + b / 32
}

fn scramble(key_byte: u8, counter: u8, i: u8) -> (r: u8)
    ensures
        r == scrambled(key_byte, counter as int, i as int),
{
    let sum = key_byte.wrapping_add(counter).wrapping_add(i);
    proof {
        reveal(scrambled);
        let total = key_byte + counter + i;
        assert(sum == total % 256);
        lemma_mul_mod_noop_left(total, 0x6d, 256);
    }
    sum.wrapping_mul(0x6d) ^ 0xa3
}

/// The place before one that is not the head of a block lies in the same block.
proof fn lemma_place_before(j: int)
    requires
        0 < j,
        j % 32 != 0,
    ensures
        (j - 1) / 32 == j / 32,
        (j - 1) % 32 == j % 32 - 1,
{
}

/// Computes byte `i` of block `counter`, before mixing.
fn unmixed_byte(key: &[u8], counter: usize, i: usize) -> (r: u8)
    requires
        key@.len() > 0,
        i < BLOCK,
    ensures
        r == raw_byte(key@, counter as int, i as int),
{
    let at: usize = i % key.len();
    scramble(key[at], (counter % 256) as u8, i as u8)
}

/// A sum of two bytes that wraps round is the sum modulo 256.
proof fn lemma_wrapped_sum(a: u8, b: u8, sum: u8)
    requires
        sum == if a + b > 255 {
            a + b - 256
        } else {
            a + b
        },
    ensures
        sum == (a + b) % 256,
{
    if a + b > 255 {
        lemma_mod_add_multiples_vanish(a + b - 256, 256);
    }
}

/// Adds the byte before to an unmixed byte, and turns the sum.
fn mix(byte: u8, last: u8) -> (r: u8)
    ensures
        r == turned(((byte + last) % 256) as u8),
{
    let sum: u8 = byte.wrapping_add(last);
    assert(sum == (byte + last) % 256) by {
        lemma_wrapped_sum(byte, last, sum);
    }
    turn(sum)
}

/// Computes byte `j` of the key stream from the byte before it.
fn next_byte(key: &[u8], j: usize, last: u8) -> (r: u8)
    requires
        j > 0 ==> last == stream_byte(key@, j - 1),
    ensures
        r == stream_byte(key@, j as int),
{
    if key.len() == 0 {
        return 0;
    }
    let counter: usize = j / BLOCK;
    let i: usize = j % BLOCK;
    let byte = unmixed_byte(key, counter, i);
    if i == 0 {
        byte
    } else {
        proof {
            lemma_place_before(j as int);
        }
        mix(byte, last)
    }
}

/// Derives `len` bytes of key stream from `key`.
pub fn derive_keystream(key: &str, len: usize) -> (stream: Vec<u8>)
    ensures
        stream@ == keystream(encode_utf8(key@), len as nat),
{
    let key = key.as_bytes();
    let mut stream: Vec<u8> = Vec::new();
    let mut last: u8 = 0;
    let mut j: usize = 0;
    while j < len
        invariant
            j <= len,
            stream@ == keystream(key@, j as nat),
            j > 0 ==> last == stream_byte(key@, j - 1),
        decreases len - j,
    {
        last = next_byte(key, j, last);
        stream.push(last);
        j = j + 1;
    }
    stream
}

/// Combines `data` with `mask` byte by byte.
fn xor(data: &[u8], mask: &Vec<u8>) -> (r: Vec<u8>)
    requires
        data@.len() == mask@.len(),
    ensures
        r@ == xored(data@, mask@),
{
    let mut r: Vec<u8> = Vec::new();
    let mut i: usize = 0;
    while i < data.len()
        invariant
            i <= data@.len(),
            data@.len() == mask@.len(),
            r@ == xored(data@, mask@).take(i as int),
        decreases data@.len() - i,
    {
        r.push(data[i] ^ mask[i]);
        i = i + 1;
    }
    r
}

/// Encrypts the base64 text of a session; with an empty key the text is kept.
pub fn encrypt_session(raw_b64: &str, key: &str) -> (r: String)
    ensures
        r@ == encrypted(raw_b64@, key@),
{
    if key.is_empty() {
        return raw_b64.to_owned();
    }
    let data = raw_b64.as_bytes();
    let ks = derive_keystream(key, data.len());
    base64::b64encode(xor(data, &ks).as_slice())
}

/// Decrypts what `encrypt_session` stored; `None` where the bytes that come out are no text.
pub fn decrypt_session(stored: &str, key: &str) -> (r: Option<String>)
    ensures
        match r {
            Some(s) => decrypted(stored@, key@) == Some(s@),
            None => decrypted(stored@, key@) is None,
        },
{
    if key.is_empty() {
        return Some(stored.to_owned());
    }
    let data = base64::b64decode(stored);
    let ks = derive_keystream(key, data.len());
    match String::from_utf8(xor(data.as_slice(), &ks)) {
        Ok(s) => Some(s),
        Err(_) => None,
    }
}

/// Combining with the same mask twice changes nothing.
pub proof fn law_xor_undoes_itself(data: Seq<u8>, mask: Seq<u8>)
    ensures
        xored(xored(data, mask), mask) == data,
{
    assert forall|i: int| 0 <= i < data.len() implies #[trigger] xored(xored(data, mask), mask)[i]
        == data[i] by {
        let (d, m) = (data[i], mask[i]);
        assert((d ^ m) ^ m == d) by (bit_vector);
    }
    assert(xored(xored(data, mask), mask) =~= data);
}

/// Decrypting under the same key gives back every text that was encrypted.
pub proof fn law_decrypt_encrypt(raw: Seq<char>, key: Seq<char>)
    ensures
        decrypted(encrypted(raw, key), key) == Some(raw),
{
    if key.len() > 0 {
        let data = encode_utf8(raw);
        let mask = keystream(encode_utf8(key), data.len());
        base64::law_decode_encode(xored(data, mask));
        law_xor_undoes_itself(data, mask);
        encode_utf8_valid_utf8(raw);
        encode_utf8_decode_utf8(raw);
    }
}

/// A Telegram session of the client library, carried as it is.
#[verifier::external_type_specification]
#[verifier::external_body]
pub struct ExSession(Session);

/// The failure of `Session::load`, carried and dropped.
#[verifier::external_type_specification]
#[verifier::external_body]
pub struct ExSessionError(grammers_session::Error);

/// Whether `Session::load` accepts these bytes.
pub uninterp spec fn session_loads(data: Seq<u8>) -> bool;

/// A session together with the bytes that it was loaded from.
pub struct LoadedSession {
    session: Session,
    source: Ghost<Seq<u8>>,
}

impl LoadedSession {
    /// The bytes that the session was loaded from.
    pub closed spec fn loaded_from(&self) -> Seq<u8> {
        self.source@
    }

    /// The session itself.
    pub closed spec fn session(&self) -> Session {
        self.session
    }

    /// Hands out the session.
    pub fn into_session(self) -> (r: Session)
        ensures
            r == self.session(),
    {
        self.session
    }
}

/// `grammers_session::Session::load`: whether it succeeds depends on the bytes alone, and the
/// session that it returns is the one that these bytes describe. Nothing is said of what is inside
/// such a session.
#[verifier::external_body]
fn load(data: &[u8]) -> (r: Result<LoadedSession, grammers_session::Error>)
    ensures
        r is Ok <==> session_loads(data@),
        r matches Ok(s) ==> s.loaded_from() == data@,
{
    match Session::load(data) {
        Ok(session) => Ok(LoadedSession { session, source: Ghost(data@) }),
        Err(e) => Err(e),
    }
}

/// `grammers_session::Session::save`: the bytes that it writes can be loaded again. Which bytes
/// they are depends on the session's state behind its lock, so nothing more is said of them; the
/// length keeps the format's 32-bit counters from wrapping round.
#[verifier::external_body]
fn save(session: &Session) -> (r: Vec<u8>)
    ensures
        r@.len() <= u32::MAX ==> session_loads(r@),
{
    session.save()
}

/// The text under which the session bytes `data` are stored with `key`.
pub open spec fn sealed(data: Seq<u8>, key: Seq<char>) -> Seq<char> {
    encrypted(base64::encoded(data), key)
}

/// The session bytes that the stored text holds under `key`; `None` where it decrypts to no text.
pub open spec fn unsealed(stored: Seq<char>, key: Seq<char>) -> Option<Seq<u8>> {
    match decrypted(stored, key) {
        Some(raw) => Some(base64::decoded(raw)),
        None => None,
    }
}

/// Whether the stored text holds a session under `key`.
pub open spec fn restorable(stored: Seq<char>, key: Seq<char>) -> bool {
    unsealed(stored, key) matches Some(data) && session_loads(data)
}

/// Seals session bytes for storage.
pub fn seal(data: &[u8], key: &str) -> (r: String)
    ensures
        r@ == sealed(data@, key@),
{
    encrypt_session(base64::b64encode(data).as_str(), key)
}

/// Recovers session bytes from storage.
pub fn unseal(stored: &str, key: &str) -> (r: Option<Vec<u8>>)
    ensures
        match r {
            Some(data) => unsealed(stored@, key@) == Some(data@),
            None => unsealed(stored@, key@) is None,
        },
{
    match decrypt_session(stored, key) {
        Some(raw) => Some(base64::b64decode(raw.as_str())),
        None => None,
    }
}

/// The text under which a live session is stored.
pub fn stored_session(session: &Session, key: &str) -> (r: String)
    ensures
        exists|data: Seq<u8>|
            r@ == #[trigger] sealed(data, key@) && (data.len() <= u32::MAX ==> session_loads(data)),
{
    let data = save(session);
    seal(data.as_slice(), key)
}

/// The session that a stored text holds under `key`, where it holds one.
pub fn restore_session(stored: &str, key: &str) -> (r: Option<LoadedSession>)
    ensures
        r is Some <==> restorable(stored@, key@),
        r matches Some(s) ==> unsealed(stored@, key@) == Some(s.loaded_from()),
{
    let data = unseal(stored, key)?;
    match load(data.as_slice()) {
        Ok(session) => Some(session),
        Err(_) => None,
    }
}

/// Unsealing under the same key gives back the bytes that were sealed.
pub proof fn law_unseal_seal(data: Seq<u8>, key: Seq<char>)
    ensures
        unsealed(sealed(data, key), key) == Some(data),
{
    law_decrypt_encrypt(base64::encoded(data), key);
    base64::law_decode_encode(data);
}

/// What is stored of session bytes that can be loaded is restored under the same key.
pub proof fn law_sealed_session_restores(data: Seq<u8>, key: Seq<char>)
    requires
        session_loads(data),
    ensures
        restorable(sealed(data, key), key),
{
    law_unseal_seal(data, key);
}

/// Every byte of the key stream comes from the key, to the end of the stream. The byte at the head
/// of a block of 32 is made of the first key byte and the number of the block; each other byte of
/// the block is made of its place, of the key byte in turn and of the byte before it, with the bits
/// turned left by three. Only an empty key gives zeros.
pub proof fn law_keystream(key: Seq<u8>, len: nat, j: int)
    requires
        0 <= j < len,
    ensures
        keystream(key, len).len() == len,
        key.len() == 0 ==> keystream(key, len)[j] == 0,
        key.len() > 0 ==> {
            let raw = ((key[j % 32 % key.len() as int] + j / 32 + j % 32) * 0x6d % 256) as u8
                ^ 0xa3u8;
            if j % 32 == 0 {
                &&& keystream(key, len)[j] == raw
                &&& keystream(key, len)[j] == ((key[0] + j / 32) * 0x6d % 256) as u8 ^ 0xa3u8
            } else {
                let sum = (raw + keystream(key, len)[j - 1]) % 256;
                keystream(key, len)[j] == sum % 32 * 8 + sum / 32
            }
        },
{
    if key.len() > 0 {
        let counter = j / 32;
        let i = j % 32;
        let b = key[i % key.len() as int];
        reveal(scrambled);
        lemma_counter_wraps(b as int + i, counter);
        assert(raw_byte(key, counter, i) == ((b + counter + i) * 0x6d % 256) as u8 ^ 0xa3u8);
        if i > 0 {
            lemma_place_before(j);
        } else {
            lemma_small_mod(0, key.len());
        }
    }
}

proof fn lemma_counter_wraps(b: int, counter: int)
    ensures
        (b + counter % 256) * 0x6d % 256 == (b + counter) * 0x6d % 256,
{
    let wraps = counter / 256;
    assert((b + counter) * 0x6d == (b + counter % 256) * 0x6d + 256 * (wraps * 0x6d));
}

/// The key stream of a longer text begins with that of a shorter one.
pub proof fn law_keystream_prefix(key: Seq<u8>, m: nat, n: nat)
    requires
        m <= n,
    ensures
        keystream(key, n).take(m as int) == keystream(key, m),
{
    assert(keystream(key, n).take(m as int) =~= keystream(key, m));
}

/// Without a key the text is stored as it is. With one, every byte of it is combined with the byte
/// of the key stream in the same place, from the first to the last, and the outcome is stored as
/// base64.
pub proof fn law_every_byte_is_encrypted(raw: Seq<char>, key: Seq<char>, data: Seq<u8>)
    requires
        data.len() == encode_utf8(raw).len(),
        forall|i: int|
            0 <= i < data.len() ==> #[trigger] data[i] == encode_utf8(raw)[i] ^ keystream(
                encode_utf8(key),
                data.len(),
            )[i],
    ensures
        key.len() == 0 ==> encrypted(raw, key) == raw,
        key.len() > 0 ==> encrypted(raw, key) == base64::encoded(data),
        key.len() > 0 ==> base64::decoded(encrypted(raw, key)) == data,
{
    let plain = encode_utf8(raw);
    assert(xored(plain, keystream(encode_utf8(key), plain.len())) =~= data);
    base64::law_decode_encode(data);
}

/// Without a key the stored text is read as it is. With one, every byte of its base64 is combined
/// with the byte of the key stream in the same place, and the outcome is read as text, where it is
/// valid UTF-8.
pub proof fn law_every_byte_is_decrypted(stored: Seq<char>, key: Seq<char>, plain: Seq<u8>)
    requires
        plain.len() == base64::decoded(stored).len(),
        forall|i: int|
            0 <= i < plain.len() ==> #[trigger] plain[i] == base64::decoded(stored)[i] ^ keystream(
                encode_utf8(key),
                plain.len(),
            )[i],
    ensures
        key.len() == 0 ==> decrypted(stored, key) == Some(stored),
        key.len() > 0 && valid_utf8(plain) ==> decrypted(stored, key) == Some(decode_utf8(plain)),
        key.len() > 0 && !valid_utf8(plain) ==> decrypted(stored, key) is None,
{
    let data = base64::decoded(stored);
    assert(xored(data, keystream(encode_utf8(key), data.len())) =~= plain);
}

/// What is stored of session bytes is their base64, encrypted; and the bytes that a stored text
/// holds are those that its decrypted base64 stands for, where it decrypts at all.
pub proof fn law_session_layers(data: Seq<u8>, stored: Seq<char>, key: Seq<char>)
    ensures
        sealed(data, key) == encrypted(base64::encoded(data), key),
        match decrypted(stored, key) {
            Some(raw) => unsealed(stored, key) == Some(base64::decoded(raw)) && (restorable(
                stored,
                key,
            ) <==> session_loads(base64::decoded(raw))),
            None => unsealed(stored, key) is None && !restorable(stored, key),
        },
{
}

} // verus!
