//! The fallback copy of the SSH private key: a XOR of the key's UTF-8
//! bytes with a machine-derived 32-byte key, hex encoded behind the
//! `xor-v1:` marker.

use vstd::prelude::*;
use vstd::utf8::*;
use vstd::string::StringExecFns;
use crate::text::push_char;
use crate::config::Config;

verus! {

/// Why a stored fallback value could not be turned back into a key.
#[derive(Debug, Clone, Copy, PartialEq, Eq, Structural)]
pub enum FallbackError {
    /// The hex payload has an odd number of bytes.
    OddHexLength,
    /// The hex payload holds a byte that is no hex digit.
    InvalidHexDigit,
    /// The decrypted bytes are not valid UTF-8.
    InvalidUtf8,
}

/// The lowercase hex digit of `v` (for `0 <= v < 16`).
pub open spec fn hex_digit(v: int) -> char {
    seq!['0', '1', '2', '3', '4', '5', '6', '7', '8', '9', 'a', 'b', 'c', 'd', 'e', 'f'][v]
}

/// Lowercase hex encoding: two digits per byte, high nibble first.
pub open spec fn spec_hex_encode(data: Seq<u8>) -> Seq<char>
    decreases data.len(),
{
    if data.len() == 0 {
        Seq::empty()
    } else {
        spec_hex_encode(data.drop_last()) + seq![
            hex_digit((data.last() / 16) as int),
            hex_digit((data.last() % 16) as int),
        ]
    }
}

/// The value of a hex digit byte (`0-9`, `a-f`, `A-F`), if it is one.
pub open spec fn spec_hex_val(b: u8) -> Option<u8> {
    if 48 <= b <= 57 {
        Some((b - 48) as u8)
    } else if 97 <= b <= 102 {
        Some((b - 87) as u8)
    } else if 65 <= b <= 70 {
        Some((b - 55) as u8)
    } else {
        None
    }
}

/// Decoding of the pairs of hex digits in `b` (whose length is even):
/// `None` when some byte is no hex digit.
pub open spec fn decode_hex_pairs(b: Seq<u8>) -> Option<Seq<u8>>
    decreases b.len(),
{
    if b.len() < 2 {
        Some(Seq::empty())
    } else {
        match (
            decode_hex_pairs(b.take(b.len() - 2)),
            spec_hex_val(b[b.len() - 2]),
            spec_hex_val(b[b.len() - 1]),
        ) {
            (Some(rest), Some(hi), Some(lo)) => Some(rest.push((hi * 16 + lo) as u8)),
            _ => None,
        }
    }
}

/// Hex decoding of the bytes `b`.
pub open spec fn spec_hex_decode(b: Seq<u8>) -> Result<Seq<u8>, FallbackError> {
    if b.len() % 2 != 0 {
        Err(FallbackError::OddHexLength)
    } else {
        match decode_hex_pairs(b) {
            Some(d) => Ok(d),
            None => Err(FallbackError::InvalidHexDigit),
        }
    }
}

fn hex_digit_char(v: u8) -> (c: char)
    requires
        v < 16,
    ensures
        c == hex_digit(v as int),
{
    let table: [char; 16] = [
        '0', '1', '2', '3', '4', '5', '6', '7', '8', '9', 'a', 'b', 'c', 'd', 'e', 'f',
    ];
    assert(table@ =~= seq![
        '0', '1', '2', '3', '4', '5', '6', '7', '8', '9', 'a', 'b', 'c', 'd', 'e', 'f',
    ]);
    table[v as usize]
}

/// Encodes `data` as lowercase hex.
pub fn hex_encode(data: &[u8]) -> (out: String)
    ensures
        out@ == spec_hex_encode(data@),
{
    let mut out = String::new();
    let mut i: usize = 0;
    assert(data@.take(0) =~= Seq::<u8>::empty());
    while i < data.len()
        invariant
            i <= data.len(),
            out@ == spec_hex_encode(data@.take(i as int)),
        decreases data.len() - i,
    {
        let byte = data[i];
        let hi = byte >> 4;
        let lo = byte & 0x0f;
        assert(hi == byte / 16 && lo == byte % 16) by (bit_vector)
            requires
                hi == byte >> 4,
                lo == byte & 0x0f,
        ;
        push_char(&mut out, hex_digit_char(hi));
        push_char(&mut out, hex_digit_char(lo));
        assert(data@.take(i + 1).drop_last() =~= data@.take(i as int));
        i = i + 1;
    }
    assert(data@.take(data.len() as int) =~= data@);
    out
}

/// The value of one hex digit byte.
pub fn hex_val(byte: u8) -> (r: Result<u8, FallbackError>)
    ensures
        r == (match spec_hex_val(byte) {
            Some(v) => Ok(v),
            None => Err(FallbackError::InvalidHexDigit),
        }),
{
    // '0'..='9' are 48..=57, 'a'..='f' are 97..=102, 'A'..='F' are 65..=70.
    if 48 <= byte && byte <= 57 {
        Ok(byte - 48)
    } else if 97 <= byte && byte <= 102 {
        Ok(byte - 87)
    } else if 65 <= byte && byte <= 70 {
        Ok(byte - 55)
    } else {
        Err(FallbackError::InvalidHexDigit)
    }
}

proof fn lemma_decode_pairs_err_extends(b: Seq<u8>, k: int)
    requires
        0 <= k <= b.len(),
        k % 2 == 0,
        b.len() % 2 == 0,
        decode_hex_pairs(b.take(k)) is None,
    ensures
        decode_hex_pairs(b) is None,
    decreases b.len() - k,
{
    if k == b.len() {
        assert(b.take(k) =~= b);
    } else {
        let b2 = b.take(k + 2);
        assert(b2.take(b2.len() - 2) =~= b.take(k));
        lemma_decode_pairs_err_extends(b, k + 2);
    }
}

/// Hex decoding of `bytes[from..]`.
fn hex_decode_from(bytes: &[u8], from: usize) -> (r: Result<Vec<u8>, FallbackError>)
    requires
        from <= bytes.len(),
    ensures
        match r {
            Ok(v) => spec_hex_decode(bytes@.skip(from as int)) == Ok::<Seq<u8>, FallbackError>(v@),
            Err(e) => spec_hex_decode(bytes@.skip(from as int)) == Err::<Seq<u8>, FallbackError>(e),
        },
{
    let ghost b = bytes@.skip(from as int);
    let n = bytes.len() - from;
    if n % 2 != 0 {
        return Err(FallbackError::OddHexLength);
    }
    let mut out: Vec<u8> = Vec::new();
    let mut i: usize = 0;
    assert(b.take(0) =~= Seq::<u8>::empty());
    while i < n
        invariant
            n == b.len(),
            b == bytes@.skip(from as int),
            from + n == bytes.len(),
            n % 2 == 0,
            i % 2 == 0,
            i <= n,
            decode_hex_pairs(b.take(i as int)) == Some(out@),
        decreases n - i,
    {
        let ghost t = b.take(i + 2);
        assert(t.take(t.len() - 2) =~= b.take(i as int));
        assert(t[t.len() - 2] == bytes[from + i]);
        assert(t[t.len() - 1] == bytes[from + i + 1]);
        let hi = match hex_val(bytes[from + i]) {
            Ok(v) => v,
            Err(e) => {
                proof {
                    lemma_decode_pairs_err_extends(b, i + 2);
                }
                return Err(e);
            },
        };
        let lo = match hex_val(bytes[from + i + 1]) {
            Ok(v) => v,
            Err(e) => {
                proof {
                    lemma_decode_pairs_err_extends(b, i + 2);
                }
                return Err(e);
            },
        };
        out.push((hi << 4) | lo);
        assert((hi << 4) | lo == (hi * 16 + lo) as u8) by (bit_vector)
            requires
                hi < 16,
                lo < 16,
        ;
        i = i + 2;
    }
    assert(b.take(n as int) =~= b);
    Ok(out)
}

/// Decodes the hex string `value` into bytes.
pub fn hex_decode(value: &str) -> (r: Result<Vec<u8>, FallbackError>)
    ensures
        match r {
            Ok(v) => spec_hex_decode(encode_utf8(value@)) == Ok::<Seq<u8>, FallbackError>(v@),
            Err(e) => spec_hex_decode(encode_utf8(value@)) == Err::<Seq<u8>, FallbackError>(e),
        },
{
    let bytes = value.as_bytes();
    assert(bytes@.skip(0) =~= bytes@);
    hex_decode_from(bytes, 0)
}


/// The bytes of `s` taken one per character, as ASCII text is encoded.
pub open spec fn ascii_bytes(s: Seq<char>) -> Seq<u8> {
    Seq::new(s.len(), |i: int| s[i] as u8)
}

proof fn lemma_hex_encode_ascii(d: Seq<u8>)
    ensures
        is_ascii_chars(spec_hex_encode(d)),
        spec_hex_encode(d).len() == 2 * d.len(),
    decreases d.len(),
{
    if d.len() > 0 {
        lemma_hex_encode_ascii(d.drop_last());
        let h = spec_hex_encode(d);
        let h0 = spec_hex_encode(d.drop_last());
        assert forall|i| 0 <= i < h.len() implies '\0' <= #[trigger] h[i] <= '\u{7f}' by {
            if i < h0.len() {
                assert(h[i] == h0[i]);
            }
        }
    }
}

proof fn lemma_encode_utf8_of_hex(d: Seq<u8>)
    ensures
        encode_utf8(spec_hex_encode(d)) == ascii_bytes(spec_hex_encode(d)),
{
    let h = spec_hex_encode(d);
    lemma_hex_encode_ascii(d);
    is_ascii_chars_encode_utf8(h);
    assert(encode_utf8(h) =~= ascii_bytes(h));
}

proof fn lemma_hex_digit_val(v: int)
    requires
        0 <= v < 16,
    ensures
        spec_hex_val(hex_digit(v) as u8) == Some(v as u8),
{
}

proof fn lemma_decode_hex_of_encode(d: Seq<u8>)
    ensures
        decode_hex_pairs(ascii_bytes(spec_hex_encode(d))) == Some(d),
    decreases d.len(),
{
    let b = ascii_bytes(spec_hex_encode(d));
    lemma_hex_encode_ascii(d);
    if d.len() == 0 {
        assert(d =~= Seq::<u8>::empty());
    } else {
        let d0 = d.drop_last();
        lemma_hex_encode_ascii(d0);
        lemma_decode_hex_of_encode(d0);
        let x = d.last();
        let hi = (x / 16) as int;
        let lo = (x % 16) as int;
        assert(b.take(b.len() - 2) =~= ascii_bytes(spec_hex_encode(d0)));
        lemma_hex_digit_val(hi);
        lemma_hex_digit_val(lo);
        assert(b[b.len() - 2] == hex_digit(hi) as u8);
        assert(b[b.len() - 1] == hex_digit(lo) as u8);
        assert(((hi * 16 + lo) as u8) == x);
        assert(d0.push(x) =~= d);
    }
}

/// Hex decoding undoes hex encoding: decoding the (ASCII) text that
/// `hex_encode` produces for `data` gives `data` back.
pub proof fn law_hex_roundtrip(data: Seq<u8>)
    ensures
        spec_hex_decode(encode_utf8(spec_hex_encode(data))) == Ok::<Seq<u8>, FallbackError>(data),
{
    lemma_encode_utf8_of_hex(data);
    lemma_hex_encode_ascii(data);
    lemma_decode_hex_of_encode(data);
    assert((2 * data.len()) % 2 == 0) by (nonlinear_arith);
}

/// `b` with its ASCII capital letters made lowercase.
pub open spec fn ascii_lowercase(b: Seq<u8>) -> Seq<u8> {
    Seq::new(b.len(), |i: int| if 65 <= b[i] <= 90 { (b[i] + 32) as u8 } else { b[i] })
}

proof fn lemma_digit_of_val(c: u8)
    requires
        spec_hex_val(c) is Some,
    ensures
        hex_digit(spec_hex_val(c)->0 as int) as u8 == (if 65 <= c <= 90 { (c + 32) as u8 } else { c }),
{
}

proof fn lemma_encode_of_decode(b: Seq<u8>)
    requires
        b.len() % 2 == 0,
        decode_hex_pairs(b) is Some,
    ensures
        ascii_bytes(spec_hex_encode(decode_hex_pairs(b)->0)) == ascii_lowercase(b),
    decreases b.len(),
{
    if b.len() < 2 {
        assert(ascii_lowercase(b) =~= Seq::<u8>::empty());
        assert(ascii_bytes(spec_hex_encode(Seq::<u8>::empty())) =~= Seq::<u8>::empty());
    } else {
        let n = b.len() as int;
        let front = b.take(n - 2);
        lemma_encode_of_decode(front);
        let rest = decode_hex_pairs(front)->0;
        let hi = spec_hex_val(b[n - 2])->0;
        let lo = spec_hex_val(b[n - 1])->0;
        let x = (hi * 16 + lo) as u8;
        let v = rest.push(x);
        assert(decode_hex_pairs(b)->0 == v);
        assert(v.drop_last() =~= rest);
        assert(x / 16 == hi && x % 16 == lo);
        lemma_digit_of_val(b[n - 2]);
        lemma_digit_of_val(b[n - 1]);
        lemma_hex_encode_ascii(rest);
        lemma_hex_encode_ascii(v);
        assert(ascii_lowercase(front).len() == n - 2);
        assert(spec_hex_encode(v) == spec_hex_encode(rest) + seq![
            hex_digit((x / 16) as int),
            hex_digit((x % 16) as int),
        ]);
        assert(ascii_bytes(spec_hex_encode(v)) =~= ascii_lowercase(b)) by {
            let e = ascii_bytes(spec_hex_encode(v));
            let e0 = ascii_bytes(spec_hex_encode(rest));
            assert(e.len() == n);
            assert forall|i: int| 0 <= i < n implies e[i] == ascii_lowercase(b)[i] by {
                if i < n - 2 {
                    assert(e[i] == e0[i]);
                    assert(ascii_lowercase(front)[i] == ascii_lowercase(b)[i]);
                }
            }
        }
    }
}

/// Hex encoding undoes hex decoding, up to case: re-encoding what was
/// decoded from some text gives that text in lowercase.
pub proof fn law_hex_decode_then_encode(text: Seq<u8>)
    ensures
        spec_hex_decode(text) matches Ok(data) ==> encode_utf8(spec_hex_encode(data))
            == ascii_lowercase(text),
{
    if let Ok(data) = spec_hex_decode(text) {
        lemma_encode_of_decode(text);
        lemma_encode_utf8_of_hex(data);
    }
}

/// The marker in front of an encrypted fallback value: `xor-v1:`.
pub open spec fn fallback_prefix() -> Seq<char> {
    seq!['x', 'o', 'r', '-', 'v', '1', ':']
}

/// The UTF-8 bytes of the marker `xor-v1:`.
pub open spec fn fallback_prefix_bytes() -> Seq<u8> {
    seq![120u8, 111u8, 114u8, 45u8, 118u8, 49u8, 58u8]
}

/// `data` XORed byte by byte with `key`, repeated as often as needed.
pub open spec fn spec_xor_key(data: Seq<u8>, key: Seq<u8>) -> Seq<u8> {
    Seq::new(data.len(), |i: int| data[i] ^ key[i % (key.len() as int)])
}

/// The stored form of the key text `plain` under the machine key `key`.
pub open spec fn spec_encrypt(plain: Seq<char>, key: Seq<u8>) -> Seq<char> {
    fallback_prefix() + spec_hex_encode(spec_xor_key(encode_utf8(plain), key))
}

/// The key text recovered from the stored form `value`: a value without
/// the `xor-v1:` marker is taken as the key itself.
pub open spec fn spec_decrypt(value: Seq<char>, key: Seq<u8>) -> Result<Seq<char>, FallbackError> {
    let b = encode_utf8(value);
    if b.len() >= 7 && b.take(7) == fallback_prefix_bytes() {
        match spec_hex_decode(b.skip(7)) {
            Ok(d) => {
                let x = spec_xor_key(d, key);
                if valid_utf8(x) {
                    Ok(decode_utf8(x))
                } else {
                    Err(FallbackError::InvalidUtf8)
                }
            },
            Err(e) => Err(e),
        }
    } else {
        Ok(value)
    }
}

fn xor_with_key(data: &[u8], key: &[u8; 32]) -> (out: Vec<u8>)
    ensures
        out@ == spec_xor_key(data@, key@),
{
    let mut out: Vec<u8> = Vec::new();
    let mut i: usize = 0;
    while i < data.len()
        invariant
            i <= data.len(),
            key@.len() == 32,
            out@ =~= spec_xor_key(data@, key@).take(i as int),
        decreases data.len() - i,
    {
        out.push(data[i] ^ key[i % 32]);
        i = i + 1;
    }
    out
}

/// Builds a `String` from bytes that must form valid UTF-8
/// (`String::from_utf8`).
///
/// Trusted: std documents that `from_utf8` succeeds exactly when the bytes
/// are valid UTF-8, and that the string then holds those bytes; `valid_utf8`
/// and `decode_utf8` are vstd's statement of that encoding.
#[verifier::external_body]
fn string_from_utf8(bytes: Vec<u8>) -> (r: Option<String>)
    ensures
        r is Some <==> valid_utf8(bytes@),
        r matches Some(s) ==> s@ == decode_utf8(bytes@),
{
    String::from_utf8(bytes).ok()
}

/// Encrypts the key text `plain` for the configuration file.
pub fn encrypt(plain: &str, key: &[u8; 32]) -> (out: String)
    ensures
        out@ == spec_encrypt(plain@, key@),
{
    let data = xor_with_key(plain.as_bytes(), key);
    let hex = hex_encode(data.as_slice());
    let mut out = String::new();
    push_char(&mut out, 'x');
    push_char(&mut out, 'o');
    push_char(&mut out, 'r');
    push_char(&mut out, '-');
    push_char(&mut out, 'v');
    push_char(&mut out, '1');
    push_char(&mut out, ':');
    assert(out@ =~= fallback_prefix());
    out.append(hex.as_str());
    out
}

/// Recovers the key text from its stored form `value`.
pub fn decrypt(value: &str, key: &[u8; 32]) -> (r: Result<String, FallbackError>)
    ensures
        match r {
            Ok(s) => spec_decrypt(value@, key@) == Ok::<Seq<char>, FallbackError>(s@),
            Err(e) => spec_decrypt(value@, key@) == Err::<Seq<char>, FallbackError>(e),
        },
{
    let bytes = value.as_bytes();
    let has_prefix = bytes.len() >= 7 && bytes[0] == 120 && bytes[1] == 111 && bytes[2] == 114
        && bytes[3] == 45 && bytes[4] == 118 && bytes[5] == 49 && bytes[6] == 58;
    proof {
        if bytes@.len() >= 7 {
            if has_prefix {
                assert(bytes@.take(7) =~= fallback_prefix_bytes());
            } else {
                assert(bytes@.take(7) != fallback_prefix_bytes()) by {
                    if bytes@.take(7) == fallback_prefix_bytes() {
                        assert(bytes@.take(7)[0] == bytes@[0]);
                        assert(bytes@.take(7)[1] == bytes@[1]);
                        assert(bytes@.take(7)[2] == bytes@[2]);
                        assert(bytes@.take(7)[3] == bytes@[3]);
                        assert(bytes@.take(7)[4] == bytes@[4]);
                        assert(bytes@.take(7)[5] == bytes@[5]);
                        assert(bytes@.take(7)[6] == bytes@[6]);
                    }
                }
            }
        }
    }
    if has_prefix {
        let data = hex_decode_from(bytes, 7)?;
        let plain = xor_with_key(data.as_slice(), key);
        match string_from_utf8(plain) {
            Some(s) => Ok(s),
            None => Err(FallbackError::InvalidUtf8),
        }
    } else {
        Ok(value.to_owned())
    }
}

proof fn lemma_xor_twice(data: Seq<u8>, key: Seq<u8>)
    requires
        key.len() > 0,
    ensures
        spec_xor_key(spec_xor_key(data, key), key) == data,
{
    let once = spec_xor_key(data, key);
    assert forall|i| 0 <= i < data.len() implies #[trigger] spec_xor_key(once, key)[i] == data[i] by {
        let a = data[i];
        let k = key[i % (key.len() as int)];
        assert((a ^ k) ^ k == a) by (bit_vector);
    }
    assert(spec_xor_key(once, key) =~= data);
}

/// Decryption undoes encryption: under the same machine key, the stored
/// form of any key text decrypts to that text.
pub proof fn law_decrypt_encrypt(plain: Seq<char>, key: Seq<u8>)
    requires
        key.len() == 32,
    ensures
        spec_decrypt(spec_encrypt(plain, key), key) == Ok::<Seq<char>, FallbackError>(plain),
{
    let x = spec_xor_key(encode_utf8(plain), key);
    let h = spec_hex_encode(x);
    let v = spec_encrypt(plain, key);
    lemma_hex_encode_ascii(x);
    assert(is_ascii_chars(fallback_prefix()));
    is_ascii_chars_concat(v, fallback_prefix(), h);
    is_ascii_chars_encode_utf8(v);
    let b = encode_utf8(v);
    assert(b.take(7) =~= fallback_prefix_bytes());
    lemma_encode_utf8_of_hex(x);
    assert(b.skip(7) =~= encode_utf8(h));
    law_hex_roundtrip(x);
    lemma_xor_twice(encode_utf8(plain), key);
    encode_utf8_valid_utf8(plain);
    encode_utf8_decode_utf8(plain);
}


/// What the stored form holds: it is the marker `xor-v1:` followed by hex
/// text whose decoded bytes are the key text's UTF-8 bytes, byte `i`
/// XORed with byte `i mod 32` of the 32-byte machine key, so that every
/// byte of the machine key is used.
pub proof fn law_encrypt_payload(plain: Seq<char>, key: Seq<u8>)
    requires
        key.len() == 32,
    ensures
        encode_utf8(spec_encrypt(plain, key)).take(7) == seq![120u8, 111u8, 114u8, 45u8, 118u8, 49u8, 58u8],
        spec_hex_decode(encode_utf8(spec_encrypt(plain, key)).skip(7)) matches Ok(d) && d.len()
            == encode_utf8(plain).len() && forall|i: int|
            0 <= i < d.len() ==> #[trigger] d[i] == encode_utf8(plain)[i] ^ key[i % 32],
{
    let x = spec_xor_key(encode_utf8(plain), key);
    let h = spec_hex_encode(x);
    let v = spec_encrypt(plain, key);
    lemma_hex_encode_ascii(x);
    assert(is_ascii_chars(fallback_prefix()));
    is_ascii_chars_concat(v, fallback_prefix(), h);
    is_ascii_chars_encode_utf8(v);
    let b = encode_utf8(v);
    assert(b.take(7) =~= fallback_prefix_bytes());
    lemma_encode_utf8_of_hex(x);
    assert(b.skip(7) =~= encode_utf8(h));
    law_hex_roundtrip(x);
}

/// 64-bit FNV-1a hash of `data`.
pub open spec fn spec_fnv1a64(data: Seq<u8>) -> u64
    decreases data.len(),
{
    if data.len() == 0 {
        0xcbf29ce484222325u64
    } else {
        (((spec_fnv1a64(data.drop_last()) ^ (data.last() as u64)) as nat * 0x100000001b3nat)
            % 0x1_0000_0000_0000_0000nat) as u64
    }
}

/// 64-bit FNV-1a hash of `data`.
pub fn fnv1a64(data: &[u8]) -> (hash: u64)
    ensures
        hash == spec_fnv1a64(data@),
{
    let mut hash: u64 = 0xcbf29ce484222325u64;
    let mut i: usize = 0;
    assert(data@.take(0) =~= Seq::<u8>::empty());
    while i < data.len()
        invariant
            i <= data.len(),
            hash == spec_fnv1a64(data@.take(i as int)),
        decreases data.len() - i,
    {
        hash = hash ^ (data[i] as u64);
        hash = hash.wrapping_mul(0x100000001b3u64);
        assert(data@.take(i + 1).drop_last() =~= data@.take(i as int));
        i = i + 1;
    }
    assert(data@.take(data.len() as int) =~= data@);
    hash
}

/// One step of the linear congruential generator that spreads the seed
/// hash over the key bytes.
pub open spec fn lcg_next(state: u64) -> u64 {
    ((((state as nat * 6364136223846793005nat) % 0x1_0000_0000_0000_0000nat) + 1)
        % 0x1_0000_0000_0000_0000nat) as u64
}

/// The generator state after `n` steps from `state`.
pub open spec fn lcg_iter(state: u64, n: nat) -> u64
    decreases n,
{
    if n == 0 {
        state
    } else {
        lcg_next(lcg_iter(state, (n - 1) as nat))
    }
}

/// The key byte taken from a generator state.
pub open spec fn key_byte(state: u64) -> u8 {
    ((state >> 56u64) as u8) ^ ((state >> 32u64) as u8) ^ ((state >> 8u64) as u8)
}

/// The bytes of an optional seed component (nothing when it is absent).
pub open spec fn optional_bytes(part: Option<Seq<char>>) -> Seq<u8> {
    match part {
        Some(s) => encode_utf8(s),
        None => Seq::empty(),
    }
}

/// The seed of the machine key: the label `skillsync-fallback-v1`, then the
/// user name, home directory and host name that are known.
pub open spec fn spec_key_seed(
    user: Option<Seq<char>>,
    home: Option<Seq<char>>,
    host: Option<Seq<char>>,
) -> Seq<u8> {
    encode_utf8("skillsync-fallback-v1"@) + optional_bytes(user) + optional_bytes(home)
        + optional_bytes(host)
}

/// The 32-byte machine key derived from `seed`.
pub open spec fn spec_derive_key(seed: Seq<u8>) -> Seq<u8> {
    Seq::new(32, |i: int| key_byte(lcg_iter(spec_fnv1a64(seed), (i + 1) as nat)))
}

fn append_bytes(v: &mut Vec<u8>, b: &[u8])
    ensures
        final(v)@ == old(v)@ + b@,
{
    let mut i: usize = 0;
    while i < b.len()
        invariant
            i <= b.len(),
            v@ == old(v)@ + b@.take(i as int),
        decreases b.len() - i,
    {
        v.push(b[i]);
        i = i + 1;
        assert(v@ =~= old(v)@ + b@.take(i as int));
    }
    assert(b@.take(b.len() as int) =~= b@);
}

fn append_optional(v: &mut Vec<u8>, part: Option<&str>)
    ensures
        final(v)@ == old(v)@ + optional_bytes(opt_view(part)),
{
    match part {
        Some(s) => append_bytes(v, s.as_bytes()),
        None => {
            assert(v@ =~= v@ + Seq::<u8>::empty());
        },
    }
}

/// The view of an optional string argument.
pub open spec fn opt_view(part: Option<&str>) -> Option<Seq<char>> {
    match part {
        Some(s) => Some(s@),
        None => None,
    }
}

/// Derives the machine key from the user name, home directory and host
/// name (each when the environment provides it).
pub fn derive_key(user: Option<&str>, home: Option<&str>, host: Option<&str>) -> (key: [u8; 32])
    ensures
        key@ == spec_derive_key(spec_key_seed(opt_view(user), opt_view(home), opt_view(host))),
{
    let mut seed: Vec<u8> = Vec::new();
    append_bytes(&mut seed, "skillsync-fallback-v1".as_bytes());
    append_optional(&mut seed, user);
    append_optional(&mut seed, home);
    append_optional(&mut seed, host);
    assert(seed@ =~= spec_key_seed(opt_view(user), opt_view(home), opt_view(host)));
    let h = fnv1a64(seed.as_slice());
    let mut state: u64 = h;
    let mut key: [u8; 32] = [0u8; 32];
    let mut i: usize = 0;
    while i < 32
        invariant
            i <= 32,
            key@.len() == 32,
            state == lcg_iter(h, i as nat),
            forall|j: int| 0 <= j < i ==> key@[j] == key_byte(lcg_iter(h, (j + 1) as nat)),
        decreases 32 - i,
    {
        state = state.wrapping_mul(6364136223846793005u64).wrapping_add(1);
        key[i] = ((state >> 56u64) as u8) ^ ((state >> 32u64) as u8) ^ ((state >> 8u64) as u8);
        i = i + 1;
    }
    assert(key@ =~= spec_derive_key(seed@));
    key
}


/// Stores the encrypted form of the key text `key` in the configuration.
/// The caller saves the configuration.
pub fn store_key(config: &mut Config, key: &str, machine_key: &[u8; 32])
    ensures
        final(config).ssh_private_key_fallback matches Some(v) && v@ == spec_encrypt(
            key@,
            machine_key@,
        ),
        final(config).repos == old(config).repos,
        final(config).concurrency == old(config).concurrency,
{
    config.ssh_private_key_fallback = Some(encrypt(key, machine_key));
}

/// What reading the fallback copy gave: the key text, if one could be
/// read, and the reason a stored copy could not be read, to be shown as a
/// warning.
pub struct LoadedKey {
    /// The key text; `None` when no copy is stored or it cannot be read.
    pub value: Option<String>,
    /// Why a stored copy could not be decrypted, when it could not.
    pub warning: Option<FallbackError>,
}

/// What `load_key` gives for the configuration `config`: nothing when no
/// copy is stored; the decrypted key text when the stored copy decrypts;
/// else no key, and the decryption error as the warning.
pub open spec fn load_key_outcome(config: Config, machine_key: Seq<u8>, r: LoadedKey) -> bool {
    match config.ssh_private_key_fallback {
        None => r.value is None && r.warning is None,
        Some(v) => match spec_decrypt(v@, machine_key) {
            Ok(k) => r.value matches Some(s) && s@ == k && r.warning is None,
            Err(e) => r.value is None && r.warning == Some(e),
        },
    }
}

/// The key text kept in the configuration, if any. No stored copy gives no
/// key; a copy that cannot be decrypted also gives no key, the reason being
/// handed back as a warning.
pub fn load_key(config: &Config, machine_key: &[u8; 32]) -> (r: LoadedKey)
    ensures
        load_key_outcome(*config, machine_key@, r),
{
    match &config.ssh_private_key_fallback {
        None => LoadedKey { value: None, warning: None },
        Some(v) => match decrypt(v.as_str(), machine_key) {
            Ok(k) => LoadedKey { value: Some(k), warning: None },
            Err(e) => LoadedKey { value: None, warning: Some(e) },
        },
    }
}

/// Drops the stored fallback copy; says whether there was one (and so
/// whether the configuration has to be saved).
pub fn delete_fallback_key(config: &mut Config) -> (changed: bool)
    ensures
        changed == old(config).ssh_private_key_fallback is Some,
        final(config).ssh_private_key_fallback is None,
        final(config).repos == old(config).repos,
        final(config).concurrency == old(config).concurrency,
{
    if config.ssh_private_key_fallback.is_some() {
        config.ssh_private_key_fallback = None;
        true
    } else {
        false
    }
}


} // verus!
