//! Base64 with the standard alphabet and `=` padding.
//!
//! Decoding is lenient: padding is skipped wherever it stands, bytes outside the alphabet count as
//! zero, and a lone trailing symbol is dropped.
use vstd::prelude::*;
use vstd::utf8::*;

verus! {

/// The character that stands for the six-bit value `v`: `A`-`Z`, `a`-`z`, `0`-`9`, `+`, `/`.
pub open spec fn symbol(v: int) -> char {
    if v < 26 {
        (v + 'A' as int) as char
    } else if v < 52 {
        (v - 26 + 'a' as int) as char
    } else if v < 62 {
        (v - 52 + '0' as int) as char
    } else if v == 62 {
        '+'
    } else {
        '/'
    }
}

/// The six-bit value that the byte `b` stands for; bytes outside the alphabet stand for zero.
pub open spec fn value(b: u8) -> int {
    if 'A' as int <= b <= 'Z' as int {
        b - 'A' as int
    } else if 'a' as int <= b <= 'z' as int {
        b - 'a' as int + 26
    } else if '0' as int <= b <= '9' as int {
        b - '0' as int + 52
    } else if b == '+' as int {
        62
    } else if b == '/' as int {
        63
    } else {
        0
    }
}

/// The base64 text of `data`: four symbols for each three bytes, the last group padded with `=`.
pub open spec fn encoded(data: Seq<u8>) -> Seq<char>
    decreases data.len(),
{
    let a = data[0] as int;
    let b = data[1] as int;
    let c = data[2] as int;
    if data.len() == 0 {
        seq![]
    } else if data.len() == 1 {
        seq![symbol(a / 4), symbol(a % 4 * 16), '=', '=']
    } else if data.len() == 2 {
        seq![symbol(a / 4), symbol(a % 4 * 16 + b / 16), symbol(b % 16 * 4), '=']
    } else {
        seq![
            symbol(a / 4),
            symbol(a % 4 * 16 + b / 16),
            symbol(b % 16 * 4 + c / 64),
            symbol(c % 64),
        ] + encoded(data.skip(3))
    }
}

/// Whether the byte is not the padding character.
pub open spec fn is_payload(b: u8) -> bool {
    b != '=' as int
}

/// The bytes that the symbols `s`, free of padding, stand for: three for each four symbols, then
/// two for three symbols left over, or one for two.
pub open spec fn grouped(s: Seq<u8>) -> Seq<u8>
    decreases s.len(),
{
    let a = value(s[0]);
    let b = value(s[1]);
    let c = value(s[2]);
    let d = value(s[3]);
    if s.len() >= 4 {
        seq![
            (a * 4 + b / 16) as u8,
            (b % 16 * 16 + c / 4) as u8,
            (c % 4 * 64 + d) as u8,
        ] + grouped(s.skip(4))
    } else if s.len() == 3 {
        seq![(a * 4 + b / 16) as u8, (b % 16 * 16 + c / 4) as u8]
    } else if s.len() == 2 {
        seq![(a * 4 + b / 16) as u8]
    } else {
        seq![]
    }
}

/// The bytes that the text `s` stands for.
pub open spec fn decoded(s: Seq<char>) -> Seq<u8> {
    grouped(encode_utf8(s).filter(|b: u8| is_payload(b)))
}

fn to_symbol(v: u8) -> (c: char)
    requires
        v < 64,
    ensures
        c == symbol(v as int),
{
    if v < 26 {
        (v + 65) as char
    } else if v < 52 {
        (v - 26 + 97) as char
    } else if v < 62 {
        (v - 52 + 48) as char
    } else if v == 62 {
        '+'
    } else {
        '/'
    }
}

fn to_value(b: u8) -> (v: u8)
    ensures
        v == value(b),
        v < 64,
{
    if 65 <= b && b <= 90 {
        b - 65
    } else if 97 <= b && b <= 122 {
        b - 97 + 26
    } else if 48 <= b && b <= 57 {
        b - 48 + 52
    } else if b == 43 {
        62
    } else if b == 47 {
        63
    } else {
        0
    }
}

/// Encodes bytes as base64 text.
pub fn b64encode(data: &[u8]) -> (out: String)
    ensures
        out@ == encoded(data@),
{
    let mut out = String::new();
    let mut i: usize = 0;
    assert(data@.skip(0) == data@);
    while data.len() - i >= 3
        invariant
            i <= data@.len(),
            encoded(data@) == out@ + encoded(data@.skip(i as int)),
        decreases data@.len() - i,
    {
        let a = data[i];
        let b = data[i + 1];
        let c = data[i + 2];
        out.push(to_symbol(a / 4));
        out.push(to_symbol(a % 4 * 16 + b / 16));
        out.push(to_symbol(b % 16 * 4 + c / 64));
        out.push(to_symbol(c % 64));
        assert(data@.skip(i as int).skip(3) == data@.skip(i + 3));
        i = i + 3;
    }
    if data.len() - i == 1 {
        let a = data[i];
        out.push(to_symbol(a / 4));
        out.push(to_symbol(a % 4 * 16));
        out.push('=');
        out.push('=');
    } else if data.len() - i == 2 {
        let a = data[i];
        let b = data[i + 1];
        out.push(to_symbol(a / 4));
        out.push(to_symbol(a % 4 * 16 + b / 16));
        out.push(to_symbol(b % 16 * 4));
        out.push('=');
    }
    out
}

/// The bytes of `s` that are not padding.
fn payload(s: &[u8]) -> (r: Vec<u8>)
    ensures
        r@ == s@.filter(|b: u8| is_payload(b)),
{
    let mut r: Vec<u8> = Vec::new();
    let mut i: usize = 0;
    assert(s@.take(0).filter(|b: u8| is_payload(b)) == Seq::<u8>::empty()) by {
        reveal(Seq::filter);
    }
    while i < s.len()
        invariant
            i <= s@.len(),
            r@ == s@.take(i as int).filter(|b: u8| is_payload(b)),
        decreases s@.len() - i,
    {
        proof {
            reveal(Seq::filter);
            assert(s@.take(i + 1).drop_last() == s@.take(i as int));
        }
        if s[i] != 61 {
            r.push(s[i]);
        }
        i = i + 1;
    }
    assert(s@.take(i as int) == s@);
    r
}

/// Decodes base64 text.
pub fn b64decode(s: &str) -> (out: Vec<u8>)
    ensures
        out@ == decoded(s@),
{
    let s = payload(s.as_bytes());
    let mut out: Vec<u8> = Vec::new();
    let mut i: usize = 0;
    assert(s@.skip(0) == s@);
    while s.len() - i >= 4
        invariant
            i <= s@.len(),
            grouped(s@) == out@ + grouped(s@.skip(i as int)),
        decreases s@.len() - i,
    {
        let a = to_value(s[i]);
        let b = to_value(s[i + 1]);
        let c = to_value(s[i + 2]);
        let d = to_value(s[i + 3]);
        out.push(a * 4 + b / 16);
        out.push(b % 16 * 16 + c / 4);
        out.push(c % 4 * 64 + d);
        assert(s@.skip(i as int).skip(4) == s@.skip(i + 4));
        i = i + 4;
    }
    if s.len() - i == 3 {
        let a = to_value(s[i]);
        let b = to_value(s[i + 1]);
        let c = to_value(s[i + 2]);
        out.push(a * 4 + b / 16);
        out.push(b % 16 * 16 + c / 4);
    } else if s.len() - i == 2 {
        let a = to_value(s[i]);
        let b = to_value(s[i + 1]);
        out.push(a * 4 + b / 16);
    }
    out
}

/// The symbols of `encoded(data)` without the padding, as bytes.
spec fn symbols(data: Seq<u8>) -> Seq<u8>
    decreases data.len(),
{
    let a = data[0] as int;
    let b = data[1] as int;
    let c = data[2] as int;
    if data.len() == 0 {
        seq![]
    } else if data.len() == 1 {
        seq![symbol(a / 4) as u8, symbol(a % 4 * 16) as u8]
    } else if data.len() == 2 {
        seq![
            symbol(a / 4) as u8,
            symbol(a % 4 * 16 + b / 16) as u8,
            symbol(b % 16 * 4) as u8,
        ]
    } else {
        seq![
            symbol(a / 4) as u8,
            symbol(a % 4 * 16 + b / 16) as u8,
            symbol(b % 16 * 4 + c / 64) as u8,
            symbol(c % 64) as u8,
        ] + symbols(data.skip(3))
    }
}

/// Encoding writes one symbol of the alphabet or one padding character at each place, all of them
/// ASCII, and as many as four for each group of up to three bytes.
pub proof fn law_encoded_form(data: Seq<u8>)
    ensures
        encoded(data).len() == (data.len() + 2) / 3 * 4,
        is_ascii_chars(encoded(data)),
        forall|i: int|
            0 <= i < encoded(data).len() ==> #[trigger] encoded(data)[i] == '=' || exists|v: int|
                0 <= v < 64 && encoded(data)[i] == #[trigger] symbol(v),
    decreases data.len(),
{
    let a = data[0] as int;
    let b = data[1] as int;
    let c = data[2] as int;
    if data.len() >= 3 {
        let head = seq![
            symbol(a / 4),
            symbol(a % 4 * 16 + b / 16),
            symbol(b % 16 * 4 + c / 64),
            symbol(c % 64),
        ];
        let tail = encoded(data.skip(3));
        law_encoded_form(data.skip(3));
        assert(encoded(data) == head + tail);
        assert forall|i: int| 0 <= i < encoded(data).len() implies #[trigger] encoded(data)[i]
            == '=' || exists|v: int| 0 <= v < 64 && encoded(data)[i] == #[trigger] symbol(v) by {
            if i >= 4 {
                assert(encoded(data)[i] == tail[i - 4]);
            }
        }
        assert forall|i: int| 0 <= i < encoded(data).len() implies '\0' <= #[trigger] encoded(
            data,
        )[i] <= '\u{7f}' by {
            if i >= 4 {
                assert(encoded(data)[i] == tail[i - 4]);
            }
        }
    }
}

proof fn lemma_payload_of_encoded(data: Seq<u8>)
    ensures
        Seq::new(encoded(data).len(), |i: int| encoded(data)[i] as u8).filter(
            |b: u8| is_payload(b),
        ) == symbols(data),
    decreases data.len(),
{
    let bytes = Seq::new(encoded(data).len(), |i: int| encoded(data)[i] as u8);
    reveal_with_fuel(Seq::filter, 5);
    if data.len() == 0 {
    } else if data.len() < 3 {
        assert(bytes.drop_last().drop_last().drop_last().drop_last() == Seq::<u8>::empty());
        assert(bytes.filter(|b: u8| is_payload(b)) =~= symbols(data));
    } else {
        let head = bytes.take(4);
        let rest = encoded(data.skip(3));
        let tail = Seq::new(rest.len(), |i: int| rest[i] as u8);
        lemma_payload_of_encoded(data.skip(3));
        assert(bytes =~= head + tail);
        Seq::filter_distributes_over_add(head, tail, |b: u8| is_payload(b));
        assert(head.drop_last().drop_last().drop_last().drop_last() == Seq::<u8>::empty());
        assert(head.filter(|b: u8| is_payload(b)) =~= symbols(data).take(4));
        assert(symbols(data) =~= symbols(data).take(4) + symbols(data.skip(3)));
    }
}

proof fn lemma_value_of_symbol(v: int)
    requires
        0 <= v < 64,
    ensures
        value(symbol(v) as u8) == v,
{
}

proof fn lemma_regrouped(a: int, b: int, c: int)
    requires
        0 <= a < 256,
        0 <= b < 256,
        0 <= c < 256,
    ensures
        a / 4 * 4 + (a % 4 * 16 + b / 16) / 16 == a,
        (a % 4 * 16 + b / 16) % 16 * 16 + (b % 16 * 4 + c / 64) / 4 == b,
        (b % 16 * 4 + c / 64) % 4 * 64 + c % 64 == c,
        0 <= a / 4 < 64,
        0 <= a % 4 * 16 + b / 16 < 64,
        0 <= b % 16 * 4 + c / 64 < 64,
        0 <= c % 64 < 64,
{
}

proof fn lemma_grouped_symbols(data: Seq<u8>)
    ensures
        grouped(symbols(data)) == data,
    decreases data.len(),
{
    let a = data[0] as int;
    let b = if data.len() > 1 { data[1] as int } else { 0 };
    let c = if data.len() > 2 { data[2] as int } else { 0 };
    lemma_regrouped(a, b, c);
    lemma_value_of_symbol(a / 4);
    lemma_value_of_symbol(a % 4 * 16 + b / 16);
    lemma_value_of_symbol(b % 16 * 4 + c / 64);
    lemma_value_of_symbol(c % 64);
    let s = symbols(data);
    if data.len() >= 3 {
        lemma_grouped_symbols(data.skip(3));
        assert(s.skip(4) =~= symbols(data.skip(3)));
        assert(value(s[0]) == a / 4);
        assert(value(s[1]) == a % 4 * 16 + b / 16);
        assert(value(s[2]) == b % 16 * 4 + c / 64);
        assert(value(s[3]) == c % 64);
        assert(grouped(s) == seq![a as u8, b as u8, c as u8] + data.skip(3));
        assert(data =~= seq![a as u8, b as u8, c as u8] + data.skip(3));
    } else if data.len() == 2 {
        assert(grouped(s) =~= seq![a as u8, b as u8]);
        assert(data =~= seq![a as u8, b as u8]);
    } else if data.len() == 1 {
        assert(grouped(s) =~= seq![a as u8]);
        assert(data =~= seq![a as u8]);
    } else {
        assert(data =~= grouped(s));
    }
}

/// Decoding gives back what was encoded.
pub proof fn law_decode_encode(data: Seq<u8>)
    ensures
        decoded(encoded(data)) == data,
{
    let text = encoded(data);
    law_encoded_form(data);
    is_ascii_chars_encode_utf8(text);
    assert(encode_utf8(text) =~= Seq::new(text.len(), |i: int| text[i] as u8));
    lemma_payload_of_encoded(data);
    lemma_grouped_symbols(data);
}

/// The 64 symbols in order, by code point: `A` to `Z`, `a` to `z`, `0` to `9`, `+` and `/`.
pub proof fn law_symbol(v: int)
    requires
        0 <= v < 64,
    ensures
        v <= 25 ==> symbol(v) as int == 0x41 + v,
        26 <= v <= 51 ==> symbol(v) as int == 0x61 + (v - 26),
        52 <= v <= 61 ==> symbol(v) as int == 0x30 + (v - 52),
        v == 62 ==> symbol(v) as int == 0x2b,
        v == 63 ==> symbol(v) as int == 0x2f,
{
}

/// A byte has the value of the symbol that it is the code point of, and none but zero otherwise.
pub proof fn law_value(b: u8)
    ensures
        0 <= value(b) < 64,
        forall|v: int| 0 <= v < 64 && #[trigger] symbol(v) as int == b ==> value(b) == v,
        (forall|v: int| 0 <= v < 64 ==> #[trigger] symbol(v) as int != b) ==> value(b) == 0,
{
    let v = value(b);
    assert(symbol(v) as int == b || v == 0);
}

/// Every byte is written: symbol `k` of the text holds six bits of the bytes, taken from the left,
/// and padding stands only where the bytes of the last group are at an end.
pub proof fn law_encoded_bits(data: Seq<u8>, k: int)
    requires
        0 <= k < encoded(data).len(),
    ensures
        encoded(data).len() == (data.len() + 2) / 3 * 4,
        ({
            let q = k / 4 * 3;
            let a = data[q] as int;
            let b = if q + 1 < data.len() {
                data[q + 1] as int
            } else {
                0
            };
            let c = if q + 2 < data.len() {
                data[q + 2] as int
            } else {
                0
            };
            let bits = a * 65536 + b * 256 + c;
            &&& q < data.len()
            &&& k % 4 == 0 ==> encoded(data)[k] == symbol(bits / 262144)
            &&& k % 4 == 1 ==> encoded(data)[k] == symbol(bits / 4096 % 64)
            &&& k % 4 == 2 ==> encoded(data)[k] == if q + 1 < data.len() {
                symbol(bits / 64 % 64)
            } else {
                '='
            }
            &&& k % 4 == 3 ==> encoded(data)[k] == if q + 2 < data.len() {
                symbol(bits % 64)
            } else {
                '='
            }
        }),
    decreases data.len(),
{
    law_encoded_form(data);
    let rest = data.skip(3);
    if k >= 4 {
        assert(data.len() > 3);
        assert(encoded(data).skip(4) =~= encoded(rest));
        assert(encoded(data)[k] == encoded(rest)[k - 4]);
        law_encoded_bits(rest, k - 4);
        let q = k / 4 * 3;
        assert((k - 4) / 4 * 3 == q - 3 && (k - 4) % 4 == k % 4);
        assert(rest[q - 3] == data[q]);
        assert(q + 1 < data.len() ==> rest[q - 2] == data[q + 1]);
        assert(q + 2 < data.len() ==> rest[q - 1] == data[q + 2]);
    } else {
        let a = data[0] as int;
        let b = if 1 < data.len() { data[1] as int } else { 0 };
        let c = if 2 < data.len() { data[2] as int } else { 0 };
        lemma_bits(a, b, c);
    }
}

proof fn lemma_bits(a: int, b: int, c: int)
    requires
        0 <= a < 256,
        0 <= b < 256,
        0 <= c < 256,
    ensures
        (a * 65536 + b * 256 + c) / 262144 == a / 4,
        (a * 65536 + b * 256 + c) / 4096 % 64 == a % 4 * 16 + b / 16,
        (a * 65536 + b * 256 + c) / 64 % 64 == b % 16 * 4 + c / 64,
        (a * 65536 + b * 256 + c) % 64 == c % 64,
{
    let (x, y, z) = (a as u32, b as u32, c as u32);
    assert((x * 65536 + y * 256 + z) / 262144 == x / 4 && (x * 65536 + y * 256 + z) / 4096 % 64 == x
        % 4 * 16 + y / 16 && (x * 65536 + y * 256 + z) / 64 % 64 == y % 16 * 4 + z / 64 && (x * 65536
        + y * 256 + z) % 64 == z % 64) by (bit_vector)
        requires
            x < 256,
            y < 256,
            z < 256,
    ;
}

proof fn lemma_grouped_bits(s: Seq<u8>, k: int)
    requires
        0 <= k < grouped(s).len(),
    ensures
        grouped(s).len() == s.len() * 3 / 4,
        ({
            let q = k / 3 * 4;
            &&& q + k % 3 + 1 < s.len()
            &&& k % 3 == 0 ==> grouped(s)[k] == value(s[q]) * 4 + value(s[q + 1]) / 16
            &&& k % 3 == 1 ==> grouped(s)[k] == value(s[q + 1]) % 16 * 16 + value(s[q + 2]) / 4
            &&& k % 3 == 2 ==> grouped(s)[k] == value(s[q + 2]) % 4 * 64 + value(s[q + 3])
        }),
    decreases s.len(),
{
    lemma_grouped_len(s);
    if k >= 3 {
        let rest = s.skip(4);
        assert(s.len() >= 4);
        assert(grouped(s).skip(3) =~= grouped(rest));
        assert(grouped(s)[k] == grouped(rest)[k - 3]);
        lemma_grouped_bits(rest, k - 3);
        let q = k / 3 * 4;
        assert((k - 3) / 3 * 4 == q - 4 && (k - 3) % 3 == k % 3);
        assert(rest[q - 4] == s[q] && rest[q - 3] == s[q + 1]);
        assert(k % 3 >= 1 ==> rest[q - 2] == s[q + 2]);
        assert(k % 3 == 2 ==> rest[q - 1] == s[q + 3]);
    }
}

proof fn lemma_grouped_len(s: Seq<u8>)
    ensures
        grouped(s).len() == s.len() * 3 / 4,
    decreases s.len(),
{
    if s.len() >= 4 {
        lemma_grouped_len(s.skip(4));
    }
}

/// Every symbol is read: of the bytes of a text that are not `=`, each three fourths are a byte of
/// the result, which holds their values of six bits each, taken from the left.
pub proof fn law_decoded_bits(s: Seq<char>)
    ensures
        ({
            let b = encode_utf8(s).filter(|x: u8| x != 0x3du8);
            &&& decoded(s).len() == b.len() * 3 / 4
            &&& forall|k: int|
                0 <= k < decoded(s).len() ==> {
                    let q = k / 3 * 4;
                    &&& k % 3 == 0 ==> #[trigger] decoded(s)[k] == value(b[q]) * 4 + value(b[q + 1])
                        / 16
                    &&& k % 3 == 1 ==> decoded(s)[k] == value(b[q + 1]) % 16 * 16 + value(b[q + 2])
                        / 4
                    &&& k % 3 == 2 ==> decoded(s)[k] == value(b[q + 2]) % 4 * 64 + value(b[q + 3])
                }
        }),
{
    let b = encode_utf8(s).filter(|x: u8| x != 0x3du8);
    assert((|x: u8| x != 0x3du8) =~= (|x: u8| is_payload(x)));
    lemma_grouped_len(b);
    assert forall|k: int| 0 <= k < decoded(s).len() implies {
        let q = k / 3 * 4;
        &&& k % 3 == 0 ==> #[trigger] decoded(s)[k] == value(b[q]) * 4 + value(b[q + 1]) / 16
        &&& k % 3 == 1 ==> decoded(s)[k] == value(b[q + 1]) % 16 * 16 + value(b[q + 2]) / 4
        &&& k % 3 == 2 ==> decoded(s)[k] == value(b[q + 2]) % 4 * 64 + value(b[q + 3])
    } by {
        lemma_grouped_bits(b, k);
    }
}

} // verus!
