//! Decimal numbers in text.
use crate::text;
use vstd::prelude::*;

verus! {

/// The digit of a value below ten.
pub open spec fn digit(d: int) -> char {
    ('0' as int + d) as char
}

/// A number that is not negative, in decimal.
pub open spec fn digits(n: nat) -> Seq<char>
    decreases n,
{
    if n < 10 {
        seq![digit(n as int)]
    } else {
        digits(n / 10).push(digit(n as int % 10))
    }
}

/// A number in decimal, with a minus sign where it is negative.
pub open spec fn decimal(n: int) -> Seq<char> {
    if n < 0 {
        seq!['-'] + digits((-n) as nat)
    } else {
        digits(n as nat)
    }
}

/// Appends a number that is not negative, in decimal.
fn push_digits(out: &mut String, n: u64)
    ensures
        final(out)@ == old(out)@ + digits(n as nat),
    decreases n,
{
    if n < 10 {
        out.push((48 + n as u8) as char);
        assert(out@ =~= old(out)@ + digits(n as nat));
    } else {
        push_digits(out, n / 10);
        out.push((48 + (n % 10) as u8) as char);
        assert(out@ =~= old(out)@ + digits(n as nat));
    }
}

/// Writes a number in decimal.
pub fn format_decimal(n: i64) -> (out: String)
    ensures
        out@ == decimal(n as int),
{
    let mut out = String::new();
    if n < 0 {
        out.push('-');
        push_digits(&mut out, (-(n as i128)) as u64);
    } else {
        push_digits(&mut out, n as u64);
    }
    out
}

/// Writes a count in decimal.
pub fn format_count(n: usize) -> (out: String)
    ensures
        out@ == decimal(n as int),
{
    let mut out = String::new();
    push_digits(&mut out, n as u64);
    out
}

/// Whether `c` is a decimal digit.
pub open spec fn is_digit(c: char) -> bool {
    '0' <= c <= '9'
}

/// The value of a row of digits.
pub open spec fn digits_value(s: Seq<char>) -> int
    decreases s.len(),
{
    if s.len() == 0 {
        0
    } else {
        digits_value(s.drop_last()) * 10 + (s.last() as int - '0' as int)
    }
}

/// Whether `s` is one digit or more, and nothing else.
pub open spec fn is_digits(s: Seq<char>) -> bool {
    s.len() > 0 && forall|i: int| 0 <= i < s.len() ==> is_digit(#[trigger] s[i])
}

/// The number that `s` writes: digits, with a plus sign or, where `signed`, a minus sign before
/// them at most; `None` for anything else.
pub open spec fn number(s: Seq<char>, signed: bool) -> Option<int> {
    if is_digits(s) {
        Some(digits_value(s))
    } else if s.len() > 0 && s[0] == '+' && is_digits(s.drop_first()) {
        Some(digits_value(s.drop_first()))
    } else if s.len() > 0 && s[0] == '-' && signed && is_digits(s.drop_first()) {
        Some(-digits_value(s.drop_first()))
    } else {
        None
    }
}

/// The number that `s` writes, where it lies between `lo` and `hi`.
pub open spec fn number_within(s: Seq<char>, lo: int, hi: int) -> Option<int> {
    match number(s, lo < 0) {
        Some(n) => if lo <= n <= hi {
            Some(n)
        } else {
            None
        },
        None => None,
    }
}

proof fn lemma_value_grows(s: Seq<char>, k: int)
    requires
        is_digits(s),
        0 <= k <= s.len(),
    ensures
        0 <= digits_value(s.take(k)) <= digits_value(s),
    decreases s.len() - k,
{
    if k == s.len() {
        assert(s.take(k) == s);
        lemma_value_not_negative(s);
    } else {
        lemma_value_grows(s, k + 1);
        assert(s.take(k + 1).drop_last() == s.take(k));
        assert(is_digit(s[k]));
        assert forall|i: int| 0 <= i < s.take(k).len() implies is_digit(#[trigger] s.take(k)[i]) by {
            assert(is_digit(s[i]));
        }
        lemma_value_not_negative(s.take(k));
    }
}

proof fn lemma_value_not_negative(s: Seq<char>)
    requires
        forall|i: int| 0 <= i < s.len() ==> is_digit(#[trigger] s[i]),
    ensures
        0 <= digits_value(s),
    decreases s.len(),
{
    if s.len() > 0 {
        assert(is_digit(s[s.len() - 1]));
        lemma_value_not_negative(s.drop_last());
    }
}

/// Reads the digits from position `from` on, where they are digits and come to `limit` at most.
fn read_digits(chars: &Vec<char>, from: usize, limit: u32) -> (r: Option<u32>)
    requires
        from <= chars@.len(),
    ensures
        ({
            let s = chars@.skip(from as int);
            match r {
                Some(n) => is_digits(s) && digits_value(s) == n && n <= limit,
                None => !is_digits(s) || digits_value(s) > limit,
            }
        }),
{
    let ghost s = chars@.skip(from as int);
    if from == chars.len() {
        return None;
    }
    let mut n: u64 = 0;
    let mut i: usize = from;
    while i < chars.len()
        invariant
            from <= i <= chars@.len(),
            s == chars@.skip(from as int),
            s.len() > 0,
            n == digits_value(s.take(i - from)),
            n <= limit,
            forall|k: int| 0 <= k < i - from ==> is_digit(#[trigger] s[k]),
        decreases chars@.len() - i,
    {
        let c = chars[i];
        assert(s[i - from] == c);
        if c < '0' || '9' < c {
            return None;
        }
        assert(s.take(i - from + 1).drop_last() == s.take(i - from));
        n = n * 10 + (c as u32 - 48) as u64;
        if n > limit as u64 {
            proof {
                if is_digits(s) {
                    lemma_value_grows(s, i - from + 1);
                }
            }
            return None;
        }
        i = i + 1;
    }
    assert(s.take(i - from) == s);
    Some(n as u32)
}

/// Reads a signed number.
pub fn parse_i32(s: &str) -> (r: Option<i32>)
    ensures
        match r {
            Some(n) => number_within(s@, i32::MIN as int, i32::MAX as int) == Some(n as int),
            None => number_within(s@, i32::MIN as int, i32::MAX as int) is None,
        },
{
    let chars = text::to_chars(s);
    if chars.len() == 0 {
        return None;
    }
    assert(s@.skip(1) == s@.drop_first());
    assert(s@.skip(0) == s@);
    if chars[0] == '-' {
        assert(!is_digit(s@[0]));
        match read_digits(&chars, 1, 0x8000_0000) {
            Some(n) => Some((-(n as i64)) as i32),
            None => None,
        }
    } else if chars[0] == '+' {
        assert(!is_digit(s@[0]));
        match read_digits(&chars, 1, 0x7fff_ffff) {
            Some(n) => Some(n as i32),
            None => None,
        }
    } else {
        match read_digits(&chars, 0, 0x7fff_ffff) {
            Some(n) => Some(n as i32),
            None => None,
        }
    }
}

/// Reads a small number without a minus sign.
pub fn parse_u16(s: &str) -> (r: Option<u16>)
    ensures
        match r {
            Some(n) => number_within(s@, 0, u16::MAX as int) == Some(n as int),
            None => number_within(s@, 0, u16::MAX as int) is None,
        },
{
    let chars = text::to_chars(s);
    if chars.len() == 0 {
        return None;
    }
    assert(s@.skip(1) == s@.drop_first());
    assert(s@.skip(0) == s@);
    let from: usize = if chars[0] == '+' {
        assert(!is_digit(s@[0]));
        1
    } else {
        0
    };
    match read_digits(&chars, from, 0xffff) {
        Some(n) => Some(n as u16),
        None => None,
    }
}

proof fn lemma_digits_read_back(n: nat)
    ensures
        is_digits(digits(n)),
        digits_value(digits(n)) == n,
    decreases n,
{
    if n < 10 {
        assert(digits(n).drop_last() == Seq::<char>::empty());
        reveal_with_fuel(digits_value, 2);
    } else {
        lemma_digits_read_back(n / 10);
        assert(digits(n).drop_last() == digits(n / 10));
        assert forall|i: int| 0 <= i < digits(n).len() implies is_digit(#[trigger] digits(n)[i]) by {
            if i < digits(n / 10).len() {
                assert(is_digit(digits(n / 10)[i]));
            }
        }
    }
}

/// A number in decimal is digits, with a minus sign before them at most.
pub proof fn law_decimal_form(n: int)
    ensures
        forall|i: int|
            0 <= i < decimal(n).len() ==> is_digit(#[trigger] decimal(n)[i]) || decimal(n)[i]
                == '-',
{
    let d = digits(if n < 0 { (-n) as nat } else { n as nat });
    lemma_digits_read_back(if n < 0 { (-n) as nat } else { n as nat });
    assert forall|i: int| 0 <= i < decimal(n).len() implies is_digit(#[trigger] decimal(n)[i])
        || decimal(n)[i] == '-' by {
        if n < 0 && i > 0 {
            assert(decimal(n)[i] == d[i - 1]);
        }
    }
}

/// A number written in decimal reads back as itself.
pub proof fn law_decimal_reads_back(n: int)
    ensures
        number(decimal(n), true) == Some(n),
        n >= 0 ==> number(decimal(n), false) == Some(n),
{
    if n < 0 {
        let d = digits((-n) as nat);
        lemma_digits_read_back((-n) as nat);
        assert(decimal(n).drop_first() =~= d);
        assert(!is_digit(decimal(n)[0]));
    } else {
        lemma_digits_read_back(n as nat);
    }
}

/// Numbers are written digit by digit: one digit for a number below ten, one more digit for ten
/// times as much, and a minus sign before what is negative.
pub proof fn law_decimal_digits(n: int, d: int)
    requires
        n > 0,
        0 <= d < 10,
    ensures
        decimal(d).len() == 1 && decimal(d)[0] as int == 0x30 + d,
        decimal(10 * n + d) == decimal(n) + decimal(d),
        decimal(-n) == seq!['-'] + decimal(n),
{
    assert((10 * n + d) / 10 == n && (10 * n + d) % 10 == d);
    assert(decimal(10 * n + d) =~= decimal(n) + decimal(d));
}

/// A digit reads as its value, and one more digit makes a number ten times as much and that digit
/// more, or, after a minus sign, less. This holds however many digits there are.
pub proof fn law_number_grows(s: Seq<char>, c: char, signed: bool)
    requires
        0x30 <= c as int <= 0x39,
    ensures
        number(seq![c], signed) == Some(c as int - 0x30),
        number(s, signed) matches Some(v) ==> number(s.push(c), signed) == if s[0] == '-' {
            Some(10 * v - (c as int - 0x30))
        } else {
            Some(10 * v + (c as int - 0x30))
        },
{
    let one = seq![c];
    assert(one.drop_last() =~= Seq::<char>::empty());
    reveal_with_fuel(digits_value, 2);
    assert(is_digit(one[0]) && is_digits(one));
    if number(s, signed) is Some {
        let more = s.push(c);
        assert(s.len() > 0);
        if is_digits(s) {
            lemma_digits_push(s, c);
            assert(is_digit(s[0]));
        } else {
            let rest = s.drop_first();
            lemma_digits_push(rest, c);
            assert(more.drop_first() =~= rest.push(c));
            assert(!is_digit(more[0]));
        }
    }
}

proof fn lemma_digits_push(s: Seq<char>, c: char)
    requires
        is_digits(s),
        is_digit(c),
    ensures
        is_digits(s.push(c)),
        digits_value(s.push(c)) == digits_value(s) * 10 + (c as int - 0x30),
{
    let more = s.push(c);
    assert(more.drop_last() =~= s);
    assert forall|i: int| 0 <= i < more.len() implies is_digit(#[trigger] more[i]) by {
        if i < s.len() {
            assert(is_digit(s[i]));
        }
    }
}

/// A sign may stand before the digits: a plus sign changes nothing, and a minus sign, where it may
/// stand, turns the number round.
pub proof fn law_number_signs(s: Seq<char>, signed: bool)
    requires
        s.len() > 0,
        0x30 <= s[0] as int <= 0x39,
    ensures
        number(seq!['+'] + s, signed) == number(s, signed),
        signed ==> number(seq!['-'] + s, signed) == match number(s, signed) {
            Some(v) => Some(-v),
            None => None,
        },
        !signed ==> number(seq!['-'] + s, signed) is None,
{
    let (plus, minus) = (seq!['+'] + s, seq!['-'] + s);
    assert(plus.drop_first() =~= s && minus.drop_first() =~= s);
    assert(!is_digit(plus[0]) && !is_digit(minus[0]));
    assert(is_digit(s[0]));
}

/// Nothing else is a number: no empty text, no lone character but a digit, none with anything but a
/// digit after the first character, and none with anything but a digit or a sign as the first.
pub proof fn law_not_a_number(s: Seq<char>, signed: bool)
    requires
        ({
            ||| s.len() == 0
            ||| s.len() == 1 && !(0x30 <= s[0] as int <= 0x39)
            ||| !(0x30 <= s[0] as int <= 0x39) && s[0] != '+' && s[0] != '-'
            ||| exists|i: int| 1 <= i < s.len() && !(0x30 <= #[trigger] s[i] as int <= 0x39)
        }),
    ensures
        number(s, signed) is None,
{
    if s.len() > 0 {
        let rest = s.drop_first();
        if exists|i: int| 1 <= i < s.len() && !(0x30 <= #[trigger] s[i] as int <= 0x39) {
            let i = choose|i: int| 1 <= i < s.len() && !(0x30 <= #[trigger] s[i] as int <= 0x39);
            assert(!is_digit(s[i]));
            assert(!is_digit(rest[i - 1]));
        } else {
            assert(!is_digit(s[0]));
        }
    }
}

/// A number counts where it lies within the limits, and only there; a minus sign may stand where
/// the lower limit is negative.
pub proof fn law_number_within(s: Seq<char>, lo: int, hi: int)
    ensures
        match number(s, lo < 0) {
            Some(n) => number_within(s, lo, hi) == if lo <= n && n <= hi {
                Some(n)
            } else {
                None
            },
            None => number_within(s, lo, hi) is None,
        },
{
}

} // verus!
