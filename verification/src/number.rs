//! Numerals: how whole numbers are written and read.

use vstd::prelude::*;
use vstd::string::*;

use crate::text::chars_of;

verus! {

/// The character for a digit below sixteen, letters in lower case.
pub open spec fn digit_char(d: int) -> char {
    if d < 10 {
        (48 + d) as char
    } else {
        (87 + d) as char
    }
}

/// A number in base ten, without leading zeros.
pub open spec fn decimal(n: nat) -> Seq<char>
    decreases n,
{
    if n < 10 {
        seq![digit_char(n as int)]
    } else {
        decimal(n / 10).push(digit_char((n % 10) as int))
    }
}

/// A number in base ten, with a minus sign before a negative one.
pub open spec fn signed_decimal(n: int) -> Seq<char> {
    if n < 0 {
        seq!['-'] + decimal((-n) as nat)
    } else {
        decimal(n as nat)
    }
}

/// A number in base sixteen, in lower case, without leading zeros.
pub open spec fn lower_hex(n: nat) -> Seq<char>
    decreases n,
{
    if n < 16 {
        seq![digit_char(n as int)]
    } else {
        lower_hex(n / 16).push(digit_char((n % 16) as int))
    }
}

/// The character for a digit below sixteen.
pub fn digit_to_char(d: u8) -> (r: char)
    requires
        d < 16,
    ensures
        r == digit_char(d as int),
{
    if d < 10 {
        (48 + d) as char
    } else {
        (87 + d) as char
    }
}

/// Appends a number in base ten.
pub fn push_decimal(out: &mut String, n: u64)
    ensures
        final(out)@ == old(out)@ + decimal(n as nat),
    decreases n,
{
    if n >= 10 {
        push_decimal(out, n / 10);
    }
    out.push(digit_to_char((n % 10) as u8));
    proof {
        if n < 10 {
            assert(out@ =~= old(out)@ + decimal(n as nat));
        } else {
            assert(out@ =~= old(out)@ + decimal(n as nat));
        }
    }
}

/// A number in base ten.
pub fn to_decimal(n: u64) -> (r: String)
    ensures
        r@ == decimal(n as nat),
{
    let mut out = String::new();
    push_decimal(&mut out, n);
    assert(out@ =~= decimal(n as nat));
    out
}

/// A signed number in base ten.
pub fn to_signed_decimal(n: i64) -> (r: String)
    ensures
        r@ == signed_decimal(n as int),
{
    let mut out = String::new();
    if n < 0 {
        out.push('-');
        let magnitude: u64 = if n == i64::MIN {
            0x8000_0000_0000_0000
        } else {
            (-n) as u64
        };
        push_decimal(&mut out, magnitude);
    } else {
        push_decimal(&mut out, n as u64);
    }
    assert(out@ =~= signed_decimal(n as int));
    out
}

/// Appends a number in base sixteen.
pub fn push_lower_hex(out: &mut String, n: u128)
    ensures
        final(out)@ == old(out)@ + lower_hex(n as nat),
    decreases n,
{
    if n >= 16 {
        push_lower_hex(out, n / 16);
    }
    out.push(digit_to_char((n % 16) as u8));
    assert(out@ =~= old(out)@ + lower_hex(n as nat));
}

/// A number in base sixteen.
pub fn to_lower_hex(n: u128) -> (r: String)
    ensures
        r@ == lower_hex(n as nat),
{
    let mut out = String::new();
    push_lower_hex(&mut out, n);
    assert(out@ =~= lower_hex(n as nat));
    out
}

// ---- reading ----

/// One of the ten digits.
pub open spec fn decimal_digit(c: char) -> bool {
    '0' <= c <= '9'
}

/// One or more digits and nothing else.
pub open spec fn is_decimal(s: Seq<char>) -> bool {
    s.len() > 0 && forall|i: int| 0 <= i < s.len() ==> decimal_digit(#[trigger] s[i])
}

/// The number that a row of digits stands for.
pub open spec fn decimal_value(s: Seq<char>) -> nat
    decreases s.len(),
{
    if s.len() == 0 {
        0
    } else {
        decimal_value(s.drop_last()) * 10 + (s.last() as nat - 48) as nat
    }
}

/// A number written in digits with or without a plus sign before them, no
/// larger than `max`.
pub open spec fn unsigned_value(s: Seq<char>, max: nat) -> Option<nat> {
    let digits = if s.len() > 0 && s[0] == '+' {
        s.skip(1)
    } else {
        s
    };
    if is_decimal(digits) && decimal_value(digits) <= max {
        Some(decimal_value(digits))
    } else {
        None
    }
}

/// A number written in digits with or without a sign before them, in the range
/// of 64 bits.
pub open spec fn signed_value(s: Seq<char>) -> Option<int> {
    if s.len() > 0 && s[0] == '-' {
        let digits = s.skip(1);
        if is_decimal(digits) && decimal_value(digits) <= 0x8000_0000_0000_0000 {
            Some(-decimal_value(digits))
        } else {
            None
        }
    } else {
        match unsigned_value(s, 0x7fff_ffff_ffff_ffff) {
            Some(n) => Some(n as int),
            None => None,
        }
    }
}

/// More digits make no smaller number.
proof fn lemma_decimal_value_grows(s: Seq<char>, i: int)
    requires
        0 <= i <= s.len(),
        is_decimal(s),
    ensures
        decimal_value(s.take(i)) <= decimal_value(s),
    decreases s.len() - i,
{
    if i < s.len() {
        assert(s.take(i + 1).drop_last() =~= s.take(i));
        assert(decimal_digit(s[i]));
        lemma_decimal_value_grows(s, i + 1);
    } else {
        assert(s.take(i) =~= s);
    }
}

/// Reads the digits from `from` on.
fn parse_digits(chars: &Vec<char>, from: usize, max: u64) -> (r: Option<u64>)
    requires
        from <= chars@.len(),
    ensures
        match r {
            Some(n) => {
                let digits = chars@.skip(from as int);
                &&& is_decimal(digits)
                &&& decimal_value(digits) == n
                &&& n <= max
            },
            None => {
                let digits = chars@.skip(from as int);
                !(is_decimal(digits) && decimal_value(digits) <= max)
            },
        },
{
    if from == chars.len() {
        return None;
    }
    let ghost digits = chars@.skip(from as int);
    let mut n: u64 = 0;
    let mut i: usize = from;
    while i < chars.len()
        invariant
            from < chars@.len(),
            from <= i <= chars@.len(),
            digits == chars@.skip(from as int),
            forall|j: int| 0 <= j < i - from ==> decimal_digit(#[trigger] digits[j]),
            n == decimal_value(digits.take(i - from)),
            n <= max,
        decreases chars@.len() - i,
    {
        let c = chars[i];
        assert(c == digits[i - from]);
        if c < '0' || c > '9' {
            assert(!decimal_digit(digits[i - from]));
            return None;
        }
        let wide: u128 = n as u128 * 10 + (c as u32 - 48) as u128;
        assert(digits.take(i - from + 1).drop_last() =~= digits.take(i - from));
        assert(wide == decimal_value(digits.take(i - from + 1)));
        if wide > max as u128 {
            proof {
                if is_decimal(digits) {
                    lemma_decimal_value_grows(digits, i - from + 1);
                }
            }
            return None;
        }
        n = wide as u64;
        i = i + 1;
    }
    assert(digits.take(i - from) =~= digits);
    Some(n)
}

/// Reads an unsigned number of 32 bits.
pub fn parse_u32(s: &str) -> (r: Option<u32>)
    ensures
        match r {
            Some(n) => unsigned_value(s@, u32::MAX as nat) == Some(n as nat),
            None => unsigned_value(s@, u32::MAX as nat) is None,
        },
{
    let chars = chars_of(s);
    let from: usize = if chars.len() > 0 && chars[0] == '+' {
        1
    } else {
        0
    };
    assert(s@.skip(0) =~= s@);
    match parse_digits(&chars, from, u32::MAX as u64) {
        Some(n) => Some(n as u32),
        None => None,
    }
}

/// Reads a signed number of 64 bits.
pub fn parse_i64(s: &str) -> (r: Option<i64>)
    ensures
        match r {
            Some(n) => signed_value(s@) == Some(n as int),
            None => signed_value(s@) is None,
        },
{
    let chars = chars_of(s);
    assert(s@.skip(0) =~= s@);
    if chars.len() > 0 && chars[0] == '-' {
        match parse_digits(&chars, 1, 0x8000_0000_0000_0000) {
            Some(n) => if n == 0x8000_0000_0000_0000 {
                Some(i64::MIN)
            } else {
                Some(-(n as i64))
            },
            None => None,
        }
    } else {
        let from: usize = if chars.len() > 0 && chars[0] == '+' {
            1
        } else {
            0
        };
        match parse_digits(&chars, from, 0x7fff_ffff_ffff_ffff) {
            Some(n) => Some(n as i64),
            None => None,
        }
    }
}

/// A decimal numeral is made of digits, and reading it gives the number back.
pub proof fn lemma_decimal_reads_back(n: nat)
    ensures
        is_decimal(decimal(n)),
        decimal_value(decimal(n)) == n,
    decreases n,
{
    reveal_with_fuel(decimal_value, 2);
    let s = decimal(n);
    if n < 10 {
        assert(s.drop_last() =~= Seq::<char>::empty());
    } else {
        lemma_decimal_reads_back(n / 10);
        assert(s.drop_last() =~= decimal(n / 10));
        assert forall|i: int| 0 <= i < s.len() implies decimal_digit(#[trigger] s[i]) by {
            if i < s.len() - 1 {
                assert(s[i] == decimal(n / 10)[i]);
            }
        }
    }
}

/// Writing an unsigned number and reading it gives the number back.
pub proof fn law_unsigned_round_trip(n: nat, max: nat)
    requires
        n <= max,
    ensures
        unsigned_value(decimal(n), max) == Some(n),
{
    lemma_decimal_reads_back(n);
    assert(decimal_digit(decimal(n)[0]));
}

/// Writing a signed number and reading it gives the number back.
pub proof fn law_signed_round_trip(n: int)
    requires
        -0x8000_0000_0000_0000 <= n <= 0x7fff_ffff_ffff_ffff,
    ensures
        signed_value(signed_decimal(n)) == Some(n),
{
    if n < 0 {
        lemma_decimal_reads_back((-n) as nat);
        assert(signed_decimal(n).skip(1) =~= decimal((-n) as nat));
    } else {
        lemma_decimal_reads_back(n as nat);
        assert(decimal_digit(decimal(n as nat)[0]));
        law_unsigned_round_trip(n as nat, 0x7fff_ffff_ffff_ffff);
    }
}

// ---- 32 bits ----

/// The signed number of 32 bits that is congruent to `n`.
pub open spec fn signed32(n: int) -> int {
    let m = n % 0x1_0000_0000;
    if m >= 0x8000_0000 {
        m - 0x1_0000_0000
    } else {
        m
    }
}

/// Reads 32 bits as a signed number.
pub fn to_signed(n: u32) -> (r: i32)
    ensures
        r == signed32(n as int),
{
    if n >= 0x8000_0000 {
        (n as i64 - 0x1_0000_0000) as i32
    } else {
        n as i32
    }
}

/// The lower 32 bits of a number, read as a signed one.
pub fn truncate(n: i64) -> (r: i32)
    ensures
        r == signed32(n as int),
{
    let low: u64 = if n >= 0 {
        n as u64 % 0x1_0000_0000
    } else {
        0xffff_ffff - (-(n + 1)) as u64 % 0x1_0000_0000
    };
    assert(low == n as int % 0x1_0000_0000);
    to_signed(low as u32)
}

/// A number that fits in 32 bits is kept.
pub proof fn law_truncate_keeps(n: int)
    requires
        i32::MIN <= n <= i32::MAX,
    ensures
        signed32(n) == n,
{
}

/// Digits are those of ASCII: `0` to `9`, and behind them `a` to `f`.
pub proof fn law_digits(d: int)
    ensures
        0 <= d < 10 ==> digit_char(d) as int == '0' as int + d,
        10 <= d < 16 ==> digit_char(d) as int == 'a' as int + d - 10,
{
}

/// A numeral in base ten stands for ten times what it stands for without its last digit,
/// and that digit; it has no zero in front, but for zero itself.
pub proof fn law_decimal(n: nat, d: nat)
    requires
        d < 10,
    ensures
        decimal(d) == seq![digit_char(d as int)],
        n > 0 ==> decimal(10 * n + d) == decimal(n).push(digit_char(d as int)),
        n > 0 ==> decimal(n)[0] != '0',
    decreases n,
{
    if n >= 10 {
        law_decimal(n / 10, 0);
        assert(decimal(n)[0] == decimal(n / 10)[0]);
    }
    assert((10 * n + d) / 10 == n && (10 * n + d) % 10 == d);
}

/// A numeral in base sixteen stands for sixteen times what it stands for without its last
/// digit, and that digit; it has no zero in front, but for zero itself.
pub proof fn law_lower_hex(n: nat, d: nat)
    requires
        d < 16,
    ensures
        lower_hex(d) == seq![digit_char(d as int)],
        n > 0 ==> lower_hex(16 * n + d) == lower_hex(n).push(digit_char(d as int)),
        n > 0 ==> lower_hex(n)[0] != '0',
    decreases n,
{
    if n >= 16 {
        law_lower_hex(n / 16, 0);
        assert(lower_hex(n)[0] == lower_hex(n / 16)[0]);
    }
    assert((16 * n + d) / 16 == n && (16 * n + d) % 16 == d);
}

/// A row of digits is read as ten times what it is without the last, and that digit.
pub proof fn law_digits_read(s: Seq<char>, c: char)
    requires
        '0' <= c <= '9',
    ensures
        decimal_value(Seq::empty()) == 0,
        decimal_value(s.push(c)) == 10 * decimal_value(s) + (c as int - '0' as int),
{
    assert(s.push(c).drop_last() =~= s);
}

/// A text is read as a number exactly where it is digits of ASCII, one at least, with or
/// without a sign before them, whose value is in range: of an unsigned number the sign is
/// a plus, of a signed one also a minus.
pub proof fn law_numbers_read(s: Seq<char>, max: nat)
    ensures
        ({
            let digits = |t: Seq<char>|
                t.len() > 0 && forall|i: int| 0 <= i < t.len() ==> '0' <= #[trigger] t[i] <= '9';
            let row = if s.len() > 0 && s[0] == '+' {
                s.skip(1)
            } else {
                s
            };
            &&& match unsigned_value(s, max) {
                Some(n) => digits(row) && n == decimal_value(row) && n <= max,
                None => !digits(row) || decimal_value(row) > max,
            }
            &&& s.len() > 0 && s[0] == '-' ==> match signed_value(s) {
                Some(n) => digits(s.skip(1)) && n == -decimal_value(s.skip(1)) && n
                    >= -0x8000_0000_0000_0000,
                None => !digits(s.skip(1)) || decimal_value(s.skip(1)) > 0x8000_0000_0000_0000,
            }
            &&& !(s.len() > 0 && s[0] == '-') ==> match signed_value(s) {
                Some(n) => digits(row) && n == decimal_value(row) && n <= 0x7fff_ffff_ffff_ffff,
                None => !digits(row) || decimal_value(row) > 0x7fff_ffff_ffff_ffff,
            }
        }),
{
    let digits = |t: Seq<char>|
        t.len() > 0 && forall|i: int| 0 <= i < t.len() ==> '0' <= #[trigger] t[i] <= '9';
    assert forall|t: Seq<char>| #[trigger] is_decimal(t) == digits(t) by {
        if is_decimal(t) {
            assert forall|i: int| 0 <= i < t.len() implies '0' <= #[trigger] t[i] <= '9' by {
                assert(decimal_digit(t[i]));
            }
        }
        if digits(t) {
            assert forall|i: int| 0 <= i < t.len() implies decimal_digit(#[trigger] t[i]) by {
                assert('0' <= t[i] <= '9');
            }
        }
    }
    let row = if s.len() > 0 && s[0] == '+' {
        s.skip(1)
    } else {
        s
    };
    assert(is_decimal(row) == digits(row));
    assert(is_decimal(s.skip(1)) == digits(s.skip(1)));
}

/// A negative number is written as the one without its sign, behind a minus.
pub proof fn law_signed_decimal(n: int)
    ensures
        n >= 0 ==> signed_decimal(n) == decimal(n as nat),
        n < 0 ==> signed_decimal(n) == seq!['-'] + decimal((-n) as nat),
{
}

/// Of a number, 32 bits count: what is kept of it is the one number of 32 bits with a sign
/// that differs from it by a multiple of 2^32.
pub proof fn law_truncated(n: int, k: int)
    ensures
        i32::MIN <= signed32(n) <= i32::MAX,
        (n - signed32(n)) % 0x1_0000_0000 == 0,
        i32::MIN <= k <= i32::MAX && (n - k) % 0x1_0000_0000 == 0 ==> signed32(n) == k,
{
}

} // verus!
