//! Size literals: decimal digits followed by one of the units `B`, `KB`, `MB`,
//! `GB`, `TB`, in either case, with powers of 1024 as multipliers.

use crate::error::HushError;
use crate::text::{
    ascii_upper, chars_to_string, copy_range, is_space, is_trimmed, lemma_trim_end_shape,
    lemma_trim_start_shape, str_chars, trim, trim_chars, trim_start, upper, upper_chars,
};
use vstd::prelude::*;

verus! {

pub const KB: u64 = 1024;

pub const MB: u64 = 1048576;

pub const GB: u64 = 1073741824;

pub const TB: u64 = 1099511627776;

pub open spec fn is_digit(c: char) -> bool {
    '0' <= c <= '9'
}

/// The number that a decimal digit stands for.
pub open spec fn digit_value(c: char) -> nat {
    (c as u32 - '0' as u32) as nat
}

/// The decimal digit for a number below ten.
pub open spec fn digit_char(d: nat) -> char {
    (d + '0' as u32) as char
}

/// The number that a string of decimal digits denotes; the empty string denotes 0.
pub open spec fn decimal_value(s: Seq<char>) -> nat
    decreases s.len(),
{
    if s.len() == 0 {
        0
    } else {
        decimal_value(s.drop_last()) * 10 + digit_value(s.last())
    }
}

/// The decimal digits of `n`, most significant first, without leading zeros.
pub open spec fn decimal_digits(n: nat) -> Seq<char>
    decreases n,
{
    if n < 10 {
        seq![digit_char(n)]
    } else {
        decimal_digits(n / 10).push(digit_char(n % 10))
    }
}

/// How many decimal digits `s` starts with.
pub open spec fn digit_prefix_len(s: Seq<char>) -> nat
    decreases s.len(),
{
    if s.len() > 0 && is_digit(s[0]) {
        1 + digit_prefix_len(s.drop_first())
    } else {
        0
    }
}

/// The number of bytes in one unit, for a unit written in capitals.
pub open spec fn unit_multiplier(unit: Seq<char>) -> Option<nat> {
    if unit =~= seq!['B'] {
        Some(1)
    } else if unit =~= seq!['K', 'B'] {
        Some(KB as nat)
    } else if unit =~= seq!['M', 'B'] {
        Some(MB as nat)
    } else if unit =~= seq!['G', 'B'] {
        Some(GB as nat)
    } else if unit =~= seq!['T', 'B'] {
        Some(TB as nat)
    } else {
        None
    }
}

/// The number of bytes that a size literal denotes. White space around the
/// literal is ignored; `None` where, after that, the text is not one or more
/// digits followed by a unit.
pub open spec fn parse_size(s: Seq<char>) -> Option<nat> {
    let t = trim(s);
    let n = digit_prefix_len(t) as int;
    if n == 0 {
        None
    } else {
        match unit_multiplier(upper(t.skip(n))) {
            Some(m) => Some(decimal_value(t.take(n)) * m),
            None => None,
        }
    }
}

pub proof fn lemma_digit_prefix(s: Seq<char>)
    ensures
        digit_prefix_len(s) <= s.len(),
        forall|i: int| 0 <= i < digit_prefix_len(s) ==> is_digit(#[trigger] s[i]),
        digit_prefix_len(s) < s.len() ==> !is_digit(s[digit_prefix_len(s) as int]),
    decreases s.len(),
{
    if s.len() > 0 && is_digit(s[0]) {
        let t = s.drop_first();
        lemma_digit_prefix(t);
        assert forall|i: int| 0 <= i < digit_prefix_len(s) implies is_digit(#[trigger] s[i]) by {
            if i > 0 {
                assert(s[i] == t[i - 1]);
            }
        }
        if digit_prefix_len(s) < s.len() {
            assert(s[digit_prefix_len(s) as int] == t[digit_prefix_len(t) as int]);
        }
    }
}

/// An index is the length of the digit prefix when only digits stand before
/// it and no digit stands at it.
pub proof fn lemma_digit_prefix_is(s: Seq<char>, k: int)
    requires
        0 <= k <= s.len(),
        forall|i: int| 0 <= i < k ==> is_digit(#[trigger] s[i]),
        k < s.len() ==> !is_digit(s[k]),
    ensures
        digit_prefix_len(s) == k,
{
    lemma_digit_prefix(s);
    let f = digit_prefix_len(s) as int;
    if f < k {
        assert(is_digit(s[f]));
    } else if f > k {
        assert(is_digit(s[k]));
    }
}

/// Reads a size literal such as `50MB` or `10kb` as a number of bytes.
///
/// Fails where the text is no size literal, and where the number of bytes
/// does not fit in 64 bits.
#[allow(non_snake_case)]
pub fn ParseSize(size_str: &str) -> (r: Result<u64, HushError>)
    ensures
        match r {
            Ok(v) => parse_size(size_str@) == Some(v as nat),
            Err(e) => e == HushError::InvalidSizeLiteral && match parse_size(size_str@) {
                Some(n) => n > u64::MAX,
                None => true,
            },
        },
{
    let raw = str_chars(size_str);
    parse_size_chars(&raw)
}

/// `ParseSize` on the characters of the literal.
pub fn parse_size_chars(raw: &Vec<char>) -> (r: Result<u64, HushError>)
    ensures
        match r {
            Ok(v) => parse_size(raw@) == Some(v as nat),
            Err(e) => e == HushError::InvalidSizeLiteral && match parse_size(raw@) {
                Some(n) => n > u64::MAX,
                None => true,
            },
        },
{
    let t = trim_chars(raw);
    let mut i: usize = 0;
    let mut acc: u64 = 0;
    let mut fits: bool = true;
    assert(t@.take(0) == Seq::<char>::empty());
    while i < t.len() && t[i] >= '0' && t[i] <= '9'
        invariant
            i <= t.len(),
            forall|j: int| 0 <= j < i ==> is_digit(#[trigger] t@[j]),
            fits ==> acc == decimal_value(t@.take(i as int)),
            !fits ==> decimal_value(t@.take(i as int)) > u64::MAX,
        decreases t.len() - i,
    {
        let d: u64 = (t[i] as u32 - '0' as u32) as u64;
        assert(t@.take(i + 1).drop_last() == t@.take(i as int));
        if fits {
            match acc.checked_mul(10) {
                Some(tens) => match tens.checked_add(d) {
                    Some(sum) => {
                        acc = sum;
                    },
                    None => {
                        fits = false;
                    },
                },
                None => {
                    fits = false;
                },
            }
        }
        i += 1;
    }
    proof {
        lemma_digit_prefix_is(t@, i as int);
    }
    if i == 0 {
        return Err(HushError::InvalidSizeLiteral);
    }
    let tail = copy_range(&t, i, t.len());
    let unit = upper_chars(&tail);
    assert(t@.skip(i as int) == t@.subrange(i as int, t.len() as int));
    let multiplier: u64 = if unit.len() == 1 && unit[0] == 'B' {
        1
    } else if unit.len() == 2 && unit[1] == 'B' {
        let u = unit[0];
        if u == 'K' {
            KB
        } else if u == 'M' {
            MB
        } else if u == 'G' {
            GB
        } else if u == 'T' {
            TB
        } else {
            return Err(HushError::InvalidSizeLiteral);
        }
    } else {
        return Err(HushError::InvalidSizeLiteral);
    };
    assert(unit_multiplier(unit@) == Some(multiplier as nat));
    if !fits {
        assert(decimal_value(t@.take(i as int)) * multiplier >= decimal_value(t@.take(i as int)))
            by (nonlinear_arith)
            requires
                multiplier >= 1,
        ;
        return Err(HushError::InvalidSizeLiteral);
    }
    match acc.checked_mul(multiplier) {
        Some(v) => Ok(v),
        None => Err(HushError::InvalidSizeLiteral),
    }
}

/// The size literal for `n` bytes: the largest unit that divides `n` exactly,
/// behind the number of such units.
pub open spec fn size_literal(n: nat) -> Seq<char> {
    if n > 0 && n % (TB as nat) == 0 {
        decimal_digits(n / (TB as nat)) + seq!['T', 'B']
    } else if n > 0 && n % (GB as nat) == 0 {
        decimal_digits(n / (GB as nat)) + seq!['G', 'B']
    } else if n > 0 && n % (MB as nat) == 0 {
        decimal_digits(n / (MB as nat)) + seq!['M', 'B']
    } else if n > 0 && n % (KB as nat) == 0 {
        decimal_digits(n / (KB as nat)) + seq!['K', 'B']
    } else {
        decimal_digits(n) + seq!['B']
    }
}

pub proof fn lemma_decimal_digits(n: nat)
    ensures
        decimal_digits(n).len() > 0,
        forall|i: int| 0 <= i < decimal_digits(n).len() ==> is_digit(#[trigger] decimal_digits(n)[i]),
        decimal_value(decimal_digits(n)) == n,
    decreases n,
{
    if n < 10 {
        let s = decimal_digits(n);
        assert(s.drop_last() =~= Seq::<char>::empty());
        assert(decimal_value(s.drop_last()) == 0);
    } else {
        lemma_decimal_digits(n / 10);
        let s = decimal_digits(n);
        assert(s.drop_last() =~= decimal_digits(n / 10));
    }
}

/// Digits followed by a unit in capitals denote that many units.
pub proof fn lemma_parse_digits_and_unit(digits: Seq<char>, unit: Seq<char>)
    requires
        digits.len() > 0,
        forall|i: int| 0 <= i < digits.len() ==> is_digit(#[trigger] digits[i]),
        unit_multiplier(unit) is Some,
    ensures
        parse_size(digits + unit) == Some(decimal_value(digits) * unit_multiplier(unit)->0),
        is_trimmed(digits + unit),
{
    let lit = digits + unit;
    assert(unit.len() > 0 && unit.last() == 'B');
    assert(lit[0] == digits[0]);
    assert(lit.last() == 'B');
    assert(is_trimmed(lit));
    assert(!is_digit(unit[0]));
    lemma_digit_prefix_is(lit, digits.len() as int);
    assert(lit.take(digits.len() as int) =~= digits);
    assert(lit.skip(digits.len() as int) =~= unit);
    assert(upper(unit) =~= unit);
}

/// Reading the size literal of `n` gives `n` back.
pub proof fn lemma_size_literal_round_trip(n: nat)
    ensures
        parse_size(size_literal(n)) == Some(n),
        is_trimmed(size_literal(n)),
{
    let m: nat = if n > 0 && n % (TB as nat) == 0 {
        TB as nat
    } else if n > 0 && n % (GB as nat) == 0 {
        GB as nat
    } else if n > 0 && n % (MB as nat) == 0 {
        MB as nat
    } else if n > 0 && n % (KB as nat) == 0 {
        KB as nat
    } else {
        1
    };
    let unit: Seq<char> = if m == TB {
        seq!['T', 'B']
    } else if m == GB {
        seq!['G', 'B']
    } else if m == MB {
        seq!['M', 'B']
    } else if m == KB {
        seq!['K', 'B']
    } else {
        seq!['B']
    };
    assert(n % m == 0);
    assert((n / m) * m == n) by (nonlinear_arith)
        requires
            n % m == 0,
            m > 0,
    ;
    assert(unit_multiplier(unit) == Some(m));
    lemma_decimal_digits(n / m);
    assert(size_literal(n) == decimal_digits(n / m) + unit);
    lemma_parse_digits_and_unit(decimal_digits(n / m), unit);
}

/// The decimal digits of `n`.
pub fn decimal_chars(n: u64) -> (r: Vec<char>)
    ensures
        r@ == decimal_digits(n as nat),
{
    let mut low_first: Vec<char> = Vec::new();
    let mut m: u64 = n;
    assert(decimal_digits(n as nat) == decimal_digits(m as nat) + reversed(low_first@));
    while m >= 10
        invariant
            decimal_digits(n as nat) == decimal_digits(m as nat) + reversed(low_first@),
        decreases m,
    {
        let d: u8 = (m % 10) as u8;
        let c: char = (d + 48) as char;
        assert(c == digit_char((m % 10) as nat));
        let ghost before = low_first@;
        low_first.push(c);
        assert(decimal_digits(m as nat) == decimal_digits((m / 10) as nat).push(c));
        assert(reversed(low_first@) =~= seq![c] + reversed(before));
        assert(decimal_digits((m / 10) as nat).push(c) + reversed(before) =~= decimal_digits(
            (m / 10) as nat,
        ) + (seq![c] + reversed(before)));
        m = m / 10;
    }
    let c: char = ((m as u8) + 48) as char;
    assert(c == digit_char(m as nat));
    let ghost before = low_first@;
    low_first.push(c);
    assert(reversed(low_first@) =~= seq![c] + reversed(before));
    let mut r: Vec<char> = Vec::new();
    let mut i: usize = low_first.len();
    while i > 0
        invariant
            i <= low_first.len(),
            r@ == reversed(low_first@).take(low_first.len() - i),
        decreases i,
    {
        i -= 1;
        r.push(low_first[i]);
    }
    assert(reversed(low_first@).take(low_first.len() as int) == reversed(low_first@));
    r
}

/// `s` read from its end to its start.
pub open spec fn reversed(s: Seq<char>) -> Seq<char> {
    Seq::new(s.len(), |i: int| s[s.len() - 1 - i])
}

/// Writes `n` bytes as a size literal, in the largest unit that divides `n`.
pub fn format_size(n: u64) -> (r: String)
    ensures
        r@ == size_literal(n as nat),
{
    let (count, unit): (u64, char) = if n > 0 && n % TB == 0 {
        (n / TB, 'T')
    } else if n > 0 && n % GB == 0 {
        (n / GB, 'G')
    } else if n > 0 && n % MB == 0 {
        (n / MB, 'M')
    } else if n > 0 && n % KB == 0 {
        (n / KB, 'K')
    } else {
        (n, 'B')
    };
    let mut text = decimal_chars(count);
    if unit != 'B' {
        text.push(unit);
    }
    text.push('B');
    assert(text@ =~= size_literal(n as nat));
    chars_to_string(&text)
}

/// Text that denotes a size holds white space, digits and the letters of
/// the units only: no `*` among them.
pub proof fn lemma_size_text_has_no_star(s: Seq<char>)
    requires
        parse_size(s) is Some,
    ensures
        !s.contains('*'),
{
    let front = trim_start(s);
    let t = trim(s);
    lemma_trim_start_shape(s);
    lemma_trim_end_shape(front);
    let a = s.len() - front.len();
    let n = digit_prefix_len(t) as int;
    lemma_digit_prefix(t);
    let unit = t.skip(n);
    assert(unit_multiplier(upper(unit)) is Some);
    assert forall|i: int| 0 <= i < s.len() implies s[i] != '*' by {
        if i < a {
            assert(is_space(s[i]));
        } else {
            assert(s[i] == front[i - a]);
            if i - a >= t.len() {
                assert(is_space(front[i - a]));
            } else {
                assert(front[i - a] == t[i - a]);
                if i - a < n {
                    assert(is_digit(t[i - a]));
                } else {
                    let j = i - a - n;
                    assert(unit[j] == t[i - a]);
                    assert(upper(unit)[j] == ascii_upper(unit[j]));
                    assert('A' <= upper(unit)[j] <= 'Z');
                }
            }
        }
    }
}

} // verus!
