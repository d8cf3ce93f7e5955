//! Decimal text of integers: how the protocol writes numbers and how it reads them back.
use vstd::prelude::*;
use crate::text::{all_in_class, in_class, CharClass};

verus! {

/// The ASCII digit for `d` (for `d` below ten).
pub open spec fn digit_char(d: nat) -> char {
    ((d + 48) as u32) as char
}

/// Whether `c` is an ASCII digit.
pub open spec fn is_digit(c: char) -> bool {
    48 <= (c as u32) && (c as u32) <= 57
}

/// The value of an ASCII digit.
pub open spec fn digit_value(c: char) -> nat {
    ((c as u32) - 48) as nat
}

/// The decimal digits of `n`, most significant first, without leading zeros.
pub open spec fn nat_digits(n: nat) -> Seq<char>
    decreases n,
{
    if n < 10 {
        seq![digit_char(n)]
    } else {
        nat_digits(n / 10).push(digit_char(n % 10))
    }
}

/// The decimal text of `n` as `Display` writes it: a `-` before negative values.
pub open spec fn int_decimal(n: int) -> Seq<char> {
    if n < 0 {
        seq!['-'] + nat_digits((-n) as nat)
    } else {
        nat_digits(n as nat)
    }
}

pub open spec fn all_digits(s: Seq<char>) -> bool {
    forall|i: int| 0 <= i < s.len() ==> is_digit(#[trigger] s[i])
}

/// The value of a string of digits.
pub open spec fn digits_value(s: Seq<char>) -> nat
    decreases s.len(),
{
    if s.len() == 0 {
        0
    } else {
        digits_value(s.drop_last()) * 10 + digit_value(s.last())
    }
}

/// The integer that `s` spells as `FromStr` for Rust's integer types reads it,
/// before its range is checked: an optional `+` (or, where `signed`, `-`) and
/// then one or more ASCII digits, nothing else.
pub open spec fn decimal_value(s: Seq<char>, signed: bool) -> Option<int> {
    if s.len() == 0 {
        None
    } else if s[0] == '+' || (signed && s[0] == '-') {
        let body = s.drop_first();
        if body.len() > 0 && all_digits(body) {
            if s[0] == '-' {
                Some(-(digits_value(body) as int))
            } else {
                Some(digits_value(body) as int)
            }
        } else {
            None
        }
    } else if all_digits(s) {
        Some(digits_value(s) as int)
    } else {
        None
    }
}

/// `s.parse::<i64>()`, with every error as `None`.
pub open spec fn parse_i64_spec(s: Seq<char>) -> Option<i64> {
    match decimal_value(s, true) {
        Some(v) => if i64::MIN <= v <= i64::MAX {
            Some(v as i64)
        } else {
            None
        },
        None => None,
    }
}

/// `s.parse::<i32>()`, with every error as `None`.
pub open spec fn parse_i32_spec(s: Seq<char>) -> Option<i32> {
    match decimal_value(s, true) {
        Some(v) => if i32::MIN <= v <= i32::MAX {
            Some(v as i32)
        } else {
            None
        },
        None => None,
    }
}

/// `s.parse::<usize>()`, with every error as `None`.
pub open spec fn parse_usize_spec(s: Seq<char>) -> Option<usize> {
    match decimal_value(s, false) {
        Some(v) => if 0 <= v <= usize::MAX {
            Some(v as usize)
        } else {
            None
        },
        None => None,
    }
}

pub proof fn lemma_digit_char(d: nat)
    requires
        d < 10,
    ensures
        is_digit(digit_char(d)),
        digit_value(digit_char(d)) == d,
{
    let x: u32 = (d + 48) as u32;
    assert(x as char as u32 == x);
}

pub proof fn lemma_nat_digits_are_digits(n: nat)
    ensures
        all_digits(nat_digits(n)),
        nat_digits(n).len() > 0,
        digits_value(nat_digits(n)) == n,
        nat_digits(n)[0] != '+' && nat_digits(n)[0] != '-',
    decreases n,
{
    if n < 10 {
        lemma_digit_char(n);
        let s = nat_digits(n);
        assert(s.drop_last() =~= Seq::<char>::empty());
        assert(digits_value(s) == digits_value(s.drop_last()) * 10 + digit_value(s.last()));
    } else {
        lemma_nat_digits_are_digits(n / 10);
        lemma_digit_char(n % 10);
        assert((n / 10) * 10 + n % 10 == n) by (nonlinear_arith);
        let s = nat_digits(n);
        assert(s.drop_last() =~= nat_digits(n / 10));
        assert(digits_value(s) == digits_value(s.drop_last()) * 10 + digit_value(s.last()));
        assert forall|i: int| 0 <= i < s.len() implies is_digit(#[trigger] s[i]) by {
            if i < s.len() - 1 {
                assert(s[i] == nat_digits(n / 10)[i]);
            }
        }
    }
}

/// Reading back the decimal text of an integer gives the integer.
pub proof fn lemma_decimal_value_of_int_decimal(n: int)
    ensures
        decimal_value(int_decimal(n), true) == Some(n),
        n >= 0 ==> decimal_value(int_decimal(n), false) == Some(n),
{
    if n < 0 {
        lemma_nat_digits_are_digits((-n) as nat);
        let s = int_decimal(n);
        assert(s.drop_first() =~= nat_digits((-n) as nat));
    } else {
        lemma_nat_digits_are_digits(n as nat);
    }
}

proof fn lemma_digits_value_prefix_monotone(s: Seq<char>, k: int)
    requires
        0 <= k <= s.len(),
        all_digits(s),
    ensures
        digits_value(s.take(k)) <= digits_value(s),
    decreases s.len() - k,
{
    if k < s.len() {
        lemma_digits_value_prefix_monotone(s, k + 1);
        assert(s.take(k + 1).drop_last() =~= s.take(k));
    } else {
        assert(s.take(k) =~= s);
    }
}

fn digit_to_char(d: u64) -> (c: char)
    requires
        d < 10,
    ensures
        c == digit_char(d as nat),
{
    let b: u8 = d as u8;
    (b + 48) as char
}

/// The decimal digits of `n`.
pub fn format_nat(n: u64) -> (result: Vec<char>)
    ensures
        result@ == nat_digits(n as nat),
    decreases n,
{
    if n < 10 {
        let mut v = Vec::new();
        v.push(digit_to_char(n));
        assert(v@ =~= seq![digit_char(n as nat)]);
        v
    } else {
        let mut v = format_nat(n / 10);
        v.push(digit_to_char(n % 10));
        v
    }
}

/// The decimal text of `n` (as `format!("{}", n)` writes it).
pub fn format_i64(n: i64) -> (result: Vec<char>)
    ensures
        result@ == int_decimal(n as int),
{
    if n < 0 {
        let mag: u64 = (0 - (n as i128)) as u64;
        let digits = format_nat(mag);
        let mut v = Vec::new();
        v.push('-');
        let mut i: usize = 0;
        while i < digits.len()
            invariant
                i <= digits@.len(),
                v@ == seq!['-'] + digits@.take(i as int),
            decreases digits@.len() - i,
        {
            v.push(digits[i]);
            assert(digits@.take(i + 1) =~= digits@.take(i as int).push(digits@[i as int]));
            assert(v@ =~= seq!['-'] + digits@.take(i + 1));
            i = i + 1;
        }
        assert(digits@.take(digits@.len() as int) =~= digits@);
        v
    } else {
        format_nat(n as u64)
    }
}

/// The decimal text of a count.
pub fn format_usize(n: usize) -> (result: Vec<char>)
    ensures
        result@ == int_decimal(n as int),
{
    format_nat(n as u64)
}

/// Reads an integer from `s` as `FromStr` does, and returns it if it lies in `lo..=hi`.
fn parse_integer(s: &[char], signed: bool, lo: i128, hi: i128) -> (result: Option<i128>)
    requires
        -0x1_0000_0000_0000_0000 <= lo <= 0 <= hi <= 0x1_0000_0000_0000_0000,
    ensures
        result == (match decimal_value(s@, signed) {
            Some(v) => if lo <= v <= hi {
                Some(v as i128)
            } else {
                None
            },
            None => None,
        }),
{
    if s.len() == 0 {
        return None;
    }
    let negative = signed && s[0] == '-';
    let has_sign = s[0] == '+' || negative;
    let start: usize = if has_sign {
        1
    } else {
        0
    };
    if start >= s.len() {
        return None;
    }
    let bound: u128 = if negative {
        (0 - lo) as u128
    } else {
        hi as u128
    };
    let ghost body = s@.subrange(start as int, s@.len() as int);
    let mut acc: u128 = 0;
    let mut i: usize = start;
    while i < s.len()
        invariant
            start <= i <= s@.len(),
            body == s@.subrange(start as int, s@.len() as int),
            acc as int == digits_value(body.take(i - start)),
            all_digits(body.take(i - start)),
            acc <= bound,
            bound <= 0x1_0000_0000_0000_0000,
            s@.len() > 0,
            negative == (signed && s@[0] == '-'),
            has_sign == (s@[0] == '+' || negative),
            start == (if has_sign { 1usize } else { 0usize }),
            bound == (if negative { (0 - lo) as u128 } else { hi as u128 }),
        decreases s@.len() - i,
    {
        let c = s[i];
        let ghost t = body.take(i - start + 1);
        assert(t.drop_last() =~= body.take(i - start));
        assert(t.last() == c);
        if !((c as u32) >= 48 && (c as u32) <= 57) {
            assert(!all_digits(body));
            proof {
                if start == 1 {
                    assert(s@.drop_first() =~= body);
                } else {
                    assert(s@ =~= body);
                }
            }
            return None;
        }
        acc = acc * 10 + ((c as u32) - 48) as u128;
        assert(all_digits(t)) by {
            assert forall|j: int| 0 <= j < t.len() implies is_digit(#[trigger] t[j]) by {
                if j < t.len() - 1 {
                    assert(t[j] == body.take(i - start)[j]);
                }
            }
        }
        if acc > bound {
            proof {
                let k = i - start + 1;
                if all_digits(body) {
                    lemma_digits_value_prefix_monotone(body, k);
                }
                if start == 1 {
                    assert(s@.drop_first() =~= body);
                } else {
                    assert(s@ =~= body);
                }
            }
            return None;
        }
        i = i + 1;
    }
    assert(body.take(s@.len() - start) =~= body);
    proof {
        if start == 1 {
            assert(s@.drop_first() =~= body);
        } else {
            assert(s@ =~= body);
        }
    }
    if negative {
        Some(0 - (acc as i128))
    } else {
        Some(acc as i128)
    }
}

/// `s.parse::<i64>()`, with every error as `None`.
pub fn parse_i64(s: &[char]) -> (result: Option<i64>)
    ensures
        result == parse_i64_spec(s@),
{
    match parse_integer(s, true, i64::MIN as i128, i64::MAX as i128) {
        Some(v) => Some(v as i64),
        None => None,
    }
}

/// `s.parse::<i32>()`, with every error as `None`.
pub fn parse_i32(s: &[char]) -> (result: Option<i32>)
    ensures
        result == parse_i32_spec(s@),
{
    match parse_integer(s, true, i32::MIN as i128, i32::MAX as i128) {
        Some(v) => Some(v as i32),
        None => None,
    }
}

/// `s.parse::<usize>()`, with every error as `None`.
pub fn parse_usize(s: &[char]) -> (result: Option<usize>)
    ensures
        result == parse_usize_spec(s@),
{
    match parse_integer(s, false, 0, usize::MAX as i128) {
        Some(v) => Some(v as usize),
        None => None,
    }
}

/// Reading back the text `format!("{}", n)` writes gives `n` again.
pub proof fn lemma_parse_i64_of_format(n: i64)
    ensures
        parse_i64_spec(int_decimal(n as int)) == Some(n),
{
    lemma_decimal_value_of_int_decimal(n as int);
}

/// Reading back the text `format!("{}", n)` writes gives `n` again.
pub proof fn lemma_parse_i32_of_format(n: i32)
    ensures
        parse_i32_spec(int_decimal(n as int)) == Some(n),
{
    lemma_decimal_value_of_int_decimal(n as int);
}

/// Reading back the text `format!("{}", n)` writes gives `n` again.
pub proof fn lemma_parse_usize_of_format(n: usize)
    ensures
        parse_usize_spec(int_decimal(n as int)) == Some(n),
{
    lemma_decimal_value_of_int_decimal(n as int);
}

/// The decimal text of an integer is one whitespace-free field.
pub proof fn lemma_int_decimal_is_field(n: int)
    ensures
        int_decimal(n).len() > 0,
        all_in_class(int_decimal(n), CharClass::NonWhiteSpace),
{
    let m: nat = if n < 0 { (-n) as nat } else { n as nat };
    lemma_nat_digits_are_digits(m);
    let s = int_decimal(n);
    assert forall|i: int| 0 <= i < s.len() implies in_class(CharClass::NonWhiteSpace, #[trigger] s[i]) by {
        if n < 0 {
            if i > 0 {
                assert(s[i] == nat_digits(m)[i - 1]);
                assert(is_digit(nat_digits(m)[i - 1]));
            } else {
                assert(s[i] == '-');
            }
        } else {
            assert(is_digit(nat_digits(m)[i]));
        }
    }
}

} // verus!
