//! The shapes of text that a cell can have: whole numbers, decimal numbers
//! and truth values, all read from raw bytes.

use vstd::prelude::*;

verus! {

/// The byte `0`.
pub const ZERO: u8 = 48;

/// The byte `9`.
pub const NINE: u8 = 57;

/// The byte `+`.
pub const PLUS: u8 = 43;

/// The byte `-`.
pub const MINUS: u8 = 45;

/// The byte `.`.
pub const POINT: u8 = 46;

/// The byte `e`.
pub const LOWER_E: u8 = 101;

/// The byte `E`.
pub const UPPER_E: u8 = 69;

/// The byte `_`.
pub const UNDERSCORE: u8 = 95;

/// An ASCII decimal digit.
pub open spec fn is_digit(b: u8) -> bool {
    ZERO <= b <= NINE
}

/// `+` or `-`.
pub open spec fn is_sign(b: u8) -> bool {
    b == PLUS || b == MINUS
}

/// `e` or `E`, which opens an exponent.
pub open spec fn is_exponent_mark(b: u8) -> bool {
    b == LOWER_E || b == UPPER_E
}

/// The length of the optional sign that stands at `from`: 1 or 0.
pub open spec fn sign_len(s: Seq<u8>, from: int) -> int {
    if 0 <= from < s.len() && is_sign(s[from]) {
        1
    } else {
        0
    }
}

/// The end of the longest run of digits that starts at `from`.
pub open spec fn digits_end(s: Seq<u8>, from: int) -> int
    decreases s.len() - from,
{
    if 0 <= from < s.len() && is_digit(s[from]) {
        digits_end(s, from + 1)
    } else {
        from
    }
}

/// Every byte of `s` is a digit.
pub open spec fn all_digits(s: Seq<u8>) -> bool {
    forall|i: int| 0 <= i < s.len() ==> is_digit(#[trigger] s[i])
}

/// The number that a run of digits spells in base ten.
pub open spec fn digits_value(s: Seq<u8>) -> int
    decreases s.len(),
{
    if s.len() == 0 {
        0
    } else {
        digits_value(s.drop_last()) * 10 + (s.last() - ZERO)
    }
}

/// Every byte of `s` from `from` up to `to` is a digit.
pub open spec fn digits_between(s: Seq<u8>, from: int, to: int) -> bool {
    forall|k: int| from <= k < to ==> is_digit(#[trigger] s[k])
}

/// `s` is an optional sign followed by one or more digits and nothing else.
pub open spec fn is_integer_shape(s: Seq<u8>) -> bool {
    let a = sign_len(s, 0);
    a < s.len() && digits_between(s, a, s.len() as int)
}

/// The number that a text of integer shape spells.
pub open spec fn integer_value(s: Seq<u8>) -> int {
    let magnitude = digits_value(s.subrange(sign_len(s, 0), s.len() as int));
    if s.len() > 0 && s[0] == MINUS {
        -magnitude
    } else {
        magnitude
    }
}

/// The 64-bit integer that `s` spells: `s` has integer shape and its value
/// fits. Otherwise `s` spells none.
pub open spec fn integer_of(s: Seq<u8>) -> Option<i64> {
    if is_integer_shape(s) && i64::MIN <= integer_value(s) <= i64::MAX {
        Some(integer_value(s) as i64)
    } else {
        None
    }
}

/// `s` parts into a decimal floating-point literal at `b` and `c`: behind
/// the optional sign, digits run up to `b`; the mantissa ends at `c`, which
/// is `b` or lies behind a point at `b` and the digits that follow it; the
/// mantissa holds a digit; and behind it the text ends, or an exponent mark,
/// an optional sign and one or more digits end it.
pub open spec fn float_parts(s: Seq<u8>, b: int, c: int) -> bool {
    let a = sign_len(s, 0);
    &&& a <= b <= c <= s.len()
    &&& digits_between(s, a, b)
    &&& c == b || (s[b] == POINT && digits_between(s, b + 1, c))
    &&& (b - a) + (if c > b {
        c - b - 1
    } else {
        0
    }) > 0
    &&& c == s.len() || {
        let x = c + 1 + sign_len(s, c + 1);
        is_exponent_mark(s[c]) && x < s.len() && digits_between(s, x, s.len() as int)
    }
}

/// `s` is a decimal floating-point literal:
///
/// ```text
/// float    ::= sign? mantissa exponent?
/// mantissa ::= digit+ | digit+ '.' digit* | digit* '.' digit+
/// exponent ::= ('e' | 'E') sign? digit+
/// ```
pub open spec fn is_float_text(s: Seq<u8>) -> bool {
    exists|b: int, c: int| float_parts(s, b, c)
}

/// What one walk over the text finds: past the sign, the digits before the
/// point, the point and the digits after it, and then the exponent.
pub open spec fn float_scan(s: Seq<u8>) -> bool {
    let a = sign_len(s, 0);
    let b = digits_end(s, a);
    let c = if b < s.len() && s[b] == POINT {
        digits_end(s, b + 1)
    } else {
        b
    };
    let mantissa_digits = (b - a) + (if c > b {
        c - b - 1
    } else {
        0
    });
    &&& mantissa_digits > 0
    &&& c == s.len() || {
        let x = c + 1 + sign_len(s, c + 1);
        is_exponent_mark(s[c]) && x < s.len() && digits_end(s, x) == s.len()
    }
}

/// The lower-case form of an ASCII letter; any other byte is left as it is.
pub open spec fn lower(b: u8) -> u8 {
    if 65 <= b <= 90 {
        (b + 32) as u8
    } else {
        b
    }
}

/// `s` spells `word`, whatever the case of its letters. `word` is lower case.
pub open spec fn spells(s: Seq<u8>, word: Seq<u8>) -> bool {
    s.len() == word.len() && forall|i: int| 0 <= i < s.len() ==> lower(#[trigger] s[i]) == word[i]
}

/// The bytes of `true`.
pub open spec fn true_word() -> Seq<u8> {
    seq![116u8, 114u8, 117u8, 101u8]
}

/// The bytes of `false`.
pub open spec fn false_word() -> Seq<u8> {
    seq![102u8, 97u8, 108u8, 115u8, 101u8]
}

/// The truth value that `s` spells: `true` or `false` in any case.
pub open spec fn boolean_of(s: Seq<u8>) -> Option<bool> {
    if spells(s, true_word()) {
        Some(true)
    } else if spells(s, false_word()) {
        Some(false)
    } else {
        None
    }
}

/// The digits of `n` in base ten, most significant first, without padding.
pub open spec fn decimal_digits(n: nat) -> Seq<u8>
    decreases n,
{
    if n < 10 {
        seq![(ZERO + n) as u8]
    } else {
        decimal_digits(n / 10).push((ZERO + n % 10) as u8)
    }
}

/// A run of digits ends within the text, holds digits only, and stops at
/// the first byte that is no digit.
pub proof fn lemma_digits_end(s: Seq<u8>, from: int)
    requires
        0 <= from <= s.len(),
    ensures
        from <= digits_end(s, from) <= s.len(),
        forall|k: int| from <= k < digits_end(s, from) ==> is_digit(#[trigger] s[k]),
        digits_end(s, from) < s.len() ==> !is_digit(s[digits_end(s, from)]),
    decreases s.len() - from,
{
    if from < s.len() && is_digit(s[from]) {
        lemma_digits_end(s, from + 1);
    }
}

/// A run of digits that starts inside another ends where that one ends.
pub proof fn lemma_digits_end_within(s: Seq<u8>, from: int, mid: int)
    requires
        0 <= from <= mid <= s.len(),
        forall|k: int| from <= k < mid ==> is_digit(#[trigger] s[k]),
    ensures
        digits_end(s, from) == digits_end(s, mid),
    decreases mid - from,
{
    if from < mid {
        lemma_digits_end_within(s, from + 1, mid);
    }
}

/// The value of a run of digits is not negative, and no prefix of the run
/// is worth more than the whole.
pub proof fn lemma_digits_value_prefix(s: Seq<u8>, k: int)
    requires
        all_digits(s),
        0 <= k <= s.len(),
    ensures
        0 <= digits_value(s.take(k)) <= digits_value(s),
    decreases s.len() - k,
{
    if k == s.len() {
        assert(s.take(k) =~= s);
        lemma_digits_value_nonnegative(s);
    } else {
        lemma_digits_value_prefix(s, k + 1);
        let t = s.take(k + 1);
        assert(t.drop_last() =~= s.take(k));
        assert(is_digit(s[k]));
        assert(t.last() == s[k]);
        lemma_digits_value_nonnegative(s.take(k));
    }
}

/// The value of a run of digits is not negative.
pub proof fn lemma_digits_value_nonnegative(s: Seq<u8>)
    requires
        all_digits(s),
    ensures
        0 <= digits_value(s),
    decreases s.len(),
{
    if s.len() > 0 {
        assert(is_digit(s[s.len() - 1]));
        lemma_digits_value_nonnegative(s.drop_last());
    }
}

/// The digits of `n` are digits, at least one of them, and spell `n`.
pub proof fn lemma_decimal_digits(n: nat)
    ensures
        decimal_digits(n).len() >= 1,
        all_digits(decimal_digits(n)),
        digits_value(decimal_digits(n)) == n,
    decreases n,
{
    if n < 10 {
        let s = decimal_digits(n);
        assert(s.drop_last() =~= Seq::<u8>::empty());
        assert(digits_value(s.drop_last()) == 0);
    } else {
        lemma_decimal_digits(n / 10);
        let s = decimal_digits(n);
        assert(s.drop_last() =~= decimal_digits(n / 10));
    }
}

/// Two numbers with the same digits are the same number.
pub proof fn lemma_decimal_digits_injective(m: nat, n: nat)
    requires
        decimal_digits(m) == decimal_digits(n),
    ensures
        m == n,
{
    lemma_decimal_digits(m);
    lemma_decimal_digits(n);
}

/// A run of digits that is followed by no digit is the longest one.
pub proof fn lemma_digits_end_is(s: Seq<u8>, from: int, to: int)
    requires
        0 <= from <= to <= s.len(),
        digits_between(s, from, to),
        to == s.len() || !is_digit(s[to]),
    ensures
        digits_end(s, from) == to,
{
    lemma_digits_end_within(s, from, to);
}

/// The walk over the text finds exactly the floating-point literals.
pub proof fn lemma_float_scan(s: Seq<u8>)
    ensures
        float_scan(s) == is_float_text(s),
{
    let a = sign_len(s, 0);
    let b = digits_end(s, a);
    lemma_digits_end(s, a);
    let c = if b < s.len() && s[b] == POINT {
        digits_end(s, b + 1)
    } else {
        b
    };
    if b < s.len() {
        lemma_digits_end(s, b + 1);
    }
    if c < s.len() {
        let x = c + 1 + sign_len(s, c + 1);
        if x <= s.len() {
            lemma_digits_end(s, x);
        }
    }
    if float_scan(s) {
        assert(float_parts(s, b, c));
    }
    if is_float_text(s) {
        let (b1, c1) = choose|b1: int, c1: int| float_parts(s, b1, c1);
        assert(float_parts(s, b1, c1));
        // Behind the digits before the point stands no digit.
        lemma_digits_end_is(s, a, b1);
        assert(b1 == b);
        if c1 > b1 {
            lemma_digits_end_is(s, b1 + 1, c1);
        }
        assert(c1 == c);
        if c < s.len() {
            let x = c + 1 + sign_len(s, c + 1);
            lemma_digits_end_is(s, x, s.len() as int);
        }
        assert(float_scan(s));
    }
}

/// A text of integer shape is a floating-point literal too.
pub proof fn lemma_integer_shape_is_float_text(s: Seq<u8>)
    requires
        is_integer_shape(s),
    ensures
        is_float_text(s),
{
    assert(float_parts(s, s.len() as int, s.len() as int));
}

/// Whether `b` is a decimal digit.
pub fn digit(b: u8) -> (r: bool)
    ensures
        r == is_digit(b),
{
    ZERO <= b && b <= NINE
}

/// Finds the end of the run of digits that starts at `from`.
pub fn scan_digits(s: &[u8], from: usize) -> (end: usize)
    requires
        from <= s.len(),
    ensures
        end == digits_end(s@, from as int),
        from <= end <= s.len(),
{
    let mut i: usize = from;
    while i < s.len() && digit(s[i])
        invariant
            from <= i <= s.len(),
            digits_end(s@, from as int) == digits_end(s@, i as int),
        decreases s.len() - i,
    {
        i += 1;
    }
    i
}

/// Reads a 64-bit integer: an optional sign and decimal digits, the value
/// within the range of `i64`.
pub fn parse_integer(s: &[u8]) -> (r: Option<i64>)
    ensures
        r == integer_of(s@),
{
    let n: usize = s.len();
    let negative: bool = n > 0 && s[0] == MINUS;
    let a: usize = if n > 0 && (s[0] == PLUS || s[0] == MINUS) {
        1
    } else {
        0
    };
    if a >= n {
        return None;
    }
    let limit: u64 = if negative {
        9223372036854775808
    } else {
        9223372036854775807
    };
    let mut acc: u64 = 0;
    let mut i: usize = a;
    assert(s@.subrange(a as int, a as int) =~= Seq::<u8>::empty());
    while i < n
        invariant
            a <= i <= n,
            n == s.len(),
            a == sign_len(s@, 0),
            forall|k: int| a <= k < i ==> is_digit(#[trigger] s@[k]),
            acc == digits_value(s@.subrange(a as int, i as int)),
            acc <= limit,
            limit <= 9223372036854775808,
            negative ==> limit == 9223372036854775808,
            !negative ==> limit == 9223372036854775807,
            negative == (s@.len() > 0 && s@[0] == MINUS),
        decreases n - i,
    {
        let d: u8 = s[i];
        if !digit(d) {
            assert(!is_digit(s@[i as int]));
            return None;
        }
        let next: u128 = acc as u128 * 10 + (d - ZERO) as u128;
        proof {
            let t = s@.subrange(a as int, i + 1);
            assert(t.drop_last() =~= s@.subrange(a as int, i as int));
            assert(t.last() == d);
            assert(next == digits_value(t));
        }
        if next > limit as u128 {
            proof {
                if is_integer_shape(s@) {
                    let whole = s@.subrange(a as int, n as int);
                    assert(all_digits(whole)) by {
                        assert forall|k: int| 0 <= k < whole.len() implies is_digit(
                            #[trigger] whole[k],
                        ) by {
                            assert(whole[k] == s@[a + k]);
                        }
                    }
                    lemma_digits_value_prefix(whole, i + 1 - a);
                    assert(whole.take(i + 1 - a) =~= s@.subrange(a as int, i + 1));
                }
            }
            return None;
        }
        acc = next as u64;
        i += 1;
    }
    proof {
        assert(s@.subrange(a as int, n as int) == s@.subrange(sign_len(s@, 0), s@.len() as int));
    }
    if negative {
        if acc == 9223372036854775808 {
            Some(i64::MIN)
        } else {
            Some(-(acc as i64))
        }
    } else {
        Some(acc as i64)
    }
}

/// Whether `s` is a decimal floating-point literal.
pub fn is_float(s: &[u8]) -> (r: bool)
    ensures
        r == is_float_text(s@),
{
    proof {
        lemma_float_scan(s@);
    }
    let n: usize = s.len();
    let a: usize = if n > 0 && (s[0] == PLUS || s[0] == MINUS) {
        1
    } else {
        0
    };
    let b: usize = scan_digits(s, a);
    let c: usize = if b < n && s[b] == POINT {
        scan_digits(s, b + 1)
    } else {
        b
    };
    let fraction_digits: usize = if c > b {
        c - b - 1
    } else {
        0
    };
    if b - a == 0 && fraction_digits == 0 {
        return false;
    }
    if c == n {
        return true;
    }
    if !(s[c] == LOWER_E || s[c] == UPPER_E) {
        return false;
    }
    let x: usize = if c + 1 < n && (s[c + 1] == PLUS || s[c + 1] == MINUS) {
        c + 2
    } else {
        c + 1
    };
    x < n && scan_digits(s, x) == n
}

/// The lower-case form of an ASCII letter; any other byte as it is.
pub fn to_lower(b: u8) -> (r: u8)
    ensures
        r == lower(b),
{
    if 65 <= b && b <= 90 {
        b + 32
    } else {
        b
    }
}

/// Reads a truth value: `true` or `false`, in any case.
pub fn parse_boolean(s: &[u8]) -> (r: Option<bool>)
    ensures
        r == boolean_of(s@),
{
    if s.len() == 4 {
        if to_lower(s[0]) == 116 && to_lower(s[1]) == 114 && to_lower(s[2]) == 117 && to_lower(
            s[3],
        ) == 101 {
            Some(true)
        } else {
            assert(!spells(s@, true_word())) by {
                if spells(s@, true_word()) {
                    assert(lower(s@[0]) == true_word()[0]);
                    assert(lower(s@[1]) == true_word()[1]);
                    assert(lower(s@[2]) == true_word()[2]);
                    assert(lower(s@[3]) == true_word()[3]);
                }
            }
            None
        }
    } else if s.len() == 5 {
        if to_lower(s[0]) == 102 && to_lower(s[1]) == 97 && to_lower(s[2]) == 108 && to_lower(
            s[3],
        ) == 115 && to_lower(s[4]) == 101 {
            Some(false)
        } else {
            assert(!spells(s@, false_word())) by {
                if spells(s@, false_word()) {
                    assert(lower(s@[0]) == false_word()[0]);
                    assert(lower(s@[1]) == false_word()[1]);
                    assert(lower(s@[2]) == false_word()[2]);
                    assert(lower(s@[3]) == false_word()[3]);
                    assert(lower(s@[4]) == false_word()[4]);
                }
            }
            None
        }
    } else {
        None
    }
}

/// Appends the digits of `n` in base ten to `buf`.
pub fn append_decimal(buf: &mut Vec<u8>, n: usize)
    ensures
        final(buf)@ == old(buf)@ + decimal_digits(n as nat),
    decreases n,
{
    if n >= 10 {
        append_decimal(buf, n / 10);
    }
    let d: u8 = (n % 10) as u8;
    buf.push(ZERO + d);
    proof {
        if n >= 10 {
            assert(buf@ =~= old(buf)@ + decimal_digits(n as nat));
        } else {
            assert(buf@ =~= old(buf)@ + decimal_digits(n as nat));
        }
    }
}

} // verus!
