//! Decimal numbers in text.

use vstd::prelude::*;
use crate::text::is_digit;

verus! {

/// The value of a decimal digit.
pub open spec fn digit_value(c: char) -> nat {
    (c as int - '0' as int) as nat
}

/// The digit with the given value.
pub open spec fn digit_char(d: nat) -> char {
    (d + '0' as int) as char
}

/// The number that a sequence of digits denotes.
pub open spec fn digits_value(s: Seq<char>) -> nat
    decreases s.len(),
{
    if s.len() == 0 {
        0
    } else {
        digits_value(s.drop_last()) * 10 + digit_value(s.last())
    }
}

/// A number written in base ten, without leading zeros.
pub open spec fn decimal(n: nat) -> Seq<char>
    decreases n,
{
    if n < 10 {
        seq![digit_char(n)]
    } else {
        decimal(n / 10).push(digit_char(n % 10))
    }
}

/// Whether `s` is a non-empty sequence of digits.
pub open spec fn is_digits(s: Seq<char>) -> bool {
    s.len() > 0 && forall|i: int| 0 <= i < s.len() ==> is_digit(#[trigger] s[i])
}

/// `s` without one leading plus sign.
pub open spec fn unsigned_part(s: Seq<char>) -> Seq<char> {
    if s.len() > 0 && s[0] == '+' {
        s.skip(1)
    } else {
        s
    }
}

/// The 64-bit number that `s` denotes: digits, perhaps after a plus sign.
pub open spec fn parsed_u64(s: Seq<char>) -> Option<u64> {
    let d = unsigned_part(s);
    if is_digits(d) && digits_value(d) <= u64::MAX {
        Some(digits_value(d) as u64)
    } else {
        None
    }
}

/// A leading part of a number is no larger than the number.
proof fn lemma_prefix_value(s: Seq<char>, k: int)
    requires
        0 <= k <= s.len(),
    ensures
        digits_value(s.take(k)) <= digits_value(s),
    decreases s.len() - k,
{
    if k < s.len() {
        lemma_prefix_value(s, k + 1);
        assert(s.take(k + 1).drop_last() =~= s.take(k));
    } else {
        assert(s.take(k) =~= s);
    }
}

/// Reads a 64-bit number.
pub fn parse_u64(s: &[char]) -> (r: Option<u64>)
    ensures
        r == parsed_u64(s@),
{
    let from: usize = if s.len() > 0 && s[0] == '+' {
        1
    } else {
        0
    };
    let ghost d = unsigned_part(s@);
    assert(d =~= s@.skip(from as int));
    if from == s.len() {
        return None;
    }
    let mut value: u64 = 0;
    let mut i: usize = from;
    assert(d.take(0) =~= seq![]);
    while i < s.len()
        invariant
            from <= 1,
            from <= i <= s@.len(),
            d == unsigned_part(s@),
            d == s@.skip(from as int),
            forall|k: int| 0 <= k < i - from ==> is_digit(#[trigger] d[k]),
            value == digits_value(d.take(i - from)),
        decreases s@.len() - i,
    {
        let c = s[i];
        assert(d[i - from] == c);
        if !('0' <= c && c <= '9') {
            return None;
        }
        proof {
            assert(d.take(i - from + 1).drop_last() =~= d.take(i - from));
            lemma_prefix_value(d, i - from + 1);
        }
        let digit: u64 = (c as u32 - '0' as u32) as u64;
        if value > u64::MAX / 10 || (value == u64::MAX / 10 && digit > u64::MAX % 10) {
            return None;
        }
        value = value * 10 + digit;
        i += 1;
    }
    assert(d.take(i - from) =~= d);
    Some(value)
}

/// The digits of a number in base ten.
pub fn decimal_of(n: u64) -> (r: String)
    ensures
        r@ == decimal(n as nat),
    decreases n,
{
    let mut out = if n < 10 {
        String::new()
    } else {
        decimal_of(n / 10)
    };
    let digit: u8 = (n % 10) as u8 + 48;
    out.push(digit as char);
    out
}

/// A written number is made of digits, has no leading zero, and denotes the number.
pub proof fn lemma_decimal(n: nat)
    ensures
        is_digits(decimal(n)),
        digits_value(decimal(n)) == n,
        decimal(n).len() > 1 ==> decimal(n)[0] != '0',
    decreases n,
{
    let s = decimal(n);
    if n < 10 {
        assert(s.drop_last() =~= seq![]);
        assert(digits_value(s.drop_last()) == 0);
    } else {
        lemma_decimal(n / 10);
        let t = decimal(n / 10);
        assert(s.drop_last() =~= t);
        assert(s[0] == t[0]);
        if t.len() == 1 {
            assert(t.drop_last() =~= seq![]);
            assert(digits_value(t.drop_last()) == 0);
        }
        assert forall|i: int| 0 <= i < s.len() implies is_digit(#[trigger] s[i]) by {
            if i < t.len() {
                assert(s[i] == t[i]);
            }
        }
    }
}

/// Reading a written number gives it back.
pub proof fn law_number_round_trip(n: u64)
    ensures
        parsed_u64(decimal(n as nat)) == Some(n),
{
    lemma_decimal(n as nat);
    let s = decimal(n as nat);
    assert(is_digit(s[0]));
}

/// Different numbers are written differently.
pub proof fn lemma_decimal_injective(m: nat, n: nat)
    requires
        decimal(m) == decimal(n),
    ensures
        m == n,
{
    lemma_decimal(m);
    lemma_decimal(n);
}

/// Numbers are written digit by digit: those below ten by one of the characters from `0` to
/// `9`, the others by the digits of their tenth and one more.
pub proof fn law_decimal(n: nat, d: nat)
    requires
        d < 10,
    ensures
        decimal(d) == seq![(0x30 + d) as char],
        n > 0 ==> decimal(n * 10 + d) == decimal(n) + seq![(0x30 + d) as char],
{
    if n > 0 {
        let m = n * 10 + d;
        assert(m / 10 == n && m % 10 == d);
        assert(decimal(m) =~= decimal(n) + seq![(0x30 + d) as char]);
    }
}

/// Digits are zeros and then the number that they denote.
proof fn lemma_digits_are_decimal(s: Seq<char>) -> (zeros: Seq<char>)
    requires
        is_digits(s),
    ensures
        forall|k: int| 0 <= k < zeros.len() ==> #[trigger] zeros[k] == '0',
        s == zeros + decimal(digits_value(s)),
    decreases s.len(),
{
    let head = s.drop_last();
    let d = digit_value(s.last());
    assert(is_digit(s[s.len() - 1]));
    assert(d < 10);
    assert(digit_char(d) == s.last());
    if head.len() == 0 {
        assert(digits_value(head) == 0);
        assert(s =~= seq![] + decimal(digits_value(s)));
        seq![]
    } else {
        assert forall|i: int| 0 <= i < head.len() implies is_digit(#[trigger] head[i]) by {
            assert(head[i] == s[i]);
        }
        let zeros = lemma_digits_are_decimal(head);
        let n = digits_value(head);
        law_decimal(n, d);
        if n == 0 {
            let more = zeros + decimal(0);
            assert(decimal(0) =~= seq!['0']);
            assert(s =~= more + decimal(digits_value(s)));
            more
        } else {
            assert(decimal(n * 10 + d) == decimal(n) + seq![digit_char(d)]);
            assert(s =~= head + seq![s.last()]);
            assert(digits_value(s) == n * 10 + d);
            assert(s =~= zeros + decimal(digits_value(s)));
            zeros
        }
    }
}

proof fn lemma_zeros_count_nothing(zeros: Seq<char>, n: nat)
    requires
        forall|k: int| 0 <= k < zeros.len() ==> #[trigger] zeros[k] == '0',
    ensures
        is_digits(zeros + decimal(n)),
        digits_value(zeros + decimal(n)) == n,
    decreases n,
{
    let s = zeros + decimal(n);
    lemma_decimal(n);
    assert forall|i: int| 0 <= i < s.len() implies is_digit(#[trigger] s[i]) by {
        if i < zeros.len() {
            assert(s[i] == zeros[i]);
        } else {
            assert(s[i] == decimal(n)[i - zeros.len()]);
        }
    }
    if n < 10 {
        lemma_zeros_value(zeros);
        assert(s.drop_last() =~= zeros);
    } else {
        lemma_zeros_count_nothing(zeros, n / 10);
        assert(s.drop_last() =~= zeros + decimal(n / 10));
    }
}

proof fn lemma_zeros_value(zeros: Seq<char>)
    requires
        forall|k: int| 0 <= k < zeros.len() ==> #[trigger] zeros[k] == '0',
    ensures
        digits_value(zeros) == 0,
    decreases zeros.len(),
{
    if zeros.len() > 0 {
        assert(zeros.last() == zeros[zeros.len() - 1]);
        assert forall|k: int| 0 <= k < zeros.drop_last().len() implies #[trigger] zeros.drop_last()[k]
            == '0' by {
            assert(zeros.drop_last()[k] == zeros[k]);
        }
        lemma_zeros_value(zeros.drop_last());
    }
}

/// A number is read from its digits, whatever zeros stand before them and whether or not a
/// plus sign does.
pub proof fn law_number_is_read(zeros: Seq<char>, n: u64)
    requires
        forall|k: int| 0 <= k < zeros.len() ==> #[trigger] zeros[k] == '0',
    ensures
        parsed_u64(zeros + decimal(n as nat)) == Some(n),
        parsed_u64(seq!['+'] + (zeros + decimal(n as nat))) == Some(n),
{
    let s = zeros + decimal(n as nat);
    lemma_zeros_count_nothing(zeros, n as nat);
    assert(is_digit(s[0]));
    assert((seq!['+'] + s).skip(1) =~= s);
}

/// Nothing else is read as a number: what is read is zeros and the number, perhaps after a
/// plus sign.
pub proof fn law_only_numbers_are_read(s: Seq<char>) -> (r: (Seq<char>, Seq<char>))
    requires
        parsed_u64(s) is Some,
    ensures
        s == r.0 + r.1 + decimal(parsed_u64(s)->0 as nat),
        r.0 == Seq::<char>::empty() || r.0 == seq!['+'],
        forall|k: int| 0 <= k < r.1.len() ==> #[trigger] (r.1)[k] == '0',
{
    let d = unsigned_part(s);
    let zeros = lemma_digits_are_decimal(d);
    let sign = if d.len() < s.len() {
        seq!['+']
    } else {
        Seq::<char>::empty()
    };
    assert(s =~= sign + d);
    assert(s =~= sign + zeros + decimal(digits_value(d)));
    (sign, zeros)
}

}
