//! Decimal integers.
use super::edit::characters;
use vstd::prelude::*;

verus! {

/// `s` is one or more decimal digits.
pub open spec fn all_digits(s: Seq<char>) -> bool {
    &&& s.len() > 0
    &&& forall|i: int| 0 <= i < s.len() ==> '0' <= #[trigger] s[i] <= '9'
}

/// The number that the digits `s` denote.
pub open spec fn digits_value(s: Seq<char>) -> int
    decreases s.len(),
{
    if s.len() == 0 {
        0
    } else {
        digits_value(s.drop_last()) * 10 + (s.last() as int - '0' as int)
    }
}

/// The 64-bit integer that `s` denotes: decimal digits, with or without a sign before them.
pub open spec fn integer_of(s: Seq<char>) -> Option<int> {
    let signed = s.len() > 0 && (s[0] == '-' || s[0] == '+');
    let digits = if signed {
        s.skip(1)
    } else {
        s
    };
    let value = if signed && s[0] == '-' {
        -digits_value(digits)
    } else {
        digits_value(digits)
    };
    if all_digits(digits) && i64::MIN <= value <= i64::MAX {
        Some(value)
    } else {
        None
    }
}

proof fn lemma_digits_grow(s: Seq<char>, i: int)
    requires
        forall|j: int| 0 <= j < s.len() ==> '0' <= #[trigger] s[j] <= '9',
        0 <= i <= s.len(),
    ensures
        0 <= digits_value(s.take(i)) <= digits_value(s),
    decreases s.len(),
{
    if i == s.len() {
        assert(s.take(i) =~= s);
        if s.len() > 0 {
            lemma_digits_grow(s.drop_last(), 0);
        }
    } else {
        lemma_digits_grow(s.drop_last(), i);
        assert(s.drop_last().take(i) =~= s.take(i));
    }
}

/// The decimal digits of a number, without needless zeros.
pub open spec fn digits_of(n: nat) -> Seq<char>
    decreases n,
{
    if n < 10 {
        seq![('0' as int + n) as char]
    } else {
        digits_of(n / 10).push(('0' as int + n % 10) as char)
    }
}

/// A number in decimal, with a sign if it is negative.
pub open spec fn decimal(n: int) -> Seq<char> {
    if n < 0 {
        seq!['-'] + digits_of((-n) as nat)
    } else {
        digits_of(n as nat)
    }
}

/// Digits denote the number that they were written for.
proof fn lemma_digits_of(n: nat)
    ensures
        all_digits(digits_of(n)),
        digits_value(digits_of(n)) == n,
    decreases n,
{
    reveal_with_fuel(digits_value, 2);
    let s = digits_of(n);
    if n < 10 {
        assert(s.drop_last() =~= seq![]);
    } else {
        lemma_digits_of(n / 10);
        assert(s.drop_last() =~= digits_of(n / 10));
    }
}

/// A 64-bit integer is read back from its decimal form, and from the same with a plus sign or
/// with zeros before it. A number that has no 64-bit integer is none.
pub proof fn lemma_decimal(n: int)
    ensures
        i64::MIN <= n <= i64::MAX ==> integer_of(decimal(n)) == Some(n),
        0 <= n <= i64::MAX ==> integer_of(seq!['+'] + decimal(n)) == Some(n),
        n < i64::MIN || i64::MAX < n ==> integer_of(decimal(n)) is None,
{
    let m = if n < 0 {
        (-n) as nat
    } else {
        n as nat
    };
    let digits = digits_of(m);
    lemma_digits_of(m);
    assert(digits[0] != '-' && digits[0] != '+');
    assert((seq!['-'] + digits).skip(1) =~= digits);
    assert((seq!['+'] + digits).skip(1) =~= digits);
}

/// A zero before some digits changes nothing.
pub proof fn lemma_leading_zero(digits: Seq<char>)
    requires
        all_digits(digits),
    ensures
        integer_of(seq!['0'] + digits) == integer_of(digits),
        integer_of(seq!['-', '0'] + digits) == integer_of(seq!['-'] + digits),
        integer_of(seq!['+'] + digits) == integer_of(digits),
{
    lemma_zero_value(digits);
    let zero = seq!['0'] + digits;
    assert(all_digits(zero));
    assert((seq!['-', '0'] + digits).skip(1) =~= zero);
    assert((seq!['-'] + digits).skip(1) =~= digits);
    assert((seq!['+'] + digits).skip(1) =~= digits);
    assert(digits[0] != '-' && digits[0] != '+');
}

proof fn lemma_zero_value(digits: Seq<char>)
    ensures
        digits_value(seq!['0'] + digits) == digits_value(digits),
    decreases digits.len(),
{
    let zero = seq!['0'] + digits;
    if digits.len() == 0 {
        reveal_with_fuel(digits_value, 2);
        assert(zero.drop_last() =~= seq![]);
    } else {
        assert(zero.drop_last() =~= seq!['0'] + digits.drop_last());
        lemma_zero_value(digits.drop_last());
    }
}

/// An integer is written with decimal digits alone, but for a sign before them.
pub proof fn lemma_integer_characters(s: Seq<char>)
    ensures
        integer_of(s) is Some ==> {
            &&& s.len() > 0
            &&& forall|i: int| 1 <= i < s.len() ==> '0' <= #[trigger] s[i] <= '9'
            &&& '0' <= s[0] <= '9' || (s.len() > 1 && (s[0] == '-' || s[0] == '+'))
        },
{
    if integer_of(s) is Some {
        if s[0] == '-' || s[0] == '+' {
            assert forall|i: int| 1 <= i < s.len() implies '0' <= #[trigger] s[i] <= '9' by {
                assert(s.skip(1)[i - 1] == s[i]);
            }
        }
    }
}

/// The 64-bit integer that `text` denotes: decimal digits, with or without a sign before them.
pub fn parse_integer(text: &str) -> (r: Option<i64>)
    ensures
        match r {
            Some(n) => integer_of(text@) == Some(n as int),
            None => integer_of(text@) is None,
        },
{
    let cs = characters(text);
    let n = cs.len();
    let signed = n > 0 && (cs[0] == '-' || cs[0] == '+');
    let negative = n > 0 && cs[0] == '-';
    let start: usize = if signed {
        1
    } else {
        0
    };
    let ghost digits = text@.skip(start as int);
    proof {
        assert(text@.skip(0) =~= text@);
    }
    if start == n {
        return None;
    }
    let mut value: i128 = 0;
    let mut i: usize = start;
    assert(digits.take(0) =~= Seq::<char>::empty());
    while i < n
        invariant
            cs@ == text@,
            n == cs@.len(),
            start <= i <= n,
            start <= 1,
            digits == text@.skip(start as int),
            0 <= value <= 0x8000_0000_0000_0000,
            value == digits_value(digits.take(i - start)),
            forall|j: int| 0 <= j < i - start ==> '0' <= #[trigger] digits[j] <= '9',
            digits == (if signed {
                text@.skip(1)
            } else {
                text@
            }),
            signed == (text@.len() > 0 && (text@[0] == '-' || text@[0] == '+')),
        decreases n - i,
    {
        let c = cs[i];
        assert(digits[i - start] == c);
        if c < '0' || c > '9' {
            return None;
        }
        assert(digits.take(i - start + 1).drop_last() =~= digits.take(i - start));
        value = value * 10 + (c as u32 - '0' as u32) as i128;
        i += 1;
        if value > 0x8000_0000_0000_0000 {
            proof {
                if all_digits(digits) {
                    lemma_digits_grow(digits, i - start);
                }
            }
            return None;
        }
    }
    assert(digits.take(n - start) =~= digits);
    if negative {
        Some((-value) as i64)
    } else if value < 0x8000_0000_0000_0000 {
        Some(value as i64)
    } else {
        None
    }
}

} // verus!
