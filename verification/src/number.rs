//! Decimal notation of integers, in both directions.
use crate::text::to_chars;
use vstd::prelude::*;

verus! {

/// The character for a digit below ten.
pub open spec fn digit(d: nat) -> char {
    ((48 + d) as u32) as char
}

/// Whether `c` is one of the characters `0` to `9`.
pub open spec fn is_digit(c: char) -> bool {
    '0' <= c <= '9'
}

/// Decimal notation of a natural number, without leading zeros.
pub open spec fn dec(n: nat) -> Seq<char>
    decreases n,
{
    if n < 10 {
        seq![digit(n)]
    } else {
        dec(n / 10).push(digit(n % 10))
    }
}

/// Decimal notation of an integer.
pub open spec fn dec_int(n: int) -> Seq<char> {
    if n < 0 {
        seq!['-'] + dec((-n) as nat)
    } else {
        dec(n as nat)
    }
}

/// The number that a run of digits stands for.
pub open spec fn value(s: Seq<char>) -> nat
    decreases s.len(),
{
    if s.len() == 0 {
        0
    } else {
        value(s.drop_last()) * 10 + ((s.last() as u32) - 48) as nat
    }
}

/// Whether `s` is a non-empty run of digits.
pub open spec fn all_digits(s: Seq<char>) -> bool {
    &&& s.len() > 0
    &&& forall|i: int| 0 <= i < s.len() ==> #[trigger] is_digit(s[i])
}

/// The integer that `s` is the notation of: digits, after at most one sign.
pub open spec fn int_value(s: Seq<char>) -> Option<int> {
    if all_digits(s) {
        Some(value(s) as int)
    } else if s.len() > 0 && s[0] == '+' && all_digits(s.drop_first()) {
        Some(value(s.drop_first()) as int)
    } else if s.len() > 0 && s[0] == '-' && all_digits(s.drop_first()) {
        Some(-(value(s.drop_first()) as int))
    } else {
        None
    }
}

/// The signed 64-bit number that `s` is the notation of, where there is one and it fits.
pub open spec fn i64_value(s: Seq<char>) -> Option<i64> {
    match int_value(s) {
        Some(n) if i64::MIN <= n <= i64::MAX => Some(n as i64),
        _ => None,
    }
}

/// Decimal notation of an unsigned number.
pub fn dec_unsigned(n: u128) -> (s: String)
    ensures
        s@ == dec(n as nat),
    decreases n,
{
    if n < 10 {
        let mut s = String::new();
        s.push((48u8 + (n as u8)) as char);
        s
    } else {
        let mut s = dec_unsigned(n / 10);
        s.push((48u8 + ((n % 10) as u8)) as char);
        s
    }
}

/// Decimal notation of a signed number.
pub fn dec_signed(n: i64) -> (s: String)
    ensures
        s@ == dec_int(n as int),
{
    if n < 0 {
        let mut s = String::new();
        s.push('-');
        let digits = dec_unsigned((-(n as i128)) as u128);
        s.append(digits.as_str());
        proof {
            assert(s@ =~= seq!['-'] + dec((-(n as int)) as nat));
        }
        s
    } else {
        dec_unsigned(n as u128)
    }
}

/// Decimal notation holds digits only, and reading it gives the number back.
pub proof fn lemma_value_of_dec(n: nat)
    ensures
        all_digits(dec(n)),
        value(dec(n)) == n,
    decreases n,
{
    if n < 10 {
        let s = dec(n);
        assert(s.drop_last() =~= Seq::<char>::empty());
        assert(value(s.drop_last()) == 0);
        assert(is_digit(s[0]));
    } else {
        lemma_value_of_dec(n / 10);
        let s = dec(n);
        assert(s.drop_last() =~= dec(n / 10));
        assert forall|i: int| 0 <= i < s.len() implies #[trigger] is_digit(s[i]) by {
            if i < s.len() - 1 {
                assert(s[i] == dec(n / 10)[i]);
                assert(is_digit(dec(n / 10)[i]));
            }
        }
    }
}

/// Two numbers with the same notation are the same number.
pub proof fn lemma_dec_injective(a: nat, b: nat)
    requires
        dec(a) == dec(b),
    ensures
        a == b,
{
    lemma_value_of_dec(a);
    lemma_value_of_dec(b);
}

/// Reading the notation of a number gives that number back, whatever its sign.
pub proof fn law_number_roundtrip(n: i64)
    ensures
        i64_value(dec_int(n as int)) == Some(n),
{
    if n < 0 {
        let s = dec_int(n as int);
        lemma_value_of_dec((-(n as int)) as nat);
        assert(s.drop_first() =~= dec((-(n as int)) as nat));
        assert(!is_digit(s[0]));
    } else {
        lemma_value_of_dec(n as nat);
    }
}

/// Reading more digits never makes the value smaller.
proof fn lemma_value_grows(s: Seq<char>, n: int)
    requires
        all_digits(s),
        0 <= n <= s.len(),
    ensures
        value(s.take(n)) <= value(s),
    decreases s.len() - n,
{
    if n == s.len() {
        assert(s.take(n) =~= s);
    } else {
        lemma_value_grows(s, n + 1);
        assert(s.take(n + 1).drop_last() =~= s.take(n));
        assert(is_digit(s[n]));
        assert(value(s.take(n)) <= value(s.take(n)) * 10) by (nonlinear_arith);
    }
}

/// The value of the digits of `v` from index `from` on, where they are digits and their value is
/// at most 2^63.
fn digits_value(v: &[char], from: usize) -> (r: Option<u128>)
    requires
        from <= v@.len(),
    ensures
        match r {
            Some(n) => {
                &&& all_digits(v@.skip(from as int))
                &&& n == value(v@.skip(from as int))
                &&& n <= 0x8000_0000_0000_0000
            },
            None => !all_digits(v@.skip(from as int)) || value(v@.skip(from as int))
                > 0x8000_0000_0000_0000,
        },
{
    let ghost s = v@.skip(from as int);
    if from >= v.len() {
        return None;
    }
    let mut i: usize = from;
    let mut n: u128 = 0;
    while i < v.len()
        invariant
            from <= i <= v@.len(),
            s == v@.skip(from as int),
            n == value(s.take(i - from)),
            n <= 0x8000_0000_0000_0000,
            forall|k: int| 0 <= k < i - from ==> #[trigger] is_digit(s[k]),
        decreases v@.len() - i,
    {
        let c = v[i];
        proof {
            assert(s[i - from] == c);
        }
        if c < '0' || c > '9' {
            proof {
                assert(!is_digit(s[i - from]));
            }
            return None;
        }
        n = n * 10 + ((c as u32) - 48) as u128;
        proof {
            assert(s.take(i + 1 - from).drop_last() =~= s.take(i - from));
            assert(s.take(i + 1 - from).last() == c);
            assert(is_digit(s[i - from]));
        }
        if n > 0x8000_0000_0000_0000 {
            proof {
                if all_digits(s) {
                    lemma_value_grows(s, i + 1 - from);
                }
            }
            return None;
        }
        i += 1;
    }
    proof {
        assert(s.take(i - from) =~= s);
    }
    Some(n)
}

/// Read a signed 64-bit number.
pub fn parse_i64(s: &str) -> (r: Option<i64>)
    ensures
        r == i64_value(s@),
{
    let v = to_chars(s);
    if v.len() == 0 {
        return None;
    }
    let signed = v[0] == '+' || v[0] == '-';
    let from: usize = if signed { 1 } else { 0 };
    let digits = digits_value(v.as_slice(), from);
    proof {
        assert(v@.skip(0) =~= v@);
        assert(v@.skip(1) =~= v@.drop_first());
        assert(signed ==> !all_digits(s@)) by {
            assert(is_digit(s@[0]) == is_digit(v@[0]));
        }
    }
    match digits {
        None => None,
        Some(n) => {
            if v[0] == '-' {
                Some((-(n as i128)) as i64)
            } else if n < 0x8000_0000_0000_0000 {
                Some(n as i64)
            } else {
                None
            }
        },
    }
}

/// A number is written with digits alone, the last of which is its remainder by ten, and without a
/// zero in front; below zero it has a minus sign in front of the digits.
pub proof fn law_numbers_are_plain_digits(n: nat)
    ensures
        all_digits(dec(n)),
        n > 0 ==> dec(n)[0] != '0',
        n < 10 ==> dec(n).len() == 1,
        dec(n).last() as u32 == 48 + n % 10,
        dec_int(n as int) == dec(n),
        n > 0 ==> dec_int(-(n as int)) == seq!['-'] + dec(n),
    decreases n,
{
    if n >= 10 {
        law_numbers_are_plain_digits(n / 10);
        let front = dec(n / 10);
        assert forall|i: int| 0 <= i < dec(n).len() implies #[trigger] is_digit(dec(n)[i]) by {
            if i < front.len() {
                assert(is_digit(front[i]));
            }
        }
    } else {
        assert(is_digit(dec(n)[0]));
    }
}

/// A number is read with or without a sign; anything else is none.
pub proof fn law_signs_are_read(s: Seq<char>, i: int)
    ensures
        all_digits(s) ==> int_value(s) == Some(value(s) as int),
        all_digits(s) ==> int_value(seq!['+'] + s) == Some(value(s) as int),
        all_digits(s) ==> int_value(seq!['-'] + s) == Some(-(value(s) as int)),
        int_value(Seq::empty()) is None,
        int_value(seq!['-']) is None,
        int_value(seq!['+']) is None,
        0 < i < s.len() && !('0' <= s[i] <= '9') ==> int_value(s) is None,
        s.len() > 0 && !('0' <= s[0] <= '9') && s[0] != '-' && s[0] != '+' ==> int_value(s) is None,
        int_value(s) matches Some(n) ==> (i64_value(s) is Some <==> i64::MIN <= n <= i64::MAX),
{
    assert((seq!['+'] + s).drop_first() =~= s);
    assert((seq!['-'] + s).drop_first() =~= s);
    assert(!is_digit((seq!['+'] + s)[0]));
    assert(!is_digit((seq!['-'] + s)[0]));
    assert(!is_digit(seq!['-'][0]));
    assert(!is_digit(seq!['+'][0]));
    if 0 < i < s.len() && !('0' <= s[i] <= '9') {
        assert(!is_digit(s[i]));
        assert(!is_digit(s.drop_first()[i - 1]));
    }
    if s.len() > 0 && !('0' <= s[0] <= '9') {
        assert(!is_digit(s[0]));
    }
}

} // verus!
