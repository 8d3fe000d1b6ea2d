//! Decimal numbers in text.

use crate::text::chars_of;
use vstd::prelude::*;

verus! {

/// `c` is a decimal digit.
pub open spec fn is_digit(c: char) -> bool {
    '0' <= c <= '9'
}

/// The value of a decimal digit.
pub open spec fn digit_value(c: char) -> int {
    c as int - '0' as int
}

/// The digit of a value below ten.
pub open spec fn digit(d: nat) -> char {
    ('0' as int + d) as char
}

/// `n` in decimal digits, without leading zeros.
pub open spec fn decimal(n: nat) -> Seq<char>
    decreases n,
{
    if n < 10 {
        seq![digit(n)]
    } else {
        decimal(n / 10).push(digit(n % 10))
    }
}

fn digit_of(d: u64) -> (c: char)
    requires
        d < 10,
    ensures
        c == digit(d as nat),
{
    match d {
        0 => '0',
        1 => '1',
        2 => '2',
        3 => '3',
        4 => '4',
        5 => '5',
        6 => '6',
        7 => '7',
        8 => '8',
        _ => '9',
    }
}

fn push_decimal(n: u64, out: &mut String)
    ensures
        final(out)@ == old(out)@ + decimal(n as nat),
    decreases n,
{
    if n >= 10 {
        push_decimal(n / 10, out);
    }
    out.push(digit_of(n % 10));
    proof {
        if n >= 10 {
            assert(out@ == old(out)@ + decimal((n / 10) as nat).push(digit((n % 10) as nat)));
        } else {
            assert(out@ == old(out)@ + seq![digit(n as nat)]);
        }
    }
}

/// `n` in decimal digits.
pub fn decimal_of(n: u64) -> (r: String)
    ensures
        r@ == decimal(n as nat),
{
    let mut r: String = String::new();
    push_decimal(n, &mut r);
    proof {
        assert(r@ == decimal(n as nat));
    }
    r
}

/// The value of a row of decimal digits.
pub open spec fn digits_value(s: Seq<char>) -> int
    decreases s.len(),
{
    if s.len() == 0 {
        0
    } else {
        digits_value(s.drop_last()) * 10 + digit_value(s.last())
    }
}

/// Every character of `s` is a decimal digit.
pub open spec fn all_digits(s: Seq<char>) -> bool {
    forall|i: int| 0 <= i < s.len() ==> is_digit(#[trigger] s[i])
}

/// The number that `s` writes: an optional sign and then only digits, at
/// least one.
pub open spec fn written_number(s: Seq<char>) -> Option<int> {
    let signed = s.len() > 0 && (s[0] == '-' || s[0] == '+');
    let digits = if signed {
        s.drop_first()
    } else {
        s
    };
    if digits.len() == 0 || !all_digits(digits) {
        None
    } else if s[0] == '-' {
        Some(-digits_value(digits))
    } else {
        Some(digits_value(digits))
    }
}

/// The number that `s` writes, where it fits in 64 bits.
pub open spec fn written_i64(s: Seq<char>) -> Option<int> {
    match written_number(s) {
        Some(v) => if i64::MIN <= v <= i64::MAX {
            Some(v)
        } else {
            None
        },
        None => None,
    }
}

/// What `decimal` writes reads back as the same number.
pub proof fn lemma_decimal_reads_back(n: nat)
    ensures
        decimal(n).len() > 0,
        all_digits(decimal(n)),
        digits_value(decimal(n)) == n,
        written_number(decimal(n)) == Some(n as int),
    decreases n,
{
    if n < 10 {
        assert(seq![digit(n)].drop_last() == Seq::<char>::empty());
        assert(digits_value(Seq::<char>::empty()) == 0);
    } else {
        lemma_decimal_reads_back(n / 10);
        assert(decimal(n).drop_last() == decimal(n / 10));
    }
    assert(is_digit(decimal(n)[0]));
}

/// Two numbers with the same decimal digits are the same number.
pub proof fn lemma_decimal_injective(m: nat, n: nat)
    requires
        decimal(m) == decimal(n),
    ensures
        m == n,
{
    lemma_decimal_reads_back(m);
    lemma_decimal_reads_back(n);
}

fn value_of(c: char) -> (r: u128)
    requires
        is_digit(c),
    ensures
        r == digit_value(c),
        r < 10,
{
    (c as u32 - '0' as u32) as u128
}

/// The number that `s` writes, where it is one and fits.
pub fn parse_i64(s: &str) -> (r: Option<i64>)
    ensures
        match r {
            Some(v) => written_i64(s@) == Some(v as int),
            None => written_i64(s@) is None,
        },
{
    let cs: Vec<char> = chars_of(s);
    let n: usize = cs.len();
    if n == 0 {
        return None;
    }
    let from: usize = if cs[0] == '-' || cs[0] == '+' {
        1
    } else {
        0
    };
    let ghost digits = s@.skip(from as int);
    proof {
        assert(digits == if from == 1 {
            s@.drop_first()
        } else {
            s@
        });
    }
    if from == n {
        return None;
    }
    let limit: u128 = 0x8000_0000_0000_0000;
    let mut acc: u128 = 0;
    let mut over: bool = false;
    let mut i: usize = from;
    while i < n
        invariant
            cs@ == s@,
            n == cs@.len(),
            digits == s@.skip(from as int),
            digits == if s@[0] == '-' || s@[0] == '+' {
                s@.drop_first()
            } else {
                s@
            },
            from <= i <= n,
            limit == 0x8000_0000_0000_0000,
            all_digits(digits.take(i - from)),
            !over ==> acc == digits_value(digits.take(i - from)) && acc <= limit,
            over ==> digits_value(digits.take(i - from)) > limit,
        decreases n - i,
    {
        let c: char = cs[i];
        proof {
            assert(digits[i - from] == c);
        }
        if !('0' <= c && c <= '9') {
            proof {
                assert(!is_digit(digits[i - from]));
            }
            return None;
        }
        let d: u128 = value_of(c);
        proof {
            let t = digits.take(i + 1 - from);
            assert(t.drop_last() == digits.take(i - from));
            assert(t.last() == c);
            assert forall|k: int| 0 <= k < t.len() implies is_digit(#[trigger] t[k]) by {
                if k < i - from {
                    assert(is_digit(digits.take(i - from)[k]));
                }
            }
        }
        if !over {
            acc = acc * 10 + d;
            if acc > limit {
                over = true;
            }
        }
        i += 1;
    }
    proof {
        assert(digits.take(n - from) == digits);
    }
    if over {
        return None;
    }
    if cs[0] == '-' {
        Some((0i128 - acc as i128) as i64)
    } else if acc < limit {
        Some(acc as i64)
    } else {
        None
    }
}

/// A number reads back with a sign in front of it, and a sign alone is no
/// number.
pub proof fn signed_numbers_read_back(n: nat)
    ensures
        written_number(seq!['-'] + decimal(n)) == Some(-(n as int)),
        written_number(seq!['+'] + decimal(n)) == Some(n as int),
        written_number(seq!['-']) is None,
        written_number(Seq::<char>::empty()) is None,
{
    lemma_decimal_reads_back(n);
    assert((seq!['-'] + decimal(n)).drop_first() =~= decimal(n));
    assert((seq!['+'] + decimal(n)).drop_first() =~= decimal(n));
}

/// What holds anything but digits behind its first character is no number.
pub proof fn other_texts_are_no_numbers(s: Seq<char>, i: int)
    requires
        0 < i < s.len() || (i == 0 && s.len() > 0 && s[0] != '-' && s[0] != '+'),
        !('0' <= s[i] <= '9'),
    ensures
        written_number(s) is None,
{
    if s[0] == '-' || s[0] == '+' {
        assert(s.drop_first()[i - 1] == s[i]);
        assert(!is_digit(s.drop_first()[i - 1]));
    } else {
        assert(!is_digit(s[i]));
    }
}

/// A number is written in the digits 0 to 9, the last of which stands for its
/// ones, and without a zero in front unless it is zero.
pub proof fn a_number_ends_in_its_ones(n: nat, d: nat)
    requires
        d < 10,
    ensures
        n > 0 ==> decimal(n * 10 + d) == decimal(n) + decimal(d),
        decimal(d).len() == 1,
        decimal(d)[0] as int == '0' as int + d,
        n > 0 ==> decimal(n)[0] != '0',
    decreases n,
{
    assert(digit(d) as int == '0' as int + d);
    if n > 0 {
        let m: nat = n * 10 + d;
        assert(m / 10 == n && m % 10 == d) by (nonlinear_arith)
            requires
                m == n * 10 + d,
                d < 10,
        ;
        assert(decimal(n) + decimal(d) =~= decimal(n).push(digit(d)));
        if n >= 10 {
            a_number_ends_in_its_ones(n / 10, n % 10);
            assert(decimal(n)[0] == decimal(n / 10)[0]) by {
                lemma_decimal_reads_back(n / 10);
            }
        } else {
            assert(digit(n) as int == '0' as int + n);
        }
    }
}

/// A number that does not fit is not read, and one that fits is.
pub proof fn numbers_that_do_not_fit_are_not_read(s: Seq<char>)
    ensures
        written_i64(s) is Some <==> written_number(s) is Some && -0x8000_0000_0000_0000
            <= written_number(s)->0 <= 0x7fff_ffff_ffff_ffff,
        written_i64(s) is Some ==> written_i64(s) == written_number(s),
{
}

} // verus!
