//! Integers in decimal notation.

use crate::text::is_digit;
use vstd::prelude::*;
use vstd::slice::slice_subrange;

verus! {

/// The digit for `d`, which is below ten.
pub open spec fn digit(d: int) -> char {
    ((48 + d) as u8) as char
}

/// The value of a digit.
pub open spec fn digit_value(c: char) -> int {
    c as int - 48
}

/// The decimal digits of `n`, without leading zeros.
pub open spec fn digits(n: nat) -> Seq<char>
    decreases n,
{
    if n < 10 {
        seq![digit(n as int)]
    } else {
        digits(n / 10).push(digit(n as int % 10))
    }
}

/// `v` in decimal notation, with a minus sign if it is negative.
pub open spec fn decimal(v: int) -> Seq<char> {
    if v < 0 {
        seq!['-'] + digits((-v) as nat)
    } else {
        digits(v as nat)
    }
}

fn push_digits(out: &mut String, n: u128)
    ensures
        final(out)@ == old(out)@ + digits(n as nat),
    decreases n,
{
    if n < 10 {
        out.push((48u8 + n as u8) as char);
    } else {
        push_digits(out, n / 10);
        out.push((48u8 + (n % 10) as u8) as char);
    }
    assert(out@ =~= old(out)@ + digits(n as nat));
}

/// Appends `v` in decimal notation.
pub fn push_decimal(out: &mut String, v: i64)
    ensures
        final(out)@ == old(out)@ + decimal(v as int),
{
    if v < 0 {
        out.push('-');
        push_digits(out, (-(v as i128)) as u128);
        assert(out@ =~= old(out)@ + decimal(v as int));
    } else {
        push_digits(out, v as u128);
    }
}

/// Appends a count in decimal notation.
pub fn push_count(out: &mut String, v: usize)
    ensures
        final(out)@ == old(out)@ + decimal(v as int),
{
    push_digits(out, v as u128);
}

/// The number that a row of digits stands for.
pub open spec fn digits_value(s: Seq<char>) -> int
    decreases s.len(),
{
    if s.len() == 0 {
        0
    } else {
        10 * digits_value(s.drop_last()) + digit_value(s.last())
    }
}

pub open spec fn all_digits(s: Seq<char>) -> bool {
    forall|i: int| 0 <= i < s.len() ==> is_digit(#[trigger] s[i])
}

/// The `i32` that `s` denotes: an optional sign, then digits and nothing else,
/// with a value in range.
pub open spec fn i32_denoted(s: Seq<char>) -> Option<int> {
    let signed = s.len() > 0 && (s[0] == '-' || s[0] == '+');
    let ds = if signed {
        s.skip(1)
    } else {
        s
    };
    let v = if signed && s[0] == '-' {
        -digits_value(ds)
    } else {
        digits_value(ds)
    };
    if ds.len() > 0 && all_digits(ds) && i32::MIN <= v <= i32::MAX {
        Some(v)
    } else {
        None
    }
}

/// More digits stand for a number that is not smaller.
proof fn lemma_digits_value_grows(s: Seq<char>, k: int)
    requires
        all_digits(s),
        0 <= k <= s.len(),
    ensures
        0 <= digits_value(s.take(k)) <= digits_value(s),
    decreases s.len(),
{
    if k == s.len() {
        assert(s.take(k) =~= s);
        if k > 0 {
            assert(all_digits(s.drop_last()));
            lemma_digits_value_grows(s.drop_last(), k - 1);
        }
    } else {
        assert(all_digits(s.drop_last()));
        lemma_digits_value_grows(s.drop_last(), k);
        assert(s.drop_last().take(k) =~= s.take(k));
        lemma_digits_value_grows(s.drop_last(), s.len() - 1);
        assert(is_digit(s.last()));
    }
}

/// The number written by `ds`, if it is at most `limit`.
fn bounded_value(ds: &[char], limit: i64) -> (r: Option<i64>)
    requires
        0 <= limit <= 0x8000_0000,
    ensures
        match r {
            Some(v) => ds@.len() > 0 && all_digits(ds@) && v == digits_value(ds@) && v <= limit,
            None => ds@.len() == 0 || !all_digits(ds@) || digits_value(ds@) > limit,
        },
        r matches Some(v) ==> v >= 0,
{
    if ds.len() == 0 {
        return None;
    }
    let mut v: i64 = 0;
    let mut over: bool = false;
    let mut i: usize = 0;
    while i < ds.len()
        invariant
            i <= ds@.len(),
            0 <= limit <= 0x8000_0000,
            all_digits(ds@.take(i as int)),
            !over ==> v == digits_value(ds@.take(i as int)) && 0 <= v <= limit,
            over ==> digits_value(ds@.take(i as int)) > limit,
        decreases ds@.len() - i,
    {
        let c: char = ds[i];
        if c < '0' || c > '9' {
            assert(!is_digit(ds@[i as int]));
            return None;
        }
        let ghost before = ds@.take(i as int);
        let ghost after = ds@.take(i + 1);
        assert(after.drop_last() =~= before);
        assert(after.last() == c);
        assert forall|j: int| 0 <= j < after.len() implies is_digit(#[trigger] after[j]) by {
            if j < i {
                assert(after[j] == before[j]);
            }
        }
        proof {
            lemma_digits_value_grows(after, i as int);
            assert(after.take(i as int) =~= before);
        }
        if !over {
            v = 10 * v + (c as u32 - 48) as i64;
            if v > limit {
                over = true;
            }
        }
        i += 1;
    }
    assert(ds@.take(ds@.len() as int) =~= ds@);
    if over {
        None
    } else {
        Some(v)
    }
}

/// Reads an `i32`: an optional sign, then digits and nothing else.
pub fn parse_i32(s: &[char]) -> (r: Option<i32>)
    ensures
        match r {
            Some(v) => i32_denoted(s@) == Some(v as int),
            None => i32_denoted(s@) is None,
        },
{
    if s.len() > 0 && s[0] == '-' {
        let ds = slice_subrange(s, 1, s.len());
        assert(ds@ =~= s@.skip(1));
        match bounded_value(ds, 0x8000_0000) {
            Some(v) => Some((-v) as i32),
            None => None,
        }
    } else if s.len() > 0 && s[0] == '+' {
        let ds = slice_subrange(s, 1, s.len());
        assert(ds@ =~= s@.skip(1));
        match bounded_value(ds, 0x7fff_ffff) {
            Some(v) => Some(v as i32),
            None => None,
        }
    } else {
        match bounded_value(s, 0x7fff_ffff) {
            Some(v) => Some(v as i32),
            None => None,
        }
    }
}

/// Reading back what was written gives the number again.
pub proof fn reading_undoes_writing(v: int)
    requires
        i32::MIN <= v <= i32::MAX,
    ensures
        i32_denoted(decimal(v)) == Some(v),
{
    if v < 0 {
        lemma_digits((-v) as nat);
        assert(decimal(v).skip(1) =~= digits((-v) as nat));
    } else {
        lemma_digits(v as nat);
        assert(is_digit(digits(v as nat)[0]));
    }
}

/// A number is written with at least one digit, and its digits denote it.
pub proof fn lemma_digits(n: nat)
    ensures
        digits(n).len() > 0,
        all_digits(digits(n)),
        digits_value(digits(n)) == n,
    decreases n,
{
    reveal_with_fuel(digits_value, 2);
    if n >= 10 {
        lemma_digits(n / 10);
        assert(digits(n).drop_last() =~= digits(n / 10));
    } else {
        assert(digits(n).drop_last() =~= Seq::<char>::empty());
    }
}

/// Numbers are written in the decimal system: those below ten as one digit, and
/// a digit more behind a number makes ten times as much and the digit.
pub proof fn numbers_are_written_in_decimal(n: nat, d: int)
    requires
        0 <= d < 10,
    ensures
        digits(d as nat) == seq![seq!['0', '1', '2', '3', '4', '5', '6', '7', '8', '9'][d]],
        n > 0 ==> digits((10 * n + d) as nat) == digits(n) + digits(d as nat),
        n > 0 ==> digits(n)[0] != '0',
        decimal(n as int) == digits(n),
        n > 0 ==> decimal(-(n as int)) == seq!['-'] + digits(n),
    decreases n,
{
    if n > 0 {
        assert((10 * n + d) / 10 == n);
        assert((10 * n + d) % 10 == d);
        assert(digits((10 * n + d) as nat) =~= digits(n) + digits(d as nat));
        if n >= 10 {
            numbers_are_written_in_decimal(n / 10, n as int % 10);
        }
    }
}

/// What is read is the number that is written, whatever zeros are in front of
/// it: a row of digits with no zero in front is how its value is written, and a
/// zero in front changes nothing.
pub proof fn rows_of_digits_are_numbers(s: Seq<char>)
    requires
        all_digits(s),
    ensures
        digits_value(s) >= 0,
        s.len() > 0 && (s.len() == 1 || s[0] != '0') ==> digits(digits_value(s) as nat) == s,
        digits_value(seq!['0'] + s) == digits_value(s),
    decreases s.len(),
{
    reveal_with_fuel(digits_value, 2);
    let padded = seq!['0'] + s;
    if s.len() == 0 {
        assert(padded.drop_last() =~= s);
    } else {
        let front = s.drop_last();
        assert(is_digit(s.last()));
        rows_of_digits_are_numbers(front);
        assert(padded.drop_last() =~= seq!['0'] + front);
        assert(padded.last() == s.last());
        let v = digits_value(s) as nat;
        let d = digit_value(s.last());
        assert(digit(d) == s.last());
        if s.len() > 1 && s[0] != '0' {
            assert(front[0] == s[0]);
            assert(front.len() > 1 ==> front[0] != '0');
            let w = digits_value(front) as nat;
            if w == 0 {
                assert(digits(w) == seq![digit(0)]);
                assert(front[0] == '0');
            }
            assert(v == 10 * w + d);
            assert(v / 10 == w && v as int % 10 == d);
            assert(digits(v) =~= s);
        } else if s.len() == 1 {
            assert(front =~= Seq::<char>::empty());
            assert(digits(v) =~= s);
        }
    }
}

/// A number is read from digits, with or without a sign, if and only if it is in
/// range; nothing is read from anything else.
pub proof fn only_numbers_in_range_are_read(s: Seq<char>)
    ensures
        all_digits(s) && s.len() > 0 ==> i32_denoted(s) == (if digits_value(s) <= 0x7fff_ffff {
            Some(digits_value(s))
        } else {
            None
        }),
        all_digits(s) && s.len() > 0 ==> i32_denoted(seq!['+'] + s) == i32_denoted(s),
        all_digits(s) && s.len() > 0 ==> i32_denoted(seq!['-'] + s) == (if digits_value(s)
            <= 0x8000_0000 {
            Some(-digits_value(s))
        } else {
            None
        }),
        !all_digits(s) || s.len() == 0 ==> {
            &&& i32_denoted(seq!['-'] + s) is None
            &&& i32_denoted(seq!['+'] + s) is None
            &&& !(s.len() > 0 && (s[0] == '-' || s[0] == '+')) ==> i32_denoted(s) is None
        },
{
    assert((seq!['+'] + s).skip(1) =~= s);
    assert((seq!['-'] + s).skip(1) =~= s);
    if all_digits(s) && s.len() > 0 {
        assert(is_digit(s[0]));
        rows_of_digits_are_numbers(s);
    }
}

} // verus!
