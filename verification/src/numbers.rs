//! Reading decimal numbers as `str::parse` reads them.
use vstd::prelude::*;
use vstd::std_specs::iter::IteratorSpec;
use crate::text::{decimal, digit_char};

verus! {

/// An ASCII decimal digit.
pub open spec fn is_digit(c: char) -> bool {
    '0' <= c <= '9'
}

/// The value of a character that is a decimal digit.
pub open spec fn digit_value(c: char) -> int {
    c as int - '0' as int
}

/// Every character of `t` is a decimal digit.
pub open spec fn all_digits(t: Seq<char>) -> bool {
    forall|k: int| 0 <= k < t.len() ==> is_digit(#[trigger] t[k])
}

/// The number that the decimal digits `t` write.
pub open spec fn digits_value(t: Seq<char>) -> int
    decreases t.len(),
{
    if t.len() == 0 {
        0
    } else {
        digits_value(t.drop_last()) * 10 + digit_value(t.last())
    }
}

/// What `str::parse::<i32>` gives for `t`: an optional `+` or `-`, then one
/// or more decimal digits whose value fits in an `i32`; anything else fails.
pub open spec fn parse_i32_spec(t: Seq<char>) -> Option<i32> {
    let neg = t.len() > 0 && t[0] == '-';
    let signed = t.len() > 0 && (t[0] == '-' || t[0] == '+');
    let d = if signed { t.drop_first() } else { t };
    let v = if neg { -digits_value(d) } else { digits_value(d) };
    if d.len() == 0 || !all_digits(d) || v < i32::MIN || v > i32::MAX {
        None
    } else {
        Some(v as i32)
    }
}

pub proof fn lemma_digits_value_nonneg(t: Seq<char>)
    requires
        all_digits(t),
    ensures
        digits_value(t) >= 0,
    decreases t.len(),
{
    if t.len() > 0 {
        assert(all_digits(t.drop_last()));
        assert(is_digit(t[t.len() - 1]));
        lemma_digits_value_nonneg(t.drop_last());
    }
}

pub proof fn lemma_digits_value_prefix(t: Seq<char>, m: int)
    requires
        all_digits(t),
        0 <= m <= t.len(),
    ensures
        digits_value(t.subrange(0, m)) <= digits_value(t),
    decreases t.len(),
{
    if m < t.len() {
        assert(all_digits(t.drop_last()));
        assert(is_digit(t[t.len() - 1]));
        lemma_digits_value_prefix(t.drop_last(), m);
        assert(t.drop_last().subrange(0, m) =~= t.subrange(0, m));
        lemma_digits_value_nonneg(t.drop_last());
    } else {
        assert(t.subrange(0, m) =~= t);
    }
}

/// Reads `remain[start..end]` as `str::parse::<i32>` would.
pub fn decimal_i32(remain: &Vec<char>, start: usize, end: usize) -> (res: Option<i32>)
    requires
        start <= end <= remain.len(),
    ensures
        res == parse_i32_spec(remain@.subrange(start as int, end as int)),
{
    let ghost t = remain@.subrange(start as int, end as int);
    let neg = start < end && remain[start] == '-';
    let signed = start < end && (remain[start] == '-' || remain[start] == '+');
    let d0 = if signed { start + 1 } else { start };
    let ghost d = if signed { t.drop_first() } else { t };
    assert(d =~= remain@.subrange(d0 as int, end as int));
    if d0 >= end {
        return None;
    }
    let mut v: i64 = 0;
    let mut i = d0;
    while i < end
        invariant
            d0 <= i <= end <= remain.len(),
            d =~= remain@.subrange(d0 as int, end as int),
            t == remain@.subrange(start as int, end as int),
            d == if signed { t.drop_first() } else { t },
            neg == (t.len() > 0 && t[0] == '-'),
            signed == (t.len() > 0 && (t[0] == '-' || t[0] == '+')),
            all_digits(remain@.subrange(d0 as int, i as int)),
            v == digits_value(remain@.subrange(d0 as int, i as int)),
            0 <= v <= 2147483648,
        decreases end - i,
    {
        let c = remain[i];
        if !('0' <= c && c <= '9') {
            assert(d[i - d0] == c);
            assert(!is_digit(d[i - d0]));
            return None;
        }
        let dv = (c as u32 - '0' as u32) as i64;
        assert(remain@.subrange(d0 as int, i + 1).drop_last() =~= remain@.subrange(d0 as int, i as int));
        v = v * 10 + dv;
        i += 1;
        if v > 2147483648 {
            proof {
                if all_digits(d) {
                    lemma_digits_value_prefix(d, i - d0);
                    assert(d.subrange(0, i - d0) =~= remain@.subrange(d0 as int, i as int));
                }
            }
            return None;
        }
    }
    assert(remain@.subrange(d0 as int, i as int) =~= d);
    if neg {
        Some((0 - v) as i32)
    } else if v > 2147483647 {
        None
    } else {
        Some(v as i32)
    }
}



/// What `str::parse` gives for `t` with an unsigned type whose largest value
/// is `max`: an optional `+`, then one or more decimal digits whose value is
/// at most `max`; anything else fails.
pub open spec fn parse_unsigned_spec(t: Seq<char>, max: int) -> Option<int> {
    let d = if t.len() > 0 && t[0] == '+' { t.drop_first() } else { t };
    if d.len() == 0 || !all_digits(d) || digits_value(d) > max {
        None
    } else {
        Some(digits_value(d))
    }
}

/// An unsigned number read lies between 0 and its type's largest value.
pub proof fn lemma_parse_unsigned_bounds(t: Seq<char>, max: int)
    ensures
        parse_unsigned_spec(t, max) matches Some(v) ==> 0 <= v <= max,
{
    let d = if t.len() > 0 && t[0] == '+' { t.drop_first() } else { t };
    if d.len() > 0 && all_digits(d) {
        lemma_digits_value_nonneg(d);
    }
}

/// Reads `s[start..end]` as `str::parse` reads an unsigned number whose
/// largest value is `max`.
pub fn decimal_unsigned(s: &Vec<char>, start: usize, end: usize, max: u32) -> (res: Option<u32>)
    requires
        start <= end <= s.len(),
    ensures
        res matches Some(v) ==> parse_unsigned_spec(s@.subrange(start as int, end as int), max as int)
            == Some(v as int),
        res is None ==> parse_unsigned_spec(s@.subrange(start as int, end as int), max as int) is None,
{
    let ghost t = s@.subrange(start as int, end as int);
    let signed = start < end && s[start] == '+';
    let d0 = if signed { start + 1 } else { start };
    let ghost d = if signed { t.drop_first() } else { t };
    assert(d =~= s@.subrange(d0 as int, end as int));
    if d0 >= end {
        return None;
    }
    let mut v: u64 = 0;
    let mut i = d0;
    while i < end
        invariant
            d0 <= i <= end <= s.len(),
            d =~= s@.subrange(d0 as int, end as int),
            t == s@.subrange(start as int, end as int),
            d == if signed { t.drop_first() } else { t },
            signed == (t.len() > 0 && t[0] == '+'),
            all_digits(s@.subrange(d0 as int, i as int)),
            v == digits_value(s@.subrange(d0 as int, i as int)),
            v <= max,
        decreases end - i,
    {
        let c = s[i];
        if !('0' <= c && c <= '9') {
            assert(d[i - d0] == c);
            assert(!is_digit(d[i - d0]));
            return None;
        }
        let dv = (c as u32 - '0' as u32) as u64;
        assert(s@.subrange(d0 as int, i + 1).drop_last() =~= s@.subrange(d0 as int, i as int));
        v = v * 10 + dv;
        i += 1;
        if v > max as u64 {
            proof {
                if all_digits(d) {
                    lemma_digits_value_prefix(d, i - d0);
                    assert(d.subrange(0, i - d0) =~= s@.subrange(d0 as int, i as int));
                }
            }
            return None;
        }
    }
    assert(s@.subrange(d0 as int, i as int) =~= d);
    Some(v as u32)
}

/// The characters of `s`, in order (what `str::chars` yields).
pub(crate) fn chars_of(s: &str) -> (r: Vec<char>)
    ensures
        r@ == s@,
{
    broadcast use vstd::string::axiom_spec_iter, vstd::string::next_postcondition;

    let mut it = s.chars();
    let mut r: Vec<char> = Vec::new();
    loop
        invariant
            r@ + it.remaining() == s@,
            it.decrease() is Some,
        decreases it.decrease()->0,
    {
        match it.next() {
            Some(c) => {
                r.push(c);
                assert(r@ + it.remaining() =~= s@);
            },
            None => {
                assert(r@ =~= s@);
                return r;
            },
        }
    }
}


proof fn lemma_decimal_digits(n: nat)
    ensures
        decimal(n).len() >= 1,
        all_digits(decimal(n)),
        digits_value(decimal(n)) == n,
        decimal(n)[0] != '+' && decimal(n)[0] != '-',
    decreases n,
{
    let d = (n % 10) as nat;
    assert(is_digit(digit_char(d)) && digit_value(digit_char(d)) == d) by {
        if d == 0 {} else if d == 1 {} else if d == 2 {} else if d == 3 {} else if d == 4 {}
        else if d == 5 {} else if d == 6 {} else if d == 7 {} else if d == 8 {} else {}
    }
    if n >= 10 {
        lemma_decimal_digits(n / 10);
        let t = decimal(n / 10);
        assert(decimal(n) == t.push(digit_char(d)));
        assert(decimal(n).drop_last() =~= t);
        assert(all_digits(decimal(n))) by {
            assert forall|k: int| 0 <= k < decimal(n).len() implies is_digit(#[trigger] decimal(n)[k]) by {
                if k < t.len() {
                    assert(decimal(n)[k] == t[k]);
                }
            }
        }
        assert(decimal(n)[0] == t[0]);
        assert(decimal(n).last() == digit_char(d));
        assert(digits_value(decimal(n)) == digits_value(t) * 10 + digit_value(digit_char(d)));
        assert((n / 10) * 10 + n % 10 == n);
    } else {
        let t = decimal(n);
        assert(n % 10 == n);
        assert(t == seq![digit_char(d)]);
        assert(t.drop_last() =~= Seq::<char>::empty());
        assert(digits_value(Seq::<char>::empty()) == 0);
        assert(t.last() == digit_char(d));
        assert(digits_value(t) == digits_value(t.drop_last()) * 10 + digit_value(t.last()));
    }
}

/// The decimal text of a number reads back as that number, as an unsigned
/// number (where it is at most the type's largest value) and as an `i32`
/// (where it fits one): the index that an error message writes is the index.
pub proof fn lemma_decimal_reads_back(n: nat, max: int)
    ensures
        n <= max ==> parse_unsigned_spec(decimal(n), max) == Some(n as int),
        n <= i32::MAX ==> parse_i32_spec(decimal(n)) == Some(n as i32),
{
    lemma_decimal_digits(n);
}

} // verus!
