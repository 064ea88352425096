//! Numbers: decimal texts of unsigned integers, written and read.
use vstd::prelude::*;
use vstd::string::*;

use crate::text::{chars_of, is_digit};

verus! {

/// The digit character of `n`.
pub open spec fn digit(n: nat) -> char {
    (48 + n) as char
}

/// The decimal text of `n`, without leading zeros.
pub open spec fn dec(n: nat) -> Seq<char>
    decreases n,
{
    if n < 10 {
        seq![digit(n)]
    } else {
        dec(n / 10).push(digit(n % 10))
    }
}

/// The number that a text of digits stands for.
pub open spec fn value(s: Seq<char>) -> nat
    decreases s.len(),
{
    if s.len() == 0 {
        0
    } else {
        (value(s.drop_last()) * 10 + (s.last() as nat - 48)) as nat
    }
}

/// Whether `s` holds digits alone.
pub open spec fn all_digits(s: Seq<char>) -> bool {
    forall|i: int| 0 <= i < s.len() ==> is_digit(#[trigger] s[i])
}

/// `s` without a plus sign at its start.
pub open spec fn unsigned(s: Seq<char>) -> Seq<char> {
    if s.len() > 0 && s[0] == '+' {
        s.skip(1)
    } else {
        s
    }
}

/// The number that `s` writes: an optional plus sign, then one or more digits, no more than
/// `max` in value.
pub open spec fn number(s: Seq<char>, max: nat) -> Option<nat> {
    let d = unsigned(s);
    if d.len() > 0 && all_digits(d) && value(d) <= max {
        Some(value(d))
    } else {
        None
    }
}

/// The decimal text of `n` has digits only, at least one, and no leading zero but in "0".
pub proof fn lemma_dec_digits(n: nat)
    ensures
        dec(n).len() > 0,
        all_digits(dec(n)),
        dec(n)[0] == '0' ==> n == 0,
        n < 10 ==> dec(n).len() == 1,
        10 <= n < 100 ==> dec(n).len() == 2,
        100 <= n < 1000 ==> dec(n).len() == 3,
    decreases n,
{
    reveal_with_fuel(dec, 4);
    if n >= 10 {
        lemma_dec_digits(n / 10);
    }
}

/// The decimal text of `n` stands for `n`.
pub proof fn lemma_dec_value(n: nat)
    ensures
        value(dec(n)) == n,
    decreases n,
{
    if n < 10 {
        assert(dec(n).drop_last() =~= Seq::<char>::empty());
        assert(value(Seq::<char>::empty()) == 0);
    } else {
        lemma_dec_value(n / 10);
        assert(dec(n).drop_last() =~= dec(n / 10));
    }
}

/// A number is read back from the text that is written for it.
pub proof fn law_number_round_trip(n: nat, max: nat)
    requires
        n <= max,
    ensures
        number(dec(n), max) == Some(n),
{
    lemma_dec_digits(n);
    lemma_dec_value(n);
    assert(is_digit(dec(n)[0]));
}

/// A text without leading zeros is the decimal text of its value.
pub proof fn lemma_value_dec(s: Seq<char>)
    requires
        s.len() > 0,
        all_digits(s),
        s.len() > 1 ==> s[0] != '0',
    ensures
        dec(value(s)) == s,
        s[0] != '0' ==> value(s) > 0,
    decreases s.len(),
{
    let front = s.drop_last();
    let last = (s.last() as nat - 48) as nat;
    assert(is_digit(s[s.len() - 1]));
    if s.len() == 1 {
        assert(front =~= Seq::<char>::empty());
        assert(value(front) == 0);
        assert(value(s) == last);
        assert(dec(last) =~= s);
    } else {
        assert forall|i: int| 0 <= i < front.len() implies is_digit(#[trigger] front[i]) by {
            assert(front[i] == s[i]);
        }
        lemma_value_dec(front);
        assert(value(front) > 0);
        assert(value(s) == value(front) * 10 + last);
        assert(value(s) / 10 == value(front));
        assert(value(s) % 10 == last);
        assert(dec(value(s)) =~= s);
    }
}

/// The value of digits grows with every digit that follows.
proof fn lemma_value_prefix(s: Seq<char>, n: int)
    requires
        0 <= n <= s.len(),
        all_digits(s),
    ensures
        value(s.take(n)) <= value(s),
    decreases s.len() - n,
{
    if n < s.len() {
        lemma_value_prefix(s, n + 1);
        assert(s.take(n + 1).drop_last() =~= s.take(n));
        assert(is_digit(s[n]));
    } else {
        assert(s.take(n) =~= s);
    }
}

/// The decimal text of `n`.
pub fn decimal(n: u64) -> (r: String)
    ensures
        r@ == dec(n as nat),
    decreases n,
{
    let c: char = (48 + (n % 10) as u8) as char;
    if n < 10 {
        let mut s: String = String::new();
        s.push(c);
        assert(s@ =~= dec(n as nat));
        s
    } else {
        let mut s: String = decimal(n / 10);
        s.push(c);
        s
    }
}

/// The number that `s` writes, where it is no more than `max`.
pub fn parse_number(s: &str, max: u64) -> (r: Option<u64>)
    ensures
        match r {
            Some(n) => number(s@, max as nat) == Some(n as nat),
            None => number(s@, max as nat) is None,
        },
{
    let x: Vec<char> = chars_of(s);
    let from: usize = if x.len() > 0 && x[0] == '+' { 1 } else { 0 };
    let ghost d = unsigned(s@);
    assert(d =~= x@.skip(from as int));
    if from == x.len() {
        return None;
    }
    let mut total: u64 = 0;
    let mut i: usize = from;
    assert(d.take(0) =~= Seq::<char>::empty());
    while i < x.len()
        invariant
            x@ == s@,
            d == unsigned(s@),
            from <= i <= x@.len(),
            from < x@.len(),
            d == x@.skip(from as int),
            total == value(d.take(i - from)),
            total <= max,
            forall|j: int| 0 <= j < i - from ==> is_digit(#[trigger] d[j]),
        decreases x@.len() - i,
    {
        let c: char = x[i];
        assert(d[i - from] == c);
        if !('0' <= c && c <= '9') {
            return None;
        }
        let n: u64 = c as u64 - 48;
        let ghost at = i - from;
        assert(d.take(at + 1).drop_last() =~= d.take(at));
        assert(value(d.take(at + 1)) == total * 10 + n);
        if n > max || total > (max - n) / 10 {
            proof {
                assert(total * 10 + n > max);
                if all_digits(d) {
                    lemma_value_prefix(d, at + 1);
                }
            }
            return None;
        }
        total = total * 10 + n;
        i = i + 1;
    }
    assert(d.take(d.len() as int) =~= d);
    Some(total)
}

} // verus!
