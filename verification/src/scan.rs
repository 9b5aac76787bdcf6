//! Searching in text and reading numbers from it.

use vstd::prelude::*;

use crate::text::decimal;

verus! {

pub open spec fn is_digit(c: char) -> bool {
    '0' <= c <= '9'
}

pub open spec fn is_hex_digit(c: char) -> bool {
    ||| '0' <= c <= '9'
    ||| 'a' <= c <= 'f'
    ||| 'A' <= c <= 'F'
}

/// The value of a hexadecimal digit.
pub open spec fn hex_val(c: char) -> nat {
    if c <= '9' {
        (c as int - '0' as int) as nat
    } else if c <= 'F' {
        (c as int - 'A' as int + 10) as nat
    } else {
        (c as int - 'a' as int + 10) as nat
    }
}

/// The number that digits stand for in a base.
pub open spec fn number(s: Seq<char>, base: nat) -> nat
    decreases s.len(),
{
    if s.len() == 0 {
        0
    } else {
        number(s.drop_last(), base) * base + hex_val(s.last())
    }
}

pub open spec fn all_digits(s: Seq<char>) -> bool {
    forall|i: int| 0 <= i < s.len() ==> is_digit(#[trigger] s[i])
}

pub open spec fn all_hex(s: Seq<char>) -> bool {
    forall|i: int| 0 <= i < s.len() ==> is_hex_digit(#[trigger] s[i])
}

/// A decimal number of at least one digit, no greater than `max`.
pub open spec fn decimal_of(s: Seq<char>, max: nat) -> Option<nat> {
    if s.len() > 0 && all_digits(s) && number(s, 10) <= max {
        Some(number(s, 10))
    } else {
        None
    }
}

/// Position of the first `c`, the length where there is none.
pub open spec fn find_char(s: Seq<char>, c: char) -> int
    decreases s.len(),
{
    if s.len() == 0 || s[0] == c {
        0
    } else {
        1 + find_char(s.drop_first(), c)
    }
}

/// Position of the last `c`, `-1` where there is none.
pub open spec fn find_last(s: Seq<char>, c: char) -> int
    decreases s.len(),
{
    if s.len() == 0 {
        -1
    } else if s.last() == c {
        s.len() - 1
    } else {
        find_last(s.drop_last(), c)
    }
}

pub proof fn lemma_find_char(s: Seq<char>, c: char)
    ensures
        0 <= find_char(s, c) <= s.len(),
        forall|j: int| 0 <= j < find_char(s, c) ==> s[j] != c,
        find_char(s, c) < s.len() ==> s[find_char(s, c)] == c,
    decreases s.len(),
{
    if s.len() > 0 && s[0] != c {
        let t = s.drop_first();
        lemma_find_char(t, c);
        assert forall|j: int| 0 <= j < find_char(s, c) implies s[j] != c by {
            if j > 0 {
                assert(t[j - 1] == s[j]);
            }
        }
    }
}

pub proof fn lemma_find_char_is(s: Seq<char>, c: char, i: int)
    requires
        0 <= i <= s.len(),
        forall|j: int| 0 <= j < i ==> s[j] != c,
        i < s.len() ==> s[i] == c,
    ensures
        find_char(s, c) == i,
{
    lemma_find_char(s, c);
}

pub proof fn lemma_find_last(s: Seq<char>, c: char)
    ensures
        -1 <= find_last(s, c) < s.len(),
        forall|j: int| find_last(s, c) < j < s.len() ==> s[j] != c,
        find_last(s, c) >= 0 ==> s[find_last(s, c)] == c,
    decreases s.len(),
{
    if s.len() > 0 && s.last() != c {
        lemma_find_last(s.drop_last(), c);
        assert forall|j: int| find_last(s, c) < j < s.len() implies s[j] != c by {
            if j < s.len() - 1 {
                assert(s.drop_last()[j] == s[j]);
            }
        }
    }
}

pub fn find_char_at(s: &[char], c: char) -> (i: usize)
    ensures
        i == find_char(s@, c),
{
    let mut i: usize = 0;
    while i < s.len() && s[i] != c
        invariant
            i <= s@.len(),
            forall|j: int| 0 <= j < i ==> s@[j] != c,
        decreases s@.len() - i,
    {
        i = i + 1;
    }
    proof {
        lemma_find_char_is(s@, c, i as int);
    }
    i
}

pub fn find_last_at(s: &[char], c: char) -> (r: Option<usize>)
    ensures
        r matches Some(i) ==> i == find_last(s@, c),
        r is None <==> find_last(s@, c) == -1,
{
    let mut i: usize = s.len();
    proof {
        lemma_find_last(s@, c);
    }
    while i > 0
        invariant
            i <= s@.len(),
            forall|j: int| i <= j < s@.len() ==> s@[j] != c,
            -1 <= find_last(s@, c) < s@.len(),
            forall|j: int| find_last(s@, c) < j < s@.len() ==> s@[j] != c,
            find_last(s@, c) >= 0 ==> s@[find_last(s@, c)] == c,
        decreases i,
    {
        if s[i - 1] == c {
            assert(s@[i - 1] == c);
            return Some(i - 1);
        }
        i = i - 1;
    }
    None
}

/// Leading digits never exceed the whole number.
pub proof fn lemma_number_prefix(s: Seq<char>, base: nat, i: int)
    requires
        base >= 1,
        0 <= i <= s.len(),
    ensures
        number(s.take(i), base) <= number(s, base),
    decreases s.len() - i,
{
    if i < s.len() {
        lemma_number_prefix(s, base, i + 1);
        let t = s.take(i + 1);
        assert(t.drop_last() =~= s.take(i));
        let n = number(s.take(i), base);
        assert(n <= n * base) by (nonlinear_arith)
            requires
                base >= 1,
        ;
    } else {
        assert(s.take(i) =~= s);
    }
}

/// Reads a decimal number of at least one digit, no greater than `max`.
pub fn read_decimal(s: &[char], max: u64) -> (r: Option<u64>)
    requires
        max <= 0xffff_ffff,
    ensures
        r is Some <==> decimal_of(s@, max as nat) is Some,
        r matches Some(n) ==> decimal_of(s@, max as nat) == Some(n as nat),
{
    if s.len() == 0 {
        return None;
    }
    let mut n: u64 = 0;
    let mut i: usize = 0;
    while i < s.len()
        invariant
            i <= s@.len(),
            n == number(s@.take(i as int), 10),
            n <= max <= 0xffff_ffff,
            forall|j: int| 0 <= j < i ==> is_digit(#[trigger] s@[j]),
        decreases s@.len() - i,
    {
        let c = s[i];
        if c < '0' || c > '9' {
            assert(!is_digit(s@[i as int]));
            return None;
        }
        n = n * 10 + (c as u64 - 48);
        i = i + 1;
        assert(s@.take(i as int).drop_last() =~= s@.take(i - 1));
        if n > max {
            proof {
                lemma_number_prefix(s@, 10, i as int);
            }
            return None;
        }
    }
    assert(s@.take(i as int) =~= s@);
    Some(n)
}

/// Reads the value of a hexadecimal digit.
pub fn read_hex_digit(c: char) -> (r: Option<u8>)
    ensures
        r is Some <==> is_hex_digit(c),
        r matches Some(v) ==> v == hex_val(c) && v < 16,
{
    if c >= '0' && c <= '9' {
        Some((c as u32 - 48) as u8)
    } else if c >= 'a' && c <= 'f' {
        Some((c as u32 - 97 + 10) as u8)
    } else if c >= 'A' && c <= 'F' {
        Some((c as u32 - 65 + 10) as u8)
    } else {
        None
    }
}

/// The digits of a decimal number stand for it; it has at least one digit and
/// no leading zero beside zero itself.
pub proof fn lemma_decimal(n: nat)
    ensures
        decimal(n).len() > 0,
        all_digits(decimal(n)),
        number(decimal(n), 10) == n,
        n < 10 ==> decimal(n).len() == 1,
        10 <= n < 100 ==> decimal(n).len() == 2,
        100 <= n < 1000 ==> decimal(n).len() == 3,
        n > 0 ==> decimal(n)[0] != '0',
    decreases n,
{
    if n < 10 {
        assert(decimal(n).drop_last() =~= Seq::<char>::empty());
        assert(number(Seq::<char>::empty(), 10) == 0);
    } else {
        lemma_decimal(n / 10);
        assert(decimal(n).drop_last() =~= decimal(n / 10));
        if n < 100 {
            assert(decimal(n / 10).len() == 1);
        } else if n < 1000 {
            assert(decimal(n / 10).len() == 2);
        }
    }
}

} // verus!
