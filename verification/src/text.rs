//! Text as sequences of characters: getting the characters of a string,
//! and writing and reading numbers in decimal.

use vstd::prelude::*;
use vstd::string::{StringExecFns, StrSliceExecFns};

verus! {

/// The characters of a string.
pub fn chars_of(s: &str) -> (r: Vec<char>)
    ensures
        r@ == s@,
{
    let n = s.unicode_len();
    let mut v: Vec<char> = Vec::with_capacity(n);
    let mut i: usize = 0;
    while i < n
        invariant
            i <= n,
            n == s@.len(),
            v@ == s@.take(i as int),
        decreases n - i,
    {
        v.push(s.get_char(i));
        assert(v@ =~= s@.take(i + 1));
        i += 1;
    }
    assert(s@.take(n as int) =~= s@);
    v
}

/// Whether two texts hold the same characters.
pub fn same_chars(a: &Vec<char>, b: &Vec<char>) -> (r: bool)
    ensures
        r == (a@ == b@),
{
    if a.len() != b.len() {
        return false;
    }
    let mut i: usize = 0;
    while i < a.len()
        invariant
            i <= a.len(),
            a.len() == b.len(),
            forall|j: int| 0 <= j < i ==> a[j] == b[j],
        decreases a.len() - i,
    {
        if a[i] != b[i] {
            return false;
        }
        i += 1;
    }
    assert(a@ =~= b@);
    true
}

/// The character for the digit `d`.
pub open spec fn digit_char(d: int) -> char {
    ((48 + d) as u8) as char
}

/// The number `n` written in decimal, without leading zeros.
pub open spec fn decimal(n: nat) -> Seq<char>
    decreases n,
{
    if n < 10 {
        seq![digit_char(n as int)]
    } else {
        decimal(n / 10).push(digit_char((n % 10) as int))
    }
}

/// The number `n` written in decimal, with a minus sign where it is negative.
pub open spec fn signed_decimal(n: int) -> Seq<char> {
    if n < 0 {
        seq!['-'] + decimal((-n) as nat)
    } else {
        decimal(n as nat)
    }
}

/// The digit that the character `c` stands for, if it is a digit.
pub open spec fn digit_value(c: char) -> Option<int> {
    if '0' <= c <= '9' {
        Some(c as int - 48)
    } else {
        None
    }
}

/// All characters of `s` are digits.
pub open spec fn all_digits(s: Seq<char>) -> bool {
    forall|i: int| 0 <= i < s.len() ==> digit_value(#[trigger] s[i]) is Some
}

/// The number that the digits of `s` write in decimal; 0 for no digits.
pub open spec fn value_of_digits(s: Seq<char>) -> nat
    decreases s.len(),
{
    if s.len() == 0 {
        0
    } else {
        (value_of_digits(s.drop_last()) * 10 + (s.last() as int - 48)) as nat
    }
}

/// The number that `s` writes: digits, at least one, after a sign where
/// `signed` allows one (`+` always, `-` only then). `None` for anything else.
pub open spec fn number(s: Seq<char>, signed: bool) -> Option<int> {
    if s.len() > 0 && s[0] == '+' {
        if s.len() > 1 && all_digits(s.skip(1)) {
            Some(value_of_digits(s.skip(1)) as int)
        } else {
            None
        }
    } else if signed && s.len() > 0 && s[0] == '-' {
        if s.len() > 1 && all_digits(s.skip(1)) {
            Some(-(value_of_digits(s.skip(1)) as int))
        } else {
            None
        }
    } else if s.len() > 0 && all_digits(s) {
        Some(value_of_digits(s) as int)
    } else {
        None
    }
}

/// The digit `d` as a text of one character.
pub fn digit_str(d: u8) -> (r: &'static str)
    requires
        d < 10,
    ensures
        r@ == seq![digit_char(d as int)],
{
    proof {
        reveal_strlit("0");
        reveal_strlit("1");
        reveal_strlit("2");
        reveal_strlit("3");
        reveal_strlit("4");
        reveal_strlit("5");
        reveal_strlit("6");
        reveal_strlit("7");
        reveal_strlit("8");
        reveal_strlit("9");
    }
    let r = if d == 0 {
        "0"
    } else if d == 1 {
        "1"
    } else if d == 2 {
        "2"
    } else if d == 3 {
        "3"
    } else if d == 4 {
        "4"
    } else if d == 5 {
        "5"
    } else if d == 6 {
        "6"
    } else if d == 7 {
        "7"
    } else if d == 8 {
        "8"
    } else {
        "9"
    };
    assert(r@ =~= seq![digit_char(d as int)]);
    r
}

/// Adds the number `n`, written in decimal, to `out`.
pub fn push_decimal(out: &mut String, n: u64)
    ensures
        final(out)@ == old(out)@ + decimal(n as nat),
    decreases n,
{
    if n >= 10 {
        push_decimal(out, n / 10);
    }
    out.append(digit_str((n % 10) as u8));
    assert(out@ =~= old(out)@ + decimal(n as nat));
}

/// Adds the number `n`, written in decimal with its sign, to `out`.
pub fn push_signed_decimal(out: &mut String, n: i64)
    ensures
        final(out)@ == old(out)@ + signed_decimal(n as int),
{
    if n < 0 {
        proof {
            reveal_strlit("-");
        }
        out.append("-");
        let magnitude: u64 = if n == i64::MIN {
            0x8000_0000_0000_0000
        } else {
            (-n) as u64
        };
        push_decimal(out, magnitude);
        assert(out@ =~= old(out)@ + (seq!['-'] + decimal((-n) as nat)));
    } else {
        push_decimal(out, n as u64);
    }
}

proof fn lemma_digits_prefix(s: Seq<char>, n: int)
    requires
        0 <= n <= s.len(),
        all_digits(s.take(n)),
        n < s.len() ==> digit_value(s[n]) is Some,
    ensures
        n < s.len() ==> all_digits(s.take(n + 1)) && value_of_digits(s.take(n + 1))
            == value_of_digits(s.take(n)) * 10 + (s[n] as int - 48),
{
    if n < s.len() {
        let longer = s.take(n + 1);
        assert(longer.drop_last() =~= s.take(n));
        assert forall|i: int| 0 <= i < longer.len() implies digit_value(
            #[trigger] longer[i],
        ) is Some by {
            if i < n {
                assert(s.take(n)[i] == longer[i]);
            }
        }
    }
}

/// The number that the digits of `s` from place `from` on write, if
/// they are digits, at least one, and the number is at most `limit`.
fn read_digits(s: &Vec<char>, from: usize, limit: u64) -> (r: Option<u64>)
    requires
        from <= s.len(),
        9 <= limit <= 0x8000_0000_0000_0000,
    ensures
        r matches Some(v) ==> from < s.len() && all_digits(s@.skip(from as int)) && v
            == value_of_digits(s@.skip(from as int)) && v <= limit,
        r.is_none() ==> from == s.len() || !all_digits(s@.skip(from as int)) || value_of_digits(
            s@.skip(from as int),
        ) > limit,
{
    if from == s.len() {
        return None;
    }
    let ghost rest = s@.skip(from as int);
    let mut value: u64 = 0;
    let mut i: usize = from;
    assert(rest.take(0) =~= Seq::<char>::empty());
    while i < s.len()
        invariant
            from <= i <= s.len(),
            rest == s@.skip(from as int),
            9 <= limit <= 0x8000_0000_0000_0000,
            all_digits(rest.take(i - from)),
            value == value_of_digits(rest.take(i - from)),
            value <= limit,
        decreases s.len() - i,
    {
        let c = s[i];
        assert(rest[i - from] == c);
        if c < '0' || c > '9' {
            proof {
                if all_digits(rest) {
                    assert(digit_value(rest[i - from]) is Some);
                }
            }
            return None;
        }
        let d: u64 = (c as u8 - 48) as u64;
        proof {
            lemma_digits_prefix(rest, i - from);
        }
        if value > (limit - d) / 10 {
            proof {
                lemma_digits_grow(rest, i - from + 1);
            }
            return None;
        }
        value = value * 10 + d;
        i += 1;
    }
    assert(rest.take(rest.len() as int) =~= rest);
    Some(value)
}

/// Reading more digits never makes the number smaller.
proof fn lemma_digits_grow(s: Seq<char>, n: int)
    requires
        0 <= n <= s.len(),
        all_digits(s.take(n)),
    ensures
        all_digits(s) ==> value_of_digits(s) >= value_of_digits(s.take(n)),
    decreases s.len() - n,
{
    if n < s.len() && all_digits(s) {
        assert(digit_value(s[n]) is Some);
        lemma_digits_prefix(s, n);
        lemma_digits_grow(s, n + 1);
    } else if n == s.len() {
        assert(s.take(n) =~= s);
    }
}

/// The number from 0 to 255 that `s` writes in decimal, with `+` before
/// it or without: `None` where `s` writes no such number.
pub fn read_u8(s: &Vec<char>) -> (r: Option<u8>)
    ensures
        r matches Some(v) ==> number(s@, false) == Some(v as int),
        r.is_none() ==> (number(s@, false) matches Some(v) ==> v > 255),
{
    let from: usize = if s.len() > 0 && s[0] == '+' {
        1
    } else {
        0
    };
    proof {
        assert(s@.skip(0) =~= s@);
    }
    match read_digits(s, from, 255) {
        Some(v) => Some(v as u8),
        None => None,
    }
}

/// The number that `s` writes in decimal, with `+` or `-` before it or
/// without: `None` where `s` writes no number or one that no `i64` holds.
pub fn read_i64(s: &Vec<char>) -> (r: Option<i64>)
    ensures
        r matches Some(v) ==> number(s@, true) == Some(v as int),
        r.is_none() ==> (number(s@, true) matches Some(v) ==> v > i64::MAX || v < i64::MIN),
{
    let negative = s.len() > 0 && s[0] == '-';
    let from: usize = if s.len() > 0 && (s[0] == '+' || s[0] == '-') {
        1
    } else {
        0
    };
    proof {
        assert(s@.skip(0) =~= s@);
    }
    if negative {
        match read_digits(s, from, 0x8000_0000_0000_0000) {
            Some(v) => if v == 0x8000_0000_0000_0000 {
                Some(i64::MIN)
            } else {
                Some(-(v as i64))
            },
            None => None,
        }
    } else {
        match read_digits(s, from, 0x7fff_ffff_ffff_ffff) {
            Some(v) => Some(v as i64),
            None => None,
        }
    }
}


/// A number written in decimal is made of digits, at least one, and
/// reads back as the number.
pub proof fn lemma_decimal_reads_back(n: nat)
    ensures
        decimal(n).len() >= 1,
        all_digits(decimal(n)),
        value_of_digits(decimal(n)) == n,
        number(decimal(n), false) == Some(n as int),
        number(decimal(n), true) == Some(n as int),
    decreases n,
{
    let d = digit_char((n % 10) as int);
    assert(digit_value(d) == Some((n % 10) as int));
    if n < 10 {
        let s = seq![d];
        assert(decimal(n) =~= s);
        assert(s.drop_last() =~= Seq::<char>::empty());
        assert(value_of_digits(s.drop_last()) == 0);
        assert(value_of_digits(s) == n);
    } else {
        lemma_decimal_reads_back(n / 10);
        let head = decimal(n / 10);
        let s = head.push(d);
        assert(decimal(n) == s);
        assert(s.drop_last() =~= head);
        assert(s.last() == d);
        assert forall|i: int| 0 <= i < s.len() implies digit_value(#[trigger] s[i]) is Some by {
            if i < head.len() {
                assert(s[i] == head[i]);
            }
        }
        assert(value_of_digits(s) == n);
    }
    assert(digit_value(decimal(n)[0]) is Some);
}

} // verus!
