//! Character-level helpers shared by the readers and printers of programs
//! and tapes.
use vstd::prelude::*;

verus! {

/// The decimal digit character for `d` (which must be below ten).
pub open spec fn digit_char(d: nat) -> char {
    (48 + d) as char
}

/// Whether `c` is one of the ten ASCII decimal digits.
pub open spec fn is_digit(c: char) -> bool {
    '0' <= c && c <= '9'
}

/// The numeric value of a decimal digit character.
pub open spec fn digit_value(c: char) -> nat {
    (c as int - 48) as nat
}

/// The usual decimal rendering of a natural number, most significant digit
/// first and without leading zeros.
pub open spec fn decimal(n: nat) -> Seq<char>
    decreases n,
{
    if n < 10 {
        seq![digit_char(n)]
    } else {
        decimal(n / 10).push(digit_char(n % 10))
    }
}

/// The value of a nonempty string of decimal digits.
pub open spec fn decimal_value(s: Seq<char>) -> nat
    decreases s.len(),
{
    if s.len() == 0 {
        0
    } else {
        decimal_value(s.drop_last()) * 10 + digit_value(s.last())
    }
}

/// Whether every character of `s` is a decimal digit.
pub open spec fn all_digits(s: Seq<char>) -> bool {
    forall|i: int| 0 <= i < s.len() ==> is_digit(#[trigger] s[i])
}

/// Appends one character to a `String`.
///
/// Wraps `String::push`, which std documents as appending the character to
/// the end of the string.
#[verifier::external_body]
pub fn push_char(s: &mut String, c: char)
    ensures
        final(s)@ == old(s)@.push(c),
{
    s.push(c);
}

/// The characters of `s`, in order.
pub fn chars_of(s: &str) -> (v: Vec<char>)
    ensures
        v@ == s@,
{
    let n = s.unicode_len();
    let mut v: Vec<char> = Vec::new();
    let mut i: usize = 0;
    while i < n
        invariant
            n == s@.len(),
            i <= n,
            v@ == s@.subrange(0, i as int),
        decreases n - i,
    {
        v.push(s.get_char(i));
        i += 1;
    }
    assert(v@ =~= s@);
    v
}

/// Appends every character of `cs` to `s`.
pub fn push_chars(s: &mut String, cs: &Vec<char>)
    ensures
        final(s)@ == old(s)@ + cs@,
{
    let mut i: usize = 0;
    while i < cs.len()
        invariant
            i <= cs.len(),
            s@ == old(s)@ + cs@.subrange(0, i as int),
        decreases cs.len() - i,
    {
        push_char(s, cs[i]);
        i += 1;
        assert(s@ =~= old(s)@ + cs@.subrange(0, i as int));
    }
    assert(cs@.subrange(0, cs.len() as int) =~= cs@);
}

/// Appends the decimal rendering of `n`.
pub fn push_decimal(s: &mut String, n: u8)
    ensures
        final(s)@ == old(s)@ + decimal(n as nat),
{
    if n >= 100 {
        let h = n / 100;
        let t = (n / 10) % 10;
        let o = n % 10;
        push_char(s, (48 + h) as char);
        push_char(s, (48 + t) as char);
        push_char(s, (48 + o) as char);
        assert(decimal((n / 100) as nat) == seq![digit_char(h as nat)]);
        assert(decimal((n / 10) as nat) == decimal((n / 100) as nat).push(digit_char(t as nat)));
        assert(decimal(n as nat) == decimal((n / 10) as nat).push(digit_char(o as nat)));
    } else if n >= 10 {
        let t = n / 10;
        let o = n % 10;
        push_char(s, (48 + t) as char);
        push_char(s, (48 + o) as char);
        assert(decimal((n / 10) as nat) == seq![digit_char(t as nat)]);
        assert(decimal(n as nat) == decimal((n / 10) as nat).push(digit_char(o as nat)));
    } else {
        push_char(s, (48 + n) as char);
    }
    assert(s@ =~= old(s)@ + decimal(n as nat));
}

/// Reads a string of decimal digits as a number, or `None` where it is
/// empty, holds a non-digit or does not fit in a `u8`.
pub fn parse_u8(cs: &Vec<char>, lo: usize, hi: usize) -> (r: Option<u8>)
    requires
        lo <= hi <= cs.len(),
    ensures
        r is Some <==> (lo < hi && all_digits(cs@.subrange(lo as int, hi as int))
            && decimal_value(cs@.subrange(lo as int, hi as int)) <= 255),
        r matches Some(v) ==> v as nat == decimal_value(cs@.subrange(lo as int, hi as int)),
{
    if lo == hi {
        return None;
    }
    let mut acc: u32 = 0;
    let mut i = lo;
    while i < hi
        invariant
            lo <= i <= hi <= cs.len(),
            all_digits(cs@.subrange(lo as int, i as int)),
            acc as nat == decimal_value(cs@.subrange(lo as int, i as int)),
            acc <= 255,
        decreases hi - i,
    {
        let c = cs[i];
        if !('0' <= c && c <= '9') {
            assert(!all_digits(cs@.subrange(lo as int, hi as int))) by {
                assert(cs@.subrange(lo as int, hi as int)[i - lo] == c);
            }
            return None;
        }
        let d = (c as u32) - 48;
        let ghost prev = cs@.subrange(lo as int, i as int);
        assert(cs@.subrange(lo as int, i + 1).drop_last() =~= prev);
        acc = acc * 10 + d;
        i += 1;
        if acc > 255 {
            proof {
                lemma_decimal_value_prefix_grows(cs@.subrange(lo as int, hi as int), i - lo);
                assert(cs@.subrange(lo as int, hi as int).subrange(0, i - lo) =~= cs@.subrange(lo as int, i as int));
            }
            return None;
        }
    }
    Some(acc as u8)
}

/// A digit string is worth at least as much as each of its prefixes.
pub proof fn lemma_decimal_value_prefix_grows(s: Seq<char>, k: int)
    requires
        0 <= k <= s.len(),
    ensures
        decimal_value(s.subrange(0, k)) <= decimal_value(s),
    decreases s.len() - k,
{
    if k < s.len() {
        lemma_decimal_value_prefix_grows(s, k + 1);
        assert(s.subrange(0, k + 1).drop_last() =~= s.subrange(0, k));
    } else {
        assert(s.subrange(0, k) =~= s);
    }
}

} // verus!
