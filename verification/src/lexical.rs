//! Character classes, maximal runs of a class, and decimal numbers.

use vstd::prelude::*;
use vstd::slice::slice_subrange;
use vstd::slice::slice_to_vec;

verus! {

/// `nom::character::is_alphabetic`: true exactly of the ASCII letters.
pub assume_specification[ nom::character::is_alphabetic ](chr: u8) -> (r: bool)
    ensures
        r == is_letter(chr),
;

/// `nom::character::is_digit`: true exactly of the ASCII digits `0` to `9`.
pub assume_specification[ nom::character::is_digit ](chr: u8) -> (r: bool)
    ensures
        r == is_decimal(chr),
;

/// `nom::character::is_alphanumeric`: true exactly of the ASCII letters and
/// digits.
pub assume_specification[ nom::character::is_alphanumeric ](chr: u8) -> (r: bool)
    ensures
        r == (is_letter(chr) || is_decimal(chr)),
;

/// `nom::character::is_space`: true exactly of the space and the tab.
pub assume_specification[ nom::character::is_space ](chr: u8) -> (r: bool)
    ensures
        r == is_blank(chr),
;

/// An ASCII letter.
pub open spec fn is_letter(b: u8) -> bool {
    (0x41 <= b <= 0x5A) || (0x61 <= b <= 0x7A)
}

/// An ASCII decimal digit.
pub open spec fn is_decimal(b: u8) -> bool {
    0x30 <= b <= 0x39
}

/// A space or a tab.
pub open spec fn is_blank(b: u8) -> bool {
    b == 0x20 || b == 0x09
}

/// The classes of bytes that bound the tokens of the grammar.
#[derive(Clone, Copy, Debug, PartialEq, Eq)]
pub enum Class {
    /// ASCII letters.
    Alpha,
    /// ASCII letters and digits.
    Alnum,
    /// ASCII digits.
    Digit,
    /// Space and tab.
    Space,
    /// What a domain name is made of: letters, digits, `.` and `-`.
    Label,
    /// Everything but the double quote.
    Unquoted,
}

impl Class {
    /// Whether `b` belongs to the class.
    pub open spec fn has(self, b: u8) -> bool {
        match self {
            Class::Alpha => is_letter(b),
            Class::Alnum => is_letter(b) || is_decimal(b),
            Class::Digit => is_decimal(b),
            Class::Space => is_blank(b),
            Class::Label => is_letter(b) || is_decimal(b) || b == 0x2E || b == 0x2D,
            Class::Unquoted => b != 0x22,
        }
    }

    /// Whether every byte of `s` belongs to the class.
    pub open spec fn all(self, s: Seq<u8>) -> bool {
        forall|k: int| 0 <= k < s.len() ==> self.has(#[trigger] s[k])
    }

    /// Tests one byte.
    pub fn test(self, b: u8) -> (r: bool)
        ensures
            r == self.has(b),
    {
        match self {
            Class::Alpha => nom::character::is_alphabetic(b),
            Class::Alnum => nom::character::is_alphanumeric(b),
            Class::Digit => nom::character::is_digit(b),
            Class::Space => nom::character::is_space(b),
            Class::Label => nom::character::is_alphanumeric(b) || b == 0x2E || b == 0x2D,
            Class::Unquoted => b != 0x22,
        }
    }
}

/// The byte at position `i`, or -1 where `s` has none.
pub open spec fn at(s: Seq<u8>, i: int) -> int {
    if 0 <= i < s.len() {
        s[i] as int
    } else {
        -1
    }
}

/// Where the longest run of bytes of class `c` that starts at `i` ends.
pub open spec fn run_end(s: Seq<u8>, i: int, c: Class) -> int
    decreases s.len() - i,
{
    if 0 <= i < s.len() && c.has(s[i]) {
        run_end(s, i + 1, c)
    } else {
        i
    }
}

/// A run ends at or after its start, inside the text, on a byte outside the
/// class, and holds bytes of the class only.
pub proof fn lemma_run_end(s: Seq<u8>, i: int, c: Class)
    requires
        0 <= i <= s.len(),
    ensures
        i <= run_end(s, i, c) <= s.len(),
        c.all(s.subrange(i, run_end(s, i, c))),
        run_end(s, i, c) < s.len() ==> !c.has(s[run_end(s, i, c)]),
    decreases s.len() - i,
{
    if i < s.len() && c.has(s[i]) {
        lemma_run_end(s, i + 1, c);
        let e = run_end(s, i, c);
        assert forall|k: int| 0 <= k < e - i implies c.has(#[trigger] s.subrange(i, e)[k]) by {
            if k > 0 {
                assert(s.subrange(i, e)[k] == s.subrange(i + 1, e)[k - 1]);
            }
        }
    }
}

/// A stretch of bytes of the class that is followed by the end of the text or
/// by a byte outside the class is a run.
pub proof fn lemma_run_is(s: Seq<u8>, i: int, e: int, c: Class)
    requires
        0 <= i <= e <= s.len(),
        forall|k: int| i <= k < e ==> c.has(#[trigger] s[k]),
        e == s.len() || !c.has(s[e]),
    ensures
        run_end(s, i, c) == e,
    decreases e - i,
{
    if i < e {
        lemma_run_is(s, i + 1, e, c);
    }
}

/// Whether the byte at `i` is `b`.
pub fn byte_is(input: &[u8], i: usize, b: u8) -> (r: bool)
    ensures
        r == (at(input@, i as int) == b as int),
{
    i < input.len() && input[i] == b
}

/// Finds the end of the run of class `c` that starts at `start`.
pub fn scan(input: &[u8], start: usize, c: Class) -> (end: usize)
    requires
        start <= input.len(),
    ensures
        end == run_end(input@, start as int, c),
        start <= end <= input.len(),
{
    let mut i: usize = start;
    while i < input.len() && c.test(input[i])
        invariant
            start <= i <= input.len(),
            run_end(input@, start as int, c) == run_end(input@, i as int, c),
        decreases input.len() - i,
    {
        i += 1;
    }
    i
}

/// Copies the bytes from `from` up to `to`.
pub fn copy_range(input: &[u8], from: usize, to: usize) -> (out: Vec<u8>)
    requires
        from <= to <= input.len(),
    ensures
        out@ == input@.subrange(from as int, to as int),
{
    slice_to_vec(slice_subrange(input, from, to))
}

/// Whether two texts hold the same bytes.
pub fn same_bytes(a: &[u8], b: &[u8]) -> (r: bool)
    ensures
        r == (a@ == b@),
{
    if a.len() != b.len() {
        return false;
    }
    let mut i: usize = 0;
    while i < a.len()
        invariant
            a.len() == b.len(),
            i <= a.len(),
            a@.subrange(0, i as int) == b@.subrange(0, i as int),
        decreases a.len() - i,
    {
        if a[i] != b[i] {
            return false;
        }
        assert(a@.subrange(0, i + 1) == a@.subrange(0, i as int).push(a@[i as int]));
        assert(b@.subrange(0, i + 1) == b@.subrange(0, i as int).push(b@[i as int]));
        i += 1;
    }
    assert(a@ == a@.subrange(0, a.len() as int));
    assert(b@ == b@.subrange(0, b.len() as int));
    true
}

/// The number that a string of decimal digits writes.
pub open spec fn digits_value(s: Seq<u8>) -> nat
    decreases s.len(),
{
    if s.len() == 0 {
        0
    } else {
        digits_value(s.drop_last()) * 10 + (s.last() - 0x30) as nat
    }
}

/// The decimal digits of `n`, without leading zeros.
pub open spec fn decimal(n: nat) -> Seq<u8>
    decreases n,
{
    if n < 10 {
        seq![(0x30 + n) as u8]
    } else {
        decimal(n / 10).push((0x30 + n % 10) as u8)
    }
}

/// The digits of a number are digits, at least one, and write that number.
pub proof fn lemma_decimal(n: nat)
    ensures
        decimal(n).len() >= 1,
        Class::Digit.all(decimal(n)),
        digits_value(decimal(n)) == n,
    decreases n,
{
    if n < 10 {
        let d = decimal(n);
        assert(d.drop_last() =~= Seq::<u8>::empty());
        assert(digits_value(d.drop_last()) == 0);
    } else {
        lemma_decimal(n / 10);
        let d = decimal(n);
        assert(d.drop_last() =~= decimal(n / 10));
    }
}

/// The decimal number at `i`: the run of digits there, if it is not empty and
/// writes a number up to `limit`, with the position behind it.
pub open spec fn spec_number(s: Seq<u8>, i: int, limit: nat) -> Option<(nat, int)> {
    let e = run_end(s, i, Class::Digit);
    if e <= i || digits_value(s.subrange(i, e)) > limit {
        None
    } else {
        Some((digits_value(s.subrange(i, e)), e))
    }
}

/// Reads the decimal number at `start`. Leading zeros are accepted; a number
/// over `limit` is refused however long its digits run.
pub fn number(input: &[u8], start: usize, limit: u32) -> (r: Option<(u32, usize)>)
    requires
        start <= input.len(),
        limit <= 0xFFFF,
    ensures
        match spec_number(input@, start as int, limit as nat) {
            Some((v, e)) => r == Some((v as u32, e as usize)) && v <= limit && start < e
                <= input.len(),
            None => r.is_none(),
        },
{
    let end = scan(input, start, Class::Digit);
    if end == start {
        return None;
    }
    proof {
        lemma_run_end(input@, start as int, Class::Digit);
    }
    let mut acc: u32 = 0;
    let mut over = false;
    let mut j: usize = start;
    while j < end
        invariant
            start <= j <= end <= input.len(),
            limit <= 0xFFFF,
            Class::Digit.all(input@.subrange(start as int, end as int)),
            !over ==> acc == digits_value(input@.subrange(start as int, j as int)) && acc
                <= limit,
            over ==> digits_value(input@.subrange(start as int, j as int)) > limit,
        decreases end - j,
    {
        let ghost before = input@.subrange(start as int, j as int);
        let ghost after = input@.subrange(start as int, j + 1);
        assert(after.drop_last() == before);
        assert(after.last() == input@.subrange(start as int, end as int)[j - start]);
        if !over {
            let next: u32 = acc * 10 + (input[j] - 0x30) as u32;
            if next > limit {
                over = true;
            } else {
                acc = next;
            }
        }
        j += 1;
    }
    if over {
        None
    } else {
        Some((acc, end))
    }
}

/// Appends the decimal digits of `n` to `out`.
pub fn push_decimal(out: &mut Vec<u8>, n: u16)
    ensures
        final(out)@ == old(out)@ + decimal(n as nat),
    decreases n,
{
    if n >= 10 {
        push_decimal(out, n / 10);
    }
    out.push(0x30 + (n % 10) as u8);
    proof {
        if n >= 10 {
            assert(final(out)@ == old(out)@ + decimal(n as nat));
        } else {
            assert(final(out)@ =~= old(out)@ + decimal(n as nat));
        }
    }
}

} // verus!
