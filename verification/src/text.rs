//! How ids are spelled, and the few operations on text that resolving a
//! symbol needs.
//!
//! An id is spelled with sixteen digits, the least significant first, so
//! that ids that were assigned one after the other differ in their first
//! digit. Commit ids use `0` to `9` and `a` to `f`; change ids use `z` for
//! zero down to `k` for fifteen, so that no text is a prefix of both.

use vstd::prelude::*;
use vstd::string::*;

verus! {

/// The number of digits in the spelling of an id.
pub const ID_DIGITS: usize = 16;

/// Digit `i` of `v` in base sixteen, digit 0 being the least significant.
pub open spec fn nibble(v: nat, i: nat) -> nat
    decreases i,
{
    if i == 0 {
        v % 16
    } else {
        nibble(v / 16, (i - 1) as nat)
    }
}

/// The character for a digit of a commit id.
pub open spec fn hex_char(d: nat) -> char {
    if d == 0 {
        '0'
    } else if d == 1 {
        '1'
    } else if d == 2 {
        '2'
    } else if d == 3 {
        '3'
    } else if d == 4 {
        '4'
    } else if d == 5 {
        '5'
    } else if d == 6 {
        '6'
    } else if d == 7 {
        '7'
    } else if d == 8 {
        '8'
    } else if d == 9 {
        '9'
    } else if d == 10 {
        'a'
    } else if d == 11 {
        'b'
    } else if d == 12 {
        'c'
    } else if d == 13 {
        'd'
    } else if d == 14 {
        'e'
    } else {
        'f'
    }
}

/// The character for a digit of a change id.
pub open spec fn reverse_hex_char(d: nat) -> char {
    if d == 0 {
        'z'
    } else if d == 1 {
        'y'
    } else if d == 2 {
        'x'
    } else if d == 3 {
        'w'
    } else if d == 4 {
        'v'
    } else if d == 5 {
        'u'
    } else if d == 6 {
        't'
    } else if d == 7 {
        's'
    } else if d == 8 {
        'r'
    } else if d == 9 {
        'q'
    } else if d == 10 {
        'p'
    } else if d == 11 {
        'o'
    } else if d == 12 {
        'n'
    } else if d == 13 {
        'm'
    } else if d == 14 {
        'l'
    } else {
        'k'
    }
}

/// The spelling of a commit id.
pub open spec fn commit_text(id: nat) -> Seq<char> {
    Seq::new(16, |i: int| hex_char(nibble(id, i as nat)))
}

/// The spelling of a change id.
pub open spec fn change_text(id: nat) -> Seq<char> {
    Seq::new(16, |i: int| reverse_hex_char(nibble(id, i as nat)))
}

/// `text` begins with `prefix`.
pub open spec fn has_prefix(text: Seq<char>, prefix: Seq<char>) -> bool {
    prefix.len() <= text.len() && text.subrange(0, prefix.len() as int) == prefix
}

/// `needle` occurs in `hay` at position `at`.
pub open spec fn occurs_at(hay: Seq<char>, needle: Seq<char>, at: int) -> bool {
    0 <= at && at + needle.len() <= hay.len() && hay.subrange(at, at + needle.len()) == needle
}

/// `needle` occurs somewhere in `hay`.
pub open spec fn occurs_in(hay: Seq<char>, needle: Seq<char>) -> bool {
    exists|at: int| occurs_at(hay, needle, at)
}

/// The characters of a string.
pub fn chars_of(s: &str) -> (out: Vec<char>)
    ensures
        out@ == s@,
{
    let n = s.unicode_len();
    let mut out: Vec<char> = Vec::new();
    let mut i: usize = 0;
    while i < n
        invariant
            n == s@.len(),
            0 <= i <= n,
            out@ == s@.subrange(0, i as int),
        decreases n - i,
    {
        out.push(s.get_char(i));
        proof {
            assert(out@ =~= s@.subrange(0, i + 1));
        }
        i += 1;
    }
    proof {
        assert(s@.subrange(0, n as int) =~= s@);
    }
    out
}

/// Whether `a` and `b` hold the same characters.
pub fn same_chars(a: &Vec<char>, b: &Vec<char>) -> (r: bool)
    ensures
        r == (a@ == b@),
{
    if a.len() != b.len() {
        return false;
    }
    let mut i: usize = 0;
    while i < a.len()
        invariant
            a@.len() == b@.len(),
            0 <= i <= a.len(),
            forall|k: int| 0 <= k < i ==> a@[k] == b@[k],
        decreases a.len() - i,
    {
        if a[i] != b[i] {
            return false;
        }
        i += 1;
    }
    assert(a@ =~= b@);
    true
}

/// Whether `needle` occurs in `hay` at position `at`.
pub fn found_at(hay: &Vec<char>, needle: &Vec<char>, at: usize) -> (r: bool)
    ensures
        r == occurs_at(hay@, needle@, at as int),
{
    if needle.len() > hay.len() || at > hay.len() - needle.len() {
        return false;
    }
    let total = hay.len();
    let mut i: usize = 0;
    while i < needle.len()
        invariant
            total == hay@.len(),
            at + needle@.len() <= total,
            0 <= i <= needle.len(),
            forall|k: int| 0 <= k < i ==> hay@[at + k] == needle@[k],
        decreases needle.len() - i,
    {
        if hay[at + i] != needle[i] {
            proof {
                let part = hay@.subrange(at as int, at + needle@.len());
                assert(part[i as int] == hay@[at + i]);
            }
            return false;
        }
        i += 1;
    }
    assert(hay@.subrange(at as int, at + needle@.len()) =~= needle@);
    true
}

/// Whether `text` begins with `prefix`.
pub fn starts_with(text: &Vec<char>, prefix: &Vec<char>) -> (r: bool)
    ensures
        r == has_prefix(text@, prefix@),
{
    found_at(text, prefix, 0)
}

/// Whether `needle` occurs somewhere in `hay`.
pub fn contains_text(hay: &Vec<char>, needle: &Vec<char>) -> (r: bool)
    ensures
        r == occurs_in(hay@, needle@),
{
    if needle.len() > hay.len() {
        return false;
    }
    let last = hay.len() - needle.len();
    let mut at: usize = 0;
    loop
        invariant
            last == hay@.len() - needle@.len(),
            0 <= at <= last,
            forall|k: int| 0 <= k < at ==> !occurs_at(hay@, needle@, k),
        decreases last - at,
    {
        if found_at(hay, needle, at) {
            return true;
        }
        if at == last {
            return false;
        }
        at += 1;
    }
}

/// The part of `text` from position `from` up to, not including, `to`.
pub fn part_of(text: &Vec<char>, from: usize, to: usize) -> (out: Vec<char>)
    requires
        from <= to <= text@.len(),
    ensures
        out@ == text@.subrange(from as int, to as int),
{
    let mut out: Vec<char> = Vec::new();
    let mut i: usize = from;
    while i < to
        invariant
            from <= i <= to,
            to <= text@.len(),
            out@ == text@.subrange(from as int, i as int),
        decreases to - i,
    {
        out.push(text[i]);
        proof {
            assert(out@ =~= text@.subrange(from as int, i + 1));
        }
        i += 1;
    }
    out
}

/// The character for a digit of a commit id.
fn hex_digit(d: u64) -> (c: char)
    requires
        d < 16,
    ensures
        c == hex_char(d as nat),
{
    if d == 0 {
        '0'
    } else if d == 1 {
        '1'
    } else if d == 2 {
        '2'
    } else if d == 3 {
        '3'
    } else if d == 4 {
        '4'
    } else if d == 5 {
        '5'
    } else if d == 6 {
        '6'
    } else if d == 7 {
        '7'
    } else if d == 8 {
        '8'
    } else if d == 9 {
        '9'
    } else if d == 10 {
        'a'
    } else if d == 11 {
        'b'
    } else if d == 12 {
        'c'
    } else if d == 13 {
        'd'
    } else if d == 14 {
        'e'
    } else {
        'f'
    }
}

/// The character for a digit of a change id.
fn reverse_hex_digit(d: u64) -> (c: char)
    requires
        d < 16,
    ensures
        c == reverse_hex_char(d as nat),
{
    if d == 0 {
        'z'
    } else if d == 1 {
        'y'
    } else if d == 2 {
        'x'
    } else if d == 3 {
        'w'
    } else if d == 4 {
        'v'
    } else if d == 5 {
        'u'
    } else if d == 6 {
        't'
    } else if d == 7 {
        's'
    } else if d == 8 {
        'r'
    } else if d == 9 {
        'q'
    } else if d == 10 {
        'p'
    } else if d == 11 {
        'o'
    } else if d == 12 {
        'n'
    } else if d == 13 {
        'm'
    } else if d == 14 {
        'l'
    } else {
        'k'
    }
}

/// Dropping the lowest digit moves every other digit one place down.
proof fn lemma_nibble_shift(v: nat, i: nat)
    ensures
        nibble(v / 16, i) == nibble(v, i + 1),
{
}

/// The digits of `v`, the least significant first.
fn digits_of(v: u64) -> (out: Vec<u64>)
    ensures
        out@.len() == 16,
        forall|i: int| 0 <= i < 16 ==> out@[i] == nibble(v as nat, i as nat),
{
    let mut out: Vec<u64> = Vec::new();
    let mut rest = v;
    let mut i: usize = 0;
    while i < ID_DIGITS
        invariant
            0 <= i <= 16,
            out@.len() == i,
            forall|k: int| 0 <= k < i ==> out@[k] == nibble(v as nat, k as nat),
            forall|k: nat| nibble(rest as nat, k) == nibble(v as nat, k + i as nat),
        decreases 16 - i,
    {
        let ghost before = rest;
        out.push(rest % 16);
        rest = rest / 16;
        proof {
            assert(nibble(before as nat, 0) == nibble(v as nat, i as nat));
            assert forall|k: nat| nibble(rest as nat, k) == nibble(v as nat, k + i as nat + 1) by {
                lemma_nibble_shift(before as nat, k);
                assert(nibble(before as nat, k + 1) == nibble(v as nat, k + 1 + i as nat));
            }
        }
        i += 1;
    }
    out
}

/// The spelling of a commit id.
pub fn spell_commit(id: usize) -> (out: Vec<char>)
    ensures
        out@ == commit_text(id as nat),
{
    let digits = digits_of(id as u64);
    let mut out: Vec<char> = Vec::new();
    let mut i: usize = 0;
    while i < ID_DIGITS
        invariant
            0 <= i <= 16,
            digits@.len() == 16,
            forall|k: int| 0 <= k < 16 ==> digits@[k] == nibble(id as nat, k as nat),
            out@.len() == i,
            forall|k: int| 0 <= k < i ==> out@[k] == hex_char(nibble(id as nat, k as nat)),
        decreases 16 - i,
    {
        proof {
            lemma_nibble_small(id as nat, i as nat);
        }
        out.push(hex_digit(digits[i]));
        i += 1;
    }
    proof {
        assert(out@ =~= commit_text(id as nat));
    }
    out
}

/// The spelling of a change id.
pub fn spell_change(id: u64) -> (out: Vec<char>)
    ensures
        out@ == change_text(id as nat),
{
    let digits = digits_of(id);
    let mut out: Vec<char> = Vec::new();
    let mut i: usize = 0;
    while i < ID_DIGITS
        invariant
            0 <= i <= 16,
            digits@.len() == 16,
            forall|k: int| 0 <= k < 16 ==> digits@[k] == nibble(id as nat, k as nat),
            out@.len() == i,
            forall|k: int| 0 <= k < i ==> out@[k] == reverse_hex_char(nibble(id as nat, k as nat)),
        decreases 16 - i,
    {
        proof {
            lemma_nibble_small(id as nat, i as nat);
        }
        out.push(reverse_hex_digit(digits[i]));
        i += 1;
    }
    proof {
        assert(out@ =~= change_text(id as nat));
    }
    out
}

/// Every digit is below sixteen.
pub proof fn lemma_nibble_small(v: nat, i: nat)
    ensures
        nibble(v, i) < 16,
    decreases i,
{
    if i > 0 {
        lemma_nibble_small(v / 16, (i - 1) as nat);
    }
}

/// The decimal spelling of a number.
pub open spec fn decimal_text(n: nat) -> Seq<char>
    decreases n,
{
    if n < 10 {
        seq![hex_char(n)]
    } else {
        decimal_text(n / 10).push(hex_char(n % 10))
    }
}

/// The decimal spelling of a number.
pub fn decimal(n: usize) -> (out: Vec<char>)
    ensures
        out@ == decimal_text(n as nat),
    decreases n,
{
    if n < 10 {
        let mut out: Vec<char> = Vec::new();
        out.push(hex_digit(n as u64));
        assert(out@ =~= seq![hex_char(n as nat)]);
        out
    } else {
        let mut out = decimal(n / 10);
        out.push(hex_digit((n % 10) as u64));
        out
    }
}

/// Puts the characters of `more` after those of `out`.
pub fn push_all(out: &mut Vec<char>, more: &Vec<char>)
    ensures
        final(out)@ == old(out)@ + more@,
{
    let ghost before = out@;
    let mut i: usize = 0;
    while i < more.len()
        invariant
            0 <= i <= more.len(),
            out@ == before + more@.subrange(0, i as int),
        decreases more.len() - i,
    {
        out.push(more[i]);
        proof {
            assert(out@ =~= before + more@.subrange(0, i + 1));
        }
        i += 1;
    }
    proof {
        assert(more@.subrange(0, more@.len() as int) =~= more@);
    }
}

/// `String::from_iter` on the characters of a list: the string that holds
/// exactly those characters, in that order.
#[verifier::external_body]
pub(crate) fn string_of(chars: &Vec<char>) -> (s: String)
    ensures
        s@ == chars@,
{
    String::from_iter(chars.iter())
}

} // verus!
