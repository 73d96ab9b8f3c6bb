//! The written form of a floating-point number: which byte strings are
//! numbers. A number is an optional sign followed by `inf`, `infinity` or
//! `nan` in any letter case, or by decimal digits with an optional point
//! and an optional exponent.

use vstd::prelude::*;
use crate::text::{all_digits, is_digit, MINUS, PLUS, POINT};

verus! {

/// The letter `e` that starts an exponent.
pub const LETTER_E: u8 = 101;

/// An upper-case ASCII letter as its lower-case letter, any other byte as
/// itself.
pub open spec fn lowered(b: u8) -> u8 {
    if 65 <= b && b <= 90 {
        (b + 32) as u8
    } else {
        b
    }
}

/// `s` is `word` up to letter case; `word` is given in lower case.
pub open spec fn spells(s: Seq<u8>, word: Seq<u8>) -> bool {
    s.len() == word.len() && forall|i: int|
        0 <= i < s.len() ==> lowered(#[trigger] s[i]) == word[i]
}

pub open spec fn word_inf() -> Seq<u8> {
    seq![105u8, 110u8, 102u8]
}

pub open spec fn word_infinity() -> Seq<u8> {
    seq![105u8, 110u8, 102u8, 105u8, 110u8, 105u8, 116u8, 121u8]
}

pub open spec fn word_nan() -> Seq<u8> {
    seq![110u8, 97u8, 110u8]
}

/// `s` without a leading plus or minus sign.
pub open spec fn unsigned(s: Seq<u8>) -> Seq<u8> {
    if s.len() > 0 && (s[0] == PLUS || s[0] == MINUS) {
        s.drop_first()
    } else {
        s
    }
}

/// The first position at or after `from` that holds no digit.
pub open spec fn digits_end(s: Seq<u8>, from: int) -> int
    decreases s.len() - from,
{
    if 0 <= from < s.len() && is_digit(s[from]) {
        digits_end(s, from + 1)
    } else {
        from
    }
}

/// The letter `e`, an optional sign, and one or more digits.
pub open spec fn is_exponent(s: Seq<u8>) -> bool {
    &&& s.len() >= 2
    &&& lowered(s[0]) == LETTER_E
    &&& unsigned(s.drop_first()).len() > 0
    &&& all_digits(unsigned(s.drop_first()))
}

/// Digits with at most one point among them, at least one digit in all,
/// and then nothing more or an exponent.
pub open spec fn is_decimal(s: Seq<u8>) -> bool {
    let a = digits_end(s, 0);
    let pointed = a < s.len() && s[a] == POINT;
    let b = if pointed { digits_end(s, a + 1) } else { a };
    let count = if pointed { b - 1 } else { a };
    count > 0 && (b == s.len() || is_exponent(s.subrange(b, s.len() as int)))
}

pub open spec fn is_number(s: Seq<u8>) -> bool {
    let u = unsigned(s);
    spells(u, word_inf()) || spells(u, word_infinity()) || spells(u, word_nan()) || is_decimal(u)
}

fn lower(b: u8) -> (r: u8)
    ensures
        r == lowered(b),
{
    if 65 <= b && b <= 90 {
        b + 32
    } else {
        b
    }
}

fn tail(s: &[u8], from: usize) -> (out: Vec<u8>)
    requires
        from <= s@.len(),
    ensures
        out@ == s@.subrange(from as int, s@.len() as int),
{
    let mut out: Vec<u8> = Vec::new();
    let mut i: usize = from;
    while i < s.len()
        invariant
            from <= i <= s@.len(),
            out@ == s@.subrange(from as int, i as int),
        decreases s.len() - i,
    {
        out.push(s[i]);
        proof {
            assert(out@ =~= s@.subrange(from as int, i + 1));
        }
        i += 1;
    }
    out
}

fn spells_word(s: &[u8], word: &Vec<u8>) -> (r: bool)
    ensures
        r == spells(s@, word@),
{
    if s.len() != word.len() {
        return false;
    }
    let mut i: usize = 0;
    while i < s.len()
        invariant
            i <= s@.len(),
            s@.len() == word@.len(),
            forall|j: int| 0 <= j < i ==> lowered(#[trigger] s@[j]) == word@[j],
        decreases s.len() - i,
    {
        if lower(s[i]) != word[i] {
            return false;
        }
        i += 1;
    }
    true
}

fn scan_digits(s: &[u8], from: usize) -> (end: usize)
    requires
        from <= s@.len(),
    ensures
        end == digits_end(s@, from as int),
        from <= end <= s@.len(),
{
    let mut i: usize = from;
    while i < s.len() && 48 <= s[i] && s[i] <= 57
        invariant
            from <= i <= s@.len(),
            digits_end(s@, from as int) == digits_end(s@, i as int),
        decreases s.len() - i,
    {
        i += 1;
    }
    i
}

fn only_digits(s: &[u8]) -> (r: bool)
    ensures
        r == all_digits(s@),
{
    let mut i: usize = 0;
    while i < s.len()
        invariant
            i <= s@.len(),
            forall|j: int| 0 <= j < i ==> is_digit(#[trigger] s@[j]),
        decreases s.len() - i,
    {
        if !(48 <= s[i] && s[i] <= 57) {
            return false;
        }
        i += 1;
    }
    true
}

fn strip_sign(s: &[u8]) -> (out: Vec<u8>)
    ensures
        out@ == unsigned(s@),
{
    let from: usize = if s.len() > 0 && (s[0] == PLUS || s[0] == MINUS) { 1 } else { 0 };
    proof {
        assert(s@.subrange(0, s@.len() as int) =~= s@);
        assert(s@.subrange(1, s@.len() as int) =~= s@.drop_first());
    }
    tail(s, from)
}

fn check_exponent(s: &[u8]) -> (r: bool)
    ensures
        r == is_exponent(s@),
{
    if s.len() < 2 || lower(s[0]) != LETTER_E {
        return false;
    }
    let rest = tail(s, 1);
    proof {
        assert(rest@ =~= s@.drop_first());
    }
    let digits = strip_sign(rest.as_slice());
    digits.len() > 0 && only_digits(digits.as_slice())
}

fn check_decimal(s: &[u8]) -> (r: bool)
    ensures
        r == is_decimal(s@),
{
    let a: usize = scan_digits(s, 0);
    let pointed: bool = a < s.len() && s[a] == POINT;
    let b: usize = if pointed { scan_digits(s, a + 1) } else { a };
    let count: usize = if pointed { b - 1 } else { a };
    if count == 0 {
        return false;
    }
    if b == s.len() {
        return true;
    }
    let rest = tail(s, b);
    check_exponent(rest.as_slice())
}

/// Decides whether `s` is the written form of a number.
pub fn check_number(s: &[u8]) -> (r: bool)
    ensures
        r == is_number(s@),
{
    let u = strip_sign(s);
    let inf: Vec<u8> = vec![105u8, 110u8, 102u8];
    let infinity: Vec<u8> = vec![105u8, 110u8, 102u8, 105u8, 110u8, 105u8, 116u8, 121u8];
    let nan: Vec<u8> = vec![110u8, 97u8, 110u8];
    proof {
        assert(inf@ =~= word_inf());
        assert(infinity@ =~= word_infinity());
        assert(nan@ =~= word_nan());
    }
    spells_word(u.as_slice(), &inf) || spells_word(u.as_slice(), &infinity) || spells_word(
        u.as_slice(),
        &nan,
    ) || check_decimal(u.as_slice())
}

} // verus!
