//! Byte-level text: fields between delimiters, surrounding whitespace, and
//! small unsigned decimal numbers.

use vstd::prelude::*;

verus! {

/// The delimiters and signs of the text formats, as bytes.
pub const COMMA: u8 = 44;

pub const NEWLINE: u8 = 10;

pub const COLON: u8 = 58;

pub const PLUS: u8 = 43;

pub const MINUS: u8 = 45;

pub const POINT: u8 = 46;

/// The text of each cell of a row or column.
pub open spec fn cells(v: Seq<Vec<u8>>) -> Seq<Seq<u8>> {
    v.map_values(|c: Vec<u8>| c@)
}

/// The text of each cell of each column of a table.
pub open spec fn grid(t: Seq<Vec<Vec<u8>>>) -> Seq<Seq<Seq<u8>>> {
    t.map_values(|c: Vec<Vec<u8>>| cells(c@))
}

/// Copies a text.
pub fn copy_bytes(s: &[u8]) -> (out: Vec<u8>)
    ensures
        out@ == s@,
{
    let mut out: Vec<u8> = Vec::new();
    let mut i: usize = 0;
    while i < s.len()
        invariant
            i <= s.len(),
            out@ == s@.take(i as int),
        decreases s.len() - i,
    {
        out.push(s[i]);
        proof {
            assert(out@ =~= s@.take(i + 1));
        }
        i += 1;
    }
    proof {
        assert(s@.take(s.len() as int) =~= s@);
    }
    out
}

/// Appends the bytes of `s` to `out`.
pub fn push_bytes(out: &mut Vec<u8>, s: &[u8])
    ensures
        final(out)@ == old(out)@ + s@,
{
    let mut i: usize = 0;
    proof {
        assert(out@ =~= old(out)@ + s@.take(0));
    }
    while i < s.len()
        invariant
            i <= s.len(),
            out@ == old(out)@ + s@.take(i as int),
        decreases s.len() - i,
    {
        out.push(s[i]);
        proof {
            assert(out@ =~= old(out)@ + s@.take(i + 1));
        }
        i += 1;
    }
    proof {
        assert(s@.take(s.len() as int) =~= s@);
    }
}

/// The fields of `s` between occurrences of `sep`. There is always at
/// least one field, and one more than there are separators.
pub open spec fn split(s: Seq<u8>, sep: u8) -> Seq<Seq<u8>>
    decreases s.len(),
{
    if s.len() == 0 {
        seq![Seq::empty()]
    } else {
        let head = split(s.drop_last(), sep);
        if s.last() == sep {
            head.push(Seq::empty())
        } else {
            head.update(head.len() - 1, head.last().push(s.last()))
        }
    }
}

/// A text always has a first field.
pub proof fn lemma_split_nonempty(s: Seq<u8>, sep: u8)
    ensures
        split(s, sep).len() >= 1,
    decreases s.len(),
{
    if s.len() > 0 {
        lemma_split_nonempty(s.drop_last(), sep);
    }
}

/// Cuts `s` into its fields at every occurrence of `sep`.
pub fn split_fields(s: &[u8], sep: u8) -> (fields: Vec<Vec<u8>>)
    ensures
        cells(fields@) == split(s@, sep),
        fields@.len() >= 1,
{
    let mut done: Vec<Vec<u8>> = Vec::new();
    let mut cur: Vec<u8> = Vec::new();
    let mut i: usize = 0;
    proof {
        assert(s@.take(0).len() == 0);
        assert(cells(done@).push(cur@) =~= split(s@.take(0), sep));
    }
    while i < s.len()
        invariant
            i <= s.len(),
            cells(done@).push(cur@) == split(s@.take(i as int), sep),
        decreases s.len() - i,
    {
        let ghost head = cells(done@).push(cur@);
        let ghost old_done = done@;
        let ghost old_cur = cur@;
        if s[i] == sep {
            done.push(cur);
            cur = Vec::new();
        } else {
            cur.push(s[i]);
        }
        proof {
            let next = s@.take(i + 1);
            assert(next.drop_last() =~= s@.take(i as int));
            assert(next.last() == s@[i as int]);
            assert(head.last() == old_cur);
            assert(cells(done@).push(cur@) =~= split(next, sep));
        }
        i += 1;
    }
    proof {
        assert(s@.take(s.len() as int) =~= s@);
        assert(cells(done@.push(cur)) =~= cells(done@).push(cur@));
    }
    done.push(cur);
    done
}

/// The whitespace characters of one byte: space, tab, line feed, vertical
/// tab, form feed and carriage return.
pub open spec fn is_space_byte(b: u8) -> bool {
    b == 32 || (9 <= b && b <= 13)
}

/// The two bytes that write the next-line control or the no-break space.
pub open spec fn is_space_pair(a: u8, b: u8) -> bool {
    a == 0xC2 && (b == 0x85 || b == 0xA0)
}

/// The three bytes that write one of the wider whitespace characters: the
/// ogham space mark, the spaces from en quad to hair space, the line and
/// paragraph separators, the narrow no-break space, the medium
/// mathematical space and the ideographic space.
pub open spec fn is_space_triple(a: u8, b: u8, c: u8) -> bool {
    ||| a == 0xE1 && b == 0x9A && c == 0x80
    ||| a == 0xE2 && b == 0x80 && ((0x80 <= c && c <= 0x8A) || c == 0xA8 || c == 0xA9 || c == 0xAF)
    ||| a == 0xE2 && b == 0x81 && c == 0x9F
    ||| a == 0xE3 && b == 0x80 && c == 0x80
}

/// The length of the whitespace character that `s` starts with, in bytes;
/// zero where it starts with none.
pub open spec fn space_before(s: Seq<u8>) -> int {
    if s.len() >= 1 && is_space_byte(s[0]) {
        1
    } else if s.len() >= 2 && is_space_pair(s[0], s[1]) {
        2
    } else if s.len() >= 3 && is_space_triple(s[0], s[1], s[2]) {
        3
    } else {
        0
    }
}

/// The length of the whitespace character that `s` ends with, in bytes;
/// zero where it ends with none.
pub open spec fn space_after(s: Seq<u8>) -> int {
    let n = s.len() as int;
    if n >= 1 && is_space_byte(s[n - 1]) {
        1
    } else if n >= 2 && is_space_pair(s[n - 2], s[n - 1]) {
        2
    } else if n >= 3 && is_space_triple(s[n - 3], s[n - 2], s[n - 1]) {
        3
    } else {
        0
    }
}

/// `s` without the whitespace at its start.
pub open spec fn trim_start(s: Seq<u8>) -> Seq<u8>
    decreases s.len(),
{
    if space_before(s) > 0 {
        trim_start(s.skip(space_before(s)))
    } else {
        s
    }
}

/// `s` without the whitespace at its end.
pub open spec fn trim_end(s: Seq<u8>) -> Seq<u8>
    decreases s.len(),
{
    if space_after(s) > 0 {
        trim_end(s.take(s.len() - space_after(s)))
    } else {
        s
    }
}

/// `s` is whitespace characters and nothing else.
pub open spec fn all_space(s: Seq<u8>) -> bool {
    trim_start(s).len() == 0
}

/// `s` without the whitespace at its two ends.
pub open spec fn trimmed(s: Seq<u8>) -> Seq<u8> {
    trim_end(trim_start(s))
}

/// Whitespace before a text does not change what is left of it.
pub proof fn lemma_trim_start_padding(left: Seq<u8>, rest: Seq<u8>)
    requires
        all_space(left),
    ensures
        trim_start(left + rest) == trim_start(rest),
    decreases left.len(),
{
    if left.len() == 0 {
        assert(left + rest =~= rest);
    } else {
        let k = space_before(left);
        assert(k > 0);
        let whole = left + rest;
        assert(whole[0] == left[0]);
        if k >= 2 {
            assert(whole[1] == left[1]);
        }
        if k >= 3 {
            assert(whole[2] == left[2]);
        }
        assert(space_before(whole) == k);
        assert(whole.skip(k) =~= left.skip(k) + rest);
        lemma_trim_start_padding(left.skip(k), rest);
    }
}

/// Whitespace that is not empty ends with a whitespace character, and is
/// whitespace still without it.
proof fn lemma_space_ends(right: Seq<u8>)
    requires
        all_space(right),
        right.len() > 0,
    ensures
        space_after(right) > 0,
        all_space(right.take(right.len() - space_after(right))),
    decreases right.len(),
{
    let k = space_before(right);
    assert(k > 0);
    let unit = right.take(k);
    let tail = right.skip(k);
    let n = right.len() as int;
    if tail.len() == 0 {
        assert(space_after(right) == k);
        assert(right.take(n - k).len() == 0);
    } else {
        lemma_space_ends(tail);
        let e = space_after(tail);
        let t = tail.len() as int;
        assert(tail[t - 1] == right[n - 1]);
        if e >= 2 {
            assert(tail[t - 2] == right[n - 2]);
        }
        if e >= 3 {
            assert(tail[t - 3] == right[n - 3]);
        }
        assert(space_after(right) == e);
        let shorter = right.take(n - e);
        assert(shorter =~= unit + tail.take(t - e));
        assert(space_before(unit) == k) by {
            assert(unit[0] == right[0]);
            if k >= 2 {
                assert(unit[1] == right[1]);
            }
            if k >= 3 {
                assert(unit[2] == right[2]);
            }
        }
        assert(unit.skip(k).len() == 0);
        assert(space_before(unit.skip(k)) == 0);
        assert(trim_start(unit.skip(k)) == unit.skip(k));
        assert(trim_start(unit) == trim_start(unit.skip(k)));
        assert(all_space(unit));
        lemma_trim_start_padding(unit, tail.take(t - e));
    }
}

/// Whitespace after a text does not change what is left of it.
pub proof fn lemma_trim_end_padding(rest: Seq<u8>, right: Seq<u8>)
    requires
        all_space(right),
    ensures
        trim_end(rest + right) == trim_end(rest),
    decreases right.len(),
{
    if right.len() == 0 {
        assert(rest + right =~= rest);
    } else {
        lemma_space_ends(right);
        let e = space_after(right);
        let whole = rest + right;
        let n = whole.len() as int;
        let m = right.len() as int;
        assert(whole[n - 1] == right[m - 1]);
        if e >= 2 {
            assert(whole[n - 2] == right[m - 2]);
        }
        if e >= 3 {
            assert(whole[n - 3] == right[m - 3]);
        }
        assert(space_after(whole) == e);
        assert(whole.take(n - e) =~= rest + right.take(m - e));
        lemma_trim_end_padding(rest, right.take(m - e));
    }
}

proof fn lemma_trim_right_padding(field: Seq<u8>, right: Seq<u8>)
    requires
        all_space(right),
    ensures
        trimmed(field + right) == trimmed(field),
    decreases field.len(),
{
    let whole = field + right;
    let k = space_before(field);
    if field.len() == 0 {
        assert(whole =~= right);
    } else if k > 0 {
        assert(whole[0] == field[0]);
        if k >= 2 {
            assert(whole[1] == field[1]);
        }
        if k >= 3 {
            assert(whole[2] == field[2]);
        }
        assert(space_before(whole) == k);
        assert(whole.skip(k) =~= field.skip(k) + right);
        lemma_trim_right_padding(field.skip(k), right);
    } else {
        assert(whole[0] == field[0]);
        if field.len() >= 2 {
            assert(whole[1] == field[1]);
        }
        if field.len() >= 3 {
            assert(whole[2] == field[2]);
        }
        if right.len() > 0 {
            assert(space_before(right) > 0);
            assert(whole[field.len() as int] == right[0]);
        }
        assert(space_before(whole) == 0);
        lemma_trim_end_padding(field, right);
    }
}

/// A field means the same with whitespace around it: what is trimmed from
/// the padded field is what is trimmed from the field itself.
pub proof fn lemma_trim_padding(left: Seq<u8>, field: Seq<u8>, right: Seq<u8>)
    requires
        all_space(left),
        all_space(right),
    ensures
        trimmed(left + field + right) == trimmed(field),
{
    assert(left + field + right =~= left + (field + right));
    lemma_trim_start_padding(left, field + right);
    lemma_trim_right_padding(field, right);
}

fn space(b: u8) -> (r: bool)
    ensures
        r == is_space_byte(b),
{
    b == 32 || (9 <= b && b <= 13)
}

fn space_pair(a: u8, b: u8) -> (r: bool)
    ensures
        r == is_space_pair(a, b),
{
    a == 0xC2 && (b == 0x85 || b == 0xA0)
}

fn space_triple(a: u8, b: u8, c: u8) -> (r: bool)
    ensures
        r == is_space_triple(a, b, c),
{
    (a == 0xE1 && b == 0x9A && c == 0x80) || (a == 0xE2 && b == 0x80 && ((0x80 <= c && c <= 0x8A)
        || c == 0xA8 || c == 0xA9 || c == 0xAF)) || (a == 0xE2 && b == 0x81 && c == 0x9F) || (a
        == 0xE3 && b == 0x80 && c == 0x80)
}

fn leading_space(s: &[u8], a: usize, b: usize) -> (k: usize)
    requires
        a <= b <= s@.len(),
    ensures
        k == space_before(s@.subrange(a as int, b as int)),
        k <= b - a,
{
    let n: usize = b - a;
    if n >= 1 && space(s[a]) {
        1
    } else if n >= 2 && space_pair(s[a], s[a + 1]) {
        2
    } else if n >= 3 && space_triple(s[a], s[a + 1], s[a + 2]) {
        3
    } else {
        0
    }
}

fn trailing_space(s: &[u8], a: usize, b: usize) -> (k: usize)
    requires
        a <= b <= s@.len(),
    ensures
        k == space_after(s@.subrange(a as int, b as int)),
        k <= b - a,
{
    let n: usize = b - a;
    if n >= 1 && space(s[b - 1]) {
        1
    } else if n >= 2 && space_pair(s[b - 2], s[b - 1]) {
        2
    } else if n >= 3 && space_triple(s[b - 3], s[b - 2], s[b - 1]) {
        3
    } else {
        0
    }
}

/// Copies `s` without the whitespace at its two ends.
pub fn trim(s: &[u8]) -> (out: Vec<u8>)
    ensures
        out@ == trimmed(s@),
{
    let n: usize = s.len();
    let mut a: usize = 0;
    proof {
        assert(s@.subrange(0, n as int) =~= s@);
    }
    let mut k: usize = leading_space(s, a, n);
    while k > 0
        invariant
            a <= n,
            n == s@.len(),
            k == space_before(s@.subrange(a as int, n as int)),
            k <= n - a,
            trim_start(s@) == trim_start(s@.subrange(a as int, n as int)),
        decreases n - a,
    {
        proof {
            assert(s@.subrange(a as int, n as int).skip(k as int) =~= s@.subrange(
                a + k,
                n as int,
            ));
        }
        a += k;
        k = leading_space(s, a, n);
    }
    let mut b: usize = n;
    let mut e: usize = trailing_space(s, a, b);
    while e > 0
        invariant
            a <= b <= n,
            n == s@.len(),
            e == space_after(s@.subrange(a as int, b as int)),
            e <= b - a,
            trim_end(s@.subrange(a as int, n as int)) == trim_end(s@.subrange(a as int, b as int)),
        decreases b - a,
    {
        proof {
            assert(s@.subrange(a as int, b as int).take(b - a - e) =~= s@.subrange(
                a as int,
                b - e,
            ));
        }
        b -= e;
        e = trailing_space(s, a, b);
    }
    let mut out: Vec<u8> = Vec::new();
    let mut i: usize = a;
    while i < b
        invariant
            a <= i <= b <= n,
            n == s@.len(),
            out@ == s@.subrange(a as int, i as int),
        decreases b - i,
    {
        out.push(s[i]);
        proof {
            assert(out@ =~= s@.subrange(a as int, i + 1));
        }
        i += 1;
    }
    out
}

/// The bytes `0` to `9`.
pub open spec fn is_digit(b: u8) -> bool {
    48 <= b && b <= 57
}

/// Every byte of `s` is a digit.
pub open spec fn all_digits(s: Seq<u8>) -> bool {
    forall|i: int| 0 <= i < s.len() ==> is_digit(#[trigger] s[i])
}

/// The number that a run of decimal digits writes.
pub open spec fn decimal(s: Seq<u8>) -> nat
    decreases s.len(),
{
    if s.len() == 0 {
        0
    } else {
        (decimal(s.drop_last()) * 10 + (s.last() - 48)) as nat
    }
}

/// The digits of an unsigned number that may be written with a plus sign.
pub open spec fn after_plus(s: Seq<u8>) -> Seq<u8> {
    if s.len() > 0 && s[0] == PLUS {
        s.drop_first()
    } else {
        s
    }
}

/// The device number that `s` writes: an optional plus sign and one or
/// more decimal digits, of a value up to 255.
pub open spec fn small_number(s: Seq<u8>) -> Option<u8> {
    let d = after_plus(s);
    if d.len() > 0 && all_digits(d) && decimal(d) <= 255 {
        Some(decimal(d) as u8)
    } else {
        None
    }
}

proof fn lemma_decimal_grows(s: Seq<u8>, i: int)
    requires
        0 <= i <= s.len(),
        all_digits(s),
    ensures
        decimal(s.take(i)) <= decimal(s),
    decreases s.len() - i,
{
    if i < s.len() {
        lemma_decimal_grows(s, i + 1);
        assert(s.take(i + 1).drop_last() =~= s.take(i));
        assert(is_digit(s[i]));
    } else {
        assert(s.take(i) =~= s);
    }
}

fn digit(b: u8) -> (r: bool)
    ensures
        r == is_digit(b),
{
    48 <= b && b <= 57
}

/// Reads a device number: one or more decimal digits of a value up to 255,
/// with at most a plus sign before them. Anything else is no number.
pub fn parse_small_number(s: &[u8]) -> (r: Option<u8>)
    ensures
        r == small_number(s@),
{
    let n: usize = s.len();
    let start: usize = if n > 0 && s[0] == PLUS { 1 } else { 0 };
    if start == n {
        return None;
    }
    let ghost d = after_plus(s@);
    proof {
        assert(d =~= s@.subrange(start as int, n as int));
    }
    let mut value: u16 = 0;
    let mut i: usize = start;
    while i < n
        invariant
            start <= i <= n,
            n == s@.len(),
            d == after_plus(s@),
            d == s@.subrange(start as int, n as int),
            all_digits(d.take(i - start)),
            value == decimal(d.take(i - start)),
            value <= 255,
        decreases n - i,
    {
        if !digit(s[i]) {
            proof {
                assert(!is_digit(d[i - start]));
            }
            return None;
        }
        let ghost k = i - start;
        proof {
            assert(d.take(k + 1).drop_last() =~= d.take(k));
            assert(d.take(k + 1).last() == s@[i as int]);
        }
        value = value * 10 + (s[i] - 48) as u16;
        if value > 255 {
            proof {
                if all_digits(d) {
                    lemma_decimal_grows(d, k + 1);
                }
            }
            return None;
        }
        i += 1;
    }
    proof {
        assert(d.take(n - start) =~= d);
    }
    Some(value as u8)
}

} // verus!
