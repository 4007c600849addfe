//! The lexical layer of the line protocol: fields between separators,
//! blanks around a field, and decimal numbers.

use vstd::prelude::*;

verus! {

/// The byte between the fields of a line.
pub const SPACE: u8 = 32;

/// The byte between the actions of an answer.
pub const SEMICOLON: u8 = 59;

/// ASCII white space: space, tab, line feed, vertical tab, form feed and
/// carriage return.
pub open spec fn is_blank(b: u8) -> bool {
    b == 32 || (9 <= b && b <= 13)
}

/// An ASCII decimal digit.
pub open spec fn is_digit(b: u8) -> bool {
    48 <= b && b <= 57
}

/// `s` without the blanks at its two ends.
pub open spec fn trimmed(s: Seq<u8>) -> Seq<u8>
    decreases s.len(),
{
    if s.len() > 0 && is_blank(s[0]) {
        trimmed(s.drop_first())
    } else if s.len() > 0 && is_blank(s.last()) {
        trimmed(s.drop_last())
    } else {
        s
    }
}

/// Every byte of `s` is a digit.
pub open spec fn all_digits(s: Seq<u8>) -> bool {
    forall|i: int| 0 <= i < s.len() ==> is_digit(#[trigger] s[i])
}

/// The number that the digits `s` write in base ten.
pub open spec fn digits_value(s: Seq<u8>) -> nat
    decreases s.len(),
{
    if s.len() == 0 {
        0
    } else {
        (digits_value(s.drop_last()) * 10 + (s.last() - 48)) as nat
    }
}

/// The number that `s` writes, where `s` is one digit or more and nothing
/// else.
pub open spec fn magnitude_of(s: Seq<u8>) -> Option<nat> {
    if s.len() > 0 && all_digits(s) {
        Some(digits_value(s))
    } else {
        None
    }
}

/// The number that `s` writes as digits with at most a `+` before them.
pub open spec fn unsigned_of(s: Seq<u8>) -> Option<nat> {
    if s.len() > 0 && s[0] == 43 {
        magnitude_of(s.drop_first())
    } else {
        magnitude_of(s)
    }
}

/// The number that `s` writes as digits with at most one sign before them.
pub open spec fn signed_of(s: Seq<u8>) -> Option<int> {
    if s.len() > 0 && s[0] == 45 {
        match magnitude_of(s.drop_first()) {
            Some(m) => Some(-(m as int)),
            None => None,
        }
    } else {
        match unsigned_of(s) {
            Some(m) => Some(m as int),
            None => None,
        }
    }
}

/// The `usize` that a field holds between blanks, if it holds one.
pub open spec fn usize_field(s: Seq<u8>) -> Option<usize> {
    match unsigned_of(trimmed(s)) {
        Some(v) => if v <= usize::MAX {
            Some(v as usize)
        } else {
            None
        },
        None => None,
    }
}

/// The `i32` that a field holds between blanks, if it holds one.
pub open spec fn i32_field(s: Seq<u8>) -> Option<i32> {
    match signed_of(trimmed(s)) {
        Some(v) => if i32::MIN <= v <= i32::MAX {
            Some(v as i32)
        } else {
            None
        },
        None => None,
    }
}

/// The fields of `s`: the stretches between the bytes equal to `sep`. A
/// line without that byte is one field; two of them in a row hold an empty
/// field between them.
pub open spec fn fields(s: Seq<u8>, sep: u8) -> Seq<Seq<u8>>
    decreases s.len(),
{
    if s.len() == 0 {
        seq![Seq::<u8>::empty()]
    } else {
        let before = fields(s.drop_last(), sep);
        if s.last() == sep {
            before.push(Seq::<u8>::empty())
        } else {
            before.update(before.len() - 1, before.last().push(s.last()))
        }
    }
}

/// The byte strings that `parts` holds.
pub open spec fn texts(parts: Seq<Vec<u8>>) -> Seq<Seq<u8>> {
    Seq::new(parts.len(), |i: int| parts[i]@)
}

/// The digits of a longer number write at least what its first digits
/// write.
pub proof fn lemma_more_digits(s: Seq<u8>, k: int)
    requires
        all_digits(s),
        0 <= k <= s.len(),
    ensures
        digits_value(s.take(k)) <= digits_value(s),
    decreases s.len() - k,
{
    if k == s.len() {
        assert(s.take(k) =~= s);
    } else {
        lemma_more_digits(s.drop_last(), k);
        assert(s.drop_last().take(k) =~= s.take(k));
        assert(is_digit(s[s.len() - 1]));
    }
}

/// Splits `line` at every byte equal to `sep`.
pub fn split_fields(line: &[u8], sep: u8) -> (parts: Vec<Vec<u8>>)
    ensures
        texts(parts@) == fields(line@, sep),
        parts.len() >= 1,
{
    let mut parts: Vec<Vec<u8>> = Vec::new();
    parts.push(Vec::new());
    let mut i: usize = 0;
    assert(line@.take(0) =~= Seq::<u8>::empty());
    assert(texts(parts@) =~= fields(line@.take(0), sep));
    while i < line.len()
        invariant
            i <= line.len(),
            parts.len() >= 1,
            texts(parts@) == fields(line@.take(i as int), sep),
        decreases line.len() - i,
    {
        let ghost before = texts(parts@);
        let b = line[i];
        proof {
            assert(line@.take(i + 1).drop_last() =~= line@.take(i as int));
            assert(line@.take(i + 1).last() == b);
        }
        if b == sep {
            parts.push(Vec::new());
            assert(texts(parts@) =~= before.push(Seq::<u8>::empty()));
        } else {
            let last = parts.len() - 1;
            parts[last].push(b);
            assert(texts(parts@) =~= before.update(before.len() - 1, before.last().push(b)));
        }
        i += 1;
    }
    assert(line@.take(i as int) =~= line@);
    parts
}

/// Whether `b` is ASCII white space.
pub fn blank(b: u8) -> (yes: bool)
    ensures
        yes == is_blank(b),
{
    b == 32 || (9 <= b && b <= 13)
}

/// Where `s` begins and ends once the blanks at its two ends are left out.
pub fn trim_bounds(s: &[u8]) -> (bounds: (usize, usize))
    ensures
        bounds.0 <= bounds.1 <= s.len(),
        trimmed(s@) == s@.subrange(bounds.0 as int, bounds.1 as int),
{
    let mut lo: usize = 0;
    let mut hi: usize = s.len();
    assert(s@.subrange(0, s.len() as int) =~= s@);
    while lo < hi && blank(s[lo])
        invariant
            lo <= hi <= s.len(),
            hi == s.len(),
            trimmed(s@) == trimmed(s@.subrange(lo as int, hi as int)),
        decreases hi - lo,
    {
        assert(s@.subrange(lo as int, hi as int).drop_first() =~= s@.subrange(
            lo + 1,
            hi as int,
        ));
        lo += 1;
    }
    while lo < hi && blank(s[hi - 1])
        invariant
            lo <= hi <= s.len(),
            lo < hi ==> !is_blank(s[lo as int]),
            trimmed(s@) == trimmed(s@.subrange(lo as int, hi as int)),
        decreases hi - lo,
    {
        assert(s@.subrange(lo as int, hi as int).drop_last() =~= s@.subrange(
            lo as int,
            hi - 1,
        ));
        hi -= 1;
    }
    (lo, hi)
}

/// Reads the digits `s[from..to]` as a number up to `limit`.
fn read_magnitude(s: &[u8], from: usize, to: usize, limit: u64) -> (value: Option<u64>)
    requires
        from <= to <= s.len(),
        9 <= limit,
    ensures
        value == (match magnitude_of(s@.subrange(from as int, to as int)) {
            Some(v) => if v <= limit {
                Some(v as u64)
            } else {
                None
            },
            None => None,
        }),
{
    let ghost text = s@.subrange(from as int, to as int);
    if from == to {
        return None;
    }
    let mut acc: u64 = 0;
    let mut i: usize = from;
    assert(text.take(0) =~= Seq::<u8>::empty());
    while i < to
        invariant
            from <= i <= to <= s.len(),
            from < to,
            9 <= limit,
            text == s@.subrange(from as int, to as int),
            all_digits(text.take(i - from)),
            acc == digits_value(text.take(i - from)),
            acc <= limit,
        decreases to - i,
    {
        let b = s[i];
        proof {
            assert(text[i - from] == b);
            assert(text.take(i - from + 1).drop_last() =~= text.take(i - from));
            assert(text.take(i - from + 1).last() == b);
        }
        if !(48 <= b && b <= 57) {
            return None;
        }
        let digit = (b - 48) as u64;
        if acc > (limit - digit) / 10 {
            proof {
                if all_digits(text) {
                    lemma_more_digits(text, i - from + 1);
                }
            }
            return None;
        }
        acc = acc * 10 + digit;
        i += 1;
    }
    assert(text.take(i - from) =~= text);
    Some(acc)
}

/// Reads a field as a `usize`: digits between blanks, with at most a `+`
/// before them.
pub fn parse_usize(field: &[u8]) -> (value: Option<usize>)
    ensures
        value == usize_field(field@),
{
    let (lo, hi) = trim_bounds(field);
    let ghost body = field@.subrange(lo as int, hi as int);
    let from = if lo < hi && field[lo] == 43 {
        lo + 1
    } else {
        lo
    };
    proof {
        if from > lo {
            assert(body.drop_first() =~= field@.subrange(from as int, hi as int));
        }
    }
    match read_magnitude(field, from, hi, usize::MAX as u64) {
        Some(v) => Some(v as usize),
        None => None,
    }
}

/// Reads a field as an `i32`: digits between blanks, with at most one sign
/// before them.
pub fn parse_i32(field: &[u8]) -> (value: Option<i32>)
    ensures
        value == i32_field(field@),
{
    let (lo, hi) = trim_bounds(field);
    let ghost body = field@.subrange(lo as int, hi as int);
    if lo < hi && field[lo] == 45 {
        proof {
            assert(body.drop_first() =~= field@.subrange(lo + 1, hi as int));
        }
        match read_magnitude(field, lo + 1, hi, 0x8000_0000) {
            Some(v) => Some((-(v as i64)) as i32),
            None => None,
        }
    } else {
        let from = if lo < hi && field[lo] == 43 {
            lo + 1
        } else {
            lo
        };
        proof {
            if from > lo {
                assert(body.drop_first() =~= field@.subrange(from as int, hi as int));
            }
        }
        match read_magnitude(field, from, hi, 0x7fff_ffff) {
            Some(v) => Some(v as i32),
            None => None,
        }
    }
}

} // verus!
