//! Byte strings as the formats hold them: one byte per character, padded
//! with NUL to a fixed width, with backslash between the parts of a path.
use vstd::prelude::*;

verus! {

/// The byte that separates the parts of an embedded path.
pub const BACKSLASH: u8 = 0x5C;

/// The byte that stands before a file name's extension.
pub const DOT: u8 = 0x2E;

/// The byte that a host path may use between its parts.
pub const SLASH: u8 = 0x2F;

/// Width in bytes of every embedded path field.
pub const FIELD_WIDTH: usize = 256;

/// Length of `s` without the NUL bytes at its end.
pub open spec fn content_len(s: Seq<u8>) -> nat
    decreases s.len(),
{
    if s.len() == 0 {
        0
    } else if s.last() != 0u8 {
        s.len()
    } else {
        content_len(s.drop_last())
    }
}

/// `s` without the NUL bytes at its end. A NUL byte before another byte stays.
pub open spec fn strip_nuls(s: Seq<u8>) -> Seq<u8> {
    s.take(content_len(s) as int)
}

/// `s` followed by NUL bytes up to `width`; `s` itself where it is no shorter.
pub open spec fn pad_nuls(s: Seq<u8>, width: nat) -> Seq<u8> {
    if s.len() < width {
        s + Seq::new((width - s.len()) as nat, |i: int| 0u8)
    } else {
        s
    }
}

/// Offset behind the last `sep` in `s`, 0 where there is none.
pub open spec fn after_last(s: Seq<u8>, sep: u8) -> nat
    decreases s.len(),
{
    if s.len() == 0 {
        0
    } else if s.last() == sep {
        s.len()
    } else {
        after_last(s.drop_last(), sep)
    }
}

/// Offset of the first `sep` in `s` at or behind `from`, the length of `s` where there is none.
pub open spec fn first_from(s: Seq<u8>, sep: u8, from: int) -> int
    decreases s.len() - from,
{
    if from < 0 || from >= s.len() {
        s.len() as int
    } else if s[from] == sep {
        from
    } else {
        first_from(s, sep, from + 1)
    }
}

/// The last part of a backslash-separated path: the file's name.
pub open spec fn file_name(path: Seq<u8>) -> Seq<u8> {
    path.skip(after_last(path, BACKSLASH) as int)
}

/// Length of the first part of a backslash-separated path: the top folder.
pub open spec fn top_len(path: Seq<u8>) -> int {
    first_from(path, BACKSLASH, 0)
}

/// What follows the last dot of the file's name, if there is a dot and something follows it.
pub open spec fn extension(path: Seq<u8>) -> Option<Seq<u8>> {
    let name = file_name(path);
    let start = after_last(name, DOT);
    if start == 0 || start == name.len() {
        None
    } else {
        Some(name.skip(start as int))
    }
}

/// `n` in decimal digits, ASCII, without leading zeros.
pub open spec fn decimal(n: nat) -> Seq<u8>
    decreases n,
{
    if n < 10 {
        seq![(48 + n) as u8]
    } else {
        decimal(n / 10).push((48 + n % 10) as u8)
    }
}

/// `s` with every slash replaced by a backslash.
pub open spec fn backslashed(s: Seq<u8>) -> Seq<u8> {
    Seq::new(
        s.len(),
        |i: int|
            if s[i] == SLASH {
                BACKSLASH
            } else {
                s[i]
            },
    )
}

/// What `content_len` leaves out is NUL, and what it keeps does not end in NUL.
pub proof fn lemma_content_len(s: Seq<u8>)
    ensures
        content_len(s) <= s.len(),
        forall|i: int| content_len(s) <= i < s.len() ==> s[i] == 0u8,
        content_len(s) > 0 ==> s[content_len(s) - 1] != 0u8,
    decreases s.len(),
{
    if s.len() > 0 && s.last() == 0u8 {
        let t = s.drop_last();
        lemma_content_len(t);
        assert forall|i: int| content_len(s) <= i < s.len() implies s[i] == 0u8 by {
            if i < t.len() {
                assert(t[i] == s[i]);
            }
        }
    }
}

/// Stripping a field of its padding and padding it again gives the field back.
pub proof fn lemma_pad_strip(s: Seq<u8>)
    ensures
        pad_nuls(strip_nuls(s), s.len()) == s,
        strip_nuls(s).len() <= s.len(),
{
    lemma_content_len(s);
    assert(pad_nuls(strip_nuls(s), s.len()) =~= s);
}

/// A text that does not end in NUL comes back from its padded field.
pub proof fn lemma_strip_pad(s: Seq<u8>, width: nat)
    requires
        s.len() == 0 || s.last() != 0u8,
    ensures
        strip_nuls(pad_nuls(s, width)) == s,
    decreases pad_nuls(s, width).len(),
{
    let p = pad_nuls(s, width);
    if p.len() > s.len() {
        let q = pad_nuls(s, (width - 1) as nat);
        assert(p.last() == 0u8);
        assert(p.drop_last() =~= q);
        lemma_strip_pad(s, (width - 1) as nat);
        lemma_content_len(q);
        assert(content_len(p) == content_len(q));
        assert(strip_nuls(p) =~= strip_nuls(q));
    } else {
        assert(p =~= s);
        assert(strip_nuls(s) =~= s);
    }
}

/// No `sep` stands at or behind `after_last`, and one stands just before it unless it is 0.
pub proof fn lemma_after_last(s: Seq<u8>, sep: u8)
    ensures
        after_last(s, sep) <= s.len(),
        forall|i: int| after_last(s, sep) <= i < s.len() ==> s[i] != sep,
        after_last(s, sep) > 0 ==> s[after_last(s, sep) - 1] == sep,
    decreases s.len(),
{
    if s.len() > 0 && s.last() != sep {
        let t = s.drop_last();
        lemma_after_last(t, sep);
        assert forall|i: int| after_last(s, sep) <= i < s.len() implies s[i] != sep by {
            if i < t.len() {
                assert(t[i] == s[i]);
            }
        }
    }
}

/// No `sep` stands between `from` and `first_from`, and one stands at it unless it is the end.
pub proof fn lemma_first_from(s: Seq<u8>, sep: u8, from: int)
    requires
        0 <= from <= s.len(),
    ensures
        from <= first_from(s, sep, from) <= s.len(),
        forall|i: int| from <= i < first_from(s, sep, from) ==> s[i] != sep,
        first_from(s, sep, from) < s.len() ==> s[first_from(s, sep, from)] == sep,
    decreases s.len() - from,
{
    if from < s.len() && s[from] != sep {
        lemma_first_from(s, sep, from + 1);
    }
}

/// Number of bytes of `s` before the NUL bytes at its end.
pub fn trimmed_len(s: &[u8]) -> (n: usize)
    ensures
        n == content_len(s@),
{
    let mut i = s.len();
    assert(s@.take(i as int) =~= s@);
    while i > 0 && s[i - 1] == 0
        invariant
            i <= s@.len(),
            content_len(s@) == content_len(s@.take(i as int)),
        decreases i,
    {
        assert(s@.take(i as int).drop_last() =~= s@.take(i - 1));
        i = i - 1;
    }
    i
}

/// Offset behind the last `sep` in `s`.
pub fn offset_after_last(s: &[u8], sep: u8) -> (n: usize)
    ensures
        n == after_last(s@, sep),
{
    let mut i = s.len();
    assert(s@.take(i as int) =~= s@);
    while i > 0 && s[i - 1] != sep
        invariant
            i <= s@.len(),
            after_last(s@, sep) == after_last(s@.take(i as int), sep),
        decreases i,
    {
        assert(s@.take(i as int).drop_last() =~= s@.take(i - 1));
        i = i - 1;
    }
    i
}

/// Offset of the first `sep` in `s`.
pub fn offset_of_first(s: &[u8], sep: u8) -> (n: usize)
    ensures
        n == first_from(s@, sep, 0),
{
    let mut i: usize = 0;
    while i < s.len() && s[i] != sep
        invariant
            i <= s@.len(),
            first_from(s@, sep, 0) == first_from(s@, sep, i as int),
        decreases s@.len() - i,
    {
        i = i + 1;
    }
    i
}

/// Appends the bytes of `src` from `from` on to `out`.
pub fn push_from(out: &mut Vec<u8>, src: &[u8], from: usize)
    requires
        from <= src@.len(),
    ensures
        final(out)@ == old(out)@ + src@.skip(from as int),
{
    let mut i = from;
    while i < src.len()
        invariant
            from <= i <= src@.len(),
            out@ == old(out)@ + src@.subrange(from as int, i as int),
        decreases src@.len() - i,
    {
        out.push(src[i]);
        assert(out@ =~= old(out)@ + src@.subrange(from as int, i + 1));
        i = i + 1;
    }
    assert(src@.subrange(from as int, src@.len() as int) =~= src@.skip(from as int));
}

/// Appends `count` NUL bytes to `out`.
pub fn push_nuls(out: &mut Vec<u8>, count: usize)
    ensures
        final(out)@ == old(out)@ + Seq::new(count as nat, |i: int| 0u8),
{
    let mut i: usize = 0;
    while i < count
        invariant
            i <= count,
            out@ == old(out)@ + Seq::new(i as nat, |k: int| 0u8),
        decreases count - i,
    {
        out.push(0);
        assert(out@ =~= old(out)@ + Seq::new((i + 1) as nat, |k: int| 0u8));
        i = i + 1;
    }
}

/// The decimal digits of `n`.
pub fn decimal_digits(n: usize) -> (digits: Vec<u8>)
    ensures
        digits@ == decimal(n as nat),
    decreases n,
{
    if n < 10 {
        let mut digits: Vec<u8> = Vec::new();
        digits.push(48 + n as u8);
        assert(digits@ =~= seq![(48 + n) as u8]);
        digits
    } else {
        let mut digits = decimal_digits(n / 10);
        digits.push(48 + (n % 10) as u8);
        digits
    }
}

/// Whether two byte strings are the same.
pub fn same_bytes(a: &[u8], b: &[u8]) -> (same: bool)
    ensures
        same == (a@ == b@),
{
    if a.len() != b.len() {
        return false;
    }
    let mut i: usize = 0;
    while i < a.len()
        invariant
            i <= a@.len(),
            a@.len() == b@.len(),
            forall|k: int| 0 <= k < i ==> a@[k] == b@[k],
        decreases a@.len() - i,
    {
        if a[i] != b[i] {
            return false;
        }
        i = i + 1;
    }
    assert(a@ =~= b@);
    true
}

} // verus!
