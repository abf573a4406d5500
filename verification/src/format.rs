//! The on-disk record format: one record per line, `<key>,<value>\n`.
//!
//! A value is delimited by the terminator that closes its record, so reading
//! needs no length prefix. Keys and values that themselves contain the
//! separator or the terminator byte make the raw byte stream ambiguous; the
//! engine does not reject them (a documented format constraint), and lookups
//! through the index still return the exact bytes that were written as long
//! as the value holds no terminator.

use vstd::prelude::*;

verus! {

/// Separator written between a record's key and its value.
pub const SEP: u8 = 44;

/// Terminator that closes every record.
pub const END: u8 = 10;

/// Position of the first terminator at or after `off`, or the length of the
/// sequence when none follows.
pub open spec fn line_end(s: Seq<u8>, off: int) -> int
    decreases s.len() - off,
{
    if off < 0 || off >= s.len() {
        s.len() as int
    } else if s[off] == END {
        off
    } else {
        line_end(s, off + 1)
    }
}

/// The value stored at `off`: the bytes from `off` up to the terminator that
/// closes the record (or up to the end of the log when none follows).
pub open spec fn value_at(s: Seq<u8>, off: int) -> Seq<u8> {
    s.subrange(off, line_end(s, off))
}

/// The serialized form of one record.
pub open spec fn record_of(k: Seq<u8>, v: Seq<u8>) -> Seq<u8> {
    k + seq![SEP] + v + seq![END]
}

/// `line_end` lands on the position that the bytes themselves dictate: the
/// first terminator at or after `off`, or the end of the sequence.
pub proof fn lemma_line_end_at(s: Seq<u8>, off: int, j: int)
    requires
        0 <= off <= j <= s.len(),
        forall|i: int| off <= i < j ==> s[i] != END,
        j == s.len() || s[j] == END,
    ensures
        line_end(s, off) == j,
    decreases j - off,
{
    if off < s.len() && s[off] != END {
        lemma_line_end_at(s, off + 1, j);
    }
}

/// `line_end` never runs past a terminator that is known to follow `off`.
pub proof fn lemma_line_end_le(s: Seq<u8>, off: int, j: int)
    requires
        0 <= off <= j < s.len(),
        s[j] == END,
    ensures
        off <= line_end(s, off) <= j,
    decreases j - off,
{
    if s[off] != END && off < j {
        lemma_line_end_le(s, off + 1, j);
    }
}

/// `line_end` stays within the sequence, and the bytes before it hold no
/// terminator.
pub proof fn lemma_line_end_bounds(s: Seq<u8>, off: int)
    requires
        0 <= off <= s.len(),
    ensures
        off <= line_end(s, off) <= s.len(),
        forall|i: int| off <= i < line_end(s, off) ==> s[i] != END,
        line_end(s, off) < s.len() ==> s[line_end(s, off)] == END,
    decreases s.len() - off,
{
    if off < s.len() && s[off] != END {
        lemma_line_end_bounds(s, off + 1);
    }
}

/// Appending bytes to the log does not move a record boundary that already
/// exists: a value whose terminator lies within `s` reads the same from any
/// extension of `s`.
pub proof fn lemma_value_at_append(s: Seq<u8>, t: Seq<u8>, off: int)
    requires
        0 <= off <= s.len(),
        line_end(s, off) < s.len(),
    ensures
        line_end(s + t, off) == line_end(s, off),
        value_at(s + t, off) == value_at(s, off),
{
    lemma_line_end_bounds(s, off);
    let j = line_end(s, off);
    assert(forall|i: int| off <= i < j ==> (s + t)[i] == s[i]);
    lemma_line_end_at(s + t, off, j);
    assert(value_at(s + t, off) =~= value_at(s, off));
}

/// Reading at the value offset of a freshly appended record yields exactly
/// the value that was written, provided the value holds no terminator.
pub proof fn lemma_value_at_record(l: Seq<u8>, k: Seq<u8>, v: Seq<u8>)
    requires
        forall|i: int| 0 <= i < v.len() ==> v[i] != END,
    ensures
        value_at(l + record_of(k, v), l.len() as int + k.len() as int + 1) == v,
{
    let s = l + record_of(k, v);
    let off: int = l.len() as int + k.len() as int + 1;
    let j: int = off + v.len();
    assert(forall|i: int| off <= i < j ==> s[i] == v[i - off]);
    assert(s[j] == END);
    lemma_line_end_at(s, off, j);
    assert(value_at(s, off) =~= v);
}

/// Appends all of `src` to `dst`.
pub fn push_all(dst: &mut Vec<u8>, src: &[u8])
    ensures
        final(dst)@ == old(dst)@ + src@,
{
    let mut i: usize = 0;
    while i < src.len()
        invariant
            i <= src@.len(),
            dst@ == old(dst)@ + src@.subrange(0, i as int),
        decreases src@.len() - i,
    {
        dst.push(src[i]);
        i = i + 1;
        assert(dst@ =~= old(dst)@ + src@.subrange(0, i as int));
    }
    assert(dst@ =~= old(dst)@ + src@);
}

/// Reads the value that starts at `off` in `buf`: the bytes up to (and
/// excluding) the next terminator, or up to the end of the buffer when no
/// terminator follows.
pub fn value_from(buf: &[u8], off: usize) -> (r: Vec<u8>)
    requires
        off <= buf@.len(),
    ensures
        r@ == value_at(buf@, off as int),
{
    let mut out: Vec<u8> = Vec::new();
    let mut i: usize = off;
    while i < buf.len() && buf[i] != END
        invariant
            off <= i <= buf@.len(),
            out@ == buf@.subrange(off as int, i as int),
            forall|j: int| off <= j < i ==> buf@[j] != END,
        decreases buf@.len() - i,
    {
        out.push(buf[i]);
        i = i + 1;
        assert(out@ =~= buf@.subrange(off as int, i as int));
    }
    proof {
        lemma_line_end_at(buf@, off as int, i as int);
    }
    out
}

} // verus!
