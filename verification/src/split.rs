//! Cutting the input at a line boundary, so that the parts can be taken in
//! one by one, each into a store of its own, and the stores merged.

use vstd::prelude::*;
use crate::ascii::LINE_SEPARATOR;
use crate::batch::{first_fault, first_fault_from, records_from, records_of};
use crate::laws::law_concat;
use crate::model::{aggregate, merged};
use crate::scan::{
    key_at,
    key_end_at,
    lemma_stretch,
    lemma_stretch_ends,
    record_at,
    stops,
    stretch,
    value_end_at,
    value_text_at,
};

verus! {

/// Whether the input may be cut at `p`: at its start, at its end, or behind
/// a line separator.
pub open spec fn is_cut(buf: Seq<u8>, p: int) -> bool {
    0 <= p <= buf.len() && (p == 0 || p == buf.len() || buf[p - 1] == LINE_SEPARATOR)
}

/// The first place at or after `near` where a line starts, or the end of
/// the input where no line starts from there on.
pub open spec fn line_start_from(buf: Seq<u8>, near: int) -> int {
    if near <= 0 {
        0
    } else if near - 1 + stretch(buf, near - 1, false) >= buf.len() {
        buf.len() as int
    } else {
        near + stretch(buf, near - 1, false)
    }
}

/// The first place at or after `near` where a line starts, or the end of
/// the input where no line starts from there on. The input may be cut
/// there.
pub fn next_line_start(buf: &[u8], near: usize) -> (r: usize)
    ensures
        r == line_start_from(buf@, near as int),
        is_cut(buf@, r as int),
        near <= r || r == buf@.len(),
{
    if near == 0 {
        return 0;
    }
    let len = buf.len();
    let mut i = near - 1;
    proof {
        if near - 1 >= len {
            assert(stretch(buf@, near - 1, false) == 0);
        }
    }
    while i < len && buf[i] != LINE_SEPARATOR
        invariant
            len == buf@.len(),
            near - 1 <= i,
            i <= len || near - 1 >= len,
            forall|j: int| near - 1 <= j < i ==> !stops(#[trigger] buf@[j], false),
        decreases len - i,
    {
        i = i + 1;
    }
    if i >= len {
        proof {
            if near - 1 < len {
                lemma_stretch_ends(buf@, near - 1, i as int, false);
            }
        }
        len
    } else {
        proof {
            lemma_stretch_ends(buf@, near - 1, i as int, false);
        }
        i + 1
    }
}

/// A stretch that ends before the cut is the same stretch in the part
/// before the cut.
proof fn lemma_stretch_before(buf: Seq<u8>, p: int, from: int, in_key: bool)
    requires
        0 <= from <= p <= buf.len(),
        from + stretch(buf, from, in_key) < p,
    ensures
        stretch(buf.take(p), from, in_key) == stretch(buf, from, in_key),
{
    let end = from + stretch(buf, from, in_key);
    lemma_stretch(buf, from, in_key);
    assert forall|i: int| from <= i < end implies !stops(#[trigger] buf.take(p)[i], in_key) by {
        assert(buf.take(p)[i] == buf[i]);
    }
    assert(buf.take(p)[end] == buf[end]);
    lemma_stretch_ends(buf.take(p), from, end, in_key);
}

/// A stretch behind the cut is the same stretch in the part behind the cut.
proof fn lemma_stretch_behind(buf: Seq<u8>, p: int, from: int, in_key: bool)
    requires
        0 <= p <= from <= buf.len(),
    ensures
        stretch(buf.skip(p), from - p, in_key) == stretch(buf, from, in_key),
{
    let end = from + stretch(buf, from, in_key);
    lemma_stretch(buf, from, in_key);
    assert forall|i: int| from - p <= i < end - p implies !stops(
        #[trigger] buf.skip(p)[i],
        in_key,
    ) by {
        assert(buf.skip(p)[i] == buf[i + p]);
    }
    if end < buf.len() {
        assert(buf.skip(p)[end - p] == buf[end]);
    }
    lemma_stretch_ends(buf.skip(p), from - p, end - p, in_key);
}

/// The records behind the cut are the records of the part behind the cut.
proof fn lemma_records_behind(buf: Seq<u8>, p: int, pos: int)
    requires
        0 <= p <= pos <= buf.len() <= usize::MAX,
        first_fault_from(buf, pos) is None,
    ensures
        first_fault_from(buf.skip(p), pos - p) is None,
        records_from(buf.skip(p), pos - p) == records_from(buf, pos),
    decreases buf.len() - pos,
{
    let rest = buf.skip(p);
    if pos < buf.len() {
        lemma_stretch(buf, pos, true);
        lemma_stretch_behind(buf, p, pos, true);
        let key_end = key_end_at(buf, pos);
        lemma_stretch(buf, key_end + 1, false);
        lemma_stretch_behind(buf, p, key_end + 1, false);
        let value_end = value_end_at(buf, pos);
        assert(key_end_at(rest, pos - p) == key_end - p);
        assert(value_end_at(rest, pos - p) == value_end - p);
        assert(rest[key_end - p] == buf[key_end]);
        assert(key_at(rest, pos - p) =~= key_at(buf, pos));
        assert(value_text_at(rest, pos - p) =~= value_text_at(buf, pos));
        assert(record_at(rest, pos - p) is Ok);
        lemma_records_behind(buf, p, value_end + 1);
    }
}

/// The records before the cut are the records of the part before the cut,
/// and the records behind it follow them.
proof fn lemma_records_before(buf: Seq<u8>, p: int, pos: int)
    requires
        is_cut(buf, p),
        0 <= pos <= p,
        buf.len() <= usize::MAX,
        first_fault_from(buf, pos) is None,
    ensures
        first_fault_from(buf.take(p), pos) is None,
        first_fault_from(buf, p) is None,
        records_from(buf, pos) == records_from(buf.take(p), pos) + records_from(buf, p),
    decreases buf.len() - pos,
{
    let part = buf.take(p);
    if pos < p {
        lemma_stretch(buf, pos, true);
        let key_end = key_end_at(buf, pos);
        lemma_stretch(buf, key_end + 1, false);
        let value_end = value_end_at(buf, pos);
        assert(value_end < p) by {
            if p < buf.len() && value_end >= p {
                assert(stops(buf[p - 1], false));
                assert(stops(buf[p - 1], true));
            }
        }
        lemma_stretch_before(buf, p, pos, true);
        lemma_stretch_before(buf, p, key_end + 1, false);
        assert(key_end_at(part, pos) == key_end);
        assert(value_end_at(part, pos) == value_end);
        assert(part[key_end] == buf[key_end]);
        assert(key_at(part, pos) =~= key_at(buf, pos));
        assert(value_text_at(part, pos) =~= value_text_at(buf, pos));
        assert(record_at(part, pos) is Ok);
        lemma_records_before(buf, p, value_end + 1);
        assert(records_from(buf, pos) =~= records_from(part, pos) + records_from(buf, p));
    } else {
        assert(records_from(part, pos) =~= Seq::empty());
        assert(records_from(buf, pos) =~= records_from(part, pos) + records_from(buf, p));
    }
}

/// An input without fault may be cut at any line boundary: the two parts
/// are without fault, their records one after the other are the records of
/// the whole, and their stores merged are the store of the whole.
pub proof fn law_cut(buf: Seq<u8>, p: int)
    requires
        is_cut(buf, p),
        buf.len() <= usize::MAX,
        first_fault(buf) is None,
    ensures
        first_fault(buf.take(p)) is None,
        first_fault(buf.skip(p)) is None,
        records_of(buf) == records_of(buf.take(p)) + records_of(buf.skip(p)),
        aggregate(records_of(buf)) == merged(
            aggregate(records_of(buf.take(p))),
            aggregate(records_of(buf.skip(p))),
        ),
{
    lemma_records_before(buf, p, 0);
    lemma_records_behind(buf, p, p);
    law_concat(records_of(buf.take(p)), records_of(buf.skip(p)));
}

} // verus!
