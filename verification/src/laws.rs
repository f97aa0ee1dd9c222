//! What holds of aggregation whatever the records are.

use vstd::prelude::*;
use crate::model::{
    aggregate,
    aggregate_onto,
    grown,
    merged,
    merged_parts,
    new_words,
    part,
    shared_depth,
    summary_of,
    total,
    upsert,
    values_of,
    Record,
};
use crate::stats::{
    as_chars,
    combine,
    lemma_observe_valid,
    mean_tenths,
    rendered,
    single,
    Statistics,
    Summary,
};

verus! {

/// Combining two summaries does not depend on their order.
pub proof fn law_combine_commutative(a: Summary, b: Summary)
    ensures
        combine(a, b) == combine(b, a),
{
}

/// Combining three summaries does not depend on how they are grouped.
pub proof fn law_combine_associative(a: Summary, b: Summary, c: Summary)
    ensures
        combine(combine(a, b), c) == combine(a, combine(b, c)),
{
}

/// Merging two stores does not depend on their order.
pub proof fn law_merged_commutative(a: Map<Seq<u8>, Summary>, b: Map<Seq<u8>, Summary>)
    ensures
        merged(a, b) == merged(b, a),
{
    assert(merged(a, b) =~= merged(b, a));
}

/// Merging three stores does not depend on how they are grouped.
pub proof fn law_merged_associative(
    a: Map<Seq<u8>, Summary>,
    b: Map<Seq<u8>, Summary>,
    c: Map<Seq<u8>, Summary>,
)
    ensures
        merged(merged(a, b), c) == merged(a, merged(b, c)),
{
    assert(merged(merged(a, b), c) =~= merged(a, merged(b, c)));
}

/// The empty store changes nothing in a merge.
pub proof fn law_merged_empty(a: Map<Seq<u8>, Summary>)
    ensures
        merged(a, Map::empty()) == a,
        merged(Map::empty(), a) == a,
{
    assert(merged(a, Map::empty()) =~= a);
    assert(merged(Map::<Seq<u8>, Summary>::empty(), a) =~= a);
}

/// A record may be taken into either store before a merge, or into the
/// merged store after it.
pub proof fn law_upsert_merged(
    a: Map<Seq<u8>, Summary>,
    b: Map<Seq<u8>, Summary>,
    key: Seq<u8>,
    v: int,
)
    ensures
        merged(upsert(a, key, v), b) == upsert(merged(a, b), key, v),
        merged(a, upsert(b, key, v)) == upsert(merged(a, b), key, v),
{
    assert(merged(upsert(a, key, v), b) =~= upsert(merged(a, b), key, v));
    assert(merged(a, upsert(b, key, v)) =~= upsert(merged(a, b), key, v));
}

/// Records that are taken in after others may be aggregated by themselves
/// and merged in.
pub proof fn law_aggregate_onto(base: Map<Seq<u8>, Summary>, records: Seq<Record>)
    ensures
        aggregate_onto(base, records) == merged(base, aggregate(records)),
    decreases records.len(),
{
    if records.len() == 0 {
        law_merged_empty(base);
    } else {
        law_aggregate_onto(base, records.drop_last());
        law_upsert_merged(
            base,
            aggregate(records.drop_last()),
            records.last().key,
            records.last().value,
        );
    }
}

/// One record more at the end is one `upsert` more.
proof fn lemma_aggregate_push(base: Map<Seq<u8>, Summary>, records: Seq<Record>, r: Record)
    ensures
        aggregate_onto(base, records.push(r)) == upsert(
            aggregate_onto(base, records),
            r.key,
            r.value,
        ),
{
    assert(records.push(r).drop_last() =~= records);
}

/// The first record may be taken into the store before the others.
pub proof fn lemma_aggregate_front(base: Map<Seq<u8>, Summary>, r: Record, rest: Seq<Record>)
    ensures
        aggregate_onto(base, seq![r] + rest) == aggregate_onto(
            upsert(base, r.key, r.value),
            rest,
        ),
    decreases rest.len(),
{
    let all = seq![r] + rest;
    if rest.len() == 0 {
        assert(all.drop_last() =~= Seq::<Record>::empty());
        assert(all.last() == r);
        assert(aggregate_onto(base, all.drop_last()) == base);
        assert(rest =~= Seq::<Record>::empty());
    } else {
        lemma_aggregate_front(base, r, rest.drop_last());
        assert(all.drop_last() =~= seq![r] + rest.drop_last());
        assert(all.last() == rest.last());
    }
}

/// A stream cut in two: the two halves, each aggregated by itself and then
/// merged, give what the whole stream gives.
pub proof fn law_concat(first: Seq<Record>, second: Seq<Record>)
    ensures
        aggregate(first + second) == merged(aggregate(first), aggregate(second)),
    decreases second.len(),
{
    if second.len() == 0 {
        assert(first + second =~= first);
        law_merged_empty(aggregate(first));
    } else {
        law_concat(first, second.drop_last());
        assert((first + second).drop_last() =~= first + second.drop_last());
        assert((first + second).last() == second.last());
        law_upsert_merged(
            aggregate(first),
            aggregate(second.drop_last()),
            second.last().key,
            second.last().value,
        );
    }
}

/// Two streams give the same whichever of them comes first.
pub proof fn law_aggregate_commutes(first: Seq<Record>, second: Seq<Record>)
    ensures
        aggregate(first + second) == aggregate(second + first),
{
    law_concat(first, second);
    law_concat(second, first);
    law_merged_commutative(aggregate(first), aggregate(second));
}

/// With one record more, the part that owns the record has it at its end
/// and the other parts are as they were.
proof fn lemma_merged_parts_push(records: Seq<Record>, owner: Seq<int>, parts: nat)
    requires
        records.len() > 0,
        owner.len() == records.len(),
        0 <= owner.last(),
    ensures
        merged_parts(records, owner, parts) == if owner.last() < parts {
            upsert(
                merged_parts(records.drop_last(), owner.drop_last(), parts),
                records.last().key,
                records.last().value,
            )
        } else {
            merged_parts(records.drop_last(), owner.drop_last(), parts)
        },
    decreases parts,
{
    if parts > 0 {
        let p = parts - 1;
        lemma_merged_parts_push(records, owner, p as nat);
        let before = merged_parts(records.drop_last(), owner.drop_last(), p as nat);
        let mine = aggregate(part(records.drop_last(), owner.drop_last(), p));
        if owner.last() == p {
            lemma_aggregate_push(
                Map::empty(),
                part(records.drop_last(), owner.drop_last(), p),
                records.last(),
            );
            law_upsert_merged(before, mine, records.last().key, records.last().value);
        } else if owner.last() < p {
            law_upsert_merged(before, mine, records.last().key, records.last().value);
        }
    }
}

/// No records, no entries, however many parts there are.
proof fn lemma_merged_parts_empty(owner: Seq<int>, parts: nat)
    ensures
        merged_parts(Seq::empty(), owner, parts) == Map::<Seq<u8>, Summary>::empty(),
    decreases parts,
{
    if parts > 0 {
        lemma_merged_parts_empty(owner, (parts - 1) as nat);
        law_merged_empty(Map::<Seq<u8>, Summary>::empty());
    }
}

/// Aggregation may be split: where each record of a stream is given to one
/// of `parts` parts, in any way, the parts aggregated each by itself and
/// then merged give what the whole stream gives.
pub proof fn law_partition(records: Seq<Record>, owner: Seq<int>, parts: nat)
    requires
        owner.len() == records.len(),
        forall|i: int| 0 <= i < owner.len() ==> 0 <= #[trigger] owner[i] < parts,
    ensures
        merged_parts(records, owner, parts) == aggregate(records),
    decreases records.len(),
{
    if records.len() == 0 {
        assert(records =~= Seq::<Record>::empty());
        lemma_merged_parts_empty(owner, parts);
    } else {
        assert forall|i: int| 0 <= i < owner.drop_last().len() implies 0
            <= #[trigger] owner.drop_last()[i] < parts by {
            assert(owner.drop_last()[i] == owner[i]);
        }
        law_partition(records.drop_last(), owner.drop_last(), parts);
        lemma_merged_parts_push(records, owner, parts);
    }
}

/// What a summary says of the values it was made of: their number and
/// their sum, a minimum and a maximum that are among them, and no value
/// outside the two.
pub proof fn law_summary_of(values: Seq<int>)
    requires
        values.len() >= 1,
    ensures
        summary_of(values).valid(),
        summary_of(values).count == values.len(),
        summary_of(values).sum == total(values),
        forall|i: int|
            0 <= i < values.len() ==> summary_of(values).min <= #[trigger] values[i]
                <= summary_of(values).max,
        values.contains(summary_of(values).min),
        values.contains(summary_of(values).max),
    decreases values.len(),
{
    let s = summary_of(values);
    if values.len() == 1 {
        assert(values.drop_last() =~= Seq::<int>::empty());
        assert(total(values.drop_last()) == 0);
        assert(values[0] == s.min);
    } else {
        let front = values.drop_last();
        let f = summary_of(front);
        law_summary_of(front);
        assert forall|i: int| 0 <= i < values.len() implies s.min <= #[trigger] values[i]
            <= s.max by {
            if i < front.len() {
                assert(front[i] == values[i]);
            }
        }
        let low = front.index_of(f.min);
        let high = front.index_of(f.max);
        assert(values[low] == f.min);
        assert(values[high] == f.max);
        assert(values[values.len() - 1] == values.last());
        lemma_observe_valid(f, values.last());
    }
}

/// The store holds a key exactly if some record has it, and then it holds
/// the summary of that key's values.
pub proof fn law_aggregate_by_key(records: Seq<Record>, key: Seq<u8>)
    ensures
        aggregate(records).contains_key(key) <==> values_of(records, key).len() > 0,
        aggregate(records).contains_key(key) ==> aggregate(records)[key] == summary_of(
            values_of(records, key),
        ),
    decreases records.len(),
{
    if records.len() > 0 {
        law_aggregate_by_key(records.drop_last(), key);
        let before = values_of(records.drop_last(), key);
        if records.last().key == key {
            assert(before.push(records.last().value).drop_last() =~= before);
        }
    }
}

/// A key that was observed once has that one value as its minimum, its
/// mean and its maximum.
pub proof fn law_single_observation(records: Seq<Record>, key: Seq<u8>)
    requires
        values_of(records, key).len() == 1,
    ensures
        aggregate(records).contains_key(key),
        aggregate(records)[key] == single(values_of(records, key)[0]),
        aggregate(records)[key].min == values_of(records, key)[0],
        mean_tenths(aggregate(records)[key]) == values_of(records, key)[0],
        aggregate(records)[key].max == values_of(records, key)[0],
{
    law_aggregate_by_key(records, key);
    let v = values_of(records, key)[0];
    vstd::arithmetic::div_mod::lemma_fundamental_div_mod_converse(2 * v + 1, 2, v, 1);
}

/// Statistics that hold the same summary are written as the same text.
pub proof fn law_same_summary_same_text(a: Statistics, b: Statistics)
    requires
        a@ == b@,
    ensures
        rendered(a@) == rendered(b@),
        as_chars(rendered(a@)) == as_chars(rendered(b@)),
{
}

/// A key that the store knows adds no word to it, however often it comes:
/// the store grows with the keys, not with the records.
pub proof fn law_known_key_adds_no_word(words: Seq<Seq<u8>>, key: Seq<u8>)
    requires
        words.contains(key),
    ensures
        grown(words, key) == words,
{
    assert(new_words(key, shared_depth(words, key)) =~= Seq::<Seq<u8>>::empty());
    assert(grown(words, key) =~= words);
}

/// A key adds at most as many words as it has bytes.
pub proof fn law_growth_bound(words: Seq<Seq<u8>>, key: Seq<u8>)
    ensures
        words.len() <= grown(words, key).len() <= words.len() + key.len(),
        shared_depth(words, key) <= key.len(),
    decreases key.len(),
{
    if !(key.len() == 0 || words.contains(key)) {
        law_growth_bound(words, key.drop_last());
    }
}

} // verus!
