//! What aggregation means, apart from any data structure: a sequence of
//! records, the summary that each key ends with, and the words that a store
//! of byte-wise nodes holds after it has taken the keys in.

use vstd::prelude::*;
use crate::stats::{combine, observe, single, Summary};

verus! {

/// One record: a key and its value in tenths.
pub struct Record {
    pub key: Seq<u8>,
    pub value: int,
}

/// The store after `key` was seen with value `v`: a key seen for the first
/// time gets the summary of that one value, a known key takes the value
/// into its summary.
pub open spec fn upsert(m: Map<Seq<u8>, Summary>, key: Seq<u8>, v: int) -> Map<
    Seq<u8>,
    Summary,
> {
    m.insert(
        key,
        if m.contains_key(key) {
            observe(m[key], v)
        } else {
            single(v)
        },
    )
}

/// The store `base` after the records were taken in, in their order: each
/// record is one `upsert`.
pub open spec fn aggregate_onto(base: Map<Seq<u8>, Summary>, records: Seq<Record>) -> Map<
    Seq<u8>,
    Summary,
>
    decreases records.len(),
{
    if records.len() == 0 {
        base
    } else {
        upsert(aggregate_onto(base, records.drop_last()), records.last().key, records.last().value)
    }
}

/// The summary of each key of `records`.
pub open spec fn aggregate(records: Seq<Record>) -> Map<Seq<u8>, Summary> {
    aggregate_onto(Map::empty(), records)
}

/// The values that `records` hold for `key`, in their order.
pub open spec fn values_of(records: Seq<Record>, key: Seq<u8>) -> Seq<int>
    decreases records.len(),
{
    if records.len() == 0 {
        Seq::empty()
    } else if records.last().key == key {
        values_of(records.drop_last(), key).push(records.last().value)
    } else {
        values_of(records.drop_last(), key)
    }
}

/// The sum of `values`.
pub open spec fn total(values: Seq<int>) -> int
    decreases values.len(),
{
    if values.len() == 0 {
        0
    } else {
        total(values.drop_last()) + values.last()
    }
}

/// The summary of `values`, of which there is at least one.
pub open spec fn summary_of(values: Seq<int>) -> Summary
    decreases values.len(),
{
    if values.len() <= 1 {
        single(values[0])
    } else {
        observe(summary_of(values.drop_last()), values.last())
    }
}

/// The store after the summary `s` was taken in for `key`: a new key gets
/// `s`, a known key its summary combined with `s`.
pub open spec fn absorb(m: Map<Seq<u8>, Summary>, key: Seq<u8>, s: Summary) -> Map<
    Seq<u8>,
    Summary,
> {
    m.insert(
        key,
        if m.contains_key(key) {
            combine(m[key], s)
        } else {
            s
        },
    )
}

/// Two stores taken together: a key of both gets the two summaries
/// combined, a key of one keeps its summary.
pub open spec fn merged(a: Map<Seq<u8>, Summary>, b: Map<Seq<u8>, Summary>) -> Map<
    Seq<u8>,
    Summary,
> {
    Map::new(
        |k: Seq<u8>| a.contains_key(k) || b.contains_key(k),
        |k: Seq<u8>|
            if a.contains_key(k) && b.contains_key(k) {
                combine(a[k], b[k])
            } else if a.contains_key(k) {
                a[k]
            } else {
                b[k]
            },
    )
}

/// The records of `records` that `owner` gives to part `p`, in their
/// order. `owner` names a part for each record.
pub open spec fn part(records: Seq<Record>, owner: Seq<int>, p: int) -> Seq<Record>
    decreases records.len(),
{
    if records.len() == 0 {
        Seq::empty()
    } else if owner.last() == p {
        part(records.drop_last(), owner.drop_last(), p).push(records.last())
    } else {
        part(records.drop_last(), owner.drop_last(), p)
    }
}

/// The first `parts` parts, each aggregated by itself, then merged.
pub open spec fn merged_parts(records: Seq<Record>, owner: Seq<int>, parts: nat) -> Map<
    Seq<u8>,
    Summary,
>
    decreases parts,
{
    if parts == 0 {
        Map::empty()
    } else {
        merged(
            merged_parts(records, owner, (parts - 1) as nat),
            aggregate(part(records, owner, parts - 1)),
        )
    }
}

/// What a store holds: the words of its nodes, in the order in which the
/// nodes were made, and the summary of each key.
pub struct Store {
    pub words: Seq<Seq<u8>>,
    pub entries: Map<Seq<u8>, Summary>,
}

/// The store before the first record: the empty word and no key.
pub open spec fn empty_store() -> Store {
    Store { words: seq![Seq::<u8>::empty()], entries: Map::empty() }
}

/// How many of the first `n` words of `theirs` are not among `ours`.
pub open spec fn lacking(ours: Seq<Seq<u8>>, theirs: Seq<Seq<u8>>, n: nat) -> nat
    decreases n,
{
    if n == 0 {
        0
    } else if ours.contains(theirs[n - 1]) {
        lacking(ours, theirs, (n - 1) as nat)
    } else {
        lacking(ours, theirs, (n - 1) as nat) + 1
    }
}

/// `ours`, and behind them those of the first `n` words of `theirs` that
/// are not among `ours`, in their order.
pub open spec fn joined(ours: Seq<Seq<u8>>, theirs: Seq<Seq<u8>>, n: nat) -> Seq<Seq<u8>>
    decreases n,
{
    if n == 0 {
        ours
    } else if ours.contains(theirs[n - 1]) {
        joined(ours, theirs, (n - 1) as nat)
    } else {
        joined(ours, theirs, (n - 1) as nat).push(theirs[n - 1])
    }
}

/// How much of `key`, from its start, is among `words`; the empty word
/// counts as known.
pub open spec fn shared_depth(words: Seq<Seq<u8>>, key: Seq<u8>) -> nat
    decreases key.len(),
{
    if key.len() == 0 || words.contains(key) {
        key.len()
    } else {
        shared_depth(words, key.drop_last())
    }
}

/// The prefixes of `key` that are longer than `depth`, shortest first.
pub open spec fn new_words(key: Seq<u8>, depth: nat) -> Seq<Seq<u8>> {
    Seq::new((key.len() - depth) as nat, |j: int| key.take(depth + 1 + j))
}

/// The words after `key` was taken in: each prefix of `key` that was
/// missing is added, shortest first.
pub open spec fn grown(words: Seq<Seq<u8>>, key: Seq<u8>) -> Seq<Seq<u8>> {
    words + new_words(key, shared_depth(words, key))
}

} // verus!
