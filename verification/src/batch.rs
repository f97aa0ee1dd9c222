//! The batch: one pass over the input that fills the store, and the one
//! line that is written out at the end.

use vstd::prelude::*;
use crate::decimal::{atoi_times_ten, fixed_point_value, is_fixed_point};
use crate::error::AggregateError;
use crate::laws::{law_growth_bound, lemma_aggregate_front};
use crate::model::{
    aggregate,
    aggregate_onto,
    empty_store,
    grown,
    shared_depth,
    upsert,
    Record,
    Store,
};
use crate::format::{format_summary, summary_text};
use crate::scan::{
    key_at,
    key_end_at,
    lemma_record_at,
    lemma_stretch,
    record_at,
    value_end_at,
    value_text_at,
    RecordScanner,
};
use crate::stats::MAX_COUNT;
use crate::trie::{InsertError, StatisticsTrie};

verus! {

/// What is wrong with the record that starts at `pos`, if anything: what
/// the scanner refuses, or a value that is no fixed-point number.
pub open spec fn fault_at(buf: Seq<u8>, pos: int) -> Option<AggregateError> {
    match record_at(buf, pos) {
        Err(e) => Some(e),
        Ok(spans) => if is_fixed_point(value_text_at(buf, pos)) {
            None
        } else {
            Some(AggregateError::Parse { offset: spans.value.start })
        },
    }
}

/// The record that starts at `pos`, as key and value.
pub open spec fn record_model_at(buf: Seq<u8>, pos: int) -> Record {
    Record { key: key_at(buf, pos), value: fixed_point_value(value_text_at(buf, pos)) }
}

/// Where the record after the one at `pos` starts.
pub open spec fn next_record_at(buf: Seq<u8>, pos: int) -> int {
    value_end_at(buf, pos) + 1
}

/// The first fault among the records from `pos` on, if there is one.
pub open spec fn first_fault_from(buf: Seq<u8>, pos: int) -> Option<AggregateError>
    decreases buf.len() - pos,
{
    if pos < 0 || pos >= buf.len() {
        None
    } else if fault_at(buf, pos) is Some {
        fault_at(buf, pos)
    } else {
        first_fault_from(buf, next_record_at(buf, pos))
    }
}

/// The records from `pos` on, up to the end of `buf` or the first fault.
pub open spec fn records_from(buf: Seq<u8>, pos: int) -> Seq<Record>
    decreases buf.len() - pos,
{
    if pos < 0 || pos >= buf.len() || fault_at(buf, pos) is Some {
        Seq::empty()
    } else {
        seq![record_model_at(buf, pos)] + records_from(buf, next_record_at(buf, pos))
    }
}

/// The first fault in `buf`, if there is one.
pub open spec fn first_fault(buf: Seq<u8>) -> Option<AggregateError> {
    first_fault_from(buf, 0)
}

/// The records of `buf`, up to its end or its first fault.
pub open spec fn records_of(buf: Seq<u8>) -> Seq<Record> {
    records_from(buf, 0)
}

/// How the batch ends when it goes on at `pos` with `store`: with the store
/// after the last record, or with the first error. A record is refused for
/// its fault, or for a key that needs more nodes than a store of `limit`
/// nodes besides its root has room for.
pub open spec fn run_from(buf: Seq<u8>, pos: int, store: Store, limit: nat) -> Result<
    Store,
    AggregateError,
>
    decreases buf.len() - pos,
{
    if pos < 0 || pos >= buf.len() {
        Ok(store)
    } else {
        let record = record_model_at(buf, pos);
        match fault_at(buf, pos) {
            Some(e) => Err(e),
            None => if store.words.len() + record.key.len() - shared_depth(
                store.words,
                record.key,
            ) > limit + 1 {
                Err(AggregateError::KeyCapacityExceeded { offset: pos as usize })
            } else {
                run_from(
                    buf,
                    next_record_at(buf, pos),
                    Store {
                        words: grown(store.words, record.key),
                        entries: upsert(store.entries, record.key, record.value),
                    },
                    limit,
                )
            },
        }
    }
}

/// How the batch over `buf` ends, in a store of `limit` nodes besides its
/// root.
pub open spec fn run(buf: Seq<u8>, limit: nat) -> Result<Store, AggregateError> {
    run_from(buf, 0, empty_store(), limit)
}

/// How a batch that goes on at `pos` ends, said by the records and the
/// first fault from there on: where it ends well there was no fault and
/// every record was taken in; where it fails, the store was full or the
/// error is the first fault. And it does end well where there is no fault
/// and the store has room for one node for each byte of input.
pub proof fn law_run_from(buf: Seq<u8>, pos: int, store: Store, limit: nat)
    requires
        0 <= pos <= buf.len(),
    ensures
        match run_from(buf, pos, store, limit) {
            Ok(out) => first_fault_from(buf, pos) is None && out.entries == aggregate_onto(
                store.entries,
                records_from(buf, pos),
            ),
            Err(e) => e is KeyCapacityExceeded || first_fault_from(buf, pos) == Some(e),
        },
        first_fault_from(buf, pos) is None && store.words.len() + (buf.len() - pos) <= limit + 1
            ==> run_from(buf, pos, store, limit) is Ok,
    decreases buf.len() - pos,
{
    if pos < buf.len() && fault_at(buf, pos) is None {
        let record = record_model_at(buf, pos);
        let next = next_record_at(buf, pos);
        let after = Store {
            words: grown(store.words, record.key),
            entries: upsert(store.entries, record.key, record.value),
        };
        law_growth_bound(store.words, record.key);
        lemma_stretch(buf, pos, true);
        lemma_stretch(buf, key_end_at(buf, pos) + 1, false);
        if !(store.words.len() + record.key.len() - shared_depth(store.words, record.key) > limit
            + 1) {
            law_run_from(buf, next, after, limit);
            lemma_aggregate_front(store.entries, record, records_from(buf, next));
        }
    }
}

/// How a batch ends, said by the records of the input and its first fault.
pub proof fn law_run(buf: Seq<u8>, limit: nat)
    ensures
        match run(buf, limit) {
            Ok(out) => first_fault(buf) is None && out.entries == aggregate(records_of(buf)),
            Err(e) => e is KeyCapacityExceeded || first_fault(buf) == Some(e),
        },
        first_fault(buf) is None && buf.len() <= limit ==> run(buf, limit) is Ok,
{
    law_run_from(buf, 0, empty_store(), limit);
}

/// Takes every record of `buf` into a new store of at most `node_limit`
/// nodes besides its root. The first record that is refused ends the
/// batch: for its fault, or because the store is full.
pub fn aggregate_records(buf: &[u8], node_limit: u32) -> (r: Result<StatisticsTrie, AggregateError>)
    requires
        buf@.len() <= MAX_COUNT,
    ensures
        match r {
            Ok(trie) => {
                &&& trie.wf()
                &&& trie.node_limit() == node_limit
                &&& run(buf@, node_limit as nat) == Ok::<Store, AggregateError>(trie.store())
                &&& first_fault(buf@) is None
                &&& trie@ == aggregate(records_of(buf@))
            },
            Err(e) => {
                &&& run(buf@, node_limit as nat) == Err::<Store, AggregateError>(e)
                &&& e is KeyCapacityExceeded || first_fault(buf@) == Some(e)
            },
        },
        first_fault(buf@) is None && buf@.len() <= node_limit ==> r is Ok,
{
    let mut trie = StatisticsTrie::with_node_limit(node_limit);
    let mut scanner = RecordScanner::new(buf);
    assert(buf@.len() == buf.len());
    loop
        invariant
            buf@.len() <= MAX_COUNT,
            buf@.len() <= usize::MAX,
            scanner.wf(),
            scanner.buffer() == buf@,
            scanner.position() <= buf@.len(),
            trie.wf(),
            trie.node_limit() == node_limit,
            run(buf@, node_limit as nat) == run_from(
                buf@,
                scanner.position() as int,
                trie.store(),
                node_limit as nat,
            ),
            forall|k: Seq<u8>| #[trigger]
                trie@.contains_key(k) ==> trie@[k].count <= scanner.position(),
        decreases buf@.len() - scanner.position(),
    {
        let ghost pos = scanner.position() as int;
        proof {
            law_run(buf@, node_limit as nat);
            if pos < buf@.len() {
                lemma_record_at(buf@, pos);
            }
        }
        match scanner.next_record() {
            Err(e) => {
                return Err(e);
            },
            Ok(None) => {
                return Ok(trie);
            },
            Ok(Some(spans)) => {
                let key = &buf[spans.key.start..spans.key.end];
                let text = &buf[spans.value.start..spans.value.end];
                match atoi_times_ten(text) {
                    None => {
                        return Err(AggregateError::Parse { offset: spans.value.start });
                    },
                    Some(value) => {
                        proof {
                            trie.lemma_depth(key@);
                        }
                        match trie.insert(key, value) {
                            Ok(()) => {},
                            Err(InsertError::EmptyKey) => {
                                return Err(AggregateError::EmptyKey { offset: spans.key.start });
                            },
                            Err(InsertError::KeyCapacityExceeded) => {
                                return Err(
                                    AggregateError::KeyCapacityExceeded {
                                        offset: spans.key.start,
                                    },
                                );
                            },
                        }
                    },
                }
            },
        }
    }
}

/// The summary line for the records of `buf`: for each key its minimum,
/// mean and maximum, the keys in ascending byte order. The store may grow
/// to `u32::MAX` nodes besides its root. No line is made where a record
/// is refused.
pub fn summarize(buf: &[u8]) -> (r: Result<Vec<u8>, AggregateError>)
    requires
        buf@.len() <= MAX_COUNT,
    ensures
        match r {
            Ok(line) => {
                &&& run(buf@, u32::MAX as nat) is Ok
                &&& first_fault(buf@) is None
                &&& line@ == summary_text(aggregate(records_of(buf@)))
            },
            Err(e) => {
                &&& run(buf@, u32::MAX as nat) == Err::<Store, AggregateError>(e)
                &&& e is KeyCapacityExceeded || first_fault(buf@) == Some(e)
            },
        },
        first_fault(buf@) is None && buf@.len() <= u32::MAX ==> r is Ok,
{
    match aggregate_records(buf, u32::MAX) {
        Ok(trie) => Ok(format_summary(&trie)),
        Err(e) => Err(e),
    }
}

} // verus!
