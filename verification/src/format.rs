//! The formatter: the store as one line, `{key=min/mean/max,...}`, with the
//! keys in ascending byte order.

use vstd::prelude::*;
use crate::ascii::{CLOSE_BRACE, COMMA, EQUALS, OPEN_BRACE};
use crate::order::{ascending, key_before, lemma_before_asymmetric};
use crate::stats::{rendered, Summary};
use crate::trie::listing::keys_of;
use crate::trie::StatisticsTrie;

verus! {

/// `keys` holds each key of `m` once, in ascending order, and nothing
/// else.
pub open spec fn lists(keys: Seq<Seq<u8>>, m: Map<Seq<u8>, Summary>) -> bool {
    &&& ascending(keys)
    &&& forall|k: Seq<u8>| keys.contains(k) <==> m.contains_key(k)
}

/// The keys of `m` in ascending order.
pub open spec fn keys_in_order(m: Map<Seq<u8>, Summary>) -> Seq<Seq<u8>> {
    choose|keys: Seq<Seq<u8>>| lists(keys, m)
}

/// One entry of the line: the key, `=`, and the statistics.
pub open spec fn entry_text(key: Seq<u8>, s: Summary) -> Seq<u8> {
    key + seq![EQUALS] + rendered(s)
}

/// The entries of `keys`, with `,` between them.
pub open spec fn entries_text(keys: Seq<Seq<u8>>, m: Map<Seq<u8>, Summary>) -> Seq<u8>
    decreases keys.len(),
{
    if keys.len() == 0 {
        Seq::empty()
    } else if keys.len() == 1 {
        entry_text(keys[0], m[keys[0]])
    } else {
        entries_text(keys.drop_last(), m) + seq![COMMA] + entry_text(keys.last(), m[keys.last()])
    }
}

/// The line for the store `m`: its entries in ascending order of their
/// keys, in braces.
pub open spec fn summary_text(m: Map<Seq<u8>, Summary>) -> Seq<u8> {
    seq![OPEN_BRACE] + entries_text(keys_in_order(m), m) + seq![CLOSE_BRACE]
}

/// The keys of a store can be listed in ascending order in one way only.
pub proof fn lemma_listing_unique(a: Seq<Seq<u8>>, b: Seq<Seq<u8>>, m: Map<Seq<u8>, Summary>)
    requires
        lists(a, m),
        lists(b, m),
    ensures
        a == b,
    decreases a.len(),
{
    if a.len() == 0 {
        if b.len() > 0 {
            assert(b.contains(b[0]));
            assert(m.contains_key(b[0]));
            assert(a.contains(b[0]));
        }
        assert(a =~= b);
    } else {
        let top = a.last();
        assert(a.contains(top));
        assert(m.contains_key(top));
        assert(b.contains(top));
        let at = b.index_of(top);
        let other = b.last();
        assert(b.contains(other));
        assert(m.contains_key(other));
        assert(a.contains(other));
        let back = a.index_of(other);
        if at < b.len() - 1 {
            assert(key_before(b[at], b[b.len() - 1]));
            if back < a.len() - 1 {
                assert(key_before(a[back], a[a.len() - 1]));
                lemma_before_asymmetric(top, other);
            } else {
                crate::order::lemma_before_irreflexive(top);
            }
        }
        assert(other == top);
        let rest = m.remove(top);
        assert(lists(a.drop_last(), rest)) by {
            lemma_without_last(a, m);
        }
        assert(lists(b.drop_last(), rest)) by {
            lemma_without_last(b, m);
        }
        lemma_listing_unique(a.drop_last(), b.drop_last(), rest);
        assert(a =~= a.drop_last().push(top));
        assert(b =~= b.drop_last().push(top));
    }
}

/// A listing without its last key lists the store without that key.
proof fn lemma_without_last(a: Seq<Seq<u8>>, m: Map<Seq<u8>, Summary>)
    requires
        lists(a, m),
        a.len() > 0,
    ensures
        lists(a.drop_last(), m.remove(a.last())),
{
    let front = a.drop_last();
    let rest = m.remove(a.last());
    assert forall|i: int, j: int| 0 <= i < j < front.len() implies key_before(
        front[i],
        front[j],
    ) by {
        assert(front[i] == a[i] && front[j] == a[j]);
    }
    assert forall|k: Seq<u8>| front.contains(k) <==> rest.contains_key(k) by {
        if front.contains(k) {
            let i = front.index_of(k);
            assert(a[i] == k);
            assert(a.contains(k));
            assert(key_before(a[i], a.last()));
            if k == a.last() {
                crate::order::lemma_before_irreflexive(k);
            }
        }
        if rest.contains_key(k) {
            assert(a.contains(k));
            let i = a.index_of(k);
            assert(front[i] == k);
        }
    }
}

/// The line for the store: `{key=min/mean/max,...}`, the keys in
/// ascending byte order, each number with one fractional digit.
pub fn format_summary(trie: &StatisticsTrie) -> (out: Vec<u8>)
    requires
        trie.wf(),
    ensures
        out@ == summary_text(trie@),
{
    let pairs = trie.get_all_words_and_stats();
    let ghost keys = keys_of(pairs@);
    proof {
        assert forall|k: Seq<u8>| keys.contains(k) implies trie@.contains_key(k) by {
            let j = keys.index_of(k);
            assert(trie@.contains_key(keys[j]));
        }
        let chosen = keys_in_order(trie@);
        assert(lists(keys, trie@));
        lemma_listing_unique(keys, chosen, trie@);
    }
    let mut out: Vec<u8> = Vec::new();
    out.push(OPEN_BRACE);
    let mut i: usize = 0;
    while i < pairs.len()
        invariant
            0 <= i <= pairs.len(),
            keys == keys_of(pairs@),
            forall|j: int|
                0 <= j < pairs.len() ==> {
                    &&& trie@.contains_key(#[trigger] keys[j])
                    &&& trie@[keys[j]] == pairs@[j].1@
                    &&& pairs@[j].1.wf()
                },
            out@ == seq![OPEN_BRACE] + entries_text(keys.take(i as int), trie@),
        decreases pairs.len() - i,
    {
        if i > 0 {
            out.push(COMMA);
        }
        let key = &pairs[i].0;
        let ghost stem = out@;
        out.extend_from_slice(key.as_slice());
        assert(out@ =~= stem + key@);
        out.push(EQUALS);
        assert(trie@.contains_key(keys[i as int]));
        pairs[i].1.push_text(&mut out);
        proof {
            let upto = keys.take(i + 1);
            assert(keys[i as int] == key@);
            assert(upto.drop_last() =~= keys.take(i as int));
            assert(upto.last() == key@);
            assert(out@ =~= seq![OPEN_BRACE] + entries_text(upto, trie@));
        }
        i = i + 1;
    }
    out.push(CLOSE_BRACE);
    proof {
        assert(keys.take(i as int) =~= keys);
    }
    out
}

} // verus!
