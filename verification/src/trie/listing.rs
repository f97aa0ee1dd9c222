//! Reading the store out: the word of a node, and all keys in ascending
//! order.

use vstd::prelude::*;
use super::{path, StatisticsTrie};
use crate::order::{ascending, key_before, key_lt, lemma_before_total, lemma_before_transitive};
use crate::stats::Statistics;

verus! {

/// The keys of a list of keys with their statistics, in the list's order.
pub open spec fn keys_of<'a>(pairs: Seq<(Vec<u8>, &'a Statistics)>) -> Seq<Seq<u8>> {
    pairs.map_values(|p: (Vec<u8>, &'a Statistics)| p.0@)
}

/// Turns the bytes of `word` round: the last becomes the first.
fn reverse_bytes(word: &mut Vec<u8>)
    ensures
        final(word)@ == old(word)@.reverse(),
{
    let n = word.len();
    let mut i: usize = 0;
    while i < n / 2
        invariant
            n == word.len(),
            n == old(word).len(),
            0 <= i <= n / 2,
            forall|j: int| 0 <= j < i ==> word@[j] == old(word)@[n - 1 - j],
            forall|j: int| n - i <= j < n ==> word@[j] == old(word)@[n - 1 - j],
            forall|j: int| i <= j < n - i ==> word@[j] == old(word)@[j],
        decreases n / 2 - i,
    {
        let front = word[i];
        let back = word[n - 1 - i];
        word[i] = back;
        word[n - 1 - i] = front;
        i = i + 1;
    }
    assert(word@ =~= old(word)@.reverse());
}

/// Where `word` belongs among keys in ascending order.
fn place<'a>(pairs: &Vec<(Vec<u8>, &'a Statistics)>, word: &Vec<u8>) -> (pos: usize)
    requires
        ascending(keys_of(pairs@)),
        !keys_of(pairs@).contains(word@),
    ensures
        pos <= pairs.len(),
        forall|j: int| 0 <= j < pos ==> key_before(#[trigger] keys_of(pairs@)[j], word@),
        forall|j: int| pos <= j < pairs.len() ==> key_before(word@, #[trigger] keys_of(pairs@)[j]),
{
    let ghost keys = keys_of(pairs@);
    let mut lo: usize = 0;
    let mut hi: usize = pairs.len();
    while lo < hi
        invariant
            keys == keys_of(pairs@),
            ascending(keys),
            !keys.contains(word@),
            0 <= lo <= hi <= pairs.len(),
            forall|j: int| 0 <= j < lo ==> key_before(#[trigger] keys[j], word@),
            forall|j: int| hi <= j < pairs.len() ==> key_before(word@, #[trigger] keys[j]),
        decreases hi - lo,
    {
        let mid = lo + (hi - lo) / 2;
        assert(keys[mid as int] == pairs@[mid as int].0@);
        if key_lt(pairs[mid].0.as_slice(), word.as_slice()) {
            assert forall|j: int| 0 <= j < mid + 1 implies key_before(
                #[trigger] keys[j],
                word@,
            ) by {
                if j < mid {
                    lemma_before_transitive(keys[j], keys[mid as int], word@);
                }
            }
            lo = mid + 1;
        } else {
            assert forall|j: int| mid <= j < pairs.len() implies key_before(
                word@,
                #[trigger] keys[j],
            ) by {
                assert(keys[mid as int] != word@);
                lemma_before_total(keys[mid as int], word@);
                if j > mid {
                    lemma_before_transitive(word@, keys[mid as int], keys[j]);
                }
            }
            hi = mid;
        }
    }
    lo
}

impl StatisticsTrie {
    /// The key that node `leaf_idx` stands for, and its statistics; `None`
    /// where the arena has no such node or the node carries no statistics.
    pub fn get_word_and_stat(&self, leaf_idx: u32) -> (r: Option<(Vec<u8>, &Statistics)>)
        requires
            self.wf(),
        ensures
            r is Some <==> leaf_idx < self.node_count() && self@.contains_key(
                self.words()[leaf_idx as int],
            ),
            r matches Some(pair) ==> {
                &&& pair.0@ == self.words()[leaf_idx as int]
                &&& pair.1@ == self@[pair.0@]
                &&& pair.1.wf()
            },
    {
        if leaf_idx as usize >= self.nodes.len() {
            return None;
        }
        proof {
            self.lemma_key_of_node(leaf_idx as int);
        }
        let stat = match &self.nodes[leaf_idx as usize].stat {
            Some(s) => s,
            None => {
                return None;
            },
        };
        let mut word: Vec<u8> = Vec::new();
        let mut cur_idx = leaf_idx;
        while cur_idx != 0
            invariant
                self.wf(),
                cur_idx < self.nodes@.len(),
                path(self.nodes@, leaf_idx as int) == path(self.nodes@, cur_idx as int)
                    + word@.reverse(),
            decreases cur_idx,
        {
            let ghost up = self.nodes@[cur_idx as int].parent as int;
            let ghost before = word@;
            word.push(self.nodes[cur_idx as usize].val);
            proof {
                assert(path(self.nodes@, cur_idx as int) == path(self.nodes@, up).push(
                    self.nodes@[cur_idx as int].val,
                ));
                assert(path(self.nodes@, up).push(self.nodes@[cur_idx as int].val)
                    + before.reverse() =~= path(self.nodes@, up) + word@.reverse());
            }
            cur_idx = self.nodes[cur_idx as usize].parent;
        }
        reverse_bytes(&mut word);
        proof {
            assert(path(self.nodes@, 0) =~= Seq::<u8>::empty());
            assert(path(self.nodes@, leaf_idx as int) =~= word@);
            self.lemma_key_of_node(leaf_idx as int);
        }
        Some((word, stat))
    }

    /// Every key with its statistics, the keys in ascending byte order.
    pub fn get_all_words_and_stats(&self) -> (pairs: Vec<(Vec<u8>, &Statistics)>)
        requires
            self.wf(),
        ensures
            ascending(keys_of(pairs@)),
            forall|j: int|
                0 <= j < pairs.len() ==> {
                    &&& self@.contains_key(#[trigger] keys_of(pairs@)[j])
                    &&& self@[keys_of(pairs@)[j]] == pairs@[j].1@
                    &&& pairs@[j].1.wf()
                },
            forall|k: Seq<u8>| self@.contains_key(k) ==> keys_of(pairs@).contains(k),
    {
        let mut pairs: Vec<(Vec<u8>, &Statistics)> = Vec::new();
        let mut node_idx: usize = 0;
        let ghost words = self.words();
        proof {
            self.lemma_shape();
        }
        while node_idx < self.nodes.len()
            invariant
                self.wf(),
                words == self.words(),
                words.no_duplicates(),
                0 <= node_idx <= words.len() == self.nodes@.len() <= u32::MAX as nat + 1,
                ascending(keys_of(pairs@)),
                forall|j: int|
                    0 <= j < pairs.len() ==> {
                        &&& words.contains(#[trigger] keys_of(pairs@)[j])
                        &&& words.index_of(keys_of(pairs@)[j]) < node_idx
                        &&& self@.contains_key(keys_of(pairs@)[j])
                        &&& self@[keys_of(pairs@)[j]] == pairs@[j].1@
                        &&& pairs@[j].1.wf()
                    },
                forall|i: int|
                    0 <= i < node_idx && self@.contains_key(#[trigger] words[i]) ==> keys_of(
                        pairs@,
                    ).contains(words[i]),
            decreases words.len() - node_idx,
        {
            match self.get_word_and_stat(node_idx as u32) {
                Some(pair) => {
                    let ghost before = keys_of(pairs@);
                    let ghost held = pairs@;
                    proof {
                        if before.contains(pair.0@) {
                            let j = before.index_of(pair.0@);
                            assert(words.index_of(before[j]) < node_idx);
                        }
                    }
                    let pos = place(&pairs, &pair.0);
                    pairs.insert(pos, pair);
                    proof {
                        let keys = keys_of(pairs@);
                        assert(keys =~= before.insert(pos as int, pair.0@));
                        assert forall|i: int, j: int| 0 <= i < j < keys.len() implies key_before(
                            keys[i],
                            keys[j],
                        ) by {
                            let bi = if i < pos { i } else { i - 1 };
                            let bj = if j < pos { j } else { j - 1 };
                            if i != pos {
                                assert(keys[i] == before[bi]);
                            }
                            if j != pos {
                                assert(keys[j] == before[bj]);
                            }
                        }
                        assert forall|j: int| 0 <= j < pairs.len() implies {
                            &&& words.contains(#[trigger] keys[j])
                            &&& words.index_of(keys[j]) < node_idx + 1
                            &&& self@.contains_key(keys[j])
                            &&& self@[keys[j]] == pairs@[j].1@
                            &&& pairs@[j].1.wf()
                        } by {
                            if j < pos {
                                assert(keys[j] == before[j]);
                                assert(pairs@[j] == held[j]);
                            } else if j > pos {
                                assert(keys[j] == before[j - 1]);
                                assert(pairs@[j] == held[j - 1]);
                            }
                        }
                        assert forall|i: int|
                            0 <= i < node_idx + 1 && self@.contains_key(
                                #[trigger] words[i],
                            ) implies keys.contains(words[i]) by {
                            if i < node_idx {
                                let j = before.index_of(words[i]);
                                if j < pos {
                                    assert(keys[j] == words[i]);
                                } else {
                                    assert(keys[j + 1] == words[i]);
                                }
                            } else {
                                assert(keys[pos as int] == words[i]);
                            }
                        }
                    }
                },
                None => {},
            }
            node_idx = node_idx + 1;
        }
        proof {
            assert forall|k: Seq<u8>| self@.contains_key(k) implies keys_of(pairs@).contains(
                k,
            ) by {
                assert(words[words.index_of(k)] == k);
            }
        }
        pairs
    }
}

} // verus!
