//! Merging one store into another.

use vstd::prelude::*;
use super::{InsertError, StatisticsTrie};
use crate::laws::law_merged_empty;
use crate::model::{joined, lacking, merged};
use crate::stats::{Summary, MAX_COUNT};

verus! {

/// What `joined` holds: our words first, then the lacking ones of theirs.
proof fn lemma_joined(ours: Seq<Seq<u8>>, theirs: Seq<Seq<u8>>, n: nat)
    requires
        n <= theirs.len(),
    ensures
        joined(ours, theirs, n).len() == ours.len() + lacking(ours, theirs, n),
        lacking(ours, theirs, n) <= n,
        forall|i: int| 0 <= i < ours.len() ==> joined(ours, theirs, n)[i] == ours[i],
        forall|w: Seq<u8>|
            joined(ours, theirs, n).contains(w) <==> ours.contains(w) || exists|i: int|
                0 <= i < n && theirs[i] == w,
    decreases n,
{
    let all = joined(ours, theirs, n);
    if n > 0 {
        let before = joined(ours, theirs, (n - 1) as nat);
        lemma_joined(ours, theirs, (n - 1) as nat);
        let last = theirs[n - 1];
        assert forall|w: Seq<u8>|
            all.contains(w) <==> ours.contains(w) || exists|i: int|
                0 <= i < n && theirs[i] == w by {
            if all.contains(w) {
                let at = all.index_of(w);
                if at < before.len() {
                    assert(before[at] == w);
                    assert(before.contains(w));
                } else {
                    assert(theirs[n - 1] == w);
                }
            }
            if ours.contains(w) {
                let at = ours.index_of(w);
                assert(all[at] == w);
            }
            if exists|i: int| 0 <= i < n && theirs[i] == w {
                let i = choose|i: int| 0 <= i < n && theirs[i] == w;
                if i < n - 1 {
                    assert(before.contains(w));
                    let at = before.index_of(w);
                    assert(all[at] == w);
                } else if ours.contains(last) {
                    let at = ours.index_of(w);
                    assert(all[at] == w);
                } else {
                    assert(all[all.len() - 1] == w);
                }
            }
        }
    } else {
        assert forall|w: Seq<u8>|
            all.contains(w) <==> ours.contains(w) || exists|i: int|
                0 <= i < n && theirs[i] == w by {}
    }
}

/// The more words are counted, the more are lacking.
proof fn lemma_lacking_grows(ours: Seq<Seq<u8>>, theirs: Seq<Seq<u8>>, m: nat, n: nat)
    requires
        m <= n,
    ensures
        lacking(ours, theirs, m) <= lacking(ours, theirs, n),
    decreases n - m,
{
    if m < n {
        lemma_lacking_grows(ours, theirs, m, (n - 1) as nat);
    }
}

/// The keys of `other` that stand at its first `n` nodes.
spec fn taken(other: &StatisticsTrie, n: int) -> Map<Seq<u8>, Summary> {
    Map::new(
        |k: Seq<u8>| other@.contains_key(k) && other.words().index_of(k) < n,
        |k: Seq<u8>| other@[k],
    )
}

impl StatisticsTrie {
    /// Takes every key of `other` with its statistics into the trie: a key
    /// of both gets the two statistics merged. The trie gets a node for
    /// each word of `other` that it lacks. Where it has no room for all of
    /// them it stays as it is.
    pub fn merge_from(&mut self, other: &StatisticsTrie) -> (r: Result<(), InsertError>)
        requires
            old(self).wf(),
            other.wf(),
            forall|k: Seq<u8>|
                old(self)@.contains_key(k) && other@.contains_key(k) ==> old(self)@[k].count
                    + other@[k].count <= MAX_COUNT,
        ensures
            final(self).wf(),
            final(self).node_limit() == old(self).node_limit(),
            r == if old(self).node_count() + lacking(
                old(self).words(),
                other.words(),
                other.node_count(),
            ) > old(self).node_limit() + 1 {
                Err::<(), InsertError>(InsertError::KeyCapacityExceeded)
            } else {
                Ok::<(), InsertError>(())
            },
            r is Ok ==> final(self)@ == merged(old(self)@, other@),
            r is Ok ==> final(self).words() == joined(
                old(self).words(),
                other.words(),
                other.node_count(),
            ),
            r is Err ==> final(self)@ == old(self)@ && final(self).words() == old(self).words(),
    {
        let n = other.nodes.len();
        let ghost ours = self.words();
        let ghost theirs = other.words();
        proof {
            self.lemma_shape();
            other.lemma_shape();
            assert(ours.contains(theirs[0])) by {
                assert(ours[0] == theirs[0]);
            }
            assert(lacking(ours, theirs, 0) == 0);
        }
        let mut map: Vec<u32> = Vec::with_capacity(n);
        map.push(0);
        let mut lack: usize = 0;
        let mut j: usize = 1;
        while j < n
            invariant
                self.wf(),
                other.wf(),
                ours == self.words(),
                theirs == other.words(),
                n == other.nodes@.len() == theirs.len(),
                1 <= j <= n,
                map@.len() == j,
                map@[0] == 0,
                lack == lacking(ours, theirs, j as nat),
                lack <= j,
                forall|i: int|
                    0 < i < j ==> (#[trigger] map@[i] != 0 <==> ours.contains(theirs[i])),
                forall|i: int|
                    0 <= i < j && ours.contains(theirs[i]) ==> (#[trigger] map@[i])
                        < ours.len() && ours[map@[i] as int] == theirs[i],
            decreases n - j,
        {
            let up = other.nodes[j].parent as usize;
            let b = other.nodes[j].val;
            proof {
                assert(theirs[j as int] == theirs[up as int].push(b));
                assert(0 <= up < j);
                if ours.contains(theirs[up as int]) {
                    self.lemma_child(map@[up as int] as int, b);
                } else {
                    if ours.contains(theirs[j as int]) {
                        self.lemma_prefixes_spelled(theirs[j as int], theirs[j as int].len() - 1);
                        assert(theirs[j as int].take(theirs[j as int].len() - 1)
                            =~= theirs[up as int]);
                    }
                }
            }
            let at = if up != 0 && map[up] == 0 {
                0
            } else {
                self.find_child(map[up], b)
            };
            if at == 0 {
                lack = lack + 1;
            }
            map.push(at);
            j = j + 1;
        }
        if lack > self.limit as usize - (self.nodes.len() - 1) {
            return Err(InsertError::KeyCapacityExceeded);
        }
        let ghost need = lack as nat;
        j = 1;
        proof {
            assert(taken(other, 1) =~= Map::<Seq<u8>, Summary>::empty()) by {
                assert forall|k: Seq<u8>| !taken(other, 1).contains_key(k) by {
                    if other@.contains_key(k) {
                        let i = other.lemma_node_of_view(k);
                        assert(theirs.index_of(k) == i);
                    }
                }
            }
            law_merged_empty(self@);
            assert(joined(ours, theirs, 0) == ours);
            assert(joined(ours, theirs, 1) == ours);
        }
        while j < n
            invariant
                self.wf(),
                other.wf(),
                self.node_limit() == old(self).node_limit(),
                ours == old(self).words(),
                theirs == other.words(),
                theirs.no_duplicates(),
                n == other.nodes@.len() == theirs.len(),
                1 <= j <= n,
                map@.len() == n,
                map@[0] == 0,
                need == lacking(ours, theirs, n as nat),
                ours.len() + need <= old(self).node_limit() + 1,
                self.words() == joined(ours, theirs, j as nat),
                forall|i: int|
                    0 <= i < j ==> {
                        &&& (#[trigger] map@[i]) < self.words().len()
                        &&& self.words()[map@[i] as int] == theirs[i]
                    },
                self@ == merged(old(self)@, taken(other, j as int)),
                forall|k: Seq<u8>|
                    old(self)@.contains_key(k) && other@.contains_key(k) ==> old(self)@[k].count
                        + other@[k].count <= MAX_COUNT,
            decreases n - j,
        {
            let up = other.nodes[j].parent as usize;
            let b = other.nodes[j].val;
            let ghost word = theirs[j as int];
            let ghost before = self.words();
            proof {
                assert(word == theirs[up as int].push(b));
                assert(0 <= up < j);
                lemma_joined(ours, theirs, j as nat);
                lemma_joined(ours, theirs, (j + 1) as nat);
                lemma_lacking_grows(ours, theirs, (j + 1) as nat, n as nat);
                self.lemma_child(map@[up as int] as int, b);
                if before.contains(word) && !ours.contains(word) {
                    let i = choose|i: int| 0 <= i < j && theirs[i] == word;
                    assert(theirs[i] == theirs[j as int]);
                }
            }
            let at = self.get_or_create_child(map[up], b);
            map[j] = at;
            proof {
                assert(self.words() =~= joined(ours, theirs, (j + 1) as nat));
                self.lemma_shape();
                assert(self.words()[at as int] == word);
                assert forall|i: int| 0 <= i < j + 1 implies (#[trigger] map@[i])
                    < self.words().len() && self.words()[map@[i] as int] == theirs[i] by {
                    if i < j {
                        assert(map@[i] < before.len());
                        assert(self.words()[map@[i] as int] == before[map@[i] as int]);
                    }
                }
                other.lemma_key_of_node(j as int);
                self.lemma_key_of_node(at as int);
                assert(!taken(other, j as int).contains_key(word)) by {
                    if other@.contains_key(word) {
                        assert(theirs.index_of(word) == j);
                    }
                }
            }
            match &other.nodes[j].stat {
                Some(s) => {
                    self.absorb_at(at, s);
                    proof {
                        assert(taken(other, j + 1) =~= taken(other, j as int).insert(word, s@)) by {
                            assert forall|k: Seq<u8>|
                                other@.contains_key(k) implies (theirs.index_of(k) < j + 1 <==> (
                                theirs.index_of(k) < j || k == word)) by {
                                let i = other.lemma_node_of_view(k);
                                assert(theirs.index_of(k) == i);
                            }
                        }
                        assert(self@ =~= merged(old(self)@, taken(other, j + 1)));
                    }
                },
                None => {
                    proof {
                        assert(taken(other, j + 1) =~= taken(other, j as int)) by {
                            assert forall|k: Seq<u8>|
                                other@.contains_key(k) implies (theirs.index_of(k) < j + 1 <==> (
                                theirs.index_of(k) < j)) by {
                                let i = other.lemma_node_of_view(k);
                                assert(theirs.index_of(k) == i);
                            }
                        }
                    }
                },
            }
            j = j + 1;
        }
        proof {
            assert(taken(other, n as int) =~= other@) by {
                assert forall|k: Seq<u8>| other@.contains_key(k) implies theirs.index_of(k)
                    < n by {
                    let i = other.lemma_node_of_view(k);
                    assert(theirs.index_of(k) == i);
                }
            }
        }
        Ok(())
    }
}

} // verus!
