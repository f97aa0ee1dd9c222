//! The aggregation store: a byte-wise trie that maps each key to its
//! running statistics.
//!
//! The nodes live in one arena and name each other by index. Node 0 is the
//! root; it spells the empty word and never carries statistics. Every other
//! node remembers its parent and the byte on the edge from it, so the word
//! of a node can be read off by walking up to the root.

use vstd::prelude::*;
use crate::model::{absorb, grown, new_words, shared_depth, upsert, Store};
use crate::stats::{Statistics, Summary, MAX_COUNT};

pub mod listing;
pub mod merging;

verus! {

/// One node of the arena. `children[b]` is the index of the child under
/// byte `b`, or 0 where there is none: the root is no one's child.
struct StatisticsTrieNode {
    children: [u32; 256],
    stat: Option<Statistics>,
    parent: u32,
    val: u8,
}

/// A trie from key bytes to `Statistics`.
pub struct StatisticsTrie {
    nodes: Vec<StatisticsTrieNode>,
    limit: u32,
}

/// Why `StatisticsTrie::insert` stored nothing.
#[derive(Clone, Copy, Debug, PartialEq, Eq, Structural)]
pub enum InsertError {
    /// The key has no bytes: the root carries no statistics.
    EmptyKey,
    /// The arena has no room for the nodes that the key still needs.
    KeyCapacityExceeded,
}

/// The index under byte `b` of node `i`; 0 stands for "no child".
spec fn kid(nodes: Seq<StatisticsTrieNode>, i: int, b: u8) -> int {
    nodes[i].children[b as int] as int
}

/// The arena is a tree: node 0 is the root and carries no statistics, each
/// other node comes behind its parent and is its parent's child under its
/// own byte, each child names its parent, and all statistics are well
/// formed.
spec fn nodes_wf(nodes: Seq<StatisticsTrieNode>) -> bool {
    &&& nodes.len() >= 1
    &&& nodes[0].stat is None
    &&& nodes[0].parent == 0
    &&& forall|i: int|
        0 < i < nodes.len() ==> (#[trigger] nodes[i]).parent < i && kid(
            nodes,
            nodes[i].parent as int,
            nodes[i].val,
        ) == i
    &&& forall|i: int, b: u8|
        0 <= i < nodes.len() && #[trigger] kid(nodes, i, b) != 0 ==> {
            &&& i < kid(nodes, i, b) < nodes.len()
            &&& nodes[kid(nodes, i, b)].parent == i
            &&& nodes[kid(nodes, i, b)].val == b
        }
    &&& forall|i: int|
        0 <= i < nodes.len() ==> ((#[trigger] nodes[i]).stat matches Some(s) ==> s.wf())
}

/// The node that `key` leads to from the root, if the trie spells `key`.
spec fn walk(nodes: Seq<StatisticsTrieNode>, key: Seq<u8>) -> Option<int>
    decreases key.len(),
{
    if key.len() == 0 {
        Some(0)
    } else {
        match walk(nodes, key.drop_last()) {
            Some(p) => if kid(nodes, p, key.last()) != 0 {
                Some(kid(nodes, p, key.last()))
            } else {
                None
            },
            None => None,
        }
    }
}

/// The word that node `i` spells: the bytes on the edges from the root.
spec fn path(nodes: Seq<StatisticsTrieNode>, i: int) -> Seq<u8>
    decreases i,
{
    if 0 < i < nodes.len() && nodes[i].parent < i {
        path(nodes, nodes[i].parent as int).push(nodes[i].val)
    } else {
        Seq::empty()
    }
}

/// The word of a node leads to the node.
proof fn lemma_walk_path(nodes: Seq<StatisticsTrieNode>, i: int)
    requires
        nodes_wf(nodes),
        0 <= i < nodes.len(),
    ensures
        walk(nodes, path(nodes, i)) == Some(i),
        i != 0 ==> path(nodes, i).len() > 0,
    decreases i,
{
    if i > 0 {
        let p = nodes[i].parent as int;
        lemma_walk_path(nodes, p);
        assert(path(nodes, i).drop_last() =~= path(nodes, p));
    }
}

/// The node that a word leads to spells the word.
proof fn lemma_path_walk(nodes: Seq<StatisticsTrieNode>, key: Seq<u8>)
    requires
        nodes_wf(nodes),
        walk(nodes, key) is Some,
    ensures
        0 <= walk(nodes, key).unwrap() < nodes.len(),
        path(nodes, walk(nodes, key).unwrap()) == key,
    decreases key.len(),
{
    if key.len() > 0 {
        lemma_path_walk(nodes, key.drop_last());
        let p = walk(nodes, key.drop_last()).unwrap();
        let c = kid(nodes, p, key.last());
        assert(nodes[c].parent == p);
        assert(path(nodes, c) =~= key.drop_last().push(key.last()));
        assert(key.drop_last().push(key.last()) =~= key);
    }
}

/// A trie that spells a word spells each of its prefixes.
proof fn lemma_walk_prefix(nodes: Seq<StatisticsTrieNode>, key: Seq<u8>, m: int)
    requires
        0 <= m <= key.len(),
        walk(nodes, key) is Some,
    ensures
        walk(nodes, key.take(m)) is Some,
    decreases key.len() - m,
{
    if m < key.len() {
        assert(key.drop_last().take(m) =~= key.take(m));
        if m == key.len() - 1 {
            assert(key.take(m) =~= key.drop_last());
        } else {
            lemma_walk_prefix(nodes, key.drop_last(), m);
        }
    } else {
        assert(key.take(m) =~= key);
    }
}

/// Old nodes spell what they spelled before, as long as their parents and
/// edge bytes are untouched.
proof fn lemma_path_frame(
    before: Seq<StatisticsTrieNode>,
    after: Seq<StatisticsTrieNode>,
    i: int,
)
    requires
        before.len() <= after.len(),
        0 <= i < before.len(),
        forall|j: int|
            0 <= j < before.len() ==> (#[trigger] after[j]).parent == before[j].parent
                && after[j].val == before[j].val,
    ensures
        path(after, i) == path(before, i),
    decreases i,
{
    if 0 < i && before[i].parent < i {
        lemma_path_frame(before, after, before[i].parent as int);
    }
}

/// Where a word leads does not depend on the statistics in the nodes.
proof fn lemma_walk_frame(
    before: Seq<StatisticsTrieNode>,
    after: Seq<StatisticsTrieNode>,
    key: Seq<u8>,
)
    requires
        nodes_wf(before),
        before.len() == after.len(),
        forall|j: int, b: u8| 0 <= j < before.len() ==> kid(after, j, b) == kid(before, j, b),
    ensures
        walk(after, key) == walk(before, key),
    decreases key.len(),
{
    if key.len() > 0 {
        lemma_walk_frame(before, after, key.drop_last());
        if walk(before, key.drop_last()) is Some {
            lemma_path_walk(before, key.drop_last());
        }
    }
}

/// After a leaf is hung under `parent` by byte `b`, every word leads where
/// it led before, and the one new word leads to the leaf.
proof fn lemma_walk_grown(
    before: Seq<StatisticsTrieNode>,
    after: Seq<StatisticsTrieNode>,
    parent: int,
    b: u8,
    key: Seq<u8>,
)
    requires
        nodes_wf(before),
        0 <= parent < before.len(),
        kid(before, parent, b) == 0,
        after.len() == before.len() + 1,
        forall|c: u8| kid(after, before.len() as int, c) == 0,
        kid(after, parent, b) == before.len(),
        forall|j: int, c: u8|
            0 <= j < before.len() && !(j == parent && c == b) ==> kid(after, j, c) == kid(
                before,
                j,
                c,
            ),
    ensures
        walk(after, key) == if walk(before, key) is Some {
            walk(before, key)
        } else if key == path(before, parent).push(b) {
            Some(before.len() as int)
        } else {
            None
        },
    decreases key.len(),
{
    let grown = path(before, parent).push(b);
    lemma_walk_path(before, parent);
    if key.len() > 0 {
        let front = key.drop_last();
        lemma_walk_grown(before, after, parent, b, front);
        assert(grown.drop_last() =~= path(before, parent));
        assert(front.push(key.last()) =~= key);
        if walk(before, front) is Some {
            lemma_path_walk(before, front);
            let p = walk(before, front).unwrap();
            if kid(before, p, key.last()) == 0 {
                if p == parent && key.last() == b {
                    assert(key =~= grown);
                } else {
                    if key == grown {
                        assert(front =~= path(before, parent));
                    }
                }
            }
        } else {
            if key == grown {
                assert(front =~= path(before, parent));
            }
        }
    }
}

/// Each insertion step adds the next longer prefix of the key.
proof fn lemma_new_words_step(key: Seq<u8>, depth: nat, i: int)
    requires
        depth <= i < key.len(),
    ensures
        new_words(key.take(i + 1), depth) == new_words(
            key.take(i),
            depth,
        ).push(key.take(i + 1)),
{
    let grown = new_words(key.take(i + 1), depth);
    let prior = new_words(key.take(i), depth);
    assert forall|j: int| 0 <= j < prior.len() implies grown[j] == prior[j] by {
        assert(key.take(i + 1).take(depth + 1 + j) =~= key.take(i).take(depth + 1 + j));
    }
    assert(key.take(i + 1).take(i + 1) =~= key.take(i + 1));
    assert(grown =~= prior.push(key.take(i + 1)));
}

/// While the prefixes of `key` are added shortest first, the next one is
/// not among the words yet.
proof fn lemma_next_word_is_new(before: Seq<Seq<u8>>, key: Seq<u8>, depth: nat, i: int)
    requires
        depth <= i < key.len(),
        forall|m: int| depth < m <= key.len() ==> !before.contains(#[trigger] key.take(m)),
    ensures
        !(before + new_words(key.take(i), depth)).contains(key.take(i + 1)),
{
    let added = new_words(key.take(i), depth);
    let all = before + added;
    let next = key.take(i + 1);
    if all.contains(next) {
        let at = choose|at: int| 0 <= at < all.len() && all[at] == next;
        if at >= before.len() {
            let j = at - before.len();
            assert(all[at] == added[j]);
            assert(key.take(i).take(depth + 1 + j).len() == depth + 1 + j);
        } else {
            assert(before[at] == next);
            assert(before.contains(key.take(i + 1)));
        }
    }
}

impl View for StatisticsTrie {
    type V = Map<Seq<u8>, Summary>;

    /// The statistics of every key that was inserted.
    closed spec fn view(&self) -> Map<Seq<u8>, Summary> {
        Map::new(
            |k: Seq<u8>| walk(self.nodes@, k) matches Some(i) && self.nodes@[i].stat is Some,
            |k: Seq<u8>| self.nodes@[walk(self.nodes@, k).unwrap()].stat.unwrap()@,
        )
    }
}

impl StatisticsTrie {
    /// The arena is a tree rooted at node 0, within its limit, and all
    /// statistics in it are well formed.
    pub closed spec fn wf(&self) -> bool {
        &&& nodes_wf(self.nodes@)
        &&& self.nodes@.len() <= self.limit + 1
    }

    /// The word of each node, by node index. Node 0 has the empty word.
    pub closed spec fn words(&self) -> Seq<Seq<u8>> {
        Seq::new(self.nodes@.len(), |i: int| path(self.nodes@, i))
    }

    /// The statistics of each node, by node index.
    spec fn stats(&self) -> Seq<Option<Statistics>> {
        Seq::new(self.nodes@.len(), |i: int| self.nodes@[i].stat)
    }

    /// The most nodes that the arena may hold besides its root.
    pub closed spec fn node_limit(&self) -> nat {
        self.limit as nat
    }

    /// What the trie holds: its words and the summary of each key.
    pub open spec fn store(&self) -> Store {
        Store { words: self.words(), entries: self@ }
    }

    /// The number of nodes, the root included.
    pub open spec fn node_count(&self) -> nat {
        self.words().len()
    }

    /// Whether some node spells `word`.
    pub open spec fn spells(&self, word: Seq<u8>) -> bool {
        self.words().contains(word)
    }

    /// The child of node `i` under byte `b`, or 0 where there is none.
    pub open spec fn child(&self, i: int, b: u8) -> int {
        if 0 <= i < self.words().len() && self.spells(self.words()[i].push(b)) {
            self.words().index_of(self.words()[i].push(b))
        } else {
            0
        }
    }

    /// How much of `key`, from its start, the trie spells already.
    pub open spec fn depth(&self, key: Seq<u8>) -> nat {
        shared_depth(self.words(), key)
    }

    /// The number of nodes that an insertion of `key` has to create.
    pub open spec fn missing(&self, key: Seq<u8>) -> nat {
        (key.len() - self.depth(key)) as nat
    }

    /// What a well-formed trie looks like: the root word is empty, no word
    /// occurs twice, each other word is a word of an earlier node with one
    /// byte added, and each key is a word that is not empty, with well-formed
    /// statistics.
    pub proof fn lemma_shape(&self)
        requires
            self.wf(),
        ensures
            1 <= self.node_count() <= self.node_limit() + 1,
            self.words()[0] == Seq::<u8>::empty(),
            self.words().no_duplicates(),
            forall|i: int|
                0 < i < self.node_count() ==> (#[trigger] self.words()[i]).len() > 0
                    && self.spells(self.words()[i].drop_last()) && self.words().index_of(
                    self.words()[i].drop_last(),
                ) < i,
            forall|k: Seq<u8>| #[trigger]
                self@.contains_key(k) ==> k.len() > 0 && self.spells(k) && self@[k].valid()
                    && self@[k].count <= MAX_COUNT,
    {
        let nodes = self.nodes@;
        let words = self.words();
        assert forall|i: int, j: int| 0 <= i < words.len() && 0 <= j < words.len() && i != j
            implies words[i] != words[j] by {
            lemma_walk_path(nodes, i);
            lemma_walk_path(nodes, j);
        }
        assert forall|i: int| 0 < i < self.node_count() implies (#[trigger] words[i]).len() > 0
            && self.spells(words[i].drop_last()) && words.index_of(words[i].drop_last())
            < i by {
            let p = nodes[i].parent as int;
            assert(words[i].drop_last() =~= words[p]);
            assert(words.index_of(words[p]) == p);
        }
        assert forall|k: Seq<u8>| #[trigger] self@.contains_key(k) implies k.len() > 0
            && self.spells(k) && self@[k].valid() && self@[k].count <= MAX_COUNT by {
            lemma_path_walk(nodes, k);
            let i = walk(nodes, k).unwrap();
            assert(words[i] == k);
            assert(nodes[i].stat is Some);
        }
    }

    /// What the words say of the arena: a word is spelled exactly if walking
    /// it from the root stays inside the trie, and the child table is the
    /// table of words read the other way.
    proof fn lemma_words(&self)
        requires
            self.wf(),
        ensures
            forall|w: Seq<u8>| self.spells(w) <==> walk(self.nodes@, w) is Some,
            forall|w: Seq<u8>|
                self.spells(w) ==> #[trigger] self.words().index_of(w) == walk(
                    self.nodes@,
                    w,
                ).unwrap(),
            forall|i: int, b: u8|
                0 <= i < self.nodes@.len() ==> #[trigger] self.child(i, b) == kid(
                    self.nodes@,
                    i,
                    b,
                ),
    {
        let nodes = self.nodes@;
        let words = self.words();
        self.lemma_shape();
        assert forall|w: Seq<u8>| self.spells(w) <==> walk(nodes, w) is Some by {
            if self.spells(w) {
                let i = words.index_of(w);
                lemma_walk_path(nodes, i);
            }
            if walk(nodes, w) is Some {
                lemma_path_walk(nodes, w);
                assert(words[walk(nodes, w).unwrap()] == w);
            }
        }
        assert forall|w: Seq<u8>| self.spells(w) implies #[trigger] words.index_of(w) == walk(
            nodes,
            w,
        ).unwrap() by {
            lemma_walk_path(nodes, words.index_of(w));
        }
        assert forall|i: int, b: u8| 0 <= i < nodes.len() implies #[trigger] self.child(i, b)
            == kid(nodes, i, b) by {
            let w = words[i].push(b);
            lemma_walk_path(nodes, i);
            assert(w.drop_last() =~= words[i]);
            assert(walk(nodes, w) == if kid(nodes, i, b) != 0 {
                Some(kid(nodes, i, b))
            } else {
                None
            });
        }
    }

    /// An empty trie that may grow to `u32::MAX` nodes besides its root.
    pub fn new() -> (t: Self)
        ensures
            t.wf(),
            t@ == Map::<Seq<u8>, Summary>::empty(),
            t.words() == seq![Seq::<u8>::empty()],
            t.node_limit() == u32::MAX,
    {
        Self::with_node_limit(u32::MAX)
    }

    /// An empty trie that may grow to `limit` nodes besides its root.
    pub fn with_node_limit(limit: u32) -> (t: Self)
        ensures
            t.wf(),
            t@ == Map::<Seq<u8>, Summary>::empty(),
            t.words() == seq![Seq::<u8>::empty()],
            t.node_limit() == limit,
    {
        let room: usize = if limit < 0xffff {
            limit as usize + 1
        } else {
            0x1_0000
        };
        let mut nodes: Vec<StatisticsTrieNode> = Vec::with_capacity(room);
        nodes.push(StatisticsTrieNode { stat: None, parent: 0, children: [0; 256], val: 0 });
        let t = StatisticsTrie { nodes, limit };
        proof {
            assert(forall|b: u8| kid(t.nodes@, 0, b) == 0);
            assert(t.words() =~= seq![Seq::<u8>::empty()]);
            assert forall|k: Seq<u8>| !t@.contains_key(k) by {
                if walk(t.nodes@, k) is Some {
                    lemma_path_walk(t.nodes@, k);
                }
            }
            assert(t@ =~= Map::<Seq<u8>, Summary>::empty());
        }
        t
    }

    /// The child of node `parent_idx` under byte `b`, or 0 where the node has
    /// no such child or the arena has no such node.
    pub fn find_child(&self, parent_idx: u32, b: u8) -> (r: u32)
        requires
            self.wf(),
        ensures
            r == self.child(parent_idx as int, b),
    {
        proof {
            self.lemma_words();
        }
        if (parent_idx as usize) < self.nodes.len() {
            self.nodes[parent_idx as usize].children[b as usize]
        } else {
            0
        }
    }

    /// How much of `arr` the trie spells, and the node where that ends.
    fn follow(&self, arr: &[u8]) -> (r: (usize, u32))
        requires
            self.wf(),
        ensures
            r.0 == self.depth(arr@),
            r.0 <= arr@.len(),
            r.1 < self.node_count(),
            self.words()[r.1 as int] == arr@.take(r.0 as int),
    {
        proof {
            self.lemma_shape();
            self.lemma_depth(arr@);
        }
        let mut cur_idx: u32 = 0;
        let mut i: usize = 0;
        while i < arr.len()
            invariant
                self.wf(),
                0 <= i <= arr.len(),
                cur_idx < self.node_count(),
                self.words()[cur_idx as int] == arr@.take(i as int),
                self.depth(arr@) >= i,
            decreases arr.len() - i,
        {
            let next_idx = self.find_child(cur_idx, arr[i]);
            proof {
                assert(arr@.take(i as int).push(arr@[i as int]) =~= arr@.take(i + 1));
                self.lemma_child(cur_idx as int, arr@[i as int]);
                self.lemma_depth(arr@);
                if self.depth(arr@) > i {
                    self.lemma_prefixes_spelled(arr@.take(self.depth(arr@) as int), i + 1);
                    assert(arr@.take(self.depth(arr@) as int).take(i + 1) =~= arr@.take(i + 1));
                }
            }
            if next_idx == 0 {
                return (i, cur_idx);
            }
            cur_idx = next_idx;
            i = i + 1;
        }
        (i, cur_idx)
    }

    /// The statistics of `arr`, if that key was inserted.
    pub fn get_stat(&self, arr: &[u8]) -> (r: Option<Statistics>)
        requires
            self.wf(),
        ensures
            r is Some <==> self@.contains_key(arr@),
            r matches Some(s) ==> s.wf() && s@ == self@[arr@],
    {
        let (depth, node) = self.follow(arr);
        proof {
            self.lemma_shape();
            self.lemma_depth(arr@);
            self.lemma_key_of_node(node as int);
            assert(arr@.take(arr@.len() as int) =~= arr@);
        }
        if depth < arr.len() {
            None
        } else {
            self.nodes[node as usize].stat
        }
    }

    /// The child of node `parent_idx` under byte `b`, made first where it is
    /// missing and the arena has room. The result is 0 where no child can be
    /// had: the arena has no node `parent_idx`, or the child is missing and
    /// the arena is full. A new child is a leaf without statistics, so the
    /// keys and their statistics stay as they are.
    pub fn get_or_create_child(&mut self, parent_idx: u32, b: u8) -> (r: u32)
        requires
            old(self).wf(),
        ensures
            final(self).wf(),
            final(self)@ == old(self)@,
            final(self).node_limit() == old(self).node_limit(),
            r == if parent_idx >= old(self).node_count() {
                0
            } else if old(self).child(parent_idx as int, b) != 0 {
                old(self).child(parent_idx as int, b)
            } else if old(self).node_count() > old(self).node_limit() {
                0
            } else {
                old(self).node_count() as int
            },
            r != 0 ==> final(self).child(parent_idx as int, b) == r,
            if parent_idx < old(self).node_count() && old(self).child(parent_idx as int, b) == 0
                && old(self).node_count() <= old(self).node_limit() {
                final(self).words() == old(self).words().push(
                    old(self).words()[parent_idx as int].push(b),
                )
            } else {
                final(self).words() == old(self).words()
            },
    {
        proof {
            self.lemma_words();
        }
        if parent_idx as usize >= self.nodes.len() {
            return 0;
        }
        let child_idx = self.find_child(parent_idx, b);
        if child_idx > 0 {
            return child_idx;
        }
        if self.nodes.len() > self.limit as usize {
            return 0;
        }
        let new_node = StatisticsTrieNode {
            stat: None,
            parent: parent_idx,
            children: [0; 256],
            val: b,
        };
        let new_idx = self.nodes.len() as u32;
        self.nodes.push(new_node);
        self.nodes[parent_idx as usize].children[b as usize] = new_idx;
        proof {
            let before = old(self).nodes@;
            let after = self.nodes@;
            let parent = parent_idx as int;
            assert(forall|c: u8| kid(after, new_idx as int, c) == 0);
            assert(kid(after, parent, b) == new_idx);
            assert forall|j: int, c: u8|
                0 <= j < before.len() && !(j == parent && c == b) implies kid(after, j, c)
                == kid(before, j, c) by {
                if j != parent {
                    assert(after[j] == before[j]);
                }
            }
            assert forall|j: int| 0 <= j < before.len() implies (#[trigger] after[j]).parent
                == before[j].parent && after[j].val == before[j].val && after[j].stat
                == before[j].stat by {
                if j != parent {
                    assert(after[j] == before[j]);
                }
            }
            assert(nodes_wf(after)) by {
                assert forall|i: int, c: u8|
                    0 <= i < after.len() && #[trigger] kid(after, i, c) != 0 implies {
                    &&& i < kid(after, i, c) < after.len()
                    &&& after[kid(after, i, c)].parent == i
                    &&& after[kid(after, i, c)].val == c
                } by {
                    if i < before.len() && !(i == parent && c == b) {
                        assert(kid(before, i, c) != 0);
                    }
                }
                assert forall|i: int| 0 < i < after.len() implies (#[trigger] after[i]).parent
                    < i && kid(after, after[i].parent as int, after[i].val) == i by {
                    if i < before.len() {
                        assert(before[i].parent < i);
                        assert(kid(before, before[i].parent as int, before[i].val) == i);
                    }
                }
            }
            assert forall|i: int| 0 <= i < before.len() implies path(after, i) == path(
                before,
                i,
            ) by {
                lemma_path_frame(before, after, i);
            }
            assert(path(after, new_idx as int) == path(after, parent).push(b));
            assert(self.words() =~= old(self).words().push(
                old(self).words()[parent].push(b),
            ));
            assert forall|k: Seq<u8>| #[trigger]
                self@.dom().contains(k) == old(self)@.dom().contains(k) && (
                self@.dom().contains(k) ==> self@[k] == old(self)@[k]) by {
                lemma_walk_grown(before, after, parent, b, k);
                if walk(before, k) is Some {
                    lemma_path_walk(before, k);
                }
            }
            assert(self@ =~= old(self)@);
            self.lemma_words();
        }
        new_idx
    }

    /// The trie spells the first `depth(key)` bytes of `key` and no longer
    /// prefix of it.
    pub proof fn lemma_depth(&self, key: Seq<u8>)
        requires
            self.wf(),
        ensures
            self.depth(key) <= key.len(),
            self.spells(key.take(self.depth(key) as int)),
            forall|m: int|
                self.depth(key) < m <= key.len() ==> !self.spells(#[trigger] key.take(m)),
        decreases key.len(),
    {
        self.lemma_shape();
        if key.len() == 0 || self.spells(key) {
            assert(key.take(key.len() as int) =~= key);
            if key.len() == 0 {
                assert(self.words()[0] == key);
            }
        } else {
            let front = key.drop_last();
            self.lemma_depth(front);
            assert(front.take(self.depth(front) as int) =~= key.take(self.depth(front) as int));
            assert forall|m: int| self.depth(key) < m <= key.len() implies !self.spells(
                #[trigger] key.take(m),
            ) by {
                if m == key.len() {
                    assert(key.take(m) =~= key);
                } else {
                    assert(front.take(m) =~= key.take(m));
                }
            }
        }
    }

    /// Gives node `idx` the statistics `stat`.
    fn put_stat(&mut self, idx: u32, stat: Statistics)
        requires
            old(self).wf(),
            0 < idx < old(self).node_count(),
            stat.wf(),
        ensures
            final(self).wf(),
            final(self).node_limit() == old(self).node_limit(),
            final(self).words() == old(self).words(),
            final(self).stats() == old(self).stats().update(idx as int, Some(stat)),
            final(self)@ == old(self)@.insert(old(self).words()[idx as int], stat@),
    {
        self.nodes[idx as usize].stat = Some(stat);
        proof {
            let before = old(self).nodes@;
            let after = self.nodes@;
            let key = old(self).words()[idx as int];
            assert forall|j: int, b: u8| 0 <= j < before.len() implies kid(after, j, b) == kid(
                before,
                j,
                b,
            ) by {
                if j != idx {
                    assert(after[j] == before[j]);
                }
            }
            assert forall|j: int| 0 <= j < before.len() implies (#[trigger] after[j]).parent
                == before[j].parent && after[j].val == before[j].val by {
                if j != idx {
                    assert(after[j] == before[j]);
                }
            }
            assert(nodes_wf(after)) by {
                assert forall|i: int| 0 < i < after.len() implies (#[trigger] after[i]).parent
                    < i && kid(after, after[i].parent as int, after[i].val) == i by {
                    assert(before[i].parent < i);
                    assert(kid(before, before[i].parent as int, before[i].val) == i);
                }
                assert forall|i: int, c: u8|
                    0 <= i < after.len() && #[trigger] kid(after, i, c) != 0 implies {
                    &&& i < kid(after, i, c) < after.len()
                    &&& after[kid(after, i, c)].parent == i
                    &&& after[kid(after, i, c)].val == c
                } by {
                    assert(kid(before, i, c) != 0);
                }
                assert forall|i: int| 0 <= i < after.len() implies ((#[trigger] after[i]).stat
                    matches Some(s) ==> s.wf()) by {
                    if i != idx {
                        assert(after[i] == before[i]);
                    }
                }
                assert(after[0] == before[0]);
            }
            assert forall|i: int| 0 <= i < before.len() implies path(after, i) == path(
                before,
                i,
            ) by {
                lemma_path_frame(before, after, i);
            }
            assert(self.words() =~= old(self).words());
            lemma_walk_path(before, idx as int);
            let goal = old(self)@.insert(key, stat@);
            assert(self.stats() =~= old(self).stats().update(idx as int, Some(stat)));
            assert forall|k: Seq<u8>| #[trigger]
                self@.dom().contains(k) == goal.dom().contains(k) && (self@.dom().contains(k)
                    ==> self@[k] == goal[k]) by {
                lemma_walk_frame(before, after, k);
                if walk(before, k) is Some {
                    lemma_path_walk(before, k);
                    let n = walk(before, k).unwrap();
                    if n != idx {
                        assert(after[n] == before[n]);
                    }
                }
            }
            assert(self@ =~= goal);
        }
    }

    /// Takes `val` into the statistics of node `idx`.
    fn observe_at(&mut self, idx: u32, val: i16)
        requires
            old(self).wf(),
            0 < idx < old(self).node_count(),
            old(self).stats()[idx as int] matches Some(s) ==> s@.count < MAX_COUNT,
        ensures
            final(self).wf(),
            final(self).node_limit() == old(self).node_limit(),
            final(self).words() == old(self).words(),
            final(self)@ == upsert(old(self)@, old(self).words()[idx as int], val as int),
    {
        proof {
            self.lemma_key_of_node(idx as int);
        }
        let stat = match self.nodes[idx as usize].stat {
            Some(mut s) => {
                s.add_val(val);
                s
            },
            None => Statistics::new(val),
        };
        self.put_stat(idx, stat);
    }

    /// Takes the observations of `stat` into the statistics of node `idx`.
    fn absorb_at(&mut self, idx: u32, stat: &Statistics)
        requires
            old(self).wf(),
            0 < idx < old(self).node_count(),
            stat.wf(),
            old(self).stats()[idx as int] matches Some(s) ==> s@.count + stat@.count <= MAX_COUNT,
        ensures
            final(self).wf(),
            final(self).node_limit() == old(self).node_limit(),
            final(self).words() == old(self).words(),
            final(self)@ == absorb(old(self)@, old(self).words()[idx as int], stat@),
    {
        proof {
            self.lemma_key_of_node(idx as int);
        }
        let sum = match self.nodes[idx as usize].stat {
            Some(mut s) => {
                s.merge(stat);
                s
            },
            None => *stat,
        };
        self.put_stat(idx, sum);
    }

    /// A node stands for a key of the view exactly if it has statistics.
    proof fn lemma_key_of_node(&self, i: int)
        requires
            self.wf(),
            0 <= i < self.node_count(),
        ensures
            self@.contains_key(self.words()[i]) <==> self.stats()[i] is Some,
            self.stats()[i] matches Some(s) ==> s.wf() && self@[self.words()[i]] == s@,
    {
        lemma_walk_path(self.nodes@, i);
    }

    /// Takes the value `val` into the statistics of the key `arr`, which is
    /// made first where the key is new. Nothing is stored, and the trie
    /// stays as it is, where the key is empty or the arena has no room for
    /// the nodes that the key still needs.
    pub fn insert(&mut self, arr: &[u8], val: i16) -> (r: Result<(), InsertError>)
        requires
            old(self).wf(),
            old(self)@.contains_key(arr@) ==> old(self)@[arr@].count < MAX_COUNT,
        ensures
            final(self).wf(),
            final(self).node_limit() == old(self).node_limit(),
            r == if arr@.len() == 0 {
                Err::<(), InsertError>(InsertError::EmptyKey)
            } else if old(self).node_count() + old(self).missing(arr@) > old(self).node_limit()
                + 1 {
                Err::<(), InsertError>(InsertError::KeyCapacityExceeded)
            } else {
                Ok::<(), InsertError>(())
            },
            r is Ok ==> final(self)@ == upsert(old(self)@, arr@, val as int),
            r is Ok ==> final(self).words() == grown(old(self).words(), arr@),
            r is Err ==> final(self)@ == old(self)@ && final(self).words() == old(self).words(),
    {
        if arr.len() == 0 {
            return Err(InsertError::EmptyKey);
        }
        proof {
            self.lemma_shape();
            self.lemma_depth(arr@);
        }
        let (mut i, mut cur_idx) = self.follow(arr);
        let ghost depth = i as nat;
        if arr.len() - i > self.limit as usize - (self.nodes.len() - 1) {
            return Err(InsertError::KeyCapacityExceeded);
        }
        while i < arr.len()
            invariant
                self.wf(),
                self@ == old(self)@,
                self.node_limit() == old(self).node_limit(),
                depth <= i <= arr.len(),
                cur_idx < self.node_count(),
                self.words()[cur_idx as int] == arr@.take(i as int),
                self.words() == old(self).words() + new_words(arr@.take(i as int), depth),
                self.node_count() + (arr.len() - i) <= self.node_limit() + 1,
                forall|m: int|
                    depth < m <= arr.len() ==> !old(self).spells(#[trigger] arr@.take(m)),
            decreases arr.len() - i,
        {
            proof {
                lemma_next_word_is_new(old(self).words(), arr@, depth, i as int);
                lemma_new_words_step(arr@, depth, i as int);
                assert(arr@.take(i as int).push(arr@[i as int]) =~= arr@.take(i + 1));
            }
            cur_idx = self.get_or_create_child(cur_idx, arr[i]);
            i = i + 1;
        }
        proof {
            assert(arr@.take(i as int) =~= arr@);
            self.lemma_shape();
            self.lemma_key_of_node(cur_idx as int);
        }
        self.observe_at(cur_idx, val);
        Ok(())
    }

    /// A trie that spells a word spells each of its prefixes.
    pub proof fn lemma_prefixes_spelled(&self, word: Seq<u8>, m: int)
        requires
            self.wf(),
            self.spells(word),
            0 <= m <= word.len(),
        ensures
            self.spells(word.take(m)),
    {
        self.lemma_words();
        lemma_walk_prefix(self.nodes@, word, m);
    }

    /// What `child` says: a node has a child under a byte exactly if the
    /// trie spells the node's word with that byte added, and the child is
    /// the node of that word.
    pub proof fn lemma_child(&self, i: int, b: u8)
        requires
            self.wf(),
            0 <= i < self.node_count(),
        ensures
            self.child(i, b) != 0 <==> self.spells(self.words()[i].push(b)),
            self.child(i, b) != 0 ==> {
                &&& i < self.child(i, b) < self.node_count()
                &&& self.words()[self.child(i, b)] == self.words()[i].push(b)
            },
    {
        self.lemma_words();
        let w = self.words()[i].push(b);
        lemma_walk_path(self.nodes@, i);
        assert(w.drop_last() =~= self.words()[i]);
        if kid(self.nodes@, i, b) != 0 {
            lemma_path_walk(self.nodes@, w);
        }
    }

    /// Every key of the view has its node.
    proof fn lemma_node_of_view(&self, key: Seq<u8>) -> (i: int)
        requires
            self.wf(),
            self@.contains_key(key),
        ensures
            0 <= i < self.node_count(),
            self.words()[i] == key,
            self.stats()[i] is Some,
            self.stats()[i].unwrap()@ == self@[key],
    {
        lemma_path_walk(self.nodes@, key);
        walk(self.nodes@, key).unwrap()
    }
}

} // verus!
