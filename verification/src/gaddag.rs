//! The word index: a trie that stores, for every word, one sequence for each
//! of its letters, so that a search can start at any letter of a word and
//! read it outwards in both directions.
//!
//! The sequence for the letter at position `i` of a word is the word up to
//! and including that letter, reversed, then the separator, then the rest of
//! the word. The nodes live in one vector and are named by their position in
//! it; the root is node 0.

use crate::constants::SEPARATOR;
use crate::text::str_chars;
use vstd::prelude::*;

verus! {

/// The node every walk starts from.
pub const ROOT: usize = 0;

/// One node of the trie: whether a stored sequence ends here, the edges that
/// leave the node, each with its label and its target, and the labels on the
/// way from the root to the node.
struct Node {
    is_word: bool,
    children: Vec<(char, usize)>,
    path: Ghost<Seq<char>>,
}

/// The index. Its view is the set of sequences it stores.
pub struct Gaddag {
    nodes: Vec<Node>,
}

/// Where the edge labelled `c` stands among `edges`, if there is one.
spec fn edge_position(edges: Seq<(char, usize)>, c: char) -> Option<int> {
    if exists|k: int| 0 <= k < edges.len() && (#[trigger] edges[k]).0 == c {
        Some(choose|k: int| 0 <= k < edges.len() && (#[trigger] edges[k]).0 == c)
    } else {
        None
    }
}

/// The sequence stored for the letter at position `i` of `word`.
pub open spec fn spec_rotation(word: Seq<char>, i: int) -> Seq<char> {
    word.subrange(0, i + 1).reverse() + seq![SEPARATOR] + word.subrange(i + 1, word.len() as int)
}

/// All the sequences stored for `word`: one for each of its letters.
pub open spec fn spec_rotations(word: Seq<char>) -> Set<Seq<char>> {
    Set::new(
        |s: Seq<char>| exists|i: int| 0 <= i < word.len() && s == #[trigger] spec_rotation(word, i),
    )
}

/// The sequences that an index built from `words` stores: the rotations of
/// every word that does not hold the separator.
pub open spec fn spec_index_of(words: Seq<Seq<char>>) -> Set<Seq<char>> {
    Set::new(
        |s: Seq<char>|
            exists|k: int, i: int|
                0 <= k < words.len() && !words[k].contains(SEPARATOR) && 0 <= i < words[k].len()
                    && s == #[trigger] spec_rotation(words[k], i),
    )
}

impl View for Gaddag {
    type V = Set<Seq<char>>;

    open spec fn view(&self) -> Set<Seq<char>> {
        Set::new(|s: Seq<char>| self.spec_contains_word(s))
    }
}

impl Gaddag {
    /// The number of nodes; the nodes are `0` to `node_count() - 1`.
    pub closed spec fn node_count(&self) -> nat {
        self.nodes@.len()
    }

    /// Whether a stored sequence ends at `node`.
    pub closed spec fn spec_is_word(&self, node: usize) -> bool {
        self.nodes@[node as int].is_word
    }

    /// The node reached from `node` by the edge labelled `c`, if there is one.
    pub closed spec fn spec_child(&self, node: usize, c: char) -> Option<usize> {
        let edges = self.nodes@[node as int].children@;
        match edge_position(edges, c) {
            Some(k) => Some(edges[k].1),
            None => None,
        }
    }

    /// The labels on the way from the root to `node`.
    pub closed spec fn spec_path(&self, node: usize) -> Seq<char> {
        self.nodes@[node as int].path@
    }

    spec fn edge(&self, node: int, k: int) -> (char, usize) {
        self.nodes@[node].children@[k]
    }

    spec fn edge_count(&self, node: int) -> int {
        self.nodes@[node].children@.len() as int
    }

    spec fn has_parent(&self, node: int) -> bool {
        exists|p: int, k: int|
            0 <= p < self.nodes@.len() && 0 <= k < self.edge_count(p) && (#[trigger] self.edge(
                p,
                k,
            )).1 == node
    }

    /// Whether a stored sequence ends at `node` or below it.
    spec fn leads_to_word(&self, node: int) -> bool {
        exists|m: int|
            0 <= m < self.nodes@.len() && (#[trigger] self.nodes@[m]).is_word
                && self.nodes@[node].path@.is_prefix_of(self.nodes@[m].path@)
    }

    /// Whether every node but the root lies on the way to the end of a stored
    /// sequence.
    spec fn trim(&self) -> bool {
        forall|n: int| 0 < n < self.nodes@.len() ==> #[trigger] self.leads_to_word(n)
    }

    /// The index is as its operations make it: the nodes form a tree below
    /// the root, on which every edge adds its label to the path, the edges
    /// that leave one node bear different labels, and every node but the root
    /// lies on the way to the end of a stored sequence.
    pub closed spec fn wf(&self) -> bool {
        self.shaped() && self.trim()
    }

    /// The nodes form a tree below the root: every edge leads to a node whose
    /// path is the path of the edge's source followed by its label, the edges
    /// that leave one node bear different labels, no two nodes have the same
    /// path, and every node but the root is the target of an edge.
    spec fn shaped(&self) -> bool {
        &&& self.nodes@.len() >= 1
        &&& self.nodes@[0].path@ =~= Seq::<char>::empty()
        &&& forall|n: int, k: int|
            0 <= n < self.nodes@.len() && 0 <= k < self.edge_count(n) ==> {
                let e = #[trigger] self.edge(n, k);
                &&& e.1 < self.nodes@.len()
                &&& self.nodes@[e.1 as int].path@ =~= self.nodes@[n].path@.push(e.0)
            }
        &&& forall|n: int, k1: int, k2: int|
            0 <= n < self.nodes@.len() && 0 <= k1 < k2 < self.edge_count(n) ==> (
            #[trigger] self.edge(n, k1)).0 != (#[trigger] self.edge(n, k2)).0
        &&& forall|a: int, b: int|
            0 <= a < b < self.nodes@.len() ==> (#[trigger] self.nodes@[a]).path@ != (
            #[trigger] self.nodes@[b]).path@
        &&& forall|n: int| 0 < n < self.nodes@.len() ==> #[trigger] self.has_parent(n)
    }

    /// The node reached from `node` by following `path` label by label, if
    /// every label has its edge.
    pub open spec fn spec_follow_path(&self, node: usize, path: Seq<char>) -> Option<usize>
        decreases path.len(),
    {
        if path.len() == 0 {
            Some(node)
        } else {
            match self.spec_follow_path(node, path.drop_last()) {
                Some(m) => self.spec_child(m, path.last()),
                None => None,
            }
        }
    }

    /// Whether `word` is one of the stored sequences: the walk along it from
    /// the root ends at a node where a sequence ends.
    pub open spec fn spec_contains_word(&self, word: Seq<char>) -> bool {
        match self.spec_follow_path(ROOT, word) {
            Some(m) => self.spec_is_word(m),
            None => false,
        }
    }

    /// A well-formed index has its root.
    pub proof fn lemma_root(&self)
        requires
            self.wf(),
        ensures
            ROOT < self.node_count(),
            self.spec_path(ROOT) == Seq::<char>::empty(),
    {
    }

    /// An edge of a well-formed index leads to a node of the index, one label
    /// further from the root.
    pub proof fn lemma_child(&self, node: usize, c: char)
        requires
            self.wf(),
            node < self.node_count(),
        ensures
            self.spec_child(node, c) matches Some(m) ==> m < self.node_count() && self.spec_path(m)
                == self.spec_path(node).push(c),
    {
        let edges = self.nodes@[node as int].children@;
        if let Some(k) = edge_position(edges, c) {
            assert(self.edge(node as int, k) == edges[k]);
        }
    }

    /// As `lemma_child`, in an index that may be in the middle of an
    /// insertion.
    proof fn lemma_edge_target(&self, node: usize, c: char)
        requires
            self.shaped(),
            node < self.node_count(),
        ensures
            self.spec_child(node, c) matches Some(m) ==> m < self.node_count() && self.spec_path(m)
                == self.spec_path(node).push(c),
    {
        let edges = self.nodes@[node as int].children@;
        if let Some(k) = edge_position(edges, c) {
            assert(self.edge(node as int, k) == edges[k]);
        }
    }

    /// A walk that fails on a part of a path fails on the whole path.
    pub proof fn lemma_follow_path_prefix(&self, node: usize, path: Seq<char>, n: int)
        requires
            0 <= n <= path.len(),
            self.spec_follow_path(node, path.take(n)) is None,
        ensures
            self.spec_follow_path(node, path) is None,
        decreases path.len(),
    {
        if n < path.len() {
            assert(path.drop_last().take(n) =~= path.take(n));
            self.lemma_follow_path_prefix(node, path.drop_last(), n);
        } else {
            assert(path.take(n) =~= path);
        }
    }

    /// A walk along two paths in a row is a walk along the first and then,
    /// from where it ends, along the second.
    pub proof fn lemma_follow_path_concat(&self, node: usize, first: Seq<char>, second: Seq<char>)
        ensures
            self.spec_follow_path(node, first + second) == match self.spec_follow_path(
                node,
                first,
            ) {
                Some(m) => self.spec_follow_path(m, second),
                None => None,
            },
        decreases second.len(),
    {
        if second.len() == 0 {
            assert(first + second =~= first);
        } else {
            assert((first + second).drop_last() =~= first + second.drop_last());
            assert((first + second).last() == second.last());
            self.lemma_follow_path_concat(node, first, second.drop_last());
        }
    }

    /// A walk in a well-formed index ends at a node of the index, and the
    /// path of that node is the path of the start followed by the labels
    /// walked.
    pub proof fn lemma_follow_path_spells(&self, node: usize, path: Seq<char>)
        requires
            self.wf(),
            node < self.node_count(),
        ensures
            self.spec_follow_path(node, path) matches Some(m) ==> m < self.node_count()
                && self.spec_path(m) == self.spec_path(node) + path,
    {
        self.lemma_walk_spells(node, path);
    }

    /// As `lemma_follow_path_spells`, in an index that may be in the middle
    /// of an insertion.
    proof fn lemma_walk_spells(&self, node: usize, path: Seq<char>)
        requires
            self.shaped(),
            node < self.node_count(),
        ensures
            self.spec_follow_path(node, path) matches Some(m) ==> m < self.node_count()
                && self.spec_path(m) == self.spec_path(node) + path,
        decreases path.len(),
    {
        if path.len() == 0 {
            assert(self.spec_path(node) + path =~= self.spec_path(node));
        } else {
            self.lemma_walk_spells(node, path.drop_last());
            if let Some(m) = self.spec_follow_path(node, path.drop_last()) {
                self.lemma_edge_target(m, path.last());
                assert((self.spec_path(node) + path.drop_last()).push(path.last())
                    =~= self.spec_path(node) + path);
            }
        }
    }

    /// Every node of a well-formed index is where the walk from the root
    /// along the node's own path ends.
    proof fn lemma_node_reached(&self, node: usize)
        requires
            self.shaped(),
            node < self.node_count(),
        ensures
            self.spec_follow_path(ROOT, self.spec_path(node)) == Some(node),
        decreases self.spec_path(node).len(),
    {
        if node == 0 {
        } else {
            assert(self.has_parent(node as int));
            let (p, k) = choose|p: int, k: int|
                0 <= p < self.nodes@.len() && 0 <= k < self.edge_count(p) && (#[trigger] self.edge(
                    p,
                    k,
                )).1 == node;
            let e = self.edge(p, k);
            assert(0 <= p < self.nodes@.len() && 0 <= k < self.edge_count(p) && e.1 == node);
            assert(self.nodes@.len() == self.nodes.len());
            let parent = p as usize;
            assert(self.nodes@[e.1 as int].path@ =~= self.nodes@[p].path@.push(e.0));
            assert(self.spec_path(node) =~= self.spec_path(parent).push(e.0));
            assert(self.spec_path(node).drop_last() =~= self.spec_path(parent));
            self.lemma_node_reached(parent);
            self.lemma_edge_is_child(parent, k);
        }
    }

    /// The `k`-th edge that leaves `node` is the one its label selects.
    proof fn lemma_edge_is_child(&self, node: usize, k: int)
        requires
            self.shaped(),
            node < self.node_count(),
            0 <= k < self.edge_count(node as int),
        ensures
            self.spec_child(node, self.edge(node as int, k).0) == Some(self.edge(node as int, k).1),
    {
        let edges = self.nodes@[node as int].children@;
        let c = edges[k].0;
        assert(edges[k] == self.edge(node as int, k));
        let found = edge_position(edges, c);
        assert(found is Some);
        let j = found->0;
        assert(edges[j] == self.edge(node as int, j));
        if j < k {
            assert(self.edge(node as int, j).0 != self.edge(node as int, k).0);
        } else if k < j {
            assert(self.edge(node as int, k).0 != self.edge(node as int, j).0);
        }
    }

    /// A sequence is stored exactly if it is the path of a node where a
    /// sequence ends.
    proof fn lemma_contains_word(&self, word: Seq<char>)
        requires
            self.shaped(),
        ensures
            self.spec_contains_word(word) <==> exists|m: int|
                0 <= m < self.nodes@.len() && (#[trigger] self.nodes@[m]).path@ == word
                    && self.nodes@[m].is_word,
    {
        self.lemma_walk_spells(ROOT, word);
        if self.spec_contains_word(word) {
            let m = self.spec_follow_path(ROOT, word)->0;
            assert(self.spec_path(ROOT) + word =~= word);
            assert(self.nodes@[m as int].path@ == word && self.nodes@[m as int].is_word);
        }
        if exists|m: int|
            0 <= m < self.nodes@.len() && (#[trigger] self.nodes@[m]).path@ == word
                && self.nodes@[m].is_word {
            let m = choose|m: int|
                0 <= m < self.nodes@.len() && (#[trigger] self.nodes@[m]).path@ == word
                    && self.nodes@[m].is_word;
            assert(self.nodes@.len() == self.nodes.len());
            self.lemma_node_reached(m as usize);
        }
    }

    /// A part of a path that can be walked can be walked itself.
    pub proof fn lemma_follow_path_part(&self, node: usize, path: Seq<char>, n: int)
        requires
            0 <= n <= path.len(),
            self.spec_follow_path(node, path) is Some,
        ensures
            self.spec_follow_path(node, path.take(n)) is Some,
    {
        if self.spec_follow_path(node, path.take(n)) is None {
            self.lemma_follow_path_prefix(node, path, n);
        }
    }

    /// What a walk means: from a node of the index a path can be walked
    /// exactly if it is empty or the path of the node, followed by it, is the
    /// beginning of a stored sequence.
    pub proof fn lemma_follow_path_meaning(&self, node: usize, path: Seq<char>)
        requires
            self.wf(),
            node < self.node_count(),
        ensures
            self.spec_follow_path(node, path) is Some <==> (path.len() == 0 || exists|s: Seq<char>|
                #[trigger] self@.contains(s) && (self.spec_path(node) + path).is_prefix_of(s)),
    {
        let whole = self.spec_path(node) + path;
        if path.len() > 0 && self.spec_follow_path(node, path) is Some {
            let m = self.spec_follow_path(node, path)->0;
            self.lemma_walk_spells(node, path);
            assert(self.nodes@[m as int].path@ == whole);
            assert(m != 0);
            assert(self.leads_to_word(m as int));
            let t = choose|t: int|
                0 <= t < self.nodes@.len() && (#[trigger] self.nodes@[t]).is_word
                    && self.nodes@[m as int].path@.is_prefix_of(self.nodes@[t].path@);
            let s = self.nodes@[t].path@;
            self.lemma_contains_word(s);
            assert(self@.contains(s) && whole.is_prefix_of(s));
        }
        if exists|s: Seq<char>| #[trigger] self@.contains(s) && whole.is_prefix_of(s) {
            let s = choose|s: Seq<char>| #[trigger] self@.contains(s) && whole.is_prefix_of(s);
            assert(s.take(whole.len() as int) =~= whole);
            self.lemma_follow_path_part(ROOT, s, whole.len() as int);
            self.lemma_follow_path_concat(ROOT, self.spec_path(node), path);
            self.lemma_node_reached(node);
        }
    }

    /// An index that stores nothing.
    pub fn new() -> (index: Gaddag)
        ensures
            index.wf(),
            index.node_count() == 1,
            index@ == Set::<Seq<char>>::empty(),
    {
        let mut nodes: Vec<Node> = Vec::new();
        nodes.push(Node { is_word: false, children: Vec::new(), path: Ghost(Seq::empty()) });
        let index = Gaddag { nodes };
        proof {
            assert(index.shaped());
            assert(index.trim());
            assert forall|s: Seq<char>| !index.spec_contains_word(s) by {
                index.lemma_contains_word(s);
            }
            assert(index@ =~= Set::<Seq<char>>::empty());
        }
        index
    }

    /// Hangs a new node below `parent`, on an edge labelled `c` that
    /// `parent` does not have yet. The stored sequences stay the same.
    fn add_child(&mut self, parent: usize, c: char) -> (node: usize)
        requires
            old(self).shaped(),
            parent < old(self).node_count(),
            old(self).spec_child(parent, c) is None,
        ensures
            final(self).shaped(),
            node == old(self).node_count(),
            final(self).node_count() == old(self).node_count() + 1,
            final(self).spec_path(node) == old(self).spec_path(parent).push(c),
            forall|n: int|
                0 <= n < old(self).node_count() ==> (#[trigger] final(self).nodes@[n]).path@ == old(
                    self,
                ).nodes@[n].path@,
            forall|n: int|
                0 <= n < old(self).node_count() && old(self).leads_to_word(n)
                    ==> #[trigger] final(self).leads_to_word(n),
            forall|s: Seq<char>| final(self).spec_contains_word(s) == old(self).spec_contains_word(s),
    {
        let node = self.nodes.len();
        let ghost path = self.nodes@[parent as int].path@.push(c);
        proof {
            // No node has the new node's path yet: its parent would be
            // `parent`, which has no edge labelled `c`.
            assert forall|a: int| 0 <= a < self.nodes@.len() implies (
            #[trigger] self.nodes@[a]).path@ != path by {
                if self.nodes@[a].path@ == path {
                    assert(a != 0);
                    assert(self.has_parent(a));
                    let (p, k) = choose|p: int, k: int|
                        0 <= p < self.nodes@.len() && 0 <= k < self.edge_count(p) && (
                        #[trigger] self.edge(p, k)).1 == a;
                    let e = self.edge(p, k);
                    assert(self.nodes@[a].path@ =~= self.nodes@[p].path@.push(e.0));
                    assert(path.drop_last() =~= self.nodes@[parent as int].path@);
                    assert(self.nodes@[p].path@.push(e.0).drop_last() =~= self.nodes@[p].path@);
                    assert(path.last() == c);
                    assert(self.nodes@[p].path@.push(e.0).last() == e.0);
                    if p < parent as int {
                        assert(self.nodes@[p].path@ != self.nodes@[parent as int].path@);
                    } else if (parent as int) < p {
                        assert(self.nodes@[parent as int].path@ != self.nodes@[p].path@);
                    }
                    assert(p == parent);
                    self.lemma_edge_is_child(parent, k);
                }
            }
            let edges = self.nodes@[parent as int].children@;
            assert forall|k: int| 0 <= k < edges.len() implies (#[trigger] edges[k]).0 != c by {
                if edges[k].0 == c {
                    assert(edge_position(edges, c) is Some);
                }
            }
        }
        self.nodes.push(Node { is_word: false, children: Vec::new(), path: Ghost(path) });
        self.nodes[parent].children.push((c, node));
        proof {
            let before = *old(self);
            let after = *self;
            assert(after.nodes@.len() == before.nodes@.len() + 1);
            assert(after.nodes@[node as int].children@.len() == 0);
            assert(after.nodes@[node as int].path@ == path);
            assert(after.nodes@[parent as int].children@ == before.nodes@[parent as int].children@.push(
                (c, node),
            ));
            assert forall|n: int| 0 <= n < before.nodes@.len() && n != parent implies (
            #[trigger] after.nodes@[n]) == before.nodes@[n] by {}
            assert forall|n: int| 0 <= n < before.nodes@.len() implies (
            #[trigger] after.nodes@[n]).path == before.nodes@[n].path && after.nodes@[n].is_word
                == before.nodes@[n].is_word by {}
            assert forall|n: int, k: int|
                0 <= n < before.nodes@.len() && 0 <= k < before.edge_count(n) implies (
            #[trigger] after.edge(n, k)) == before.edge(n, k) by {}
            assert forall|n: int, k: int|
                0 <= n < after.nodes@.len() && 0 <= k < after.edge_count(n) implies {
                let e = #[trigger] after.edge(n, k);
                &&& e.1 < after.nodes@.len()
                &&& after.nodes@[e.1 as int].path@ =~= after.nodes@[n].path@.push(e.0)
            } by {
                if n == parent && k == before.edge_count(n) {
                } else {
                    assert(after.edge(n, k) == before.edge(n, k));
                }
            }
            assert forall|n: int, k1: int, k2: int|
                0 <= n < after.nodes@.len() && 0 <= k1 < k2 < after.edge_count(n) implies (
            #[trigger] after.edge(n, k1)).0 != (#[trigger] after.edge(n, k2)).0 by {
                if n == parent && k2 == before.edge_count(n) {
                    assert(after.edge(n, k1) == before.nodes@[parent as int].children@[k1]);
                } else {
                    assert(after.edge(n, k1) == before.edge(n, k1));
                    assert(after.edge(n, k2) == before.edge(n, k2));
                }
            }
            assert forall|a: int, b: int| 0 <= a < b < after.nodes@.len() implies (
            #[trigger] after.nodes@[a]).path@ != (#[trigger] after.nodes@[b]).path@ by {
                if b == node {
                    assert(before.nodes@[a].path@ != path);
                } else {
                    assert(before.nodes@[a].path@ != before.nodes@[b].path@);
                }
            }
            assert forall|n: int| 0 < n < after.nodes@.len() implies #[trigger] after.has_parent(
                n,
            ) by {
                if n == node {
                    assert(after.edge(parent as int, before.edge_count(parent as int)).1 == node);
                } else {
                    assert(before.has_parent(n));
                    let (p, k) = choose|p: int, k: int|
                        0 <= p < before.nodes@.len() && 0 <= k < before.edge_count(p) && (
                        #[trigger] before.edge(p, k)).1 == n;
                    assert(after.edge(p, k) == before.edge(p, k));
                }
            }
            assert(after.shaped());
            assert forall|n: int|
                0 <= n < before.nodes@.len() && before.leads_to_word(
                    n,
                ) implies #[trigger] after.leads_to_word(n) by {
                let m = choose|m: int|
                    0 <= m < before.nodes@.len() && (#[trigger] before.nodes@[m]).is_word
                        && before.nodes@[n].path@.is_prefix_of(before.nodes@[m].path@);
                assert(after.nodes@[m].is_word && after.nodes@[n].path@.is_prefix_of(
                    after.nodes@[m].path@,
                ));
            }
            assert forall|s: Seq<char>|
                after.spec_contains_word(s) == before.spec_contains_word(s) by {
                after.lemma_contains_word(s);
                before.lemma_contains_word(s);
                if after.spec_contains_word(s) {
                    let m = choose|m: int|
                        0 <= m < after.nodes@.len() && (#[trigger] after.nodes@[m]).path@ == s
                            && after.nodes@[m].is_word;
                    assert(before.nodes@[m].path@ == s && before.nodes@[m].is_word);
                }
                if before.spec_contains_word(s) {
                    let m = choose|m: int|
                        0 <= m < before.nodes@.len() && (#[trigger] before.nodes@[m]).path@ == s
                            && before.nodes@[m].is_word;
                    assert(after.nodes@[m].path@ == s && after.nodes@[m].is_word);
                }
            }
        }
        node
    }

    /// Makes `node` the end of a stored sequence: its own path.
    fn mark_word(&mut self, node: usize)
        requires
            old(self).shaped(),
            node < old(self).node_count(),
        ensures
            final(self).shaped(),
            final(self).node_count() == old(self).node_count(),
            forall|n: int|
                0 <= n < old(self).node_count() && (old(self).leads_to_word(n) || old(
                    self,
                ).nodes@[n].path@.is_prefix_of(old(self).nodes@[node as int].path@))
                    ==> #[trigger] final(self).leads_to_word(n),
            forall|s: Seq<char>|
                final(self).spec_contains_word(s) == (old(self).spec_contains_word(s) || s == old(
                    self,
                ).spec_path(node)),
    {
        self.nodes[node].is_word = true;
        proof {
            let before = *old(self);
            let after = *self;
            assert(after.nodes@.len() == before.nodes@.len());
            assert forall|n: int| 0 <= n < before.nodes@.len() implies (
            #[trigger] after.nodes@[n]).path == before.nodes@[n].path && after.nodes@[n].children
                == before.nodes@[n].children && (n != node ==> after.nodes@[n].is_word
                == before.nodes@[n].is_word) by {}
            assert forall|n: int, k: int|
                0 <= n < before.nodes@.len() && 0 <= k < after.edge_count(n) implies (
            #[trigger] after.edge(n, k)) == before.edge(n, k) by {}
            assert forall|n: int| 0 < n < after.nodes@.len() implies #[trigger] after.has_parent(
                n,
            ) by {
                assert(before.has_parent(n));
                let (p, k) = choose|p: int, k: int|
                    0 <= p < before.nodes@.len() && 0 <= k < before.edge_count(p) && (
                    #[trigger] before.edge(p, k)).1 == n;
                assert(after.edge(p, k) == before.edge(p, k));
            }
            assert forall|a: int, b: int| 0 <= a < b < after.nodes@.len() implies (
            #[trigger] after.nodes@[a]).path@ != (#[trigger] after.nodes@[b]).path@ by {
                assert(before.nodes@[a].path@ != before.nodes@[b].path@);
            }
            assert(after.shaped());
            assert forall|n: int|
                0 <= n < before.nodes@.len() && (before.leads_to_word(n)
                    || before.nodes@[n].path@.is_prefix_of(
                    before.nodes@[node as int].path@,
                )) implies #[trigger] after.leads_to_word(n) by {
                if before.leads_to_word(n) {
                    let m = choose|m: int|
                        0 <= m < before.nodes@.len() && (#[trigger] before.nodes@[m]).is_word
                            && before.nodes@[n].path@.is_prefix_of(before.nodes@[m].path@);
                    assert(after.nodes@[m].is_word && after.nodes@[n].path@.is_prefix_of(
                        after.nodes@[m].path@,
                    ));
                } else {
                    assert(after.nodes@[node as int].is_word && after.nodes@[n].path@.is_prefix_of(
                        after.nodes@[node as int].path@,
                    ));
                }
            }
            assert forall|s: Seq<char>|
                after.spec_contains_word(s) == (before.spec_contains_word(s) || s
                    == before.spec_path(node)) by {
                after.lemma_contains_word(s);
                before.lemma_contains_word(s);
                if after.spec_contains_word(s) {
                    let m = choose|m: int|
                        0 <= m < after.nodes@.len() && (#[trigger] after.nodes@[m]).path@ == s
                            && after.nodes@[m].is_word;
                    if m != node {
                        assert(before.nodes@[m].path@ == s && before.nodes@[m].is_word);
                    }
                }
                if before.spec_contains_word(s) {
                    let m = choose|m: int|
                        0 <= m < before.nodes@.len() && (#[trigger] before.nodes@[m]).path@ == s
                            && before.nodes@[m].is_word;
                    assert(after.nodes@[m].path@ == s && after.nodes@[m].is_word);
                }
                if s == before.spec_path(node) {
                    assert(after.nodes@[node as int].path@ == s && after.nodes@[node as int].is_word);
                }
            }
        }
    }

    /// Stores the sequence `word`.
    pub fn insert_into_gaddag(&mut self, word: &[char])
        requires
            old(self).wf(),
        ensures
            final(self).wf(),
            final(self)@ == old(self)@.insert(word@),
    {
        let mut current: usize = ROOT;
        let mut i: usize = 0;
        while i < word.len()
            invariant
                i <= word.len(),
                self.shaped(),
                current < self.node_count(),
                self.spec_path(current) == word@.take(i as int),
                forall|n: int|
                    0 < n < self.nodes@.len() ==> #[trigger] self.leads_to_word(n)
                        || self.nodes@[n].path@.is_prefix_of(self.nodes@[current as int].path@),
                forall|s: Seq<char>| self.spec_contains_word(s) == old(self).spec_contains_word(s),
            decreases word.len() - i,
        {
            let c = word[i];
            let ghost before = *self;
            let ghost reached = current;
            proof {
                assert(word@.take(i + 1) =~= word@.take(i as int).push(c));
                self.lemma_edge_target(current, c);
            }
            match self.find_child(current, c) {
                Some(next) => {
                    current = next;
                },
                None => {
                    current = self.add_child(current, c);
                },
            }
            proof {
                assert(self.nodes@[current as int].path@ == before.nodes@[reached as int].path@.push(
                    c,
                ));
                assert forall|n: int| 0 < n < self.nodes@.len() implies #[trigger] self.leads_to_word(
                    n,
                ) || self.nodes@[n].path@.is_prefix_of(self.nodes@[current as int].path@) by {
                    if n < before.nodes@.len() {
                        assert(self.nodes@[n].path@ == before.nodes@[n].path@);
                        if before.leads_to_word(n) {
                            assert(self.leads_to_word(n));
                        } else {
                            assert(before.nodes@[n].path@.is_prefix_of(
                                before.nodes@[reached as int].path@,
                            ));
                        }
                    }
                }
            }
            i = i + 1;
        }
        proof {
            assert(word@.take(i as int) =~= word@);
        }
        self.mark_word(current);
        proof {
            assert(self@ =~= old(self)@.insert(word@));
            assert(self.trim());
        }
    }

    /// Stores `word`: one sequence for each of its letters. A word that holds
    /// the separator is refused, and the index stays as it was. Returns
    /// whether the word was stored.
    pub fn generate_permutations(&mut self, word: &str) -> (stored: bool)
        requires
            old(self).wf(),
        ensures
            final(self).wf(),
            stored == !word@.contains(SEPARATOR),
            stored ==> final(self)@ == old(self)@.union(spec_rotations(word@)),
            !stored ==> final(self)@ == old(self)@,
    {
        let chars = str_chars(word);
        if has_separator(chars.as_slice()) {
            return false;
        }
        let n = chars.len();
        let mut i: usize = 0;
        while i < n
            invariant
                i <= n,
                n == chars@.len(),
                self.wf(),
                forall|s: Seq<char>|
                    self@.contains(s) == (old(self)@.contains(s) || exists|r: int|
                        0 <= r < i && s == #[trigger] spec_rotation(chars@, r)),
            decreases n - i,
        {
            let mut sequence: Vec<char> = Vec::new();
            let mut j: usize = i + 1;
            while j > 0
                invariant
                    j <= i + 1 <= n,
                    n == chars@.len(),
                    sequence@ == chars@.subrange(j as int, i + 1).reverse(),
                decreases j,
            {
                j = j - 1;
                sequence.push(chars[j]);
                proof {
                    assert(sequence@ =~= chars@.subrange(j as int, i + 1).reverse());
                }
            }
            sequence.push(SEPARATOR);
            let mut j: usize = i + 1;
            while j < n
                invariant
                    i + 1 <= j <= n,
                    n == chars@.len(),
                    sequence@ == chars@.subrange(0, i + 1).reverse() + seq![SEPARATOR]
                        + chars@.subrange(i + 1, j as int),
                decreases n - j,
            {
                sequence.push(chars[j]);
                j = j + 1;
                proof {
                    assert(sequence@ =~= chars@.subrange(0, i + 1).reverse() + seq![SEPARATOR]
                        + chars@.subrange(i + 1, j as int));
                }
            }
            let ghost before = self@;
            self.insert_into_gaddag(sequence.as_slice());
            proof {
                assert(sequence@ == spec_rotation(chars@, i as int));
                assert forall|s: Seq<char>|
                    self@.contains(s) == (old(self)@.contains(s) || exists|r: int|
                        0 <= r < i + 1 && s == #[trigger] spec_rotation(chars@, r)) by {
                    assert(self@.contains(s) == (before.contains(s) || s == sequence@));
                }
            }
            i = i + 1;
        }
        proof {
            assert(self@ =~= old(self)@.union(spec_rotations(word@)));
        }
        true
    }

    /// The index of a list of words. A word that holds the separator is left
    /// out.
    pub fn from_words(words: &Vec<String>) -> (index: Gaddag)
        ensures
            index.wf(),
            index@ == spec_index_of(Seq::new(words@.len(), |k: int| words@[k]@)),
    {
        let mut index = Gaddag::new();
        let ghost list = Seq::new(words@.len(), |k: int| words@[k]@);
        let mut k: usize = 0;
        while k < words.len()
            invariant
                k <= words.len(),
                index.wf(),
                list == Seq::new(words@.len(), |k: int| words@[k]@),
                index@ == spec_index_of(list.take(k as int)),
            decreases words.len() - k,
        {
            let ghost before = index@;
            index.generate_permutations(words[k].as_str());
            proof {
                let word = list[k as int];
                let shorter = list.take(k as int);
                let longer = list.take(k + 1);
                assert(word == words@[k as int]@);
                assert forall|s: Seq<char>|
                    index@.contains(s) == spec_index_of(longer).contains(s) by {
                    if spec_index_of(longer).contains(s) {
                        let (m, i) = choose|m: int, i: int|
                            0 <= m < longer.len() && !longer[m].contains(SEPARATOR) && 0 <= i
                                < longer[m].len() && s == #[trigger] spec_rotation(longer[m], i);
                        if m < k {
                            assert(shorter[m] == longer[m]);
                            assert(spec_index_of(shorter).contains(s));
                        } else {
                            assert(spec_rotations(word).contains(s));
                        }
                    }
                    if before.contains(s) {
                        let (m, i) = choose|m: int, i: int|
                            0 <= m < shorter.len() && !shorter[m].contains(SEPARATOR) && 0 <= i
                                < shorter[m].len() && s == #[trigger] spec_rotation(shorter[m], i);
                        assert(shorter[m] == longer[m]);
                    }
                    if !word.contains(SEPARATOR) && spec_rotations(word).contains(s) {
                        let i = choose|i: int|
                            0 <= i < word.len() && s == #[trigger] spec_rotation(word, i);
                        assert(longer[k as int] == word);
                    }
                }
                assert(index@ =~= spec_index_of(list.take(k + 1)));
            }
            k = k + 1;
        }
        proof {
            assert(list.take(k as int) =~= list);
        }
        index
    }

    /// The node reached from `node` by the edge labelled `c`, in an index
    /// that may be in the middle of an insertion.
    fn find_child(&self, node: usize, c: char) -> (r: Option<usize>)
        requires
            self.shaped(),
            node < self.node_count(),
        ensures
            r == self.spec_child(node, c),
            r matches Some(m) ==> m < self.node_count(),
    {
        let edges = &self.nodes[node].children;
        let mut k: usize = 0;
        while k < edges.len()
            invariant
                k <= edges.len(),
                self.shaped(),
                node < self.node_count(),
                edges@ == self.nodes@[node as int].children@,
                forall|m: int| 0 <= m < k ==> (#[trigger] edges@[m]).0 != c,
            decreases edges.len() - k,
        {
            if edges[k].0 == c {
                proof {
                    assert(self.edge(node as int, k as int) == edges@[k as int]);
                    self.lemma_edge_is_child(node, k as int);
                }
                return Some(edges[k].1);
            }
            k = k + 1;
        }
        None
    }

    /// The node reached from `node` by the edge labelled `c`.
    pub fn child(&self, node: usize, c: char) -> (r: Option<usize>)
        requires
            self.wf(),
            node < self.node_count(),
        ensures
            r == self.spec_child(node, c),
            r matches Some(m) ==> m < self.node_count(),
    {
        self.find_child(node, c)
    }

    /// Whether a stored sequence ends at `node`.
    pub fn is_word(&self, node: usize) -> (b: bool)
        requires
            node < self.node_count(),
        ensures
            b == self.spec_is_word(node),
    {
        self.nodes[node].is_word
    }

    /// Follows `path` from `node`, label by label.
    pub fn follow_chars(&self, node: usize, path: &[char]) -> (r: Option<usize>)
        requires
            self.wf(),
            node < self.node_count(),
        ensures
            r == self.spec_follow_path(node, path@),
            r matches Some(m) ==> m < self.node_count(),
    {
        let mut current: usize = node;
        let mut i: usize = 0;
        while i < path.len()
            invariant
                i <= path.len(),
                self.wf(),
                current < self.node_count(),
                self.spec_follow_path(node, path@.take(i as int)) == Some(current),
            decreases path.len() - i,
        {
            proof {
                assert(path@.take(i + 1).drop_last() =~= path@.take(i as int));
            }
            match self.child(current, path[i]) {
                Some(next) => {
                    current = next;
                },
                None => {
                    proof {
                        self.lemma_follow_path_prefix(node, path@, i + 1);
                    }
                    return None;
                },
            }
            i = i + 1;
        }
        proof {
            assert(path@.take(i as int) =~= path@);
        }
        Some(current)
    }

    /// Follows `path` from `node`: the node where the walk ends, or `None`
    /// where a character of `path` has no edge.
    pub fn follow_path(&self, node: usize, path: &str) -> (r: Option<usize>)
        requires
            self.wf(),
            node < self.node_count(),
        ensures
            r == self.spec_follow_path(node, path@),
            r matches Some(m) ==> m < self.node_count(),
    {
        let chars = str_chars(path);
        self.follow_chars(node, chars.as_slice())
    }

    /// Whether the sequence `word` is stored.
    pub fn contains_chars(&self, word: &[char]) -> (b: bool)
        requires
            self.wf(),
        ensures
            b == self.spec_contains_word(word@),
            b == self@.contains(word@),
    {
        match self.follow_chars(ROOT, word) {
            Some(node) => self.is_word(node),
            None => false,
        }
    }

    /// Whether the sequence `word` is stored.
    pub fn contains_word(&self, word: &str) -> (b: bool)
        requires
            self.wf(),
        ensures
            b == self.spec_contains_word(word@),
            b == self@.contains(word@),
    {
        let chars = str_chars(word);
        self.contains_chars(chars.as_slice())
    }
}

/// Whether `word` holds the separator.
pub fn has_separator(word: &[char]) -> (found: bool)
    ensures
        found == word@.contains(SEPARATOR),
{
    let mut i: usize = 0;
    while i < word.len()
        invariant
            i <= word.len(),
            forall|k: int| 0 <= k < i ==> word@[k] != SEPARATOR,
        decreases word.len() - i,
    {
        if word[i] == SEPARATOR {
            return true;
        }
        i = i + 1;
    }
    false
}

/// A stored sequence tells which word it was made from, and at which letter:
/// two words without the separator that share a rotation are the same word,
/// rotated at the same letter.
pub proof fn lemma_rotation_decodes(first: Seq<char>, i: int, second: Seq<char>, j: int)
    requires
        !first.contains(SEPARATOR),
        !second.contains(SEPARATOR),
        0 <= i < first.len(),
        0 <= j < second.len(),
        spec_rotation(first, i) == spec_rotation(second, j),
    ensures
        first == second,
        i == j,
{
    let s = spec_rotation(first, i);
    let t = spec_rotation(second, j);
    assert(s.len() == first.len() + 1);
    assert(t.len() == second.len() + 1);
    assert(s[i + 1] == SEPARATOR);
    assert(t[j + 1] == SEPARATOR);
    assert forall|m: int| 0 <= m <= i implies s[m] == first[i - m] by {}
    assert forall|m: int| 0 <= m <= j implies t[m] == second[j - m] by {}
    assert forall|m: int| i < m < first.len() implies s[m + 1] == first[m] by {}
    assert forall|m: int| j < m < second.len() implies t[m + 1] == second[m] by {}
    if i < j {
        assert(t[i + 1] == second[j - (i + 1)]);
        assert(second.contains(second[j - (i + 1)]));
    } else if j < i {
        assert(s[j + 1] == first[i - (j + 1)]);
        assert(first.contains(first[i - (j + 1)]));
    }
    assert forall|m: int| 0 <= m < first.len() implies first[m] == second[m] by {
        if m <= i {
            assert(s[i - m] == first[m]);
            assert(t[i - m] == second[m]);
        } else {
            assert(s[m + 1] == first[m]);
            assert(t[m + 1] == second[m]);
        }
    }
    assert(first =~= second);
}

/// In the index of a list of words no stored sequence begins with the
/// separator, so the root has no edge for it: every word has a letter left
/// of the separator.
pub proof fn lemma_no_leading_separator(index: &Gaddag, words: Seq<Seq<char>>)
    requires
        index.wf(),
        index@ == spec_index_of(words),
    ensures
        index.spec_child(ROOT, SEPARATOR) is None,
{
    let path = seq![SEPARATOR];
    index.lemma_root();
    index.lemma_follow_path_meaning(ROOT, path);
    assert(path.drop_last() =~= Seq::<char>::empty());
    assert(index.spec_follow_path(ROOT, path.drop_last()) == Some(ROOT));
    assert(path.last() == SEPARATOR);
    assert(index.spec_follow_path(ROOT, path) == index.spec_child(ROOT, SEPARATOR));
    if index.spec_child(ROOT, SEPARATOR) is Some {
        let s = choose|s: Seq<char>|
            #[trigger] index@.contains(s) && (index.spec_path(ROOT) + path).is_prefix_of(s);
        assert(index.spec_path(ROOT) + path =~= path);
        assert(s[0] == path[0]);
        let (k, i) = choose|k: int, i: int|
            0 <= k < words.len() && !words[k].contains(SEPARATOR) && 0 <= i < words[k].len() && s
                == #[trigger] spec_rotation(words[k], i);
        assert(s[0] == words[k][i]);
        assert(words[k].contains(words[k][i]));
    }
}

/// The index of a list of words stores every rotation of every word of the
/// list, and no rotation of any other word: for a word without the separator,
/// a rotation of it is stored exactly if the word is in the list.
pub proof fn lemma_index_round_trip(words: Seq<Seq<char>>, word: Seq<char>, i: int)
    requires
        !word.contains(SEPARATOR),
        0 <= i < word.len(),
    ensures
        spec_index_of(words).contains(spec_rotation(word, i)) <==> words.contains(word),
{
    let s = spec_rotation(word, i);
    if spec_index_of(words).contains(s) {
        let (k, j) = choose|k: int, j: int|
            0 <= k < words.len() && !words[k].contains(SEPARATOR) && 0 <= j < words[k].len() && s
                == #[trigger] spec_rotation(words[k], j);
        lemma_rotation_decodes(word, i, words[k], j);
        assert(words.contains(word));
    }
    if words.contains(word) {
        let k = choose|k: int| 0 <= k < words.len() && words[k] == word;
        assert(0 <= k < words.len() && !words[k].contains(SEPARATOR) && 0 <= i < words[k].len()
            && s == spec_rotation(words[k], i));
    }
}

} // verus!
