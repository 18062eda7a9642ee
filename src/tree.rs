//! The prefix tree that narrows a token sequence down to a short list of
//! candidate cluster ids. Nodes live in an arena and refer to their children
//! by index; the first level is keyed by token count.

use vstd::prelude::*;
use crate::text::{token_views, holds_number, has_number};
use crate::store::{ClusterCache, lru_contents, cache_contains};

verus! {

/// One level of the tree: keyed children, and at a leaf the ids of the
/// clusters that end there.
pub struct Node {
    pub keys: Vec<String>,
    pub kids: Vec<usize>,
    pub cluster_ids: Vec<usize>,
}

pub struct NodeView {
    pub keys: Seq<Seq<char>>,
    pub kids: Seq<usize>,
    pub ids: Seq<usize>,
}

impl View for Node {
    type V = NodeView;

    open spec fn view(&self) -> NodeView {
        NodeView { keys: token_views(self.keys@), kids: self.kids@, ids: self.cluster_ids@ }
    }
}

/// The whole tree: an arena of nodes and, per token count, the node that
/// starts that count's subtree.
pub struct PrefixTree {
    pub nodes: Vec<Node>,
    pub lengths: Vec<usize>,
    pub roots: Vec<usize>,
    /// For each node, the token count of the bucket it belongs to.
    pub owner: Ghost<Seq<nat>>,
}

pub struct TreeView {
    pub nodes: Seq<NodeView>,
    pub lengths: Seq<usize>,
    pub roots: Seq<usize>,
    pub owner: Seq<nat>,
}

impl View for PrefixTree {
    type V = TreeView;

    open spec fn view(&self) -> TreeView {
        TreeView {
            nodes: self.nodes@.map_values(|n: Node| n@),
            lengths: self.lengths@,
            roots: self.roots@,
            owner: self.owner@,
        }
    }
}

pub open spec fn empty_node() -> NodeView {
    NodeView { keys: Seq::empty(), kids: Seq::empty(), ids: Seq::empty() }
}

/// The child of `n` under key `k`, if there is one.
pub open spec fn child(n: NodeView, k: Seq<char>) -> Option<usize> {
    if n.keys.contains(k) {
        Some(n.kids[n.keys.index_of(k)])
    } else {
        None
    }
}

/// Keys are unique per node, and every child has a larger index than its
/// parent, so that the arena is a forest.
pub open spec fn node_ok(t: TreeView, i: int) -> bool {
    let n = t.nodes[i];
    &&& n.keys.len() == n.kids.len()
    &&& n.keys.no_duplicates()
    &&& forall|j: int| 0 <= j < n.kids.len() ==> i < #[trigger] n.kids[j] < t.nodes.len()
    &&& forall|j: int| 0 <= j < n.kids.len() ==> t.owner[#[trigger] n.kids[j] as int] == t.owner[i]
}

impl TreeView {
    pub open spec fn wf(self) -> bool {
        &&& forall|i: int| 0 <= i < self.nodes.len() ==> node_ok(self, i)
        &&& self.lengths.len() == self.roots.len()
        &&& self.lengths.no_duplicates()
        &&& forall|b: int| 0 <= b < self.roots.len() ==> #[trigger] self.roots[b] < self.nodes.len()
        &&& self.owner.len() == self.nodes.len()
        &&& self.nodes.len() <= usize::MAX
        &&& forall|b: int| 0 <= b < self.roots.len() ==> self.owner[#[trigger] self.roots[b] as int] == self.lengths[b]
    }

    /// No node has more than `max_children` children, and one without a
    /// wildcard child has fewer.
    pub open spec fn fanout_ok(self, max_children: nat, wc: Seq<char>) -> bool {
        forall|i: int|
            0 <= i < self.nodes.len() ==> #[trigger] self.nodes[i].keys.len() <= max_children && (
            !self.nodes[i].keys.contains(wc) ==> self.nodes[i].keys.len() < max_children)
    }

    /// The node that starts the subtree of lines with `n` tokens.
    pub open spec fn bucket(self, n: nat) -> Option<usize> {
        if self.lengths.contains(n as usize) && n <= usize::MAX {
            Some(self.roots[self.lengths.index_of(n as usize)])
        } else {
            None
        }
    }

    /// Descent below `cur`, which stands at `depth`: the exact child of the
    /// current token first, else the wildcard child.
    pub open spec fn descend(
        self,
        cur: usize,
        toks: Seq<Seq<char>>,
        depth: nat,
        max_depth: nat,
        wc: Seq<char>,
    ) -> Option<usize>
        decreases toks.len() - depth,
    {
        if depth >= max_depth || depth >= toks.len() || depth == 0 {
            Some(cur)
        } else {
            match child(self.nodes[cur as int], toks[depth - 1]) {
                Some(c) => self.descend(c, toks, depth + 1, max_depth, wc),
                None => match child(self.nodes[cur as int], wc) {
                    Some(c) => self.descend(c, toks, depth + 1, max_depth, wc),
                    None => None,
                },
            }
        }
    }

    /// The node whose ids are the candidates for `toks`.
    pub open spec fn locate(self, toks: Seq<Seq<char>>, max_depth: nat, wc: Seq<char>) -> Option<usize> {
        match self.bucket(toks.len()) {
            Some(b) => self.descend(b, toks, 1, max_depth, wc),
            None => None,
        }
    }

    /// `cur` gets a new, empty child under key `k`, at the end of the arena.
    pub open spec fn add_child(self, cur: usize, k: Seq<char>) -> TreeView {
        let n = self.nodes[cur as int];
        TreeView {
            nodes: self.nodes.update(
                cur as int,
                NodeView { keys: n.keys.push(k), kids: n.kids.push(self.nodes.len() as usize), ids: n.ids },
            ).push(empty_node()),
            owner: self.owner.push(self.owner[cur as int]),
            ..self
        }
    }

    /// One step of insertion: the tree after it and the node it moves to.
    pub open spec fn insert_step(
        self,
        cur: usize,
        t: Seq<char>,
        max_children: nat,
        wc: Seq<char>,
    ) -> (TreeView, usize) {
        let n = self.nodes[cur as int];
        let fresh = self.nodes.len() as usize;
        match child(n, t) {
            Some(c) => (self, c),
            None => match child(n, wc) {
                Some(w) => if !holds_number(t) && n.keys.len() < max_children {
                    (self.add_child(cur, t), fresh)
                } else {
                    (self, w)
                },
                None => if !holds_number(t) && n.keys.len() + 1 < max_children {
                    (self.add_child(cur, t), fresh)
                } else {
                    (self.add_child(cur, wc), fresh)
                },
            },
        }
    }

    /// Insertion of cluster `id` below `cur`, which stands at `depth`: the tree
    /// after it and the leaf where the id was stored. At the leaf, ids that are
    /// not in `live` are dropped before `id` is appended.
    pub open spec fn insert_from(
        self,
        cur: usize,
        toks: Seq<Seq<char>>,
        depth: nat,
        max_depth: nat,
        max_children: nat,
        wc: Seq<char>,
        live: Set<usize>,
        id: usize,
    ) -> (TreeView, usize)
        decreases toks.len() - depth,
    {
        if depth >= max_depth || depth >= toks.len() || depth == 0 {
            let n = self.nodes[cur as int];
            let kept = n.ids.filter(|x: usize| live.contains(x)).push(id);
            (TreeView { nodes: self.nodes.update(cur as int, NodeView { ids: kept, ..n }), ..self }, cur)
        } else {
            let (t1, next) = self.insert_step(cur, toks[depth - 1], max_children, wc);
            t1.insert_from(next, toks, depth + 1, max_depth, max_children, wc, live, id)
        }
    }

    /// The tree with a bucket for `n` tokens, made if it was missing, and
    /// that bucket's node.
    pub open spec fn with_bucket(self, n: nat) -> (TreeView, usize) {
        match self.bucket(n) {
            Some(b) => (self, b),
            None => (
                TreeView {
                    nodes: self.nodes.push(empty_node()),
                    lengths: self.lengths.push(n as usize),
                    roots: self.roots.push(self.nodes.len() as usize),
                    owner: self.owner.push(n),
                },
                self.nodes.len() as usize,
            ),
        }
    }

    /// Insertion of cluster `id` for a template of tokens `toks`.
    pub open spec fn insert(
        self,
        toks: Seq<Seq<char>>,
        max_depth: nat,
        max_children: nat,
        wc: Seq<char>,
        live: Set<usize>,
        id: usize,
    ) -> (TreeView, usize) {
        let (t1, b) = self.with_bucket(toks.len());
        t1.insert_from(b, toks, 1, max_depth, max_children, wc, live, id)
    }
}

/// Adding a child keeps the tree well formed.
pub proof fn lemma_add_child(t: TreeView, cur: usize, k: Seq<char>)
    requires
        t.wf(),
        t.nodes.len() < usize::MAX,
        cur < t.nodes.len(),
        !t.nodes[cur as int].keys.contains(k),
    ensures
        t.add_child(cur, k).wf(),
{
    let t1 = t.add_child(cur, k);
    assert forall|i: int| 0 <= i < t1.nodes.len() implies node_ok(t1, i) by {
        if i < t.nodes.len() {
            assert(node_ok(t, i));
            if i == cur {
                let n = t1.nodes[i];
                assert forall|j: int| 0 <= j < n.kids.len() implies i < #[trigger] n.kids[j] < t1.nodes.len() by {
                    if j < n.kids.len() - 1 {
                        assert(n.kids[j] == t.nodes[i].kids[j]);
                    } else {
                        assert(n.kids[j] == t.nodes.len());
                    }
                }
                assert forall|j: int| 0 <= j < n.kids.len() implies t1.owner[#[trigger] n.kids[j] as int] == t1.owner[i] by {
                    if j < n.kids.len() - 1 {
                        assert(n.kids[j] == t.nodes[i].kids[j]);
                    } else {
                        assert(n.kids[j] == t.nodes.len());
                    }
                }
                assert(n.keys.no_duplicates());
            } else {
                let n = t1.nodes[i];
                assert(n == t.nodes[i]);
                assert forall|j: int| 0 <= j < n.kids.len() implies t1.owner[#[trigger] n.kids[j] as int] == t1.owner[i] by {
                    assert(t.owner[n.kids[j] as int] == t.owner[i]);
                }
            }
        } else {
            assert(t1.nodes[i] == empty_node());
        }
    }
    assert forall|b: int| 0 <= b < t1.roots.len() implies #[trigger] t1.roots[b] < t1.nodes.len() by {
        assert(t.roots[b] < t.nodes.len());
    }
    assert forall|b: int| 0 <= b < t1.roots.len() implies t1.owner[#[trigger] t1.roots[b] as int] == t1.lengths[b] by {
        assert(t.roots[b] < t.nodes.len());
    }
}

/// The child under a key is a later node of the same bucket.
pub proof fn lemma_child(t: TreeView, i: usize, k: Seq<char>)
    requires
        t.wf(),
        i < t.nodes.len(),
    ensures
        child(t.nodes[i as int], k) matches Some(c) ==> i < c < t.nodes.len() && t.owner[c as int]
            == t.owner[i as int],
{
    assert(node_ok(t, i as int));
    let n = t.nodes[i as int];
    if n.keys.contains(k) {
        let j = n.keys.index_of(k);
        assert(0 <= j < n.keys.len());
        assert(i < n.kids[j] < t.nodes.len());
    }
}

/// One step of insertion: what it changes and where it moves to.
pub proof fn lemma_insert_step(t: TreeView, cur: usize, tok: Seq<char>, max_children: nat, wc: Seq<char>)
    requires
        t.wf(),
        t.nodes.len() < usize::MAX,
        cur < t.nodes.len(),
    ensures
        ({
            let (t1, next) = t.insert_step(cur, tok, max_children, wc);
            &&& t1.wf()
            &&& cur < next < t1.nodes.len()
            &&& t1.owner[next as int] == t.owner[cur as int]
            &&& t.nodes.len() <= t1.nodes.len() <= t.nodes.len() + 1
            &&& t1.lengths == t.lengths
            &&& t1.roots == t.roots
            &&& forall|i: int| 0 <= i < t.nodes.len() ==> t1.owner[i] == t.owner[i]
            &&& forall|i: int| t.nodes.len() <= i < t1.nodes.len() ==> t1.owner[i] == t.owner[cur as int]
                && t1.nodes[i] == empty_node() && i == next
            &&& forall|i: int| 0 <= i < t.nodes.len() && i != cur ==> t1.nodes[i] == t.nodes[i]
            &&& t1.nodes[cur as int].ids == t.nodes[cur as int].ids
            &&& (child(t1.nodes[cur as int], tok) == Some(next) || (child(t1.nodes[cur as int], tok) is None
                && child(t1.nodes[cur as int], wc) == Some(next)))
            &&& (next < t.nodes.len() ==> t1 == t && (child(t.nodes[cur as int], tok) == Some(next) || (
                child(t.nodes[cur as int], tok) is None && child(t.nodes[cur as int], wc) == Some(next))))
            &&& (t.fanout_ok(max_children, wc) && max_children >= 1 ==> t1.fanout_ok(max_children, wc))
        }),
{
    let n = t.nodes[cur as int];
    lemma_child(t, cur, tok);
    lemma_child(t, cur, wc);
    let (t1, next) = t.insert_step(cur, tok, max_children, wc);
    if t1 != t && t.fanout_ok(max_children, wc) && max_children >= 1 {
        assert forall|i: int| 0 <= i < t1.nodes.len() implies #[trigger] t1.nodes[i].keys.len() <= max_children
            && (!t1.nodes[i].keys.contains(wc) ==> t1.nodes[i].keys.len() < max_children) by {
            if i == cur {
                let m = t1.nodes[i];
                assert(m.keys == n.keys.push(m.keys.last()));
                if !m.keys.contains(wc) {
                    assert(!n.keys.contains(wc)) by {
                        if n.keys.contains(wc) {
                            let j = n.keys.index_of(wc);
                            assert(m.keys[j] == wc);
                        }
                    }
                    assert(m.keys[m.keys.len() - 1] != wc);
                }
                if child(n, wc) is Some {
                    assert(n.keys.contains(wc));
                }
            } else if i >= t.nodes.len() {
                assert(t1.nodes[i] == empty_node());
            } else {
                assert(t1.nodes[i] == t.nodes[i]);
            }
        }
    }
    match child(n, tok) {
        Some(c) => {},
        None => match child(n, wc) {
            Some(w) => {
                if !holds_number(tok) && n.keys.len() < max_children {
                    lemma_add_child(t, cur, tok);
                    lemma_add_child_child(t, cur, tok);
                }
            },
            None => {
                if !holds_number(tok) && n.keys.len() + 1 < max_children {
                    lemma_add_child(t, cur, tok);
                    lemma_add_child_child(t, cur, tok);
                } else {
                    lemma_add_child(t, cur, wc);
                    lemma_add_child_child(t, cur, wc);
                    if tok != wc {
                        let m = t.add_child(cur, wc).nodes[cur as int];
                        assert(child(m, tok) == child(n, tok));
                    }
                }
            },
        },
    }
}

/// The child that `add_child` makes is found under its key.
pub proof fn lemma_add_child_child(t: TreeView, cur: usize, k: Seq<char>)
    requires
        t.wf(),
        t.nodes.len() < usize::MAX,
        cur < t.nodes.len(),
        !t.nodes[cur as int].keys.contains(k),
    ensures
        child(t.add_child(cur, k).nodes[cur as int], k) == Some(t.nodes.len() as usize),
        forall|k2: Seq<char>| k2 != k ==> #[trigger] child(t.add_child(cur, k).nodes[cur as int], k2)
            == child(t.nodes[cur as int], k2),
{
    let n = t.nodes[cur as int];
    let m = t.add_child(cur, k).nodes[cur as int];
    assert(node_ok(t, cur as int));
    assert(m.keys[n.keys.len() as int] == k);
    assert(m.keys.contains(k));
    let j = m.keys.index_of(k);
    if j < n.keys.len() {
        assert(n.keys[j] == k);
        assert(n.keys.contains(k));
    }
    assert forall|k2: Seq<char>| k2 != k implies #[trigger] child(m, k2) == child(n, k2) by {
        if m.keys.contains(k2) {
            let j2 = m.keys.index_of(k2);
            assert(j2 < n.keys.len());
            assert(n.keys[j2] == k2);
            assert(n.keys.contains(k2));
            let j3 = n.keys.index_of(k2);
            assert(m.keys[j3] == k2);
            assert(j2 == j3) by {
                assert(m.keys.no_duplicates()) by {
                    lemma_add_child(t, cur, k);
                    assert(node_ok(t.add_child(cur, k), cur as int));
                }
            }
        } else {
            if n.keys.contains(k2) {
                let j3 = n.keys.index_of(k2);
                assert(m.keys[j3] == k2);
            }
        }
    }
}

/// Descent stays in the bucket where it starts.
pub proof fn lemma_descend_owner(t: TreeView, cur: usize, toks: Seq<Seq<char>>, depth: nat, max_depth: nat, wc: Seq<char>)
    requires
        t.wf(),
        cur < t.nodes.len(),
    ensures
        t.descend(cur, toks, depth, max_depth, wc) matches Some(l) ==> cur <= l < t.nodes.len() && t.owner[l as int]
            == t.owner[cur as int],
    decreases toks.len() - depth,
{
    if !(depth >= max_depth || depth >= toks.len() || depth == 0) {
        lemma_child(t, cur, toks[depth - 1]);
        lemma_child(t, cur, wc);
        match child(t.nodes[cur as int], toks[depth - 1]) {
            Some(c) => lemma_descend_owner(t, c, toks, depth + 1, max_depth, wc),
            None => match child(t.nodes[cur as int], wc) {
                Some(c) => lemma_descend_owner(t, c, toks, depth + 1, max_depth, wc),
                None => {},
            },
        }
    }
}

/// The leaf that a lookup reaches belongs to the bucket of the token count.
pub proof fn lemma_locate_owner(t: TreeView, toks: Seq<Seq<char>>, max_depth: nat, wc: Seq<char>)
    requires
        t.wf(),
    ensures
        t.locate(toks, max_depth, wc) matches Some(l) ==> l < t.nodes.len() && t.owner[l as int] == toks.len(),
{
    if let Some(b) = t.bucket(toks.len()) {
        let idx = t.lengths.index_of(toks.len() as usize);
        assert(0 <= idx < t.lengths.len() && t.lengths[idx] == toks.len() as usize);
        assert(t.roots[idx] < t.nodes.len());
        lemma_descend_owner(t, b, toks, 1, max_depth, wc);
    }
}

/// Insertion below `cur`: what it changes, and that a lookup from `cur`
/// reaches the leaf where the id went.
pub proof fn lemma_insert_from(
    t: TreeView,
    cur: usize,
    toks: Seq<Seq<char>>,
    depth: nat,
    max_depth: nat,
    max_children: nat,
    wc: Seq<char>,
    live: Set<usize>,
    id: usize,
)
    requires
        t.wf(),
        cur < t.nodes.len(),
        t.nodes.len() + max_depth - depth < usize::MAX,
    ensures
        ({
            let (t2, leaf) = t.insert_from(cur, toks, depth, max_depth, max_children, wc, live, id);
            &&& t2.wf()
            &&& t.nodes.len() <= t2.nodes.len()
            &&& cur <= leaf < t2.nodes.len()
            &&& t2.owner[leaf as int] == t.owner[cur as int]
            &&& t2.lengths == t.lengths
            &&& t2.roots == t.roots
            &&& forall|i: int| 0 <= i < t.nodes.len() ==> t2.owner[i] == t.owner[i]
            &&& forall|i: int| t.nodes.len() <= i < t2.nodes.len() ==> t2.owner[i] == t.owner[cur as int]
            &&& forall|i: int| 0 <= i < cur ==> t2.nodes[i] == t.nodes[i]
            &&& forall|i: int| 0 <= i < t2.nodes.len() && i != leaf ==> t2.nodes[i].ids == (if i < t.nodes.len() {
                t.nodes[i].ids
            } else {
                Seq::empty()
            })
            &&& t2.nodes[leaf as int].ids == (if leaf < t.nodes.len() {
                t.nodes[leaf as int].ids
            } else {
                Seq::empty()
            }).filter(|x: usize| live.contains(x)).push(id)
            &&& t2.descend(cur, toks, depth, max_depth, wc) == Some(leaf)
            &&& leaf < t.nodes.len() ==> t.descend(cur, toks, depth, max_depth, wc) == Some(leaf)
            &&& (t.fanout_ok(max_children, wc) && max_children >= 1 ==> t2.fanout_ok(max_children, wc))
        }),
    decreases toks.len() - depth,
{
    if depth >= max_depth || depth >= toks.len() || depth == 0 {
        let n = t.nodes[cur as int];
        let kept = n.ids.filter(|x: usize| live.contains(x)).push(id);
        let t2 = TreeView { nodes: t.nodes.update(cur as int, NodeView { ids: kept, ..n }), ..t };
        assert forall|i: int| 0 <= i < t2.nodes.len() implies node_ok(t2, i) by {
            assert(node_ok(t, i));
        }
        assert forall|c: int| 0 <= c < t2.roots.len() implies #[trigger] t2.roots[c] < t2.nodes.len() by {
            assert(t.roots[c] < t.nodes.len());
        }
        assert forall|c: int| 0 <= c < t2.roots.len() implies t2.owner[#[trigger] t2.roots[c] as int] == t2.lengths[c] by {
            assert(t.roots[c] < t.nodes.len());
        }
        if t.fanout_ok(max_children, wc) {
            assert forall|i: int| 0 <= i < t2.nodes.len() implies #[trigger] t2.nodes[i].keys.len() <= max_children
                && (!t2.nodes[i].keys.contains(wc) ==> t2.nodes[i].keys.len() < max_children) by {
                assert(t2.nodes[i].keys == t.nodes[i].keys);
            }
        }
    } else {
        let tok = toks[depth - 1];
        lemma_insert_step(t, cur, tok, max_children, wc);
        let (t1, next) = t.insert_step(cur, tok, max_children, wc);
        lemma_insert_from(t1, next, toks, depth + 1, max_depth, max_children, wc, live, id);
        let (t2, leaf) = t1.insert_from(next, toks, depth + 1, max_depth, max_children, wc, live, id);
        assert(t2.nodes[cur as int] == t1.nodes[cur as int]);
        assert forall|i: int| 0 <= i < t2.nodes.len() && i != leaf implies t2.nodes[i].ids == (if i < t.nodes.len() {
            t.nodes[i].ids
        } else {
            Seq::empty()
        }) by {
            if i < t1.nodes.len() && t.nodes.len() <= i {
                assert(t1.nodes[i] == empty_node());
            }
        }
        if leaf < t1.nodes.len() && t.nodes.len() <= leaf {
            assert(t1.nodes[leaf as int] == empty_node());
        }
    }
}

/// Insertion of a cluster: what it changes, and that a lookup of the same
/// tokens reaches the leaf where the id went.
pub proof fn lemma_insert(
    t: TreeView,
    toks: Seq<Seq<char>>,
    max_depth: nat,
    max_children: nat,
    wc: Seq<char>,
    live: Set<usize>,
    id: usize,
)
    requires
        t.wf(),
        t.nodes.len() + max_depth < usize::MAX,
        toks.len() <= usize::MAX,
    ensures
        ({
            let (t2, leaf) = t.insert(toks, max_depth, max_children, wc, live, id);
            &&& t2.wf()
            &&& t.nodes.len() <= t2.nodes.len()
            &&& leaf < t2.nodes.len()
            &&& t2.owner[leaf as int] == toks.len()
            &&& forall|i: int| 0 <= i < t.nodes.len() ==> t2.owner[i] == t.owner[i]
            &&& forall|i: int| 0 <= i < t2.nodes.len() && i != leaf ==> t2.nodes[i].ids == (if i < t.nodes.len() {
                t.nodes[i].ids
            } else {
                Seq::empty()
            })
            &&& t2.nodes[leaf as int].ids == (if leaf < t.nodes.len() {
                t.nodes[leaf as int].ids
            } else {
                Seq::empty()
            }).filter(|x: usize| live.contains(x)).push(id)
            &&& t2.locate(toks, max_depth, wc) == Some(leaf)
            &&& leaf < t.nodes.len() ==> t.locate(toks, max_depth, wc) == Some(leaf)
            &&& (t.fanout_ok(max_children, wc) && max_children >= 1 ==> t2.fanout_ok(max_children, wc))
        }),
{
    let n = toks.len();
    let (t1, b) = t.with_bucket(n);
    if t.bucket(n) is None {
        assert forall|i: int| 0 <= i < t1.nodes.len() implies node_ok(t1, i) by {
            if i < t.nodes.len() {
                assert(node_ok(t, i));
            }
        }
        assert forall|c: int| 0 <= c < t1.roots.len() implies #[trigger] t1.roots[c] < t1.nodes.len() by {
            if c < t.roots.len() {
                assert(t.roots[c] < t.nodes.len());
            }
        }
        assert forall|c: int| 0 <= c < t1.roots.len() implies t1.owner[#[trigger] t1.roots[c] as int] == t1.lengths[c] by {
            if c < t.roots.len() {
                assert(t.roots[c] < t.nodes.len());
            }
        }
        assert(!t.lengths.contains(n as usize));
        assert(t1.lengths.no_duplicates());
        assert(t1.lengths[t.lengths.len() as int] == n as usize);
    } else {
        let idx = t.lengths.index_of(n as usize);
        assert(0 <= idx < t.lengths.len() && t.lengths[idx] == n as usize);
        assert(t.roots[idx] < t.nodes.len());
    }
    if t.fanout_ok(max_children, wc) && max_children >= 1 {
        assert forall|i: int| 0 <= i < t1.nodes.len() implies #[trigger] t1.nodes[i].keys.len() <= max_children
            && (!t1.nodes[i].keys.contains(wc) ==> t1.nodes[i].keys.len() < max_children) by {
            if i < t.nodes.len() {
                assert(t1.nodes[i] == t.nodes[i]);
            } else {
                assert(t1.nodes[i] == empty_node());
            }
        }
    }
    lemma_insert_from(t1, b, toks, 1, max_depth, max_children, wc, live, id);
    let (t2, leaf) = t1.insert_from(b, toks, 1, max_depth, max_children, wc, live, id);
    {
        assert(t1.lengths.contains(n as usize));
        let idx = t1.lengths.index_of(n as usize);
        assert(t1.lengths[t1.lengths.len() - 1] == n as usize || t.bucket(n) is Some);
        assert(t2.bucket(n) == t1.bucket(n));
        if t.bucket(n) is None {
            assert(t1.lengths[t.lengths.len() as int] == n as usize);
            assert(idx == t.lengths.len());
        }
        assert(t1.bucket(n) == Some(b));
    }
    if t.bucket(n) is None {
        assert(t1.nodes[t.nodes.len() as int] == empty_node());
    }
}

impl Node {
    /// A node with no children and no ids.
    pub fn new() -> (r: Node)
        ensures
            r@ == empty_node(),
    {
        let r = Node { keys: Vec::new(), kids: Vec::new(), cluster_ids: Vec::new() };
        assert(r@.keys =~= Seq::<Seq<char>>::empty());
        r
    }

    /// The child under `key`, if there is one.
    pub fn find_child(&self, key: &String) -> (r: Option<usize>)
        requires
            self@.keys.len() == self@.kids.len(),
            self@.keys.no_duplicates(),
        ensures
            r == child(self@, key@),
    {
        let mut i: usize = 0;
        while i < self.keys.len()
            invariant
                i <= self.keys.len(),
                self@.keys.len() == self@.kids.len(),
                self@.keys.no_duplicates(),
                forall|j: int| 0 <= j < i ==> self@.keys[j] != key@,
            decreases self.keys.len() - i,
        {
            if self.keys[i] == *key {
                proof {
                    let ks = self@.keys;
                    assert(ks[i as int] == key@);
                    assert(ks.contains(key@));
                    let c = ks.index_of(key@);
                    assert(ks[c] == key@);
                    assert(c == i);
                }
                return Some(self.kids[i]);
            }
            i += 1;
        }
        None
    }
}

impl PrefixTree {
    /// A tree with no buckets.
    pub fn new() -> (r: PrefixTree)
        ensures
            r@.wf(),
            r@.nodes.len() == 0,
            r@.lengths.len() == 0,
            r@.roots.len() == 0,
    {
        let r = PrefixTree {
            nodes: Vec::new(),
            lengths: Vec::new(),
            roots: Vec::new(),
            owner: Ghost(Seq::empty()),
        };
        assert(r@.nodes =~= Seq::<NodeView>::empty());
        r
    }

    /// The node of the bucket for `n` tokens, if there is one.
    pub fn find_bucket(&self, n: usize) -> (r: Option<usize>)
        requires
            self@.wf(),
        ensures
            r == self@.bucket(n as nat),
    {
        let mut i: usize = 0;
        while i < self.lengths.len()
            invariant
                i <= self.lengths.len(),
                self@.wf(),
                forall|j: int| 0 <= j < i ==> self@.lengths[j] != n,
            decreases self.lengths.len() - i,
        {
            if self.lengths[i] == n {
                proof {
                    let ls = self@.lengths;
                    assert(ls.contains(n));
                    let c = ls.index_of(n);
                    assert(ls[c] == n);
                    assert(c == i);
                }
                return Some(self.roots[i]);
            }
            i += 1;
        }
        None
    }

    /// The node whose ids are the candidates for `toks`.
    pub fn locate(&self, toks: &Vec<String>, max_depth: usize, wc: &String) -> (r: Option<usize>)
        requires
            self@.wf(),
        ensures
            r == self@.locate(token_views(toks@), max_depth as nat, wc@),
            r matches Some(l) ==> l < self@.nodes.len(),
    {
        let ghost tv = token_views(toks@);
        let b = match self.find_bucket(toks.len()) {
            Some(b) => b,
            None => {
                return None;
            },
        };
        assert(self@.locate(tv, max_depth as nat, wc@) == self@.descend(b, tv, 1, max_depth as nat, wc@));
        let mut cur = b;
        let mut depth: usize = 1;
        while depth < max_depth && depth < toks.len()
            invariant
                self@.wf(),
                cur < self@.nodes.len(),
                1 <= depth,
                tv == token_views(toks@),
                tv.len() == toks@.len(),
                self@.locate(tv, max_depth as nat, wc@) == self@.descend(b, tv, 1, max_depth as nat, wc@),
                self@.descend(b, tv, 1, max_depth as nat, wc@) == self@.descend(
                    cur,
                    tv,
                    depth as nat,
                    max_depth as nat,
                    wc@,
                ),
            decreases toks.len() - depth,
        {
            assert(node_ok(self@, cur as int));
            let node = &self.nodes[cur];
            assert(node@ == self@.nodes[cur as int]);
            assert(tv[depth - 1] == toks@[depth - 1]@);
            match node.find_child(&toks[depth - 1]) {
                Some(c) => {
                    cur = c;
                },
                None => match node.find_child(wc) {
                    Some(c) => {
                        cur = c;
                    },
                    None => {
                        assert(self@.descend(cur, tv, depth as nat, max_depth as nat, wc@) is None);
                        return None;
                    },
                },
            }
            depth += 1;
        }
        Some(cur)
    }

    /// Gives `cur` a new, empty child under `key`; returns the child's index.
    fn add_child(&mut self, cur: usize, key: String) -> (r: usize)
        requires
            old(self)@.wf(),
            cur < old(self)@.nodes.len(),
            !old(self)@.nodes[cur as int].keys.contains(key@),
        ensures
            final(self)@ == old(self)@.add_child(cur, key@),
            final(self)@.wf(),
            r == old(self)@.nodes.len(),
    {
        let ghost t0 = self@;
        let fresh = self.nodes.len();
        self.nodes[cur].keys.push(key);
        self.nodes[cur].kids.push(fresh);
        self.nodes.push(Node::new());
        self.owner = Ghost(self.owner@.push(self.owner@[cur as int]));
        let ghost t1 = t0.add_child(cur, key@);
        assert(self@.nodes[cur as int].keys =~= t1.nodes[cur as int].keys);
        assert(self@.nodes =~= t1.nodes);
        assert(self@ == t1);
        proof {
            vstd::std_specs::vec::axiom_spec_len(&self.nodes);
            lemma_add_child(t0, cur, key@);
        }
        fresh
    }

    /// Stores cluster `id` for template `toks`: descends as `insert` says,
    /// making nodes on the way, and at the leaf keeps the ids that `cache`
    /// still holds before appending `id`.
    pub fn insert(
        &mut self,
        toks: &Vec<String>,
        id: usize,
        max_depth: usize,
        max_children: usize,
        wc: &String,
        cache: &ClusterCache,
    )
        requires
            old(self)@.wf(),
            max_children >= 1,
        ensures
            final(self)@ == old(self)@.insert(
                token_views(toks@),
                max_depth as nat,
                max_children as nat,
                wc@,
                lru_contents(*cache).dom(),
                id,
            ).0,
            final(self)@.wf(),
    {
        let ghost tv = token_views(toks@);
        let ghost live = lru_contents(*cache).dom();
        let ghost t0 = self@;
        let b = match self.find_bucket(toks.len()) {
            Some(b) => b,
            None => {
                let fresh = self.nodes.len();
                self.nodes.push(Node::new());
                self.lengths.push(toks.len());
                self.roots.push(fresh);
                self.owner = Ghost(self.owner@.push(toks.len() as nat));
                proof {
                    vstd::std_specs::vec::axiom_spec_len(&self.nodes);
                }
                fresh
            },
        };
        let ghost t1 = self@;
        proof {
            let (w, wb) = t0.with_bucket(tv.len());
            assert(t1.nodes =~= w.nodes);
            assert(t1.lengths =~= w.lengths);
            assert(t1.roots =~= w.roots);
            assert(t1.owner =~= w.owner);
            assert(b == wb);
            if t0.bucket(tv.len()) is None {
                assert(!t0.lengths.contains(toks.len()));
                assert forall|i: int| 0 <= i < t1.nodes.len() implies node_ok(t1, i) by {
                    if i < t0.nodes.len() {
                        assert(node_ok(t0, i));
                    }
                }
                assert forall|c: int| 0 <= c < t1.roots.len() implies #[trigger] t1.roots[c] < t1.nodes.len() by {
                    if c < t0.roots.len() {
                        assert(t0.roots[c] < t0.nodes.len());
                    }
                }
                assert forall|c: int| 0 <= c < t1.roots.len() implies t1.owner[#[trigger] t1.roots[c] as int] == t1.lengths[c] by {
                    if c < t0.roots.len() {
                        assert(t0.roots[c] < t0.nodes.len());
                    }
                }
            }
        }
        let mut cur = b;
        let mut depth: usize = 1;
        while depth < max_depth && depth < toks.len()
            invariant
                self@.wf(),
                cur < self@.nodes.len(),
                1 <= depth,
                max_children >= 1,
                tv == token_views(toks@),
                tv.len() == toks@.len(),
                live == lru_contents(*cache).dom(),
                t0.insert(tv, max_depth as nat, max_children as nat, wc@, live, id) == t1.insert_from(
                    b,
                    tv,
                    1,
                    max_depth as nat,
                    max_children as nat,
                    wc@,
                    live,
                    id,
                ),
                t1.insert_from(b, tv, 1, max_depth as nat, max_children as nat, wc@, live, id)
                    == self@.insert_from(
                    cur,
                    tv,
                    depth as nat,
                    max_depth as nat,
                    max_children as nat,
                    wc@,
                    live,
                    id,
                ),
            decreases toks.len() - depth,
        {
            let ghost tc = self@;
            assert(node_ok(tc, cur as int));
            let tok = &toks[depth - 1];
            assert(tv[depth - 1] == tok@);
            let next = match self.nodes[cur].find_child(tok) {
                Some(c) => c,
                None => match self.nodes[cur].find_child(wc) {
                    Some(w) => {
                        if !has_number(tok.as_str()) && self.nodes[cur].keys.len() < max_children {
                            self.add_child(cur, tok.clone())
                        } else {
                            w
                        }
                    },
                    None => {
                        if !has_number(tok.as_str()) && self.nodes[cur].keys.len() < max_children
                            - 1 {
                            self.add_child(cur, tok.clone())
                        } else {
                            self.add_child(cur, wc.clone())
                        }
                    },
                },
            };
            assert((self@, next) == tc.insert_step(cur, tv[depth - 1], max_children as nat, wc@));
            cur = next;
            depth += 1;
        }
        let ghost tc = self@;
        let mut kept: Vec<usize> = Vec::new();
        let mut i: usize = 0;
        let n_ids = self.nodes[cur].cluster_ids.len();
        while i < n_ids
            invariant
                self@ == tc,
                cur < tc.nodes.len(),
                n_ids == tc.nodes[cur as int].ids.len(),
                i <= n_ids,
                live == lru_contents(*cache).dom(),
                kept@ == tc.nodes[cur as int].ids.take(i as int).filter(|x: usize| live.contains(x)),
            decreases n_ids - i,
        {
            let x = self.nodes[cur].cluster_ids[i];
            proof {
                let ids = tc.nodes[cur as int].ids;
                assert(ids.take(i as int + 1) =~= ids.take(i as int).push(x));
                ids.take(i as int).lemma_filter_push(x, |x: usize| live.contains(x));
            }
            if cache_contains(cache, x) {
                kept.push(x);
            }
            i += 1;
        }
        kept.push(id);
        proof {
            let ids = tc.nodes[cur as int].ids;
            assert(ids.take(n_ids as int) =~= ids);
        }
        self.nodes[cur].cluster_ids = kept;
        proof {
            let n = tc.nodes[cur as int];
            let kept_v = n.ids.filter(|x: usize| live.contains(x)).push(id);
            let t2 = TreeView { nodes: tc.nodes.update(cur as int, NodeView { ids: kept_v, ..n }), ..tc };
            assert(self@.nodes[cur as int].keys =~= t2.nodes[cur as int].keys);
            assert(self@.nodes =~= t2.nodes);
            assert(self@ == t2);
            assert forall|j: int| 0 <= j < t2.nodes.len() implies node_ok(t2, j) by {
                assert(node_ok(tc, j));
            }
            assert forall|c: int| 0 <= c < t2.roots.len() implies #[trigger] t2.roots[c] < t2.nodes.len() by {
                assert(tc.roots[c] < tc.nodes.len());
            }
            assert forall|c: int| 0 <= c < t2.roots.len() implies t2.owner[#[trigger] t2.roots[c] as int] == t2.lengths[c] by {
                assert(tc.roots[c] < tc.nodes.len());
            }
        }
    }
}

} // verus!
