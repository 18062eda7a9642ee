//! The template miner: looks a line's tokens up in the prefix tree, scores
//! the candidates, and either generalizes the best cluster or starts a new one.

use vstd::prelude::*;
use crate::cluster::{LogCluster, ClusterView, joined};
pub use crate::matcher::Threshold;
use crate::matcher::{
    score, meets, best_of, merge_template, create_template, fast_match,
    lemma_best_of_live,
};
use crate::store::{
    ClusterCache, lru_contents, lru_recency, lru_capacity, touch, touch_all, cache_bounded,
    cache_unbounded, cache_put, cache_values, lemma_touch, lemma_touch_all,
};
use crate::text::{token_views, whitespace_tokens, tokenize};
use crate::tree::{PrefixTree, TreeView, lemma_locate_owner, lemma_insert};

verus! {

/// The state of a miner.
pub struct DrainView {
    /// The clusters that the store holds, by id.
    pub store: Map<usize, ClusterView>,
    /// The store's ids, least recently used first.
    pub recency: Seq<usize>,
    pub capacity: nat,
    /// The last id handed out.
    pub counter: nat,
    pub tree: TreeView,
    pub max_depth: nat,
    pub max_children: nat,
    pub threshold: Threshold,
    pub wildcard: Seq<char>,
}

impl DrainView {
    /// The invariant of a miner's state: a well-formed tree, a valid
    /// configuration, a recency order that lists each stored id once, stored
    /// clusters that know their own id, and leaf ids as `ids_ok` says.
    pub open spec fn wf(self) -> bool {
        &&& self.tree.wf()
        &&& self.tree.fanout_ok(self.max_children, self.wildcard)
        &&& self.max_depth >= 1
        &&& self.max_children >= 1
        &&& self.threshold.valid()
        &&& self.capacity >= 1
        &&& self.counter <= usize::MAX
        &&& self.recency.no_duplicates()
        &&& forall|i: int| 0 <= i < self.recency.len() ==> self.store.contains_key(#[trigger] self.recency[i])
        &&& forall|k: usize| #[trigger]
            self.store.contains_key(k) ==> self.store[k].id == k && 1 <= k <= self.counter
        &&& self.ids_ok()
    }

    /// Every id at a leaf has been handed out, and where the store still
    /// holds it, its template is as long as the token count of the leaf's
    /// bucket.
    pub open spec fn ids_ok(self) -> bool {
        forall|i: int, j: int|
            0 <= i < self.tree.nodes.len() && 0 <= j < self.tree.nodes[i].ids.len() ==> (
            #[trigger] self.tree.nodes[i].ids[j]) <= self.counter && (self.store.contains_key(
                self.tree.nodes[i].ids[j],
            ) ==> self.store[self.tree.nodes[i].ids[j]].template.len() == self.tree.owner[i])
    }

    /// A miner that has not been trained yet.
    pub open spec fn is_fresh(self) -> bool {
        &&& self.store.dom() == Set::<usize>::empty()
        &&& self.recency.len() == 0
        &&& self.counter == 0
        &&& self.tree.nodes.len() == 0
        &&& self.tree.lengths.len() == 0
        &&& self.tree.roots.len() == 0
        &&& self.tree.owner.len() == 0
    }

    /// Two miners made with the same configuration.
    pub open spec fn same_config(self, other: DrainView) -> bool {
        &&& self.capacity == other.capacity
        &&& self.max_depth == other.max_depth
        &&& self.max_children == other.max_children
        &&& self.threshold == other.threshold
        &&& self.wildcard == other.wildcard
    }

    /// Another line can be trained without an id, a size or the node arena
    /// passing `usize::MAX`.
    pub open spec fn has_room(self) -> bool {
        &&& self.counter < usize::MAX
        &&& self.tree.nodes.len() + self.max_depth < usize::MAX
        &&& forall|k: usize| #[trigger] self.store.contains_key(k) ==> self.store[k].size < usize::MAX
    }

    /// The candidate ids for `toks`: those at the leaf that the lookup reaches.
    pub open spec fn candidates(self, toks: Seq<Seq<char>>) -> Seq<usize> {
        match self.tree.locate(toks, self.max_depth, self.wildcard) {
            Some(l) => self.tree.nodes[l as int].ids,
            None => Seq::empty(),
        }
    }

    /// A lookup: the state after it (each candidate read counts as a use)
    /// and the id of the matching cluster, if one reaches the threshold.
    pub open spec fn search(self, toks: Seq<Seq<char>>, th: Threshold, include_params: bool) -> (DrainView, Option<usize>) {
        let ids = self.candidates(toks);
        let after = DrainView { recency: touch_all(self.recency, self.store.dom(), ids), ..self };
        let found = match best_of(self.store, ids, toks, self.wildcard, include_params) {
            Some(x) => if meets(th, score(self.store[x].template, toks, self.wildcard, include_params).0, toks.len()) {
                Some(x)
            } else {
                None
            },
            None => None,
        };
        (after, found)
    }

    /// The state after cluster `c` is stored under `k` as the most recent
    /// entry; a new key in a full store first drops the least recent entry.
    pub open spec fn put(self, k: usize, c: ClusterView) -> DrainView {
        if self.store.contains_key(k) {
            DrainView { store: self.store.insert(k, c), recency: touch(self.recency, k), ..self }
        } else if self.recency.len() == self.capacity {
            DrainView {
                store: self.store.remove(self.recency[0]).insert(k, c),
                recency: self.recency.drop_first().push(k),
                ..self
            }
        } else {
            DrainView { store: self.store.insert(k, c), recency: self.recency.push(k), ..self }
        }
    }

    /// Training on one tokenized line: the state after it and the cluster
    /// that the line joined or started.
    pub open spec fn train(self, toks: Seq<Seq<char>>) -> (DrainView, ClusterView) {
        let (after, found) = self.search(toks, self.threshold, false);
        match found {
            Some(id) => {
                let old_c = self.store[id];
                let c = ClusterView {
                    id: old_c.id,
                    template: merge_template(toks, old_c.template, self.wildcard),
                    size: old_c.size + 1,
                };
                (after.put(id, c), c)
            },
            None => {
                let id = (self.counter + 1) as usize;
                let c = ClusterView { id: id as nat, template: toks, size: 1 };
                let stored = DrainView { counter: id as nat, ..after.put(id, c) };
                let tree = stored.tree.insert(
                    toks,
                    self.max_depth,
                    self.max_children,
                    self.wildcard,
                    stored.store.dom(),
                    id,
                ).0;
                (DrainView { tree, ..stored }, c)
            },
        }
    }
}

/// One line of a report on a log: the line's index, the text of its
/// cluster's template, and the cluster's size.
pub struct ReportRow {
    pub line_index: usize,
    pub template: String,
    pub cluster_size: usize,
}

pub open spec fn row_views(rows: Seq<ReportRow>) -> Seq<(nat, Seq<char>, nat)> {
    rows.map_values(|r: ReportRow| (r.line_index as nat, r.template@, r.cluster_size as nat))
}

/// Looking each line up in turn: the state after, a row for each line whose
/// cluster has more than one member, and the number of the other lines.
pub open spec fn report(v: DrainView, lines: Seq<Seq<char>>) -> (DrainView, Seq<(nat, Seq<char>, nat)>, nat)
    decreases lines.len(),
{
    if lines.len() == 0 {
        (v, Seq::empty(), 0)
    } else {
        let (w, rows, missed) = report(v, lines.drop_last());
        let (w2, found) = w.search(whitespace_tokens(lines.last()), w.threshold, false);
        match found {
            Some(x) => if w.store[x].size > 1 {
                (w2, rows.push(((lines.len() - 1) as nat, joined(w.store[x].template), w.store[x].size)), missed)
            } else {
                (w2, rows, missed + 1)
            },
            None => (w2, rows, missed + 1),
        }
    }
}

/// Why a miner could not be made.
#[derive(Clone, Copy, Debug, PartialEq, Eq)]
pub enum DrainError {
    ZeroCapacity,
    ZeroDepth,
    ZeroChildren,
    InvalidThreshold,
}

/// A miner of log templates.
pub struct Drain {
    id_to_cluster: ClusterCache,
    max_node_depth: usize,
    sim_th: Threshold,
    max_children: usize,
    cluster_counter: usize,
    root: PrefixTree,
    param_str: String,
}

impl View for Drain {
    type V = DrainView;

    closed spec fn view(&self) -> DrainView {
        DrainView {
            store: lru_contents(self.id_to_cluster).map_values(|c: LogCluster| c@),
            recency: lru_recency(self.id_to_cluster),
            capacity: lru_capacity(self.id_to_cluster),
            counter: self.cluster_counter as nat,
            tree: self.root@,
            max_depth: self.max_node_depth as nat,
            max_children: self.max_children as nat,
            threshold: self.sim_th,
            wildcard: self.param_str@,
        }
    }
}

/// Storing a cluster keeps the recency order free of repeats and made of
/// stored ids.
pub proof fn lemma_put_wf(v: DrainView, k: usize, c: ClusterView)
    requires
        v.capacity >= 1,
        v.recency.no_duplicates(),
        forall|i: int| 0 <= i < v.recency.len() ==> v.store.contains_key(#[trigger] v.recency[i]),
    ensures
        v.put(k, c).recency.no_duplicates(),
        forall|i: int| 0 <= i < v.put(k, c).recency.len() ==> v.put(k, c).store.contains_key(
            #[trigger] v.put(k, c).recency[i],
        ),
{
    let w = v.put(k, c);
    if v.store.contains_key(k) {
        assert forall|i: int| 0 <= i < v.recency.len() implies w.store.dom().contains(#[trigger] v.recency[i]) by {
            assert(v.store.contains_key(v.recency[i]));
        }
        lemma_touch(v.recency, w.store.dom(), k);
    } else if v.recency.len() == v.capacity {
        let d = v.recency.drop_first();
        assert forall|i: int| 0 <= i < w.recency.len() implies w.store.contains_key(#[trigger] w.recency[i]) by {
            if i < d.len() {
                assert(w.recency[i] == v.recency[i + 1]);
                assert(v.recency[i + 1] != v.recency[0]);
                assert(v.store.contains_key(v.recency[i + 1]));
            }
        }
        assert forall|a: int, b: int| 0 <= a < b < w.recency.len() implies w.recency[a] != w.recency[b] by {
            if b == w.recency.len() - 1 {
                assert(w.recency[a] == v.recency[a + 1]);
                assert(v.store.contains_key(v.recency[a + 1]));
            } else {
                assert(w.recency[a] == v.recency[a + 1]);
                assert(w.recency[b] == v.recency[b + 1]);
            }
        }
    } else {
        assert forall|i: int| 0 <= i < w.recency.len() implies w.store.contains_key(#[trigger] w.recency[i]) by {
            if i < v.recency.len() {
                assert(w.recency[i] == v.recency[i]);
                assert(v.store.contains_key(v.recency[i]));
            }
        }
        assert forall|a: int, b: int| 0 <= a < b < w.recency.len() implies w.recency[a] != w.recency[b] by {
            if b == w.recency.len() - 1 {
                assert(w.recency[a] == v.recency[a]);
                assert(v.store.contains_key(v.recency[a]));
            }
        }
    }
}

/// The store after `put` holds only `k` and what it held before, unchanged.
pub proof fn lemma_put_store(v: DrainView, k: usize, c: ClusterView)
    ensures
        v.put(k, c).store.contains_key(k),
        v.put(k, c).store[k] == c,
        forall|x: usize| #[trigger] v.put(k, c).store.contains_key(x) && x != k ==> v.store.contains_key(x)
            && v.put(k, c).store[x] == v.store[x],
{
}

/// The cluster that training returns has one token per input token, and a
/// matched cluster had as many before.
pub proof fn lemma_train_lengths(v: DrainView, toks: Seq<Seq<char>>)
    requires
        v.wf(),
    ensures
        v.train(toks).1.template.len() == toks.len(),
        v.search(toks, v.threshold, false).1 matches Some(x) ==> v.store.contains_key(x)
            && v.store[x].template.len() == toks.len(),
{
    let ids = v.candidates(toks);
    lemma_best_of_live(v.store, ids, toks, v.wildcard, false);
    if let Some(x) = v.search(toks, v.threshold, false).1 {
        lemma_locate_owner(v.tree, toks, v.max_depth, v.wildcard);
        let l = v.tree.locate(toks, v.max_depth, v.wildcard)->0;
        let j = choose|j: int| 0 <= j < ids.len() && ids[j] == x;
        assert(v.tree.nodes[l as int].ids[j] == x);
    }
}

/// Training keeps every leaf id handed out and of its bucket's length.
pub proof fn lemma_train_ids(v: DrainView, toks: Seq<Seq<char>>)
    requires
        v.wf(),
        v.has_room(),
        toks.len() <= usize::MAX,
    ensures
        v.train(toks).0.ids_ok(),
{
    lemma_train_lengths(v, toks);
    let (after, found) = v.search(toks, v.threshold, false);
    let (w, c) = v.train(toks);
    match found {
        Some(id) => {
            lemma_put_store(after, id, c);
            assert forall|i: int, j: int|
                0 <= i < w.tree.nodes.len() && 0 <= j < w.tree.nodes[i].ids.len() implies (
                #[trigger] w.tree.nodes[i].ids[j]) <= w.counter && (w.store.contains_key(
                    w.tree.nodes[i].ids[j],
                ) ==> w.store[w.tree.nodes[i].ids[j]].template.len() == w.tree.owner[i]) by {
                assert(v.tree.nodes[i].ids[j] <= v.counter);
            }
        },
        None => {
            let id = (v.counter + 1) as usize;
            let stored = DrainView { counter: id as nat, ..after.put(id, c) };
            lemma_put_store(after, id, c);
            let live = stored.store.dom();
            lemma_insert(stored.tree, toks, v.max_depth, v.max_children, v.wildcard, live, id);
            let (t2, leaf) = stored.tree.insert(toks, v.max_depth, v.max_children, v.wildcard, live, id);
            assert(w.tree == t2);
            assert forall|i: int, j: int|
                0 <= i < w.tree.nodes.len() && 0 <= j < w.tree.nodes[i].ids.len() implies (
                #[trigger] w.tree.nodes[i].ids[j]) <= w.counter && (w.store.contains_key(
                    w.tree.nodes[i].ids[j],
                ) ==> w.store[w.tree.nodes[i].ids[j]].template.len() == w.tree.owner[i]) by {
                let k = w.tree.nodes[i].ids[j];
                if i == leaf {
                    let base = if leaf < v.tree.nodes.len() {
                        v.tree.nodes[leaf as int].ids
                    } else {
                        Seq::<usize>::empty()
                    };
                    let f = base.filter(|x: usize| live.contains(x));
                    if j < f.len() {
                        assert(f[j] == k);
                        assert(f.contains(k));
                        base.lemma_filter_contains_rev(|x: usize| live.contains(x), k);
                        let j2 = choose|j2: int| 0 <= j2 < base.len() && base[j2] == k;
                        assert(leaf < v.tree.nodes.len());
                        assert(v.tree.nodes[leaf as int].ids[j2] == k);
                        assert(k <= v.counter);
                    }
                } else {
                    assert(i < v.tree.nodes.len());
                    assert(v.tree.nodes[i].ids[j] == k);
                    assert(k <= v.counter);
                }
            }
        },
    }
}

/// Training keeps the miner well formed.
pub proof fn lemma_train_wf(v: DrainView, toks: Seq<Seq<char>>)
    requires
        v.wf(),
        v.has_room(),
        toks.len() <= usize::MAX,
    ensures
        v.train(toks).0.wf(),
{
    lemma_train_ids(v, toks);
    lemma_train_lengths(v, toks);
    let (after, found) = v.search(toks, v.threshold, false);
    let (w, c) = v.train(toks);
    let ids = v.candidates(toks);
    assert forall|i: int| 0 <= i < v.recency.len() implies v.store.dom().contains(#[trigger] v.recency[i]) by {
        assert(v.store.contains_key(v.recency[i]));
    }
    lemma_touch_all(v.recency, v.store.dom(), ids);
    match found {
        Some(id) => {
            lemma_put_wf(after, id, c);
            lemma_put_store(after, id, c);
            assert forall|k: usize| #[trigger] w.store.contains_key(k) implies w.store[k].id == k && 1 <= k
                <= w.counter by {
                if k != id {
                    assert(v.store.contains_key(k));
                } else {
                    assert(v.store.contains_key(id));
                }
            }
        },
        None => {
            let id = (v.counter + 1) as usize;
            let stored = DrainView { counter: id as nat, ..after.put(id, c) };
            lemma_put_wf(after, id, c);
            lemma_put_store(after, id, c);
            lemma_insert(stored.tree, toks, v.max_depth, v.max_children, v.wildcard, stored.store.dom(), id);
            assert forall|k: usize| #[trigger] w.store.contains_key(k) implies w.store[k].id == k && 1 <= k
                <= w.counter by {
                if k != id {
                    assert(v.store.contains_key(k));
                }
            }
        },
    }
}

/// The store's view after `cache_put` of `k` and `v`, as `DrainView::put` says.
proof fn lemma_put_view(before: DrainView, c0: ClusterCache, c1: ClusterCache, k: usize, v: LogCluster)
    requires
        before.store == lru_contents(c0).map_values(|c: LogCluster| c@),
        before.recency == lru_recency(c0),
        before.capacity == lru_capacity(c0),
        lru_capacity(c1) == lru_capacity(c0),
        lru_contents(c0).contains_key(k) ==> lru_contents(c1) == lru_contents(c0).insert(k, v)
            && lru_recency(c1) == touch(lru_recency(c0), k),
        !lru_contents(c0).contains_key(k) && lru_recency(c0).len() == lru_capacity(c0)
            ==> lru_contents(c1) == lru_contents(c0).remove(lru_recency(c0)[0]).insert(k, v)
            && lru_recency(c1) == lru_recency(c0).drop_first().push(k),
        !lru_contents(c0).contains_key(k) && lru_recency(c0).len() != lru_capacity(c0)
            ==> lru_contents(c1) == lru_contents(c0).insert(k, v) && lru_recency(c1) == lru_recency(
            c0,
        ).push(k),
    ensures
        ({
            let after = before.put(k, v@);
            &&& after.store == lru_contents(c1).map_values(|c: LogCluster| c@)
            &&& after.recency == lru_recency(c1)
            &&& after.capacity == lru_capacity(c1)
        }),
{
    let after = before.put(k, v@);
    assert(after.store =~= lru_contents(c1).map_values(|c: LogCluster| c@));
}

impl Drain {
    /// The invariant that every operation keeps.
    pub closed spec fn well_formed(&self) -> bool {
        self@.wf()
    }

    /// A miner with the given configuration and no clusters. `max_clusters`
    /// bounds the store (unbounded where `None`); `sim_th` is the similarity
    /// threshold; `param_str` is the wildcard marker.
    pub fn new(
        max_clusters: Option<usize>,
        max_node_depth: usize,
        sim_th: Threshold,
        max_children: usize,
        param_str: String,
    ) -> (r: Result<Drain, DrainError>)
        ensures
            max_clusters == Some(0usize) ==> r == Err::<Drain, DrainError>(DrainError::ZeroCapacity),
            max_clusters != Some(0usize) && max_node_depth == 0 ==> r == Err::<Drain, DrainError>(
                DrainError::ZeroDepth,
            ),
            max_clusters != Some(0usize) && max_node_depth != 0 && max_children == 0 ==> r == Err::<
                Drain,
                DrainError,
            >(DrainError::ZeroChildren),
            max_clusters != Some(0usize) && max_node_depth != 0 && max_children != 0
                && !sim_th.valid() ==> r == Err::<Drain, DrainError>(DrainError::InvalidThreshold),
            r is Ok <==> (max_clusters != Some(0usize) && max_node_depth != 0 && max_children != 0
                && sim_th.valid()),
            r matches Ok(d) ==> d.well_formed() && d@.is_fresh() && d@.capacity == (match max_clusters {
                Some(c) => c as nat,
                None => usize::MAX as nat,
            }) && d@.max_depth == max_node_depth && d@.max_children == max_children
                && d@.threshold == sim_th && d@.wildcard == param_str@,
    {
        let id_to_cluster = match max_clusters {
            Some(c) => {
                if c == 0 {
                    return Err(DrainError::ZeroCapacity);
                }
                cache_bounded(c)
            },
            None => cache_unbounded(),
        };
        if max_node_depth == 0 {
            return Err(DrainError::ZeroDepth);
        }
        if max_children == 0 {
            return Err(DrainError::ZeroChildren);
        }
        if sim_th.den == 0 || sim_th.num > sim_th.den {
            return Err(DrainError::InvalidThreshold);
        }
        let d = Drain {
            id_to_cluster,
            max_node_depth,
            sim_th,
            max_children,
            cluster_counter: 0,
            root: PrefixTree::new(),
            param_str,
        };
        assert(d@.store.dom() =~= Set::<usize>::empty());
        Ok(d)
    }

    /// Looks `tokens` up: the best candidate at the leaf that the tree leads
    /// to, if its similarity reaches `sim_th`. Each candidate read counts as a
    /// use of it in the store's recency order.
    pub fn tree_search(&mut self, tokens: &Vec<String>, sim_th: Threshold, include_params: bool) -> (r:
        Option<LogCluster>)
        requires
            old(self).well_formed(),
        ensures
            final(self).well_formed(),
            final(self)@ == old(self)@.search(token_views(tokens@), sim_th, include_params).0,
            match old(self)@.search(token_views(tokens@), sim_th, include_params).1 {
                Some(x) => r matches Some(c) && c@ == old(self)@.store[x],
                None => r is None,
            },
    {
        let ghost v0 = self@;
        let ghost tv = token_views(tokens@);
        let leaf = self.root.locate(tokens, self.max_node_depth, &self.param_str);
        match leaf {
            None => {
                assert(v0.candidates(tv) =~= Seq::<usize>::empty());
                assert(v0.search(tv, sim_th, include_params).0 == v0);
                assert(v0.search(tv, sim_th, include_params).1 is None);
                None
            },
            Some(l) => {
                proof {
                    assert forall|k: usize| #[trigger]
                        lru_contents(self.id_to_cluster).contains_key(k) implies lru_contents(
                        self.id_to_cluster,
                    )[k].cluster_id == k by {
                        assert(v0.store.contains_key(k));
                    }
                }
                let r = fast_match(
                    &mut self.id_to_cluster,
                    &self.root.nodes[l].cluster_ids,
                    tokens,
                    &self.param_str,
                    sim_th,
                    include_params,
                );
                proof {
                    assert(v0.store.dom() =~= lru_contents(self.id_to_cluster).dom());
                    assert(self@.store == v0.store);
                    assert(v0.tree.nodes[l as int].ids == self.root.nodes@[l as int].cluster_ids@);
                    assert(v0.candidates(tv) == self.root.nodes@[l as int].cluster_ids@);
                    assert(self@ == v0.search(tv, sim_th, include_params).0);
                    assert forall|i: int| 0 <= i < v0.recency.len() implies v0.store.dom().contains(
                        #[trigger] v0.recency[i],
                    ) by {
                        assert(v0.store.contains_key(v0.recency[i]));
                    }
                    lemma_touch_all(v0.recency, v0.store.dom(), v0.candidates(tv));
                    lemma_best_of_live(v0.store, v0.candidates(tv), tv, v0.wildcard, include_params);
                }
                r
            },
        }
    }

    /// Trains on one tokenized line: the best matching cluster is generalized
    /// and grows by one, or a new cluster starts with the tokens as template.
    /// Returns the cluster as it is after the update.
    pub fn train_tokens(&mut self, tokens: Vec<String>) -> (r: LogCluster)
        requires
            old(self).well_formed(),
            old(self)@.has_room(),
        ensures
            final(self).well_formed(),
            (final(self)@, r@) == old(self)@.train(token_views(tokens@)),
    {
        let ghost v0 = self@;
        let ghost tv = token_views(tokens@);
        proof {
            vstd::std_specs::vec::axiom_spec_len(&tokens);
        }
        let th = self.sim_th;
        let found = self.tree_search(&tokens, th, false);
        let ghost v1 = self@;
        match found {
            Some(c) => {
                let ghost id = choose|x: usize| v0.search(tv, th, false).1 == Some(x);
                proof {
                    lemma_best_of_live(v0.store, v0.candidates(tv), tv, v0.wildcard, false);
                }
                assert(v0.store.contains_key(id));
                let tmpl = create_template(&tokens, &c.log_template_tokens, &self.param_str);
                let m = LogCluster { log_template_tokens: tmpl, cluster_id: c.cluster_id, size: c.size + 1 };
                let ghost c0 = self.id_to_cluster;
                let m2 = m.copy();
                cache_put(&mut self.id_to_cluster, m.cluster_id, m2);
                proof {
                    lemma_put_view(v1, c0, self.id_to_cluster, m.cluster_id, m2);
                    lemma_put_wf(v1, id, m@);
                    assert(self@ =~= v1.put(id, m@));
                    lemma_train_wf(v0, tv);
                }
                m
            },
            None => {
                self.cluster_counter += 1;
                let m = LogCluster { log_template_tokens: tokens, cluster_id: self.cluster_counter, size: 1 };
                let ghost c0 = self.id_to_cluster;
                let ghost v2 = self@;
                let m2 = m.copy();
                cache_put(&mut self.id_to_cluster, m.cluster_id, m2);
                proof {
                    lemma_put_view(v2, c0, self.id_to_cluster, m.cluster_id, m2);
                    lemma_put_wf(v2, m.cluster_id, m@);
                }
                let ghost v3 = self@;
                self.root.insert(
                    &m.log_template_tokens,
                    m.cluster_id,
                    self.max_node_depth,
                    self.max_children,
                    &self.param_str,
                    &self.id_to_cluster,
                );
                proof {
                    assert(v3.store.dom() =~= lru_contents(self.id_to_cluster).dom());
                    lemma_train_wf(v0, tv);
                }
                m
            },
        }
    }

    /// Trains on one line, split into tokens at whitespace.
    pub fn train(&mut self, log_message: &str) -> (r: LogCluster)
        requires
            old(self).well_formed(),
            old(self)@.has_room(),
        ensures
            final(self).well_formed(),
            (final(self)@, r@) == old(self)@.train(whitespace_tokens(log_message@)),
    {
        let tokens = tokenize(log_message);
        self.train_tokens(tokens)
    }

    /// The clusters that the store holds, most recently used first.
    pub fn clusters(&self) -> (r: Vec<LogCluster>)
        requires
            self.well_formed(),
        ensures
            r@.map_values(|c: LogCluster| c@) == self@.recency.reverse().map_values(|k: usize| self@.store[k]),
    {
        let r = cache_values(&self.id_to_cluster);
        proof {
            let order = lru_recency(self.id_to_cluster).reverse();
            assert(r@.map_values(|v: LogCluster| v@).len() == r@.len());
            assert(order.map_values(|k: usize| lru_contents(self.id_to_cluster)[k]@).len() == order.len());
            assert forall|i: int| 0 <= i < order.len() implies r@[i]@ == self@.store[order[i]] by {
                assert(r@.map_values(|v: LogCluster| v@)[i] == r@[i]@);
                assert(order.map_values(|k: usize| lru_contents(self.id_to_cluster)[k]@)[i]
                    == lru_contents(self.id_to_cluster)[order[i]]@);
                assert(order[i] == self@.recency[self@.recency.len() - 1 - i]);
                assert(self@.store.contains_key(self@.recency[self@.recency.len() - 1 - i]));
            }
            assert(r@.map_values(|c: LogCluster| c@) =~= order.map_values(|k: usize| self@.store[k]));
        }
        r
    }

    /// Looks each line up in turn, with the training threshold: a row for
    /// each line whose cluster has more than one member, and the number of
    /// lines without one.
    pub fn recurring_lines(&mut self, lines: &Vec<String>) -> (r: (Vec<ReportRow>, usize))
        requires
            old(self).well_formed(),
        ensures
            final(self).well_formed(),
            report(old(self)@, token_views(lines@)) == (final(self)@, row_views(r.0@), r.1 as nat),
    {
        let ghost v0 = self@;
        let ghost lv = token_views(lines@);
        let mut rows: Vec<ReportRow> = Vec::new();
        let mut missed: usize = 0;
        let mut i: usize = 0;
        while i < lines.len()
            invariant
                self.well_formed(),
                i <= lines.len(),
                missed <= i,
                lv == token_views(lines@),
                report(v0, lv.take(i as int)) == (self@, row_views(rows@), missed as nat),
            decreases lines.len() - i,
        {
            let ghost w = self@;
            let ghost before = rows@;
            proof {
                assert(lv.take(i as int + 1).drop_last() =~= lv.take(i as int));
                assert(lv.take(i as int + 1).last() == lines@[i as int]@);
            }
            let tokens = tokenize(lines[i].as_str());
            let th = self.sim_th;
            match self.tree_search(&tokens, th, false) {
                Some(c) => {
                    if c.size > 1 {
                        rows.push(ReportRow { line_index: i, template: c.to_string(), cluster_size: c.size });
                        assert(row_views(rows@) =~= row_views(before).push(
                            (i as nat, joined(c@.template), c.size as nat),
                        ));
                    } else {
                        missed += 1;
                    }
                },
                None => {
                    missed += 1;
                },
            }
            i += 1;
        }
        assert(lv.take(lines.len() as int) =~= lv);
        (rows, missed)
    }

    /// The similarity threshold that training uses.
    pub fn sim_th(&self) -> (r: Threshold)
        ensures
            r == self@.threshold,
    {
        self.sim_th
    }
}

impl Default for Drain {
    /// An unbounded miner of depth 2, threshold 0.4, at most 100 children
    /// per node, and `<*>` as the wildcard.
    fn default() -> (r: Self)
        ensures
            r.well_formed(),
            r@.is_fresh(),
            r@.capacity == usize::MAX,
            r@.max_depth == 2,
            r@.max_children == 100,
            r@.threshold == (Threshold { num: 2, den: 5 }),
            r@.wildcard == "<*>"@,
    {
        let d = Drain {
            id_to_cluster: cache_unbounded(),
            max_node_depth: 2,
            sim_th: Threshold { num: 2, den: 5 },
            max_children: 100,
            cluster_counter: 0,
            root: PrefixTree::new(),
            param_str: String::from_str("<*>"),
        };
        assert(d@.store.dom() =~= Set::<usize>::empty());
        d
    }
}

} // verus!