//! Properties of the miner that hold across calls.

use vstd::prelude::*;
use crate::cluster::ClusterView;
use crate::drain::{DrainView, lemma_train_lengths, lemma_train_wf, lemma_put_store};
use crate::matcher::{
    better, best_of, score, meets, lemma_counts_bounded, lemma_self_counts, lemma_merge_counts,
    lemma_best_of_first_max, lemma_best_of_pick,
};
use crate::tree::{lemma_insert, lemma_locate_owner};

verus! {

/// Training on each line in order: the final state and the cluster handed
/// back for each line.
pub open spec fn replay(v: DrainView, lines: Seq<Seq<Seq<char>>>) -> (DrainView, Seq<ClusterView>)
    decreases lines.len(),
{
    if lines.len() == 0 {
        (v, Seq::empty())
    } else {
        let (w, out) = replay(v, lines.drop_last());
        let (w2, c) = w.train(lines.last());
        (w2, out.push(c))
    }
}

/// Determinism: two fresh miners with the same configuration, fed the same
/// lines in the same order, hand back the same ids, templates and sizes, and
/// end in the same state.
pub proof fn lemma_replay_deterministic(a: DrainView, b: DrainView, lines: Seq<Seq<Seq<char>>>)
    requires
        a.is_fresh(),
        b.is_fresh(),
        a.same_config(b),
    ensures
        replay(a, lines) == replay(b, lines),
{
    assert(a.store =~= b.store);
    assert(a.recency =~= b.recency);
    assert(a.tree.nodes =~= b.tree.nodes);
    assert(a.tree.lengths =~= b.tree.lengths);
    assert(a.tree.roots =~= b.tree.roots);
    assert(a.tree.owner =~= b.tree.owner);
    assert(a.tree == b.tree);
    assert(a == b);
}

/// Monotone generalization: a cluster that the store holds before and after
/// a line is trained keeps its template length, its wildcard positions stay
/// wildcards, and its size does not shrink.
pub proof fn lemma_wildcards_only_grow(v: DrainView, toks: Seq<Seq<char>>)
    requires
        v.wf(),
        v.has_room(),
    ensures
        ({
            let w = v.train(toks).0;
            forall|k: usize| #[trigger]
                v.store.contains_key(k) && w.store.contains_key(k) ==> {
                    &&& w.store[k].template.len() == v.store[k].template.len()
                    &&& w.store[k].size >= v.store[k].size
                    &&& forall|i: int|
                        0 <= i < v.store[k].template.len() && v.store[k].template[i] == v.wildcard
                            ==> #[trigger] w.store[k].template[i] == v.wildcard
                }
        }),
{
    lemma_train_lengths(v, toks);
    let (after, found) = v.search(toks, v.threshold, false);
    let (w, c) = v.train(toks);
    match found {
        Some(id) => {
            lemma_put_store(after, id, c);
        },
        None => {
            let id = (v.counter + 1) as usize;
            lemma_put_store(after, id, c);
            assert forall|k: usize| #[trigger]
                v.store.contains_key(k) && w.store.contains_key(k) implies k != id by {}
        },
    }
}

/// Length segregation, one step: the cluster that a line joins leaves with
/// one template token per line token, and is either new or already had a
/// template of that length.
pub proof fn lemma_joined_cluster_length(v: DrainView, toks: Seq<Seq<char>>)
    requires
        v.wf(),
        v.has_room(),
    ensures
        ({
            let c = v.train(toks).1;
            &&& c.template.len() == toks.len()
            &&& c.id > v.counter || (v.store.contains_key(c.id as usize) && c.id <= usize::MAX
                && v.store[c.id as usize].template.len() == toks.len())
        }),
{
    lemma_train_lengths(v, toks);
    if let Some(x) = v.search(toks, v.threshold, false).1 {
        assert(v.store[x].id == x);
    }
}

/// Length segregation: two lines with different token counts, trained one
/// after the other, end up in different clusters, whatever the threshold.
pub proof fn lemma_length_segregation(v: DrainView, a: Seq<Seq<char>>, b: Seq<Seq<char>>)
    requires
        v.wf(),
        v.has_room(),
        v.train(a).0.has_room(),
        a.len() <= usize::MAX,
        a.len() != b.len(),
    ensures
        v.train(a).1.id != v.train(a).0.train(b).1.id,
{
    let (v1, c1) = v.train(a);
    lemma_train_wf(v, a);
    lemma_joined_cluster_length(v, a);
    lemma_joined_cluster_length(v1, b);
    lemma_wildcards_only_grow(v, a);
    let (after, found) = v.search(a, v.threshold, false);
    lemma_train_lengths(v, a);
    if let Some(x) = found {
        assert(v.store[x].id == x);
        lemma_put_store(after, x, c1);
    } else {
        lemma_put_store(after, (v.counter + 1) as usize, c1);
    }
    assert(v1.store.contains_key(c1.id as usize));
    assert(v1.store[c1.id as usize] == c1);
}

/// After a line is trained, a lookup of the same line finds the cluster
/// that it joined or started.
pub proof fn lemma_search_finds_trained(v: DrainView, toks: Seq<Seq<char>>)
    requires
        v.wf(),
        v.has_room(),
        toks.len() <= usize::MAX,
        forall|i: int| 0 <= i < toks.len() ==> toks[i] != v.wildcard,
    ensures
        ({
            let (v1, c1) = v.train(toks);
            &&& c1.id <= usize::MAX
            &&& v1.store.contains_key(c1.id as usize)
            &&& v1.store[c1.id as usize] == c1
            &&& v1.search(toks, v1.threshold, false).1 == Some(c1.id as usize)
        }),
{
    let n = toks.len();
    let wc = v.wildcard;
    let th = v.threshold;
    lemma_train_lengths(v, toks);
    let (after, found) = v.search(toks, th, false);
    let (v1, c1) = v.train(toks);
    let ids = v.candidates(toks);
    lemma_best_of_first_max(v.store, ids, toks, wc, false);
    match found {
        Some(x) => {
            assert(v.store[x].id == x);
            lemma_put_store(after, x, c1);
            let old_t = v.store[x].template;
            lemma_merge_counts(toks, old_t, wc, n as int);
            assert(v1.tree == v.tree);
            assert(v1.candidates(toks) == ids);
            let store1 = v1.store;
            let k = choose|k: int|
                0 <= k < ids.len() && ids[k] == x && v.store.contains_key(x) && (forall|j: int|
                    0 <= j < k && v.store.contains_key(#[trigger] ids[j]) ==> better(
                        score(v.store[x].template, toks, wc, false),
                        score(v.store[ids[j]].template, toks, wc, false),
                    )) && (forall|j: int|
                    k < j < ids.len() && v.store.contains_key(#[trigger] ids[j]) ==> !better(
                        score(v.store[ids[j]].template, toks, wc, false),
                        score(v.store[x].template, toks, wc, false),
                    ));
            assert(score(store1[x].template, toks, wc, false).0 == score(old_t, toks, wc, false).0);
            assert(score(store1[x].template, toks, wc, false).1 >= score(old_t, toks, wc, false).1);
            assert forall|j: int| 0 <= j < k && store1.contains_key(#[trigger] ids[j]) implies better(
                score(store1[ids[k]].template, toks, wc, false),
                score(store1[ids[j]].template, toks, wc, false),
            ) by {
                if ids[j] != x {
                    assert(v.store.contains_key(ids[j]));
                }
            }
            assert forall|j: int| k < j < ids.len() && store1.contains_key(#[trigger] ids[j]) implies !better(
                score(store1[ids[j]].template, toks, wc, false),
                score(store1[ids[k]].template, toks, wc, false),
            ) by {
                if ids[j] != x {
                    assert(v.store.contains_key(ids[j]));
                }
            }
            lemma_best_of_pick(store1, ids, k, toks, wc, false);
        },
        None => {
            let id = (v.counter + 1) as usize;
            let stored = DrainView { counter: id as nat, ..after.put(id, c1) };
            lemma_put_store(after, id, c1);
            let live = stored.store.dom();
            lemma_insert(stored.tree, toks, v.max_depth, v.max_children, wc, live, id);
            let (t2, leaf) = stored.tree.insert(toks, v.max_depth, v.max_children, wc, live, id);
            assert(v1.tree == t2);
            let base = if leaf < v.tree.nodes.len() {
                v.tree.nodes[leaf as int].ids
            } else {
                Seq::<usize>::empty()
            };
            let f = base.filter(|z: usize| live.contains(z));
            let cands = f.push(id);
            assert(v1.candidates(toks) == cands);
            let k = cands.len() - 1;
            lemma_self_counts(toks, wc, n as int);
            assert(score(v1.store[id].template, toks, wc, false) == (n, 0nat));
            assert forall|j: int| 0 <= j < k && v1.store.contains_key(#[trigger] cands[j]) implies better(
                score(v1.store[cands[k]].template, toks, wc, false),
                score(v1.store[cands[j]].template, toks, wc, false),
            ) by {
                let d = cands[j];
                assert(f[j] == d);
                assert(f.contains(d));
                base.lemma_filter_contains_rev(|z: usize| live.contains(z), d);
                let j2 = choose|j2: int| 0 <= j2 < base.len() && base[j2] == d;
                assert(leaf < v.tree.nodes.len());
                assert(v.tree.nodes[leaf as int].ids[j2] == d);
                assert(d <= v.counter);
                assert(v.store.contains_key(d));
                assert(v1.store[d] == v.store[d]);
                lemma_locate_owner(v.tree, toks, v.max_depth, wc);
                assert(ids == base);
                let sd = score(v.store[d].template, toks, wc, false);
                assert(v.store[d].template.len() == n);
                lemma_counts_bounded(v.store[d].template, toks, wc, n as int);
                if sd.0 == n {
                    let y = best_of(v.store, ids, toks, wc, false)->0;
                    let sy = score(v.store[y].template, toks, wc, false);
                    assert(sy.0 >= n);
                    assert(sy.0 * th.den >= th.num * n) by (nonlinear_arith)
                        requires
                            sy.0 >= n,
                            th.num <= th.den,
                    ;
                    assert(meets(th, sy.0, n));
                    // the first lookup would then have matched
                    assert(false);
                }
            }
            lemma_best_of_pick(v1.store, cands, k, toks, wc, false);
            assert(n * th.den >= th.num * n) by (nonlinear_arith)
                requires
                    th.num <= th.den,
            ;
        },
    }
}

/// Re-submission stability: training the same line twice in a row hands
/// back the same cluster both times, one larger the second time.
pub proof fn lemma_resubmission(v: DrainView, toks: Seq<Seq<char>>)
    requires
        v.wf(),
        v.has_room(),
        v.train(toks).0.has_room(),
        toks.len() <= usize::MAX,
        forall|i: int| 0 <= i < toks.len() ==> toks[i] != v.wildcard,
    ensures
        v.train(toks).0.train(toks).1.id == v.train(toks).1.id,
        v.train(toks).0.train(toks).1.size == v.train(toks).1.size + 1,
{
    lemma_search_finds_trained(v, toks);
    let (v1, c1) = v.train(toks);
    lemma_train_wf(v, toks);
    assert(v1.store[c1.id as usize].id == c1.id as usize);
}

/// Every state that a replay passes through, before each line, is well
/// formed and has room for one more line, and every line has at most
/// `usize::MAX` tokens.
pub open spec fn replay_fits(v: DrainView, lines: Seq<Seq<Seq<char>>>) -> bool
    decreases lines.len(),
{
    if lines.len() == 0 {
        v.wf()
    } else {
        &&& replay_fits(v, lines.drop_last())
        &&& replay(v, lines.drop_last()).0.has_room()
        &&& lines.last().len() <= usize::MAX
    }
}

/// What a replay keeps of the clusters it handed back: each id was handed
/// out, and where the store still holds it, its template is as long as the
/// line that got it.
proof fn lemma_replay_ids(v: DrainView, lines: Seq<Seq<Seq<char>>>)
    requires
        replay_fits(v, lines),
    ensures
        replay(v, lines).0.wf(),
        replay(v, lines).1.len() == lines.len(),
        forall|i: int|
            0 <= i < lines.len() ==> {
                let w = replay(v, lines).0;
                let c = #[trigger] replay(v, lines).1[i];
                &&& c.id <= w.counter
                &&& c.id <= usize::MAX
                &&& (w.store.contains_key(c.id as usize) ==> w.store[c.id as usize].template.len()
                    == lines[i].len())
            },
    decreases lines.len(),
{
    if lines.len() > 0 {
        let pre = lines.drop_last();
        let l = lines.last();
        lemma_replay_ids(v, pre);
        let (w, out) = replay(v, pre);
        let (w2, c) = w.train(l);
        lemma_train_wf(w, l);
        lemma_joined_cluster_length(w, l);
        lemma_wildcards_only_grow(w, l);
        let (after, found) = w.search(l, w.threshold, false);
        lemma_train_lengths(w, l);
        if let Some(x) = found {
            assert(w.store[x].id == x);
            lemma_put_store(after, x, c);
        } else {
            lemma_put_store(after, (w.counter + 1) as usize, c);
        }
        assert forall|i: int| 0 <= i < lines.len() implies {
            let c2 = #[trigger] replay(v, lines).1[i];
            &&& c2.id <= w2.counter
            &&& c2.id <= usize::MAX
            &&& (w2.store.contains_key(c2.id as usize) ==> w2.store[c2.id as usize].template.len()
                == lines[i].len())
        } by {
            if i < pre.len() {
                assert(replay(v, lines).1[i] == out[i]);
                assert(lines[i] == pre[i]);
                let k = out[i].id as usize;
                if w2.store.contains_key(k) && k != c.id as usize {
                    assert(w.store.contains_key(k));
                }
            } else {
                assert(replay(v, lines).1[i] == c);
            }
        }
    }
}

/// Length segregation: in any sequence of trained lines, two lines with
/// different token counts are never handed the same cluster, whatever the
/// threshold.
pub proof fn lemma_replay_length_segregation(v: DrainView, lines: Seq<Seq<Seq<char>>>, i: int, j: int)
    requires
        replay_fits(v, lines),
        0 <= i < j < lines.len(),
        lines[i].len() != lines[j].len(),
    ensures
        replay(v, lines).1[i].id != replay(v, lines).1[j].id,
    decreases lines.len(),
{
    let pre = lines.drop_last();
    if j < lines.len() - 1 {
        lemma_replay_length_segregation(v, pre, i, j);
        lemma_replay_ids(v, pre);
        assert(replay(v, lines).1[i] == replay(v, pre).1[i]);
        assert(replay(v, lines).1[j] == replay(v, pre).1[j]);
    } else {
        lemma_replay_ids(v, pre);
        let (w, out) = replay(v, pre);
        let l = lines.last();
        lemma_joined_cluster_length(w, l);
        assert(replay(v, lines).1[j] == w.train(l).1);
        assert(replay(v, lines).1[i] == out[i]);
        assert(lines[i] == pre[i]);
    }
}

} // verus!
