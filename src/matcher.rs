//! Scoring the candidate clusters against a line's tokens and picking the
//! best one.

use vstd::prelude::*;
use crate::cluster::{LogCluster, ClusterView};
use crate::store::{ClusterCache, lru_contents, lru_recency, lru_capacity, touch_all, cache_get};
use crate::text::token_views;

verus! {

/// A similarity threshold, as the fraction `num / den`.
#[derive(Clone, Copy, Debug, PartialEq, Eq)]
pub struct Threshold {
    pub num: u64,
    pub den: u64,
}

impl Threshold {
    /// A fraction between 0 and 1 inclusive.
    pub open spec fn valid(self) -> bool {
        self.den > 0 && self.num <= self.den
    }
}

/// Number of the first `n` positions where the template holds a literal
/// equal to the token.
pub open spec fn literal_hits(tmpl: Seq<Seq<char>>, toks: Seq<Seq<char>>, wc: Seq<char>, n: int) -> nat
    decreases n,
{
    if n <= 0 {
        0
    } else {
        literal_hits(tmpl, toks, wc, n - 1) + if tmpl[n - 1] != wc && tmpl[n - 1] == toks[n - 1] {
            1nat
        } else {
            0nat
        }
    }
}

/// Number of the first `n` positions where the template holds the wildcard.
pub open spec fn wildcards(tmpl: Seq<Seq<char>>, wc: Seq<char>, n: int) -> nat
    decreases n,
{
    if n <= 0 {
        0
    } else {
        wildcards(tmpl, wc, n - 1) + if tmpl[n - 1] == wc {
            1nat
        } else {
            0nat
        }
    }
}

pub open spec fn common_len(a: Seq<Seq<char>>, b: Seq<Seq<char>>) -> int {
    if a.len() <= b.len() {
        a.len() as int
    } else {
        b.len() as int
    }
}

/// A candidate's score against the tokens: the number of positions that
/// count as similar (wildcards too, where `include_params` is set), and the
/// number of wildcards.
pub open spec fn score(tmpl: Seq<Seq<char>>, toks: Seq<Seq<char>>, wc: Seq<char>, include_params: bool) -> (nat, nat) {
    let n = common_len(toks, tmpl);
    let w = wildcards(tmpl, wc, n);
    (literal_hits(tmpl, toks, wc, n) + if include_params {
        w
    } else {
        0nat
    }, w)
}

/// Higher similarity wins; on equal similarity, more wildcards win.
pub open spec fn better(a: (nat, nat), b: (nat, nat)) -> bool {
    a.0 > b.0 || (a.0 == b.0 && a.1 > b.1)
}

/// Whether `hits` out of `len` reaches the threshold.
pub open spec fn meets(th: Threshold, hits: nat, len: nat) -> bool {
    hits * th.den >= th.num * len
}

/// The best of the candidates `ids` that the store holds: scanned in order,
/// a later candidate replaces the current best only if it is strictly better.
pub open spec fn best_of(
    store: Map<usize, ClusterView>,
    ids: Seq<usize>,
    toks: Seq<Seq<char>>,
    wc: Seq<char>,
    include_params: bool,
) -> Option<usize>
    decreases ids.len(),
{
    if ids.len() == 0 {
        None
    } else {
        let prev = best_of(store, ids.drop_last(), toks, wc, include_params);
        let x = ids.last();
        if !store.contains_key(x) {
            prev
        } else {
            match prev {
                None => Some(x),
                Some(p) => if better(
                    score(store[x].template, toks, wc, include_params),
                    score(store[p].template, toks, wc, include_params),
                ) {
                    Some(x)
                } else {
                    prev
                },
            }
        }
    }
}

/// The template after a line joins a cluster: positions where the line's
/// token equals the template's keep it, the others become the wildcard.
pub open spec fn merge_template(toks: Seq<Seq<char>>, tmpl: Seq<Seq<char>>, wc: Seq<char>) -> Seq<Seq<char>> {
    Seq::new(
        common_len(toks, tmpl) as nat,
        |i: int|
            if toks[i] == tmpl[i] {
                toks[i]
            } else {
                wc
            },
    )
}

/// Whether `hits` out of `len` reaches the threshold.
pub(crate) fn reaches(th: Threshold, hits: usize, len: usize) -> (r: bool)
    ensures
        r == meets(th, hits as nat, len as nat),
{
    let a: u128 = hits as u128;
    let b: u128 = th.den as u128;
    let c: u128 = th.num as u128;
    let d: u128 = len as u128;
    assert(a * b <= u128::MAX) by (nonlinear_arith)
        requires
            a <= u64::MAX,
            b <= u64::MAX,
    ;
    assert(c * d <= u128::MAX) by (nonlinear_arith)
        requires
            c <= u64::MAX,
            d <= u64::MAX,
    ;
    a * b >= c * d
}

/// The score of template `tmpl` against `toks`, with wildcard `wc`.
pub(crate) fn seq_distance(toks: &Vec<String>, tmpl: &Vec<String>, wc: &String, include_params: bool) -> (r: (
    usize,
    usize,
))
    ensures
        (r.0 as nat, r.1 as nat) == score(token_views(tmpl@), token_views(toks@), wc@, include_params),
{
    let ghost tv = token_views(toks@);
    let ghost mv = token_views(tmpl@);
    let n = if toks.len() <= tmpl.len() {
        toks.len()
    } else {
        tmpl.len()
    };
    let mut sim: usize = 0;
    let mut params: usize = 0;
    let mut i: usize = 0;
    while i < n
        invariant
            i <= n,
            n as int == common_len(tv, mv),
            n <= toks.len(),
            n <= tmpl.len(),
            tv == token_views(toks@),
            mv == token_views(tmpl@),
            sim == literal_hits(mv, tv, wc@, i as int),
            params == wildcards(mv, wc@, i as int),
            sim + params <= i,
        decreases n - i,
    {
        assert(mv[i as int] == tmpl@[i as int]@);
        assert(tv[i as int] == toks@[i as int]@);
        if tmpl[i] == *wc {
            params += 1;
        } else if toks[i] == tmpl[i] {
            sim += 1;
        }
        i += 1;
    }
    if include_params {
        sim += params;
    }
    (sim, params)
}

/// The template after `toks` joins a cluster with template `tmpl`.
pub(crate) fn create_template(toks: &Vec<String>, tmpl: &Vec<String>, wc: &String) -> (r: Vec<String>)
    ensures
        token_views(r@) == merge_template(token_views(toks@), token_views(tmpl@), wc@),
{
    let ghost tv = token_views(toks@);
    let ghost mv = token_views(tmpl@);
    let n = if toks.len() <= tmpl.len() {
        toks.len()
    } else {
        tmpl.len()
    };
    let mut out: Vec<String> = Vec::new();
    let mut i: usize = 0;
    while i < n
        invariant
            i <= n,
            n as int == common_len(tv, mv),
            n <= toks.len(),
            n <= tmpl.len(),
            tv == token_views(toks@),
            mv == token_views(tmpl@),
            out@.len() == i,
            forall|j: int| 0 <= j < i ==> #[trigger] out@[j]@ == merge_template(tv, mv, wc@)[j],
        decreases n - i,
    {
        assert(mv[i as int] == tmpl@[i as int]@);
        assert(tv[i as int] == toks@[i as int]@);
        if toks[i] == tmpl[i] {
            out.push(toks[i].clone());
        } else {
            out.push(wc.clone());
        }
        i += 1;
    }
    assert(token_views(out@) =~= merge_template(tv, mv, wc@));
    out
}

/// Reads each of the candidates `ids` from the store, in order, and returns
/// the best of them if it reaches `th`.
pub(crate) fn fast_match(
    cache: &mut ClusterCache,
    ids: &Vec<usize>,
    toks: &Vec<String>,
    wc: &String,
    th: Threshold,
    include_params: bool,
) -> (r: Option<LogCluster>)
    requires
        forall|k: usize| #[trigger]
            lru_contents(*old(cache)).contains_key(k) ==> lru_contents(*old(cache))[k].cluster_id == k,
    ensures
        lru_contents(*final(cache)) == lru_contents(*old(cache)),
        lru_capacity(*final(cache)) == lru_capacity(*old(cache)),
        lru_recency(*final(cache)) == touch_all(
            lru_recency(*old(cache)),
            lru_contents(*old(cache)).dom(),
            ids@,
        ),
        ({
            let store = lru_contents(*old(cache)).map_values(|c: LogCluster| c@);
            let tv = token_views(toks@);
            let found = match best_of(store, ids@, tv, wc@, include_params) {
                Some(x) => if meets(th, score(store[x].template, tv, wc@, include_params).0, tv.len()) {
                    Some(x)
                } else {
                    None
                },
                None => None,
            };
            match found {
                Some(x) => r matches Some(c) && c@ == store[x],
                None => r is None,
            }
        }),
{
    let ghost contents = lru_contents(*cache);
    let ghost store = contents.map_values(|c: LogCluster| c@);
    let ghost order0 = lru_recency(*cache);
    let ghost tv = token_views(toks@);
    let mut best: Option<LogCluster> = None;
    let mut best_sim: usize = 0;
    let mut best_params: usize = 0;
    let mut i: usize = 0;
    while i < ids.len()
        invariant
            i <= ids.len(),
            lru_contents(*cache) == contents,
            lru_capacity(*cache) == lru_capacity(*old(cache)),
            contents == lru_contents(*old(cache)),
            order0 == lru_recency(*old(cache)),
            store == contents.map_values(|c: LogCluster| c@),
            tv == token_views(toks@),
            lru_recency(*cache) == touch_all(order0, contents.dom(), ids@.take(i as int)),
            match best_of(store, ids@.take(i as int), tv, wc@, include_params) {
                Some(x) => best matches Some(c) && c@ == store[x] && contents.contains_key(x) && (
                best_sim as nat,
                best_params as nat,
                ) == score(store[x].template, tv, wc@, include_params),
                None => best is None,
            },
        decreases ids.len() - i,
    {
        let id = ids[i];
        proof {
            assert(ids@.take(i as int + 1).drop_last() =~= ids@.take(i as int));
            assert(ids@.take(i as int + 1).last() == id);
        }
        match cache_get(cache, id) {
            Some(c) => {
                let (sim, params) = seq_distance(toks, &c.log_template_tokens, wc, include_params);
                assert(store[id] == c@);
                if best.is_none() || sim > best_sim || (sim == best_sim && params > best_params) {
                    best = Some(c);
                    best_sim = sim;
                    best_params = params;
                }
            },
            None => {},
        }
        i += 1;
    }
    assert(ids@.take(ids.len() as int) =~= ids@);
    match best {
        Some(c) => {
            if reaches(th, best_sim, toks.len()) {
                Some(c)
            } else {
                None
            }
        },
        None => None,
    }
}

/// No count exceeds the number of positions counted.
pub proof fn lemma_counts_bounded(tmpl: Seq<Seq<char>>, toks: Seq<Seq<char>>, wc: Seq<char>, n: int)
    requires
        0 <= n,
    ensures
        literal_hits(tmpl, toks, wc, n) <= n,
        wildcards(tmpl, wc, n) <= n,
    decreases n,
{
    if n > 0 {
        lemma_counts_bounded(tmpl, toks, wc, n - 1);
    }
}

/// Tokens without the wildcard match themselves at every position.
pub proof fn lemma_self_counts(toks: Seq<Seq<char>>, wc: Seq<char>, n: int)
    requires
        0 <= n <= toks.len(),
        forall|i: int| 0 <= i < toks.len() ==> toks[i] != wc,
    ensures
        literal_hits(toks, toks, wc, n) == n,
        wildcards(toks, wc, n) == 0,
    decreases n,
{
    if n > 0 {
        lemma_self_counts(toks, wc, n - 1);
    }
}

/// Merging tokens into a template keeps its literal matches with those
/// tokens and does not lose wildcards.
pub proof fn lemma_merge_counts(toks: Seq<Seq<char>>, tmpl: Seq<Seq<char>>, wc: Seq<char>, n: int)
    requires
        0 <= n <= toks.len(),
        tmpl.len() == toks.len(),
        forall|i: int| 0 <= i < toks.len() ==> toks[i] != wc,
    ensures
        literal_hits(merge_template(toks, tmpl, wc), toks, wc, n) == literal_hits(tmpl, toks, wc, n),
        wildcards(merge_template(toks, tmpl, wc), wc, n) >= wildcards(tmpl, wc, n),
    decreases n,
{
    if n > 0 {
        lemma_merge_counts(toks, tmpl, wc, n - 1);
    }
}

/// What the matcher picks: a stored candidate at some position `k`, strictly
/// better than every stored candidate before it and not beaten by any after
/// it. Where no candidate is stored, nothing.
pub proof fn lemma_best_of_first_max(
    store: Map<usize, ClusterView>,
    ids: Seq<usize>,
    toks: Seq<Seq<char>>,
    wc: Seq<char>,
    include_params: bool,
)
    ensures
        best_of(store, ids, toks, wc, include_params) is None ==> forall|j: int|
            0 <= j < ids.len() ==> !store.contains_key(#[trigger] ids[j]),
        best_of(store, ids, toks, wc, include_params) matches Some(x) ==> exists|k: int|
            0 <= k < ids.len() && ids[k] == x && store.contains_key(x) && (forall|j: int|
                0 <= j < k && store.contains_key(#[trigger] ids[j]) ==> better(
                    score(store[x].template, toks, wc, include_params),
                    score(store[ids[j]].template, toks, wc, include_params),
                )) && (forall|j: int|
                k < j < ids.len() && store.contains_key(#[trigger] ids[j]) ==> !better(
                    score(store[ids[j]].template, toks, wc, include_params),
                    score(store[x].template, toks, wc, include_params),
                )),
    decreases ids.len(),
{
    if ids.len() > 0 {
        let pre = ids.drop_last();
        let y = ids.last();
        let last = ids.len() - 1;
        lemma_best_of_first_max(store, pre, toks, wc, include_params);
        assert forall|j: int| 0 <= j < pre.len() implies pre[j] == ids[j] by {}
        assert(ids[last] == y);
        let sc = |z: usize| score(store[z].template, toks, wc, include_params);
        match best_of(store, pre, toks, wc, include_params) {
            None => {
                if store.contains_key(y) {
                    assert(ids[last] == y);
                }
            },
            Some(p) => {
                let kp = choose|k: int|
                    0 <= k < pre.len() && pre[k] == p && store.contains_key(p) && (forall|j: int|
                        0 <= j < k && store.contains_key(#[trigger] pre[j]) ==> better(
                            score(store[p].template, toks, wc, include_params),
                            score(store[pre[j]].template, toks, wc, include_params),
                        )) && (forall|j: int|
                        k < j < pre.len() && store.contains_key(#[trigger] pre[j]) ==> !better(
                            score(store[pre[j]].template, toks, wc, include_params),
                            score(store[p].template, toks, wc, include_params),
                        ));
                if store.contains_key(y) && better(sc(y), sc(p)) {
                    assert forall|j: int| 0 <= j < last && store.contains_key(#[trigger] ids[j]) implies better(
                        score(store[y].template, toks, wc, include_params),
                        score(store[ids[j]].template, toks, wc, include_params),
                    ) by {
                        assert(pre[j] == ids[j]);
                    }
                } else {
                    assert forall|j: int| 0 <= j < kp && store.contains_key(#[trigger] ids[j]) implies better(
                        score(store[p].template, toks, wc, include_params),
                        score(store[ids[j]].template, toks, wc, include_params),
                    ) by {
                        assert(pre[j] == ids[j]);
                    }
                    assert forall|j: int| kp < j < ids.len() && store.contains_key(#[trigger] ids[j]) implies !better(
                        score(store[ids[j]].template, toks, wc, include_params),
                        score(store[p].template, toks, wc, include_params),
                    ) by {
                        if j < last {
                            assert(pre[j] == ids[j]);
                        }
                    }
                    assert(ids[kp] == p);
                }
            },
        }
    }
}

/// The converse: a stored candidate at position `k` that is strictly better
/// than every stored candidate before it and not beaten by any after it is
/// what the matcher picks.
pub proof fn lemma_best_of_pick(
    store: Map<usize, ClusterView>,
    ids: Seq<usize>,
    k: int,
    toks: Seq<Seq<char>>,
    wc: Seq<char>,
    include_params: bool,
)
    requires
        0 <= k < ids.len(),
        store.contains_key(ids[k]),
        forall|j: int|
            0 <= j < k && store.contains_key(#[trigger] ids[j]) ==> better(
                score(store[ids[k]].template, toks, wc, include_params),
                score(store[ids[j]].template, toks, wc, include_params),
            ),
        forall|j: int|
            k < j < ids.len() && store.contains_key(#[trigger] ids[j]) ==> !better(
                score(store[ids[j]].template, toks, wc, include_params),
                score(store[ids[k]].template, toks, wc, include_params),
            ),
    ensures
        best_of(store, ids, toks, wc, include_params) == Some(ids[k]),
    decreases ids.len(),
{
    let pre = ids.drop_last();
    let last = ids.len() - 1;
    assert forall|j: int| 0 <= j < pre.len() implies pre[j] == ids[j] by {}
    if k == last {
        lemma_best_of_live(store, pre, toks, wc, include_params);
        if let Some(p) = best_of(store, pre, toks, wc, include_params) {
            let j = choose|j: int| 0 <= j < pre.len() && pre[j] == p;
            assert(ids[j] == p);
        }
    } else {
        lemma_best_of_pick(store, pre, k, toks, wc, include_params);
        assert(ids.last() == ids[last]);
    }
}

/// The best candidate is one of the candidates, and the store holds it.
pub proof fn lemma_best_of_live(
    store: Map<usize, ClusterView>,
    ids: Seq<usize>,
    toks: Seq<Seq<char>>,
    wc: Seq<char>,
    include_params: bool,
)
    ensures
        best_of(store, ids, toks, wc, include_params) matches Some(x) ==> store.contains_key(x)
            && ids.contains(x),
    decreases ids.len(),
{
    if ids.len() > 0 {
        let pre = ids.drop_last();
        lemma_best_of_live(store, pre, toks, wc, include_params);
        if let Some(p) = best_of(store, pre, toks, wc, include_params) {
            let j = choose|j: int| 0 <= j < pre.len() && pre[j] == p;
            assert(ids[j] == p);
        }
        assert(ids[ids.len() - 1] == ids.last());
    }
}

} // verus!
