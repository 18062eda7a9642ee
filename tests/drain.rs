use apollo::cluster::LogCluster;
use apollo::drain::{Drain, DrainError, Threshold};

fn miner(capacity: Option<usize>, depth: usize, num: u64, den: u64, children: usize) -> Drain {
    match Drain::new(capacity, depth, Threshold { num, den }, children, "<*>".to_string()) {
        Ok(d) => d,
        Err(e) => panic!("configuration refused: {:?}", e),
    }
}

fn template(c: &LogCluster) -> Vec<String> {
    c.log_template_tokens.clone()
}

fn words(s: &str) -> Vec<String> {
    s.split(' ').map(|w| w.to_string()).collect()
}

#[test]
fn resubmitting_a_line_keeps_its_cluster() {
    let mut d = miner(None, 4, 1, 2, 100);
    let a = d.train("connect to node 1");
    let b = d.train("connect to node 1");
    let c = d.train("connect to node 1");
    assert_eq!(a.cluster_id, b.cluster_id);
    assert_eq!(b.cluster_id, c.cluster_id);
    assert_eq!(a.size, 1);
    assert_eq!(b.size, 2);
    assert_eq!(c.size, 3);
}

#[test]
fn worked_example() {
    let mut d = miner(None, 4, 1, 2, 100);
    let first = d.train("connect to node 1");
    let second = d.train("connect to node 2");
    let third = d.train("disconnect node 3");
    assert_eq!(first.cluster_id, second.cluster_id);
    assert_eq!(second.to_string(), "connect to node <*>");
    assert_eq!(second.size, 2);
    assert_ne!(third.cluster_id, second.cluster_id);
    assert_eq!(third.to_string(), "disconnect node 3");
    assert_eq!(third.size, 1);
}

#[test]
fn threshold_boundary_merges_at_four_fifths() {
    let mut d = miner(None, 4, 8, 10, 100);
    let a = d.train("alpha beta gamma delta epsilon");
    let b = d.train("alpha beta gamma delta zeta");
    assert_eq!(a.cluster_id, b.cluster_id);
    assert_eq!(b.size, 2);
    assert_eq!(b.to_string(), "alpha beta gamma delta <*>");
}

#[test]
fn threshold_boundary_splits_above_four_fifths() {
    let mut d = miner(None, 4, 81, 100, 100);
    let a = d.train("alpha beta gamma delta epsilon");
    let b = d.train("alpha beta gamma delta zeta");
    assert_ne!(a.cluster_id, b.cluster_id);
    assert_eq!(b.cluster_id, 2);
    assert_eq!(b.size, 1);
    assert_eq!(b.to_string(), "alpha beta gamma delta zeta");
}

#[test]
fn different_token_counts_never_share_a_cluster() {
    let mut d = miner(None, 4, 0, 1, 100);
    let a = d.train("a b");
    let b = d.train("a b c");
    let c = d.train("a b");
    assert_ne!(a.cluster_id, b.cluster_id);
    assert_eq!(a.cluster_id, c.cluster_id);
    assert_eq!(template(&b).len(), 3);
}

#[test]
fn replay_on_fresh_miners_is_identical() {
    let lines = [
        "connect to node 1",
        "connect to node 2",
        "disconnect node 3",
        "user a logged in",
        "user b logged in",
        "",
        "connect to host 7",
    ];
    let mut d1 = miner(Some(3), 3, 1, 2, 4);
    let mut d2 = miner(Some(3), 3, 1, 2, 4);
    for line in lines.iter() {
        let a = d1.train(line);
        let b = d2.train(line);
        assert_eq!(a, b);
    }
    assert_eq!(d1.clusters(), d2.clusters());
}

#[test]
fn capacity_one_evicts_the_older_cluster() {
    let mut d = miner(Some(1), 4, 1, 2, 100);
    let a = d.train("alpha beta");
    let b = d.train("gamma delta epsilon");
    let again = d.train("alpha beta");
    assert_eq!(a.cluster_id, 1);
    assert_eq!(b.cluster_id, 2);
    assert!(again.cluster_id > b.cluster_id);
    assert_eq!(again.size, 1);
    assert_eq!(d.clusters().len(), 1);
}

#[test]
fn wildcard_positions_only_grow() {
    let mut d = miner(None, 2, 1, 2, 100);
    let a = d.train("user a logged in");
    let b = d.train("user b logged in");
    let c = d.train("user b logged out");
    assert_eq!(a.cluster_id, c.cluster_id);
    assert_eq!(b.to_string(), "user <*> logged in");
    assert_eq!(c.to_string(), "user <*> logged <*>");
    let tb = template(&b);
    let tc = template(&c);
    for i in 0..tb.len() {
        if tb[i] == "<*>" {
            assert_eq!(tc[i], "<*>");
        }
    }
    assert_eq!(c.size, 3);
}

#[test]
fn numeric_tokens_route_through_the_wildcard() {
    let mut d = miner(None, 3, 1, 2, 100);
    let a = d.train("error 404 at x");
    let b = d.train("error 500 at x");
    assert_eq!(a.cluster_id, b.cluster_id);
    assert_eq!(b.to_string(), "error <*> at x");
}

#[test]
fn full_node_sends_new_tokens_to_the_wildcard() {
    let mut d = miner(None, 3, 1, 2, 2);
    let a = d.train("a x y");
    let b = d.train("b x y");
    let c = d.train("c x y");
    assert_ne!(a.cluster_id, b.cluster_id);
    assert_eq!(c.cluster_id, b.cluster_id);
    assert_eq!(c.to_string(), "<*> x y");
    assert_eq!(c.size, 2);
}

#[test]
fn empty_lines_share_one_cluster() {
    let mut d = miner(None, 4, 1, 2, 100);
    let a = d.train("");
    let b = d.train("   ");
    assert_eq!(a.cluster_id, b.cluster_id);
    assert_eq!(b.size, 2);
    assert_eq!(b.to_string(), "");
    assert!(template(&b).is_empty());
}

#[test]
fn tree_search_counts_wildcards_when_asked() {
    let mut d = miner(None, 4, 1, 2, 100);
    d.train("connect to node 1");
    d.train("connect to node 2");
    let toks = words("connect to node 9");
    let strict = Threshold { num: 1, den: 1 };
    assert!(d.tree_search(&toks, strict, false).is_none());
    let found = d.tree_search(&toks, strict, true);
    match found {
        Some(c) => {
            assert_eq!(c.cluster_id, 1);
            assert_eq!(c.size, 2);
        }
        None => panic!("expected a match"),
    }
    assert!(d.tree_search(&words("connect to node"), strict, true).is_none());
}

#[test]
fn train_tokens_takes_the_tokens_as_given() {
    let mut d = miner(None, 4, 1, 2, 100);
    let a = d.train_tokens(words("a b c"));
    let b = d.train("a  b\tc");
    assert_eq!(a.cluster_id, b.cluster_id);
    assert_eq!(b.size, 2);
}

#[test]
fn clusters_are_listed_most_recent_first() {
    let mut d = miner(None, 4, 1, 2, 100);
    d.train("one two");
    d.train("three four five");
    d.train("one two");
    let ids: Vec<usize> = d.clusters().iter().map(|c| c.cluster_id).collect();
    assert_eq!(ids, vec![1, 2]);
}

#[test]
fn stale_ids_are_skipped() {
    let mut d = miner(Some(2), 4, 1, 2, 100);
    let a = d.train("p q r");
    d.train("s t");
    d.train("u v w x");
    let again = d.train("p q r");
    assert!(again.cluster_id > a.cluster_id);
    assert_eq!(again.cluster_id, 4);
    let after = d.train("p q r");
    assert_eq!(after.cluster_id, 4);
    assert_eq!(after.size, 2);
}

#[test]
fn configuration_errors() {
    let mk = |cap, depth, num, den, children| {
        Drain::new(cap, depth, Threshold { num, den }, children, "<*>".to_string()).err()
    };
    assert_eq!(mk(Some(0), 4, 1, 2, 100), Some(DrainError::ZeroCapacity));
    assert_eq!(mk(None, 0, 1, 2, 100), Some(DrainError::ZeroDepth));
    assert_eq!(mk(None, 4, 1, 2, 0), Some(DrainError::ZeroChildren));
    assert_eq!(mk(None, 4, 3, 2, 100), Some(DrainError::InvalidThreshold));
    assert_eq!(mk(None, 4, 0, 0, 100), Some(DrainError::InvalidThreshold));
    assert_eq!(mk(Some(1), 1, 1, 1, 1), None);
}

#[test]
fn default_miner() {
    let mut d = Drain::default();
    assert_eq!(d.sim_th(), Threshold { num: 2, den: 5 });
    let a = d.train("disk 1 full");
    let b = d.train("disk 2 full");
    assert_eq!(a.cluster_id, b.cluster_id);
    assert_eq!(b.to_string(), "disk <*> full");
}

#[test]
fn cluster_text_joins_with_single_spaces() {
    let c = LogCluster { log_template_tokens: words("a <*> c"), cluster_id: 7, size: 3 };
    assert_eq!(c.to_string(), "a <*> c");
    let copy = c.copy();
    assert_eq!(copy, c);
}

#[test]
fn lookups_count_as_uses_for_eviction() {
    let mut d = miner(Some(2), 4, 1, 2, 100);
    let a = d.train("alpha one");
    let b = d.train("beta two three");
    let toks = words("alpha one");
    assert!(d.tree_search(&toks, Threshold { num: 1, den: 2 }, false).is_some());
    let c = d.train("gamma four five six");
    assert_eq!(c.cluster_id, 3);
    let a2 = d.train("alpha one");
    assert_eq!(a2.cluster_id, a.cluster_id);
    assert_eq!(a2.size, 2);
    let b2 = d.train("beta two three");
    assert!(b2.cluster_id > b.cluster_id);
    assert_eq!(b2.size, 1);
}

#[test]
fn report_lists_lines_of_recurring_clusters() {
    let mut d = miner(None, 4, 1, 2, 100);
    let lines: Vec<String> = ["connect to node 1", "connect to node 2", "disconnect node 3", "unseen line here"]
        .iter()
        .map(|s| s.to_string())
        .collect();
    for line in lines.iter().take(3) {
        d.train(line);
    }
    let (rows, missed) = d.recurring_lines(&lines);
    assert_eq!(rows.len(), 2);
    assert_eq!(rows[0].line_index, 0);
    assert_eq!(rows[0].template, "connect to node <*>");
    assert_eq!(rows[0].cluster_size, 2);
    assert_eq!(rows[1].line_index, 1);
    assert_eq!(missed, 2);
}

#[test]
fn a_token_equal_to_the_marker_counts_as_wildcard() {
    let mut d = miner(None, 4, 1, 1, 100);
    let a = d.train("<*>");
    let b = d.train("<*>");
    assert_ne!(a.cluster_id, b.cluster_id);
    let mut lax = miner(None, 4, 0, 1, 100);
    let c = lax.train("<*>");
    let e = lax.train("<*>");
    assert_eq!(c.cluster_id, e.cluster_id);
}
