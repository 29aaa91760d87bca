use pg_wodekit::drain::{create_template, get_seq_distance};
use pg_wodekit::similarity::{Similarity, ONE};
use pg_wodekit::types::{DrainConfig, DrainState, Node, MAX_EXAMPLES};

fn config(depth: usize, sim_th: f64, max_children: usize, max_clusters: usize) -> DrainConfig {
    DrainConfig {
        depth,
        sim_th: Similarity {
            bits: sim_th.to_bits(),
        },
        max_children,
        max_clusters,
        ..Default::default()
    }
}

/// Messages of a few words, by a fixed pseudo-random sequence.
fn messages(count: usize) -> Vec<String> {
    let words = ["a", "b", "c", "d", "7", "error", "user", "<*>"];
    let mut x: u64 = 0x2545F4914F6CDD1D;
    let mut next = |n: u64| {
        x ^= x << 13;
        x ^= x >> 7;
        x ^= x << 17;
        (x % n) as usize
    };
    (0..count)
        .map(|_| {
            let len = 1 + next(5);
            let picked: Vec<&str> = (0..len).map(|_| words[next(8)]).collect();
            picked.join(" ")
        })
        .collect()
}

fn check_node(node: &Node, state: &DrainState, levels: usize, count: &str) {
    let others = node
        .key_to_child
        .iter()
        .filter(|c| c.0 != state.config.param_str)
        .count();
    assert!(others <= state.config.max_children);
    for id in &node.cluster_ids {
        let tokens = state.clusters[*id].template_tokens.len();
        assert_eq!(tokens.to_string(), count);
    }
    for (_, child) in &node.key_to_child {
        assert!(levels > 0);
        check_node(child, state, levels - 1, count);
    }
}

fn check_state(state: &DrainState) {
    assert!(state.root.cluster_ids.is_empty());
    for (count, child) in &state.root.key_to_child {
        check_node(child, state, state.config.depth.max(3) - 2, count);
    }
    for (i, cluster) in state.clusters.iter().enumerate() {
        assert!(cluster.cluster_id >= 1);
        assert!(!cluster.examples.is_empty());
        assert!(cluster.examples.len() <= cluster.size.min(MAX_EXAMPLES));
        for (j, example) in cluster.examples.iter().enumerate() {
            assert!(!cluster.examples[..j].contains(example));
            let fit = get_seq_distance(
                &cluster.template_tokens,
                &state.tokenize(example),
                &state.config.param_str,
            );
            assert_eq!(fit.bits, ONE);
        }
        assert!(cluster.cluster_id < state.next_cluster_id);
        if i > 0 {
            assert!(state.clusters[i - 1].cluster_id < cluster.cluster_id);
        }
    }
}

#[test]
fn models_stay_valid_and_match_what_they_learn() {
    for (depth, sim_th, max_children, max_clusters) in [
        (4, 0.4, 100, 1024),
        (3, 0.4, 2, 1024),
        (3, 0.9, 3, 7),
        (5, 0.7, 1, 20),
        (0, 1.0, 0, 1),
    ] {
        let mut state = DrainState::new(config(depth, sim_th, max_children, max_clusters));
        check_state(&state);
        for message in messages(300) {
            let id = state.add_log_message(&message);
            check_state(&state);
            assert!(state.clusters.len() <= max_clusters);
            let count = state.clusters.len();
            let matched = state.match_log_message(&message).unwrap().clone();
            assert_eq!(matched.cluster_id, id);
            let tokens = state.tokenize(&message);
            assert_eq!(tokens.len(), matched.template_tokens.len());
            for (t, m) in matched.template_tokens.iter().zip(tokens.iter()) {
                assert!(t == m || *t == state.config.param_str);
            }
            assert_ne!(id, 0);
            // Once more: same id, and nothing but one size changes.
            let mut once = state.clone();
            assert_eq!(state.add_log_message(&message), id);
            assert_eq!(state.clusters.len(), count);
            for cluster in once.clusters.iter_mut() {
                if cluster.cluster_id == id {
                    cluster.size += 1;
                }
            }
            assert_eq!(format!("{state:?}"), format!("{once:?}"));
            // No tokens: no cluster, no change.
            assert_eq!(state.add_log_message(" "), 0);
            assert_eq!(format!("{state:?}"), format!("{once:?}"));
        }
    }
}

#[test]
fn messages_are_counted() {
    let mut state = DrainState::new(config(3, 0.4, 100, 1024));
    for message in messages(200) {
        state.add_log_message(&message);
        state.add_log_message(" ");
    }
    let total: usize = state.clusters.iter().map(|c| c.size).sum();
    assert_eq!(total, 200);
}

#[test]
fn the_youngest_clusters_stay() {
    let mut state = DrainState::new(config(3, 1.0, 100, 4));
    for i in 0..10 {
        state.add_log_message(&format!("word{i} x"));
    }
    let ids: Vec<usize> = state.clusters.iter().map(|c| c.cluster_id).collect();
    assert_eq!(ids, vec![7, 8, 9, 10]);
    for i in 6..10 {
        let matched = state.match_log_message(&format!("word{i} x")).unwrap();
        assert_eq!(matched.cluster_id, i + 1);
    }
}

#[test]
fn rebuilt_models_recognize_their_templates() {
    for max_children in [1, 3, 100] {
        let mut state = DrainState::new(config(4, 0.6, max_children, 50));
        for message in messages(200) {
            state.add_log_message(&message);
        }
        let rebuilt = DrainState::from_clusters(state.config.clone(), state.clusters.clone());
        check_state(&rebuilt);
        for (i, cluster) in state.clusters.iter().enumerate() {
            let found = rebuilt.tree_search_match(&cluster.template_tokens).unwrap();
            assert!(found.0 <= i);
            assert_eq!(f64::from_bits(found.1.bits), 1.0);
        }
    }
}

#[test]
fn higher_thresholds_are_stricter() {
    let mut state = DrainState::new(config(3, 0.8, 100, 1024));
    for message in messages(100) {
        state.add_log_message(&message);
    }
    let mut strict = state.clone();
    let thresholds = [-1.0, -0.5, -0.0, 0.0, 0.5, 0.8, 1.0];
    for message in messages(400) {
        for pair in thresholds.windows(2) {
            state.config.sim_th.bits = f64::to_bits(pair[0]);
            strict.config.sim_th.bits = f64::to_bits(pair[1]);
            if let Some(cluster) = strict.match_log_message(&message) {
                let same = state.match_log_message(&message).unwrap();
                assert_eq!(same.cluster_id, cluster.cluster_id);
            }
        }
    }
}

#[test]
fn merging_makes_templates_more_general() {
    let state = DrainState::new(config(3, 0.4, 100, 1024));
    let all: Vec<Vec<String>> = messages(60).iter().map(|m| state.tokenize(m)).collect();
    for a in &all {
        for b in all.iter().filter(|b| b.len() == a.len()) {
            let merged = create_template(a, b, "<*>");
            assert_eq!(get_seq_distance(&merged, a, "<*>").bits, ONE);
            assert_eq!(get_seq_distance(&merged, b, "<*>").bits, ONE);
            for c in &all {
                let before = get_seq_distance(a, c, "<*>").bits;
                let after = get_seq_distance(&merged, c, "<*>").bits;
                assert!(before <= after);
                let covered = merged.len() == c.len()
                    && merged.iter().zip(c).all(|(t, m)| t == m || t == "<*>");
                assert_eq!(after == ONE, covered);
            }
        }
    }
}
