use pg_wodekit::drain::{create_template, get_seq_distance};
use pg_wodekit::similarity::Similarity;
use pg_wodekit::tokens::is_numeric;
use pg_wodekit::types::{DrainConfig, DrainState, LogCluster, MAX_EXAMPLES};

fn s(strs: &[&str]) -> Vec<String> {
    strs.iter().map(|s| s.to_string()).collect()
}

fn th(x: f64) -> Similarity {
    Similarity { bits: x.to_bits() }
}

#[test]
fn test_is_numeric() {
    assert!(is_numeric("123"));
    assert!(is_numeric("3.14"));
    assert!(is_numeric("-42"));
    assert!(is_numeric("+1.0"));
    assert!(!is_numeric("abc"));
    assert!(!is_numeric("12.34.56"));
    assert!(!is_numeric(""));
    assert!(!is_numeric("-"));
    assert!(!is_numeric("192.168.1.1"));
}

#[test]
fn numbers_at_the_edges() {
    assert!(is_numeric("-.5"));
    assert!(is_numeric("5."));
    assert!(is_numeric("007"));
    assert!(!is_numeric("+"));
    assert!(!is_numeric("--1"));
    assert!(!is_numeric("1-"));
    assert!(!is_numeric("1e5"));
    assert!(!is_numeric("٣"));
    assert!(!is_numeric(".."));
    assert!(!is_numeric("."));
    assert!(!is_numeric("-."));
    assert!(!is_numeric("+."));
}

#[test]
fn test_tokenize_basic() {
    let state = DrainState::new(DrainConfig::default());
    let tokens = state.tokenize("User alice logged in");
    assert_eq!(tokens, vec!["User", "alice", "logged", "in"]);
}

#[test]
fn test_tokenize_numeric() {
    let state = DrainState::new(DrainConfig::default());
    let tokens = state.tokenize("Request took 123 ms");
    assert_eq!(tokens, vec!["Request", "took", "<*>", "ms"]);
}

#[test]
fn test_tokenize_extra_delimiters() {
    let config = DrainConfig {
        extra_delimiters: vec!["=".to_string(), "/".to_string()],
        ..Default::default()
    };
    let state = DrainState::new(config);
    let tokens = state.tokenize("key=value path/to/file");
    assert_eq!(tokens, vec!["key", "value", "path", "to", "file"]);
}

#[test]
fn tokenize_splits_on_unicode_whitespace() {
    let state = DrainState::new(DrainConfig::default());
    assert_eq!(
        state.tokenize("\u{2003}a\u{a0}b\t\n c\u{3000}"),
        vec!["a", "b", "c"]
    );
    assert!(state.tokenize(" \t ").is_empty());
}

#[test]
fn tokenize_with_delimiters_one_after_the_other() {
    let state = DrainState::new(DrainConfig {
        delimiters: s(&["ab", "b"]),
        ..Default::default()
    });
    assert_eq!(state.tokenize("1ab2b 3abb4"), vec!["<*>", "<*>", " 3", "<*>"]);
    let state = DrainState::new(DrainConfig {
        delimiters: s(&["|"]),
        ..Default::default()
    });
    assert_eq!(state.tokenize("|a||b c|"), vec!["a", "b c"]);
    assert!(state.tokenize("||").is_empty());
    assert!(state.tokenize("").is_empty());
    let state = DrainState::new(DrainConfig {
        delimiters: s(&[""]),
        ..Default::default()
    });
    assert_eq!(state.tokenize("a b"), vec!["a", " ", "b"]);
    let state = DrainState::new(DrainConfig {
        extra_delimiters: s(&["aa"]),
        ..Default::default()
    });
    assert_eq!(state.tokenize("xaaay"), vec!["x", "ay"]);
}

#[test]
fn test_seq_distance() {
    let param = "<*>";
    assert_eq!(
        f64::from_bits(
            get_seq_distance(
                &s(&["User", "<*>", "logged", "in"]),
                &s(&["User", "bob", "logged", "in"]),
                param
            )
            .bits
        ),
        1.0
    );

    assert_eq!(
        f64::from_bits(get_seq_distance(&s(&["Error", "A"]), &s(&["User", "B"]), param).bits),
        0.0
    );
}

#[test]
fn seq_distance_of_thirds_and_lengths() {
    let d = get_seq_distance(&s(&["a", "b", "c"]), &s(&["a", "x", "y"]), "<*>");
    assert_eq!(f64::from_bits(d.bits), 1.0 / 3.0);
    let d = get_seq_distance(&s(&["a", "<*>", "c"]), &s(&["a", "x", "y"]), "<*>");
    assert_eq!(f64::from_bits(d.bits), 2.0 / 3.0);
    // A wildcard in the message covers nothing.
    let d = get_seq_distance(&s(&["a", "b"]), &s(&["a", "<*>"]), "<*>");
    assert_eq!(f64::from_bits(d.bits), 0.5);
    assert_eq!(get_seq_distance(&s(&["a"]), &s(&["a", "b"]), "<*>").bits, 0);
    assert_eq!(get_seq_distance(&s(&[]), &s(&[]), "<*>").bits, 0);
}

#[test]
fn test_create_template() {
    let tmpl = create_template(
        &s(&["User", "alice", "logged", "in"]),
        &s(&["User", "bob", "logged", "in"]),
        "<*>",
    );
    assert_eq!(tmpl, s(&["User", "<*>", "logged", "in"]));
}

#[test]
fn create_template_cuts_the_longer_one() {
    assert_eq!(
        create_template(&s(&["a", "b", "c"]), &s(&["a", "x"]), "?"),
        s(&["a", "?"])
    );
    assert_eq!(create_template(&s(&[]), &s(&["x"]), "?"), s(&[]));
}

#[test]
fn test_add_and_match() {
    // depth=3 so tree path is: token_count → first_token → leaf
    // This means "alice"/"bob" end up at the same leaf for fast_match
    let config = DrainConfig {
        depth: 3,
        ..Default::default()
    };
    let mut state = DrainState::new(config);

    state.add_log_message("User alice logged in from 192.168.1.1");
    state.add_log_message("User bob logged in from 10.0.0.1");
    state.add_log_message("User charlie logged in from 172.16.0.1");

    let matched = state.match_log_message("User dave logged in from 1.2.3.4");
    assert!(matched.is_some());
    let tmpl = matched.unwrap().get_template();
    assert!(tmpl.contains("<*>"));
    assert!(tmpl.contains("User"));
    assert!(tmpl.contains("logged"));
    assert!(tmpl.contains("in"));
}

#[test]
fn test_multiple_clusters() {
    let config = DrainConfig {
        depth: 3,
        sim_th: th(0.3), // "Error: X Y" vs "Error: A B" = 1/3 ≈ 0.33
        ..Default::default()
    };
    let mut state = DrainState::new(config);

    // Pattern 1: user login (4 tokens, sim=3/4=0.75 > 0.3)
    state.add_log_message("User alice logged in");
    state.add_log_message("User bob logged in");

    // Pattern 2: error (3 tokens, sim=1/3=0.33 > 0.3)
    state.add_log_message("Error: connection timeout");
    state.add_log_message("Error: disk full");

    let clusters = state.get_clusters();
    assert_eq!(clusters.len(), 2);

    let templates: Vec<String> = clusters.iter().map(|c| c.get_template()).collect();
    assert!(templates
        .iter()
        .any(|t| t.contains("User") && t.contains("<*>")));
    assert!(templates
        .iter()
        .any(|t| t.contains("Error:") && t.contains("<*>")));
}

#[test]
fn test_cluster_sizes() {
    let config = DrainConfig {
        depth: 3,
        ..Default::default()
    };
    let mut state = DrainState::new(config);

    state.add_log_message("User alice logged in");
    state.add_log_message("User bob logged in");
    state.add_log_message("User charlie logged in");

    assert_eq!(state.clusters.len(), 1);
    assert_eq!(state.clusters[0].size, 3);
}

#[test]
fn test_extract_params_unnamed() {
    let params = DrainState::extract_params(
        "User <*> logged in from <*>",
        "User admin logged in from 192.168.1.1",
    );
    assert_eq!(params.len(), 2);
    assert_eq!(params[0], ("_1".to_string(), "admin".to_string()));
    assert_eq!(params[1], ("_2".to_string(), "192.168.1.1".to_string()));
}

#[test]
fn test_extract_params_named() {
    let params = DrainState::extract_params(
        "User <user> logged in from <ip>",
        "User admin logged in from 192.168.1.1",
    );
    assert_eq!(params.len(), 2);
    assert_eq!(params[0], ("user".to_string(), "admin".to_string()));
    assert_eq!(params[1], ("ip".to_string(), "192.168.1.1".to_string()));
}

#[test]
fn test_extract_params_no_params() {
    let params = DrainState::extract_params("hello world", "hello world");
    assert!(params.is_empty());
}

#[test]
fn test_lru_eviction() {
    let config = DrainConfig {
        max_clusters: 3,
        sim_th: th(0.99), // very strict to force new clusters
        ..Default::default()
    };
    let mut state = DrainState::new(config);

    state.add_log_message("aaa bbb ccc");
    state.add_log_message("ddd eee fff");
    state.add_log_message("ggg hhh iii");
    assert_eq!(state.clusters.len(), 3);

    // This should evict the oldest
    state.add_log_message("jjj kkk lll");
    assert!(state.clusters.len() <= 3);
}

#[test]
fn eviction_keeps_the_youngest_matchable() {
    let config = DrainConfig {
        max_clusters: 2,
        sim_th: th(0.99),
        ..Default::default()
    };
    let mut state = DrainState::new(config);
    assert_eq!(state.add_log_message("aaa bbb ccc"), 1);
    assert_eq!(state.add_log_message("ddd eee fff"), 2);
    assert_eq!(state.add_log_message("ggg hhh iii"), 3);
    let ids: Vec<usize> = state.clusters.iter().map(|c| c.cluster_id).collect();
    assert_eq!(ids, vec![2, 3]);
    assert!(state.match_log_message("aaa bbb ccc").is_none());
    assert_eq!(state.match_log_message("ddd eee fff").unwrap().cluster_id, 2);
    assert_eq!(state.match_log_message("ggg hhh iii").unwrap().cluster_id, 3);
    assert_eq!(state.next_cluster_id, 4);
}

#[test]
fn no_cluster_stays_where_none_may() {
    let mut state = DrainState::new(DrainConfig {
        max_clusters: 0,
        ..Default::default()
    });
    assert_eq!(state.add_log_message("a b"), 1);
    assert!(state.clusters.is_empty());
    assert_eq!(state.add_log_message("a b"), 2);
}

#[test]
fn test_custom_param_str() {
    let config = DrainConfig {
        depth: 3,
        param_str: "{}".to_string(),
        ..Default::default()
    };
    let mut state = DrainState::new(config);

    state.add_log_message("User alice logged in");
    state.add_log_message("User bob logged in");

    let tmpl = state.clusters[0].get_template();
    assert!(tmpl.contains("{}"));
    assert!(!tmpl.contains("<*>"));
}

#[test]
fn test_custom_delimiters() {
    // Split only on "|" — whitespace is preserved in tokens
    let config = DrainConfig {
        delimiters: vec!["|".to_string()],
        parametrize_numeric_tokens: false,
        ..Default::default()
    };
    let state = DrainState::new(config);
    let tokens = state.tokenize("2024-01-01|INFO|User logged in");
    assert_eq!(tokens, vec!["2024-01-01", "INFO", "User logged in"]);
}

#[test]
fn test_empty_input() {
    let mut state = DrainState::new(DrainConfig::default());
    let id = state.add_log_message("");
    assert_eq!(id, 0);
    assert!(state.clusters.is_empty());

    let matched = state.match_log_message("");
    assert!(matched.is_none());
}

#[test]
fn defaults() {
    let config = DrainConfig::default();
    assert_eq!(config.depth, 4);
    assert_eq!(f64::from_bits(config.sim_th.bits), 0.4);
    assert_eq!(config.max_children, 100);
    assert_eq!(config.max_clusters, 1024);
    assert_eq!(config.param_str, "<*>");
    assert!(config.parametrize_numeric_tokens);
    assert!(config.extra_delimiters.is_empty());
    assert!(config.delimiters.is_empty());
}

#[test]
fn examples_are_few_and_different() {
    let mut state = DrainState::new(DrainConfig {
        depth: 3,
        ..Default::default()
    });
    for name in ["a", "b", "b", "c", "d", "e", "f", "g"] {
        state.add_log_message(&format!("User {name} logged in"));
    }
    assert_eq!(state.clusters.len(), 1);
    assert_eq!(state.clusters[0].size, 8);
    assert_eq!(state.clusters[0].examples.len(), MAX_EXAMPLES);
    assert_eq!(
        state.clusters[0].examples,
        vec![
            "User a logged in",
            "User b logged in",
            "User c logged in",
            "User d logged in",
            "User e logged in"
        ]
    );
}

#[test]
fn depth_decides_how_many_tokens_lead() {
    // Depth 4: the first two tokens must agree.
    let mut state = DrainState::new(DrainConfig::default());
    assert_eq!(state.add_log_message("User alice logged in"), 1);
    assert_eq!(state.add_log_message("User bob logged in"), 2);
    // A depth below 3 counts as 3.
    let mut state = DrainState::new(DrainConfig {
        depth: 0,
        ..Default::default()
    });
    assert_eq!(state.add_log_message("User alice logged in"), 1);
    assert_eq!(state.add_log_message("User bob logged in"), 1);
    assert_eq!(state.add_log_message("Admin bob logged in"), 2);
}

#[test]
fn too_many_children_share_the_wildcard() {
    let mut state = DrainState::new(DrainConfig {
        depth: 3,
        max_children: 1,
        ..Default::default()
    });
    assert_eq!(state.add_log_message("a x y z"), 1);
    assert_eq!(state.add_log_message("b x y z"), 2);
    assert_eq!(state.add_log_message("c x y z"), 2);
    assert_eq!(state.clusters[1].get_template(), "<*> x y z");
    assert_eq!(state.match_log_message("q x y z").unwrap().cluster_id, 2);
    assert_eq!(state.match_log_message("a x y z").unwrap().cluster_id, 1);
    let branch = &state.root.key_to_child[0];
    assert_eq!(branch.0, "4");
    let keys: Vec<&str> = branch
        .1
        .key_to_child
        .iter()
        .map(|c| c.0.as_str())
        .collect();
    assert_eq!(keys, vec!["a", "<*>"]);
}

#[test]
fn thresholds_that_no_similarity_or_every_one_reaches() {
    let feed_twice = |sim_th: Similarity| {
        let mut state = DrainState::new(DrainConfig {
            depth: 3,
            sim_th,
            ..Default::default()
        });
        state.add_log_message("a b c d e f");
        state.add_log_message("a u v w x y")
    };
    assert_eq!(feed_twice(th(0.0)), 1);
    assert_eq!(feed_twice(th(-0.0)), 1);
    assert_eq!(feed_twice(th(-5.0)), 1);
    assert_eq!(feed_twice(th(f64::NEG_INFINITY)), 1);
    assert_eq!(feed_twice(th(1.0 / 6.0)), 1);
    assert_eq!(feed_twice(th(0.17)), 2);
    assert_eq!(feed_twice(th(1.5)), 2);
    assert_eq!(feed_twice(th(f64::INFINITY)), 2);
    assert_eq!(feed_twice(th(f64::NAN)), 2);
    assert_eq!(feed_twice(th(-f64::NAN)), 2);
}

#[test]
fn the_first_of_the_most_similar_is_taken() {
    let mut state = DrainState::new(DrainConfig {
        depth: 3,
        sim_th: th(0.6),
        ..Default::default()
    });
    assert_eq!(state.add_log_message("a b c d"), 1);
    assert_eq!(state.add_log_message("a x y d"), 2);
    // Half of the tokens agree with either: neither reaches the threshold.
    assert!(state.match_log_message("a b y e").is_none());
    state.config.sim_th = th(0.5);
    assert_eq!(state.match_log_message("a b y e").unwrap().cluster_id, 1);
    assert_eq!(state.match_log_message("a x c y").unwrap().cluster_id, 1);
    assert_eq!(state.match_log_message("a x y e").unwrap().cluster_id, 2);
}

#[test]
fn full_counters_refuse_messages() {
    let cluster = |cluster_id: usize, size: usize| LogCluster {
        cluster_id,
        template_tokens: s(&["a", "b"]),
        size,
        examples: Vec::new(),
    };
    let mut state = DrainState::from_clusters(DrainConfig::default(), vec![cluster(7, usize::MAX)]);
    assert_eq!(state.next_cluster_id, 8);
    assert_eq!(state.try_add_log_message("a b"), None);
    assert_eq!(state.clusters[0].size, usize::MAX);
    assert_eq!(state.try_add_log_message("c d"), Some(8));
    assert_eq!(state.try_add_log_message(""), Some(0));
    let mut state =
        DrainState::from_clusters(DrainConfig::default(), vec![cluster(usize::MAX - 1, 1)]);
    assert_eq!(state.try_add_log_message("c d"), None);
    assert_eq!(state.clusters.len(), 1);
    assert_eq!(state.try_add_log_message("a b"), Some(usize::MAX - 1));
    assert_eq!(state.clusters[0].size, 2);
}

#[test]
fn rebuilt_from_clusters() {
    let mut state = DrainState::new(DrainConfig {
        depth: 3,
        ..Default::default()
    });
    state.add_log_message("User alice logged in");
    state.add_log_message("User bob logged in");
    state.add_log_message("Error: disk full");
    let rebuilt = DrainState::from_clusters(state.config.clone(), state.clusters.clone());
    assert_eq!(rebuilt.clusters.len(), 2);
    assert_eq!(rebuilt.next_cluster_id, 3);
    assert_eq!(
        rebuilt.match_log_message("User eve logged in").unwrap().get_template(),
        "User <*> logged in"
    );
    let empty = DrainState::from_clusters(DrainConfig::default(), Vec::new());
    assert_eq!(empty.next_cluster_id, 1);
    assert!(empty.root.key_to_child.is_empty());
}

#[test]
fn only_own_delimiters_split() {
    let state = DrainState::new(DrainConfig {
        delimiters: s(&["|"]),
        extra_delimiters: s(&["="]),
        ..Default::default()
    });
    assert_eq!(state.tokenize("a=b\0c|d e"), vec!["a=b\0c", "d e"]);
    assert_eq!(state.tokenize("a\t\0=\nb"), vec!["a\t\0=\nb"]);
    let state = DrainState::new(DrainConfig {
        delimiters: s(&["--", "\0"]),
        ..Default::default()
    });
    assert_eq!(state.tokenize("a---b\0c----d-"), vec!["a", "-b", "c", "d-"]);
}

#[test]
fn no_similarity_reaches_a_threshold_of_zero() {
    let state = |sim_th: f64| {
        DrainState::from_clusters(
            DrainConfig {
                sim_th: th(sim_th),
                ..Default::default()
            },
            vec![LogCluster {
                cluster_id: 1,
                template_tokens: s(&["aaa"]),
                size: 1,
                examples: Vec::new(),
            }],
        )
    };
    assert_eq!(state(0.0).fast_match(&[0], &s(&["bbb"])), Some((0, th(0.0))));
    assert_eq!(state(-1.0).fast_match(&[5, 0], &s(&["bbb"])), Some((0, th(0.0))));
    assert_eq!(state(0.1).fast_match(&[0], &s(&["bbb"])), None);
    assert_eq!(state(f64::NAN).fast_match(&[0], &s(&["bbb"])), None);
    assert_eq!(state(0.0).fast_match(&[], &s(&["bbb"])), None);
    assert_eq!(state(0.0).fast_match(&[3], &s(&["bbb"])), None);
}

#[test]
fn rebuilding_keeps_to_the_limit() {
    let cluster = |cluster_id: usize, word: &str| LogCluster {
        cluster_id,
        template_tokens: s(&[word]),
        size: 1,
        examples: Vec::new(),
    };
    let config = |max_clusters: usize| DrainConfig {
        max_clusters,
        ..Default::default()
    };
    let state = DrainState::from_clusters(config(1), vec![cluster(1, "aaa"), cluster(2, "bbb")]);
    let ids: Vec<usize> = state.clusters.iter().map(|c| c.cluster_id).collect();
    assert_eq!(ids, vec![2]);
    assert_eq!(state.next_cluster_id, 3);
    assert!(state.match_log_message("aaa").is_none());
    assert_eq!(state.match_log_message("bbb").unwrap().cluster_id, 2);
    // The next id is above that of an evicted cluster, too.
    let state = DrainState::from_clusters(config(1), vec![cluster(9, "aaa"), cluster(2, "bbb")]);
    assert_eq!(state.clusters[0].cluster_id, 2);
    assert_eq!(state.next_cluster_id, 10);
    let state = DrainState::from_clusters(config(0), vec![cluster(4, "aaa")]);
    assert!(state.clusters.is_empty());
    assert_eq!(state.next_cluster_id, 5);
}
