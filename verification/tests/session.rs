use pg_wodekit::session::{
    cluster_from_row, drain3_clusters, drain3_match, drain3_mine_sfunc, SessionError, Sessions,
    TableRow,
};
use pg_wodekit::types::DrainConfig;

fn s(strs: &[&str]) -> Vec<String> {
    strs.iter().map(|s| s.to_string()).collect()
}

fn depth(depth: usize) -> DrainConfig {
    DrainConfig {
        depth,
        ..Default::default()
    }
}

fn row(id: i64, template: &str, size: i64, examples: &[&str]) -> TableRow {
    TableRow {
        id: Some(id),
        template: Some(template.to_string()),
        size: Some(size),
        examples: Some(s(examples)),
    }
}

#[test]
fn load_feed_match() {
    let mut sessions = Sessions::new();
    assert_eq!(sessions.load("test", depth(3), None, &Vec::new()).unwrap(), 0);
    assert_eq!(sessions.feed("test", "User alice logged in").unwrap(), 1);
    assert_eq!(sessions.feed("test", "User bob logged in").unwrap(), 1);
    assert_eq!(sessions.feed("test", "User charlie logged in").unwrap(), 1);
    assert_eq!(sessions.feed("test", "  ").unwrap(), 0);
    let template = sessions.match_model("test", "User dave logged in").unwrap();
    assert_eq!(template.unwrap(), "User <*> logged in");
    assert!(sessions.match_model("test", "something else").unwrap().is_none());
}

#[test]
fn clusters_with_examples() {
    let mut sessions = Sessions::new();
    sessions.load("test2", depth(3), None, &Vec::new()).unwrap();
    sessions.feed("test2", "Request took 100 ms").unwrap();
    sessions.feed("test2", "Request took 200 ms").unwrap();
    let rows = sessions.model_clusters("test2").unwrap();
    assert_eq!(
        rows,
        vec![(
            1,
            "Request took <*> ms".to_string(),
            2,
            s(&["Request took 100 ms", "Request took 200 ms"])
        )]
    );
}

#[test]
fn dump_and_reload() {
    let mut sessions = Sessions::new();
    let bound = Some("test_drain");
    assert_eq!(sessions.load("t1", depth(3), bound, &Vec::new()).unwrap(), 0);
    sessions.feed("t1", "User alice logged in").unwrap();
    sessions.feed("t1", "User bob logged in").unwrap();
    let dump = sessions.dump("t1", None).unwrap();
    assert_eq!(dump.saved, 1);
    assert_eq!(dump.delete, "DELETE FROM \"test_drain\" WHERE model = 't1'");
    assert_eq!(
        dump.inserts,
        vec![
            "INSERT INTO \"test_drain\" (model, id, template, size, examples) VALUES ('t1', 1, \
             'User <*> logged in', 2, ARRAY['User alice logged in','User bob logged in']::text[])"
        ]
    );
    let saved = sessions.model_clusters("t1").unwrap();

    assert!(sessions.unload("t1"));
    assert!(!sessions.unload("t1"));
    let rows: Vec<TableRow> = saved
        .iter()
        .map(|(id, template, size, examples)| TableRow {
            id: Some(*id),
            template: Some(template.clone()),
            size: Some(*size),
            examples: Some(examples.clone()),
        })
        .collect();
    assert_eq!(sessions.load("t1", depth(3), bound, &rows).unwrap(), 1);
    assert_eq!(sessions.model_clusters("t1").unwrap(), saved);
    let matched = sessions.match_model("t1", "User charlie logged in").unwrap();
    assert_eq!(matched.unwrap(), "User <*> logged in");
    assert_eq!(sessions.feed("t1", "Error: disk full").unwrap(), 2);
}

#[test]
fn tables_for_saving() {
    let mut sessions = Sessions::new();
    sessions.load("m", depth(3), None, &Vec::new()).unwrap();
    let refused = sessions.dump("m", None).unwrap_err();
    assert!(matches!(refused, SessionError::NoTable));
    assert_eq!(
        refused.message(),
        "no table specified, pass table_name or bind at load"
    );
    let dump = sessions.dump("m", Some("other")).unwrap();
    assert_eq!(dump.delete, "DELETE FROM \"other\" WHERE model = 'm'");
    assert_eq!(dump.saved, 0);
    assert!(dump.inserts.is_empty());
    sessions.load("m", depth(3), Some("bound"), &Vec::new()).unwrap();
    let dump = sessions.dump("m", Some("other")).unwrap();
    assert_eq!(dump.delete, "DELETE FROM \"other\" WHERE model = 'm'");
    let dump = sessions.dump("m", None).unwrap();
    assert_eq!(dump.delete, "DELETE FROM \"bound\" WHERE model = 'm'");
}

#[test]
fn models_that_are_not_loaded() {
    let mut sessions = Sessions::new();
    let message = "model 'x' not loaded, call drain3_load first";
    assert_eq!(sessions.feed("x", "a").unwrap_err().message(), message);
    assert_eq!(sessions.match_model("x", "a").unwrap_err().message(), message);
    assert_eq!(sessions.model_clusters("x").unwrap_err().message(), message);
    let refused = sessions.dump("x", Some("t")).unwrap_err();
    assert_eq!(refused.message(), "model 'x' not loaded");
    assert!(!sessions.unload("x"));
    assert!(sessions.get("x").is_none());
}

#[test]
fn models_are_listed_once_each() {
    let mut sessions = Sessions::new();
    sessions.load("m1", depth(3), None, &Vec::new()).unwrap();
    sessions.load("m2", depth(4), Some("t"), &vec![row(4, "a b", 2, &[])]).unwrap();
    sessions.load("m1", depth(4), Some("u"), &Vec::new()).unwrap();
    let mut rows = sessions.models();
    rows.sort();
    assert_eq!(
        rows,
        vec![
            ("m1".to_string(), 0, Some("u".to_string())),
            ("m2".to_string(), 1, Some("t".to_string())),
        ]
    );
    assert!(sessions.unload("m1"));
    assert_eq!(sessions.models().len(), 1);
    assert!(sessions.unload("m2"));
    assert!(sessions.models().is_empty());
}

#[test]
fn models_do_not_share_clusters() {
    let mut sessions = Sessions::new();
    sessions.load("a", depth(3), None, &Vec::new()).unwrap();
    sessions.load("b", depth(3), None, &Vec::new()).unwrap();
    sessions.feed("a", "x y z").unwrap();
    assert!(sessions.match_model("a", "x y z").unwrap().is_some());
    assert!(sessions.match_model("b", "x y z").unwrap().is_none());
}

#[test]
fn rows_without_values() {
    let cluster = cluster_from_row(&TableRow {
        id: None,
        template: None,
        size: None,
        examples: None,
    });
    assert_eq!(cluster.cluster_id, 0);
    assert!(cluster.template_tokens.is_empty());
    assert_eq!(cluster.size, 0);
    assert!(cluster.examples.is_empty());
    let cluster = cluster_from_row(&row(3, " a  b ", 9, &["x"]));
    assert_eq!(cluster.cluster_id, 3);
    assert_eq!(cluster.template_tokens, s(&["a", "b"]));
    assert_eq!(cluster.size, 9);
    assert_eq!(cluster.examples, s(&["x"]));
    assert_eq!(cluster_from_row(&row(-1, "", 0, &[])).cluster_id, usize::MAX);
}

#[test]
fn rows_without_a_table_are_not_read() {
    let mut sessions = Sessions::new();
    let rows = vec![row(1, "a b", 1, &[])];
    assert_eq!(sessions.load("m", depth(3), None, &rows).unwrap(), 0);
    assert!(sessions.model_clusters("m").unwrap().is_empty());
}

#[test]
fn counters_that_are_full() {
    let mut sessions = Sessions::new();
    sessions.load("m", depth(3), Some("t"), &vec![row(5, "a b", 1, &[])]).unwrap();
    let refused = sessions
        .load("m", depth(3), Some("t"), &vec![row(-1, "c d", 1, &[])])
        .unwrap_err();
    assert!(matches!(refused, SessionError::CounterFull));
    assert_eq!(sessions.model_clusters("m").unwrap()[0].1, "a b");
    // A size of -1 stands for the greatest count.
    sessions.load("m", depth(3), Some("t"), &vec![row(5, "a b", -1, &[])]).unwrap();
    let refused = sessions.feed("m", "a b").unwrap_err();
    assert!(matches!(refused, SessionError::CounterFull));
    assert_eq!(refused.message(), "attempt to add with overflow");
    assert_eq!(sessions.model_clusters("m").unwrap()[0].2, -1);
}

#[test]
fn templates_with_whitespace_in_tokens_are_split_on_reload() {
    let mut sessions = Sessions::new();
    let config = || DrainConfig {
        delimiters: s(&["|"]),
        ..Default::default()
    };
    sessions.load("m", config(), Some("t"), &Vec::new()).unwrap();
    sessions.feed("m", "INFO|User logged in").unwrap();
    let rows = vec![row(1, "INFO User logged in", 1, &[])];
    sessions.load("m", config(), Some("t"), &rows).unwrap();
    assert!(sessions.match_model("m", "INFO|User logged in").unwrap().is_none());
}

#[test]
fn models_as_values() {
    let model = drain3_mine_sfunc(None, "Request took 100 ms").unwrap();
    let model = drain3_mine_sfunc(Some(model), "Request took 200 ms").unwrap();
    let model = drain3_mine_sfunc(Some(model), "").unwrap();
    assert_eq!(model.0.config.depth, 4);
    let before = model.clone();
    let model = drain3_mine_sfunc(Some(model), "Another one").unwrap();
    assert_eq!(drain3_clusters(&model).len(), 2);
    let model = before;
    assert_eq!(
        drain3_match(&model, "Request took 7 ms").unwrap(),
        "Request took <*> ms"
    );
    assert!(drain3_match(&model, "Response took 7 ms").is_none());
    let rows = drain3_clusters(&model);
    assert_eq!(rows.len(), 1);
    assert_eq!(rows[0].0, 1);
    assert_eq!(rows[0].2, 2);
}

#[test]
fn loading_keeps_to_the_limit() {
    let mut sessions = Sessions::new();
    let config = DrainConfig {
        max_clusters: 2,
        ..Default::default()
    };
    let rows = vec![row(1, "a", 1, &[]), row(2, "b", 1, &[]), row(5, "c", 1, &[])];
    assert_eq!(sessions.load("m", config, Some("t"), &rows).unwrap(), 2);
    let ids: Vec<i64> = sessions
        .model_clusters("m")
        .unwrap()
        .iter()
        .map(|c| c.0)
        .collect();
    assert_eq!(ids, vec![2, 5]);
    assert!(sessions.match_model("m", "a").unwrap().is_none());
    assert_eq!(sessions.match_model("m", "c").unwrap().unwrap(), "c");
    assert_eq!(sessions.feed("m", "d").unwrap(), 6);
}
