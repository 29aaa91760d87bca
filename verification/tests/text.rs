use pg_wodekit::sql::{delete_statement, exists_query, insert_statement, select_query};
use pg_wodekit::text::{divide, is_whitespace, join, numeral, replace, split_whitespace};
use pg_wodekit::types::LogCluster;

fn s(strs: &[&str]) -> Vec<String> {
    strs.iter().map(|s| s.to_string()).collect()
}

#[test]
fn whitespace_is_that_of_unicode() {
    for n in 0..=0x10FFFFu32 {
        if let Some(c) = char::from_u32(n) {
            assert_eq!(is_whitespace(c), c.is_whitespace());
        }
    }
}

#[test]
fn replacing_agrees_with_std() {
    for (text, pat, to) in [
        ("aaaa", "aa", "b"),
        ("aaaaa", "aa", "b"),
        ("abc", "", "-"),
        ("", "", "-"),
        ("", "x", "-"),
        ("abcabc", "bc", ""),
        ("äöü", "ö", "oe"),
        ("short", "longer than it", "x"),
        ("aab", "ab", "aab"),
    ] {
        assert_eq!(replace(text, pat, to), text.replace(pat, to));
    }
}

#[test]
fn dividing_agrees_with_std() {
    for (text, pat) in [
        ("a|b||c|", "|"),
        ("|", "|"),
        ("", "|"),
        ("no match", "|"),
        ("aaaaa", "aa"),
        ("xaaay", "aa"),
        ("ab", "abc"),
        ("äöü", ""),
        ("größe ist größe", "größe"),
    ] {
        let want: Vec<&str> = text.split(pat).filter(|t| !t.is_empty()).collect();
        assert_eq!(divide(text, pat), want);
    }
}

#[test]
fn splitting_and_joining() {
    assert_eq!(split_whitespace("  a  bc\td "), s(&["a", "bc", "d"]));
    assert!(split_whitespace("").is_empty());
    assert_eq!(join(&s(&["a", "b", "c"]), ", "), "a, b, c");
    assert_eq!(join(&s(&["a"]), ", "), "a");
    assert_eq!(join(&s(&[]), ", "), "");
    let words = s(&["User", "<*>", "logged", "in"]);
    assert_eq!(split_whitespace(&join(&words, " ")), words);
}

#[test]
fn numerals() {
    assert_eq!(numeral(0), "0");
    assert_eq!(numeral(7), "7");
    assert_eq!(numeral(10), "10");
    assert_eq!(numeral(9_876_543_210), "9876543210");
    assert_eq!(numeral(u64::MAX), "18446744073709551615");
}

#[test]
fn statements() {
    assert_eq!(
        delete_statement("my_drain", "syslog"),
        "DELETE FROM \"my_drain\" WHERE model = 'syslog'"
    );
    assert_eq!(
        delete_statement("a\"b", "it's"),
        "DELETE FROM \"a\"\"b\" WHERE model = 'it''s'"
    );
    assert_eq!(
        select_query("a\"b", "it's"),
        "SELECT id, template, size, examples FROM \"a\"\"b\" WHERE model = 'it''s' ORDER BY id"
    );
    assert_eq!(
        exists_query("a\"b'c"),
        "SELECT EXISTS(SELECT 1 FROM pg_class WHERE relname = 'a\"b''c' AND relkind = 'r')"
    );
    let cluster = LogCluster {
        cluster_id: 12,
        template_tokens: s(&["can't", "open", "<*>"]),
        size: 345,
        examples: s(&["can't open x", "''"]),
    };
    assert_eq!(
        insert_statement("t", "m'", &cluster),
        "INSERT INTO \"t\" (model, id, template, size, examples) VALUES ('m''', 12, \
         'can''t open <*>', 345, ARRAY['can''t open x','''''']::text[])"
    );
    let cluster = LogCluster {
        cluster_id: 1,
        template_tokens: Vec::new(),
        size: 0,
        examples: Vec::new(),
    };
    assert_eq!(
        insert_statement("t", "m", &cluster),
        "INSERT INTO \"t\" (model, id, template, size, examples) VALUES ('m', 1, '', 0, \
         ARRAY[]::text[])"
    );
}
