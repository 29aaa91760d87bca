use pg_wodekit::json::{drain3_extract_params, params_to_json, PARAMS_VALUES_KEY};
use pg_wodekit::types::DrainState;
use pg_wodekit::wildcard::{extract_wildcard_name, is_wildcard};

fn pair(name: &str, value: &str) -> (String, String) {
    (name.to_string(), value.to_string())
}

#[test]
fn wildcards_and_their_names() {
    for (token, wildcard, name) in [
        ("<*>", true, None),
        ("<user>", true, Some("user")),
        ("{ip}", true, Some("ip")),
        ("{}", true, None),
        ("<>", true, None),
        ("{*}", true, None),
        ("<**>", true, Some("**")),
        ("<größe>", true, Some("größe")),
        ("<a>b", false, None),
        ("<a}", false, None),
        ("<", false, None),
        (">", false, None),
        ("", false, None),
        ("word", false, None),
    ] {
        assert_eq!(is_wildcard(token), wildcard);
        assert_eq!(extract_wildcard_name(token).as_deref(), name);
    }
}

#[test]
fn unnamed_wildcards_are_numbered() {
    assert_eq!(
        DrainState::extract_params("<*> {} <n> <*>", "a b c d"),
        vec![pair("_1", "a"), pair("_2", "b"), pair("n", "c"), pair("_3", "d")]
    );
}

#[test]
fn different_lengths_have_no_params() {
    assert!(DrainState::extract_params("<*> b", "a").is_empty());
    assert!(DrainState::extract_params("", "").is_empty());
}

#[test]
fn filling_a_template_restores_the_message() {
    let template = "User <user> logged in from <*>";
    let message = "User admin logged in from 10.0.0.1";
    let params = DrainState::extract_params(template, message);
    let mut values = params.iter().map(|p| p.1.as_str());
    let filled: Vec<&str> = template
        .split_whitespace()
        .map(|t| if is_wildcard(t) { values.next().unwrap() } else { t })
        .collect();
    assert_eq!(filled.join(" "), message);
    assert!(values.next().is_none());
}

#[test]
fn named_params_as_json() {
    let value = drain3_extract_params(
        "User <user> logged in from <ip>",
        "User admin logged in from 192.168.1.1",
    );
    let obj = value.as_object().unwrap();
    // Named keys at top level
    assert_eq!(obj.get("user").unwrap().as_str().unwrap(), "admin");
    assert_eq!(obj.get("ip").unwrap().as_str().unwrap(), "192.168.1.1");
    // Positional values array
    let values = obj.get("_values").unwrap().as_array().unwrap();
    assert_eq!(values[0].as_str().unwrap(), "admin");
    assert_eq!(values[1].as_str().unwrap(), "192.168.1.1");
    assert_eq!(values.len(), 2);
    assert_eq!(obj.len(), 3);
}

#[test]
fn unnamed_params_as_json() {
    let value = drain3_extract_params("User <*> logged in", "User admin logged in");
    let obj = value.as_object().unwrap();
    // Only values array, no named keys
    let values = obj.get("_values").unwrap().as_array().unwrap();
    assert_eq!(values[0].as_str().unwrap(), "admin");
    assert!(!obj.contains_key("_1")); // no auto-index keys at top level
    assert_eq!(obj.len(), 1);
}

#[test]
fn no_params_as_json() {
    let value = drain3_extract_params("a <x>", "a");
    let obj = value.as_object().unwrap();
    assert_eq!(obj.len(), 1);
    assert!(obj.get(PARAMS_VALUES_KEY).unwrap().as_array().unwrap().is_empty());
}

#[test]
fn reserved_names_are_not_merged() {
    let value = drain3_extract_params("<_values> <_x> <x>", "a b c");
    let obj = value.as_object().unwrap();
    let values: Vec<&str> = obj
        .get(PARAMS_VALUES_KEY)
        .unwrap()
        .as_array()
        .unwrap()
        .iter()
        .map(|v| v.as_str().unwrap())
        .collect();
    assert_eq!(values, vec!["a", "b", "c"]);
    assert!(!obj.contains_key("_x"));
    assert_eq!(obj.get("x").unwrap().as_str().unwrap(), "c");
}

#[test]
fn the_last_of_one_name_is_merged() {
    let value = params_to_json(&vec![pair("x", "1"), pair("x", "2"), pair("", "3")]);
    let obj = value.as_object().unwrap();
    assert_eq!(obj.get("x").unwrap().as_str().unwrap(), "2");
    assert_eq!(obj.get("").unwrap().as_str().unwrap(), "3");
    assert_eq!(obj.get("_values").unwrap().as_array().unwrap().len(), 3);
}
