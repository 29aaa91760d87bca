//! Extracted parameters as JSON values of `serde_json`.
use vstd::prelude::*;
use crate::types::DrainState;
use crate::wildcard::{extracted, pair_texts};

verus! {

/// `serde_json::Value`.
#[verifier::external_type_specification]
#[verifier::external_body]
pub struct ExValue(serde_json::Value);

/// `serde_json::Map`.
#[verifier::external_type_specification]
#[verifier::external_body]
#[verifier::reject_recursive_types(K)]
#[verifier::reject_recursive_types(V)]
pub struct ExMap<K, V>(serde_json::Map<K, V>);

/// What a JSON value says.
pub enum JsonView {
    /// A string.
    Text(Seq<char>),
    /// An array.
    Array(Seq<JsonView>),
    /// An object.
    Object(Map<Seq<char>, JsonView>),
    /// A null, a boolean or a number.
    Other,
}

/// What a `serde_json::Value` holds.
pub uninterp spec fn json_value(value: serde_json::Value) -> JsonView;

/// What a `serde_json::Map` holds: the value under each key.
pub uninterp spec fn json_entries(
    map: serde_json::Map<String, serde_json::Value>,
) -> Map<Seq<char>, JsonView>;

/// What the values of a vector hold.
pub open spec fn json_values(values: Seq<serde_json::Value>) -> Seq<JsonView> {
    values.map_values(|v: serde_json::Value| json_value(v))
}

/// `serde_json::Map::new`: makes an empty map.
pub assume_specification[ serde_json::Map::<String, serde_json::Value>::new ]() -> (map:
    serde_json::Map<String, serde_json::Value>)
    ensures
        json_entries(map).is_empty(),
;

/// `serde_json::Map::insert`: puts a value under a key, and returns the one that it replaces.
pub assume_specification[ serde_json::Map::<String, serde_json::Value>::insert ](
    map: &mut serde_json::Map<String, serde_json::Value>,
    k: String,
    v: serde_json::Value,
) -> (previous: Option<serde_json::Value>)
    ensures
        json_entries(*final(map)) == json_entries(*old(map)).insert(k@, json_value(v)),
        match previous {
            Some(value) => json_entries(*old(map)).contains_key(k@) && json_entries(
                *old(map),
            )[k@] == json_value(value),
            None => !json_entries(*old(map)).contains_key(k@),
        },
;

/// `serde_json::Value::String`: the JSON string with the given text.
#[verifier::external_body]
fn string_value(text: String) -> (value: serde_json::Value)
    ensures
        json_value(value) == JsonView::Text(text@),
{
    serde_json::Value::String(text)
}

/// `serde_json::Value::Array`: the JSON array of the given values.
#[verifier::external_body]
fn array_value(values: Vec<serde_json::Value>) -> (value: serde_json::Value)
    ensures
        json_value(value) == JsonView::Array(json_values(values@)),
{
    serde_json::Value::Array(values)
}

/// `serde_json::Value::Object`: the JSON object with the entries of the given map.
#[verifier::external_body]
fn object_value(map: serde_json::Map<String, serde_json::Value>) -> (value: serde_json::Value)
    ensures
        json_value(value) == JsonView::Object(json_entries(map)),
{
    serde_json::Value::Object(map)
}

/// Reserved key for the positional values in the output. Its underscore keeps it apart from
/// the names of wildcards that are merged beside it.
pub const PARAMS_VALUES_KEY: &'static str = "_values";

/// The values of the parameters, in order.
pub open spec fn param_values(params: Seq<(Seq<char>, Seq<char>)>) -> Seq<JsonView> {
    params.map_values(|p: (Seq<char>, Seq<char>)| JsonView::Text(p.1))
}

/// `base` with the named parameters merged into it, later ones over earlier ones. Names that
/// start with an underscore are reserved and left out.
pub open spec fn with_named(
    base: Map<Seq<char>, JsonView>,
    params: Seq<(Seq<char>, Seq<char>)>,
) -> Map<Seq<char>, JsonView>
    decreases params.len(),
{
    if params.len() == 0 {
        base
    } else {
        let (name, value) = params.last();
        let rest = with_named(base, params.drop_last());
        if name.len() > 0 && name[0] == '_' {
            rest
        } else {
            rest.insert(name, JsonView::Text(value))
        }
    }
}

/// The object for parameters: all values in order under [`PARAMS_VALUES_KEY`], and the named
/// ones each under its name.
pub open spec fn params_object(params: Seq<(Seq<char>, Seq<char>)>) -> Map<Seq<char>, JsonView> {
    with_named(
        Map::empty().insert(PARAMS_VALUES_KEY@, JsonView::Array(param_values(params))),
        params,
    )
}

/// The object for parameters.
pub fn params_to_json(params: &Vec<(String, String)>) -> (value: serde_json::Value)
    ensures
        json_value(value) == JsonView::Object(params_object(pair_texts(params@))),
{
    let ghost pairs = pair_texts(params@);
    let mut values: Vec<serde_json::Value> = Vec::new();
    let mut i: usize = 0;
    while i < params.len()
        invariant
            i <= params@.len(),
            pairs == pair_texts(params@),
            json_values(values@) == param_values(pairs).take(i as int),
        decreases params@.len() - i,
    {
        let ghost before = values@;
        let text = params[i].1.clone();
        let value = string_value(text);
        values.push(value);
        proof {
            assert(json_values(values@) =~= json_values(before).push(JsonView::Text(text@)));
            assert(param_values(pairs).take(i + 1) =~= param_values(pairs).take(i as int).push(
                JsonView::Text(text@),
            ));
        }
        i = i + 1;
    }
    proof {
        assert(param_values(pairs).take(i as int) =~= param_values(pairs));
    }
    let mut map = serde_json::Map::new();
    proof {
        assert(json_entries(map) =~= Map::empty());
    }
    map.insert(PARAMS_VALUES_KEY.to_string(), array_value(values));
    let ghost base = json_entries(map);
    let mut j: usize = 0;
    while j < params.len()
        invariant
            j <= params@.len(),
            pairs == pair_texts(params@),
            json_entries(map) == with_named(base, pairs.take(j as int)),
        decreases params@.len() - j,
    {
        let name = params[j].0.clone();
        let reserved = name.as_str().unicode_len() > 0 && name.as_str().get_char(0) == '_';
        proof {
            assert(pairs.take(j + 1).drop_last() =~= pairs.take(j as int));
            assert(pairs.take(j + 1).last() == (name@, params@[j as int].1@));
        }
        if !reserved {
            map.insert(name, string_value(params[j].1.clone()));
        }
        j = j + 1;
    }
    proof {
        assert(pairs.take(j as int) =~= pairs);
    }
    object_value(map)
}

/// Extracts the parameters of a message as JSON: an array of all values for access by
/// position, and the named wildcards merged beside it.
pub fn drain3_extract_params(template: &str, log_message: &str) -> (value: serde_json::Value)
    ensures
        json_value(value) == JsonView::Object(params_object(extracted(template@, log_message@))),
{
    let params = DrainState::extract_params(template, log_message);
    params_to_json(&params)
}

/// The reserved key always holds all values in order, whatever the wildcards are called, and
/// no other key starts with an underscore.
pub proof fn law_values_key_is_reserved(params: Seq<(Seq<char>, Seq<char>)>)
    ensures
        params_object(params).contains_key(PARAMS_VALUES_KEY@),
        params_object(params)[PARAMS_VALUES_KEY@] == JsonView::Array(param_values(params)),
        forall|k: Seq<char>| #[trigger]
            params_object(params).contains_key(k) && k.len() > 0 && k[0] == '_' ==> k
                == PARAMS_VALUES_KEY@,
{
    reveal_strlit("_values");
    let base = Map::empty().insert(PARAMS_VALUES_KEY@, JsonView::Array(param_values(params)));
    lemma_with_named_reserved(base, params, PARAMS_VALUES_KEY@);
    assert forall|k: Seq<char>| #[trigger]
        params_object(params).contains_key(k) && k.len() > 0 && k[0] == '_' implies k
        == PARAMS_VALUES_KEY@ by {
        lemma_with_named_reserved(base, params, k);
    }
}

proof fn lemma_with_named_reserved(
    base: Map<Seq<char>, JsonView>,
    params: Seq<(Seq<char>, Seq<char>)>,
    k: Seq<char>,
)
    requires
        k.len() > 0,
        k[0] == '_',
    ensures
        with_named(base, params).contains_key(k) == base.contains_key(k),
        with_named(base, params)[k] == base[k],
    decreases params.len(),
{
    if params.len() > 0 {
        lemma_with_named_reserved(base, params.drop_last(), k);
        let name = params.last().0;
        if name.len() == 0 || name[0] != '_' {
            assert(name != k);
        }
    }
}

/// A named parameter is found under its name, with the value of the last wildcard of that
/// name.
pub proof fn law_named_param_is_merged(params: Seq<(Seq<char>, Seq<char>)>, i: int)
    requires
        0 <= i < params.len(),
        params[i].0.len() == 0 || params[i].0[0] != '_',
        forall|j: int| i < j < params.len() ==> (#[trigger] params[j]).0 != params[i].0,
    ensures
        params_object(params).contains_key(params[i].0),
        params_object(params)[params[i].0] == JsonView::Text(params[i].1),
{
    let base = Map::empty().insert(PARAMS_VALUES_KEY@, JsonView::Array(param_values(params)));
    lemma_with_named_last(base, params, i);
}

proof fn lemma_with_named_last(
    base: Map<Seq<char>, JsonView>,
    params: Seq<(Seq<char>, Seq<char>)>,
    i: int,
)
    requires
        0 <= i < params.len(),
        params[i].0.len() == 0 || params[i].0[0] != '_',
        forall|j: int| i < j < params.len() ==> (#[trigger] params[j]).0 != params[i].0,
    ensures
        with_named(base, params).contains_key(params[i].0),
        with_named(base, params)[params[i].0] == JsonView::Text(params[i].1),
    decreases params.len(),
{
    if i < params.len() - 1 {
        let rest = params.drop_last();
        assert forall|j: int| i < j < rest.len() implies (#[trigger] rest[j]).0 != rest[i].0 by {
            assert(rest[j] == params[j]);
        }
        lemma_with_named_last(base, rest, i);
        assert(params[params.len() - 1].0 != params[i].0);
    }
}

/// The array holds the value of each parameter as a string, in order.
pub proof fn law_values_are_in_order(params: Seq<(Seq<char>, Seq<char>)>)
    ensures
        params_object(params)[PARAMS_VALUES_KEY@] matches JsonView::Array(values) && {
            &&& values.len() == params.len()
            &&& forall|i: int|
                0 <= i < params.len() ==> #[trigger] values[i] == JsonView::Text(params[i].1)
        },
{
    law_values_key_is_reserved(params);
}

/// The object has no keys but the reserved one and the names of parameters that do not start
/// with an underscore.
pub proof fn law_no_other_keys(params: Seq<(Seq<char>, Seq<char>)>, k: Seq<char>)
    requires
        params_object(params).contains_key(k),
        k != PARAMS_VALUES_KEY@,
    ensures
        k.len() == 0 || k[0] != '_',
        exists|i: int| 0 <= i < params.len() && (#[trigger] params[i]).0 == k,
{
    law_values_key_is_reserved(params);
    let base = Map::empty().insert(PARAMS_VALUES_KEY@, JsonView::Array(param_values(params)));
    lemma_with_named_keys(base, params, k);
}

proof fn lemma_with_named_keys(
    base: Map<Seq<char>, JsonView>,
    params: Seq<(Seq<char>, Seq<char>)>,
    k: Seq<char>,
)
    requires
        with_named(base, params).contains_key(k),
        !base.contains_key(k),
    ensures
        exists|i: int| 0 <= i < params.len() && (#[trigger] params[i]).0 == k,
    decreases params.len(),
{
    if params.len() > 0 {
        let rest = params.drop_last();
        if params.last().0 == k {
            assert(params[params.len() - 1].0 == k);
        } else {
            lemma_with_named_keys(base, rest, k);
            let i = choose|i: int| 0 <= i < rest.len() && (#[trigger] rest[i]).0 == k;
            assert(params[i].0 == k);
        }
    }
}

} // verus!
