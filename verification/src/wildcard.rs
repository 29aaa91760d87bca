//! Wildcards in templates, and the values that a message has for them.
use vstd::prelude::*;
use crate::text::{chars_of, decimal, numeral, split_whitespace, string_of, texts, words};
use crate::types::DrainState;

verus! {

/// Whether `t` starts with `open` and ends with `close`.
pub open spec fn enclosed(t: Seq<char>, open: char, close: char) -> bool {
    t.len() > 0 && t[0] == open && t.last() == close
}

/// A wildcard: a token in angle brackets or in braces.
pub open spec fn wildcard(t: Seq<char>) -> bool {
    enclosed(t, '<', '>') || enclosed(t, '{', '}')
}

/// The name of a wildcard: what stands between its brackets, unless that is nothing or `*`.
pub open spec fn wildcard_name(t: Seq<char>) -> Option<Seq<char>> {
    if wildcard(t) {
        let inner = t.subrange(1, t.len() - 1);
        if inner.len() == 0 || inner == seq!['*'] {
            None
        } else {
            Some(inner)
        }
    } else {
        None
    }
}

/// How many of the tokens are wildcards without a name.
pub open spec fn unnamed_count(template: Seq<Seq<char>>) -> nat
    decreases template.len(),
{
    if template.len() == 0 {
        0
    } else {
        unnamed_count(template.drop_last()) + if wildcard(template.last())
            && wildcard_name(template.last()) is None {
            1nat
        } else {
            0
        }
    }
}

/// The parameters of a message under a template of the same length: for each wildcard its
/// name, and the message's token at its position. Those without a name are numbered from 1,
/// with `_` in front.
pub open spec fn params_of(template: Seq<Seq<char>>, tokens: Seq<Seq<char>>) -> Seq<
    (Seq<char>, Seq<char>),
>
    decreases template.len(),
{
    if template.len() == 0 {
        Seq::empty()
    } else {
        let rest = params_of(template.drop_last(), tokens.drop_last());
        if wildcard(template.last()) {
            let name = match wildcard_name(template.last()) {
                Some(name) => name,
                None => seq!['_'] + decimal(unnamed_count(template.drop_last()) + 1),
            };
            rest.push((name, tokens.last()))
        } else {
            rest
        }
    }
}

/// The parameters of a message under a template, both split on whitespace, and none if they
/// differ in length.
pub open spec fn extracted(template: Seq<char>, message: Seq<char>) -> Seq<
    (Seq<char>, Seq<char>),
> {
    let t = words(template);
    let m = words(message);
    if t.len() == m.len() {
        params_of(t, m)
    } else {
        Seq::empty()
    }
}

/// The texts of pairs of strings.
pub open spec fn pair_texts(pairs: Seq<(String, String)>) -> Seq<(Seq<char>, Seq<char>)> {
    pairs.map_values(|p: (String, String)| (p.0@, p.1@))
}

/// Whether a token is a wildcard like `<*>`, `<user>` or `{}`.
pub fn is_wildcard(token: &str) -> (res: bool)
    ensures
        res == wildcard(token@),
{
    let chars = chars_of(token);
    let n: usize = chars.len();
    if n == 0 {
        return false;
    }
    (chars[0] == '<' && chars[n - 1] == '>') || (chars[0] == '{' && chars[n - 1] == '}')
}

/// The name of a wildcard: `<user>` and `{user}` have the name `user`, `<*>` and `{}` none.
pub fn extract_wildcard_name(token: &str) -> (res: Option<String>)
    ensures
        match res {
            Some(name) => wildcard_name(token@) == Some(name@),
            None => wildcard_name(token@) is None,
        },
{
    if !is_wildcard(token) {
        return None;
    }
    let chars = chars_of(token);
    let n: usize = chars.len();
    proof {
        assert(n >= 2);
        let inner = token@.subrange(1, n - 1);
        if inner.len() == 1 {
            assert(inner[0] == chars@[1]);
            if chars@[1] == '*' {
                assert(inner =~= seq!['*']);
            }
        }
    }
    if n == 2 || (n == 3 && chars[1] == '*') {
        None
    } else {
        Some(string_of(chars.as_slice(), 1, n - 1))
    }
}

impl DrainState {
    /// Extracts parameter values from a log message given a template. Supports both unnamed
    /// `<*>` and named `<user>` wildcards.
    pub fn extract_params(template: &str, log_message: &str) -> (params: Vec<(String, String)>)
        ensures
            pair_texts(params@) == extracted(template@, log_message@),
    {
        let tmpl_tokens = split_whitespace(template);
        let msg_tokens = split_whitespace(log_message);
        let ghost t = texts(tmpl_tokens@);
        let ghost m = texts(msg_tokens@);
        let mut params: Vec<(String, String)> = Vec::new();
        proof {
            assert(t.len() == tmpl_tokens@.len());
            assert(m.len() == msg_tokens@.len());
            assert(pair_texts(params@) =~= Seq::empty());
        }
        if tmpl_tokens.len() != msg_tokens.len() {
            return params;
        }
        let mut idx: usize = 0;
        let mut i: usize = 0;
        while i < tmpl_tokens.len()
            invariant
                i <= tmpl_tokens@.len(),
                tmpl_tokens@.len() == msg_tokens@.len(),
                t == texts(tmpl_tokens@),
                m == texts(msg_tokens@),
                idx <= i,
                idx == unnamed_count(t.take(i as int)),
                pair_texts(params@) == params_of(t.take(i as int), m.take(i as int)),
            decreases tmpl_tokens@.len() - i,
        {
            let ghost before = params@;
            proof {
                assert(t.take(i + 1).drop_last() =~= t.take(i as int));
                assert(m.take(i + 1).drop_last() =~= m.take(i as int));
                assert(t.take(i + 1).last() == tmpl_tokens@[i as int]@);
                assert(m.take(i + 1).last() == msg_tokens@[i as int]@);
            }
            if is_wildcard(tmpl_tokens[i].as_str()) {
                let name = match extract_wildcard_name(tmpl_tokens[i].as_str()) {
                    Some(name) => name,
                    None => {
                        idx = idx + 1;
                        let mut name = String::new();
                        name.push('_');
                        name.append(numeral(idx as u64).as_str());
                        proof {
                            assert(name@ =~= seq!['_'] + decimal(idx as nat));
                        }
                        name
                    },
                };
                let value = msg_tokens[i].clone();
                params.push((name, value));
                proof {
                    assert(pair_texts(params@) =~= pair_texts(before).push((name@, value@)));
                }
            }
            i = i + 1;
        }
        proof {
            assert(t.take(i as int) =~= t);
            assert(m.take(i as int) =~= m);
        }
        params
    }
}

/// The template with its wildcards replaced by values, in order.
pub open spec fn filled(template: Seq<Seq<char>>, values: Seq<Seq<char>>) -> Seq<Seq<char>>
    decreases template.len(),
{
    if template.len() == 0 {
        Seq::empty()
    } else if wildcard(template.last()) {
        filled(template.drop_last(), values.drop_last()).push(values.last())
    } else {
        filled(template.drop_last(), values).push(template.last())
    }
}

/// The values of parameters.
pub open spec fn values_of(params: Seq<(Seq<char>, Seq<char>)>) -> Seq<Seq<char>> {
    params.map_values(|p: (Seq<char>, Seq<char>)| p.1)
}

/// How many of the tokens are wildcards.
pub open spec fn wildcard_count(template: Seq<Seq<char>>) -> nat
    decreases template.len(),
{
    if template.len() == 0 {
        0
    } else {
        wildcard_count(template.drop_last()) + if wildcard(template.last()) {
            1nat
        } else {
            0
        }
    }
}

/// Every wildcard has its parameter, and nothing else has.
pub proof fn law_one_param_per_wildcard(template: Seq<Seq<char>>, tokens: Seq<Seq<char>>)
    requires
        template.len() == tokens.len(),
    ensures
        params_of(template, tokens).len() == wildcard_count(template),
    decreases template.len(),
{
    if template.len() > 0 {
        law_one_param_per_wildcard(template.drop_last(), tokens.drop_last());
    }
}

/// Filling a template with the values that were extracted gives the message back, if the
/// message has the template's fixed tokens.
pub proof fn law_filling_restores(template: Seq<Seq<char>>, tokens: Seq<Seq<char>>)
    requires
        template.len() == tokens.len(),
        forall|i: int|
            0 <= i < template.len() ==> wildcard(#[trigger] template[i]) || template[i]
                == tokens[i],
    ensures
        filled(template, values_of(params_of(template, tokens))) == tokens,
    decreases template.len(),
{
    if template.len() > 0 {
        let t = template.drop_last();
        let m = tokens.drop_last();
        assert forall|i: int| 0 <= i < t.len() implies wildcard(#[trigger] t[i]) || t[i]
            == m[i] by {
            assert(t[i] == template[i]);
        }
        law_filling_restores(t, m);
        let values = values_of(params_of(template, tokens));
        if wildcard(template.last()) {
            assert(values.drop_last() =~= values_of(params_of(t, m)));
        }
        assert(filled(template, values) =~= tokens);
    } else {
        assert(tokens =~= Seq::empty());
    }
}

/// A wildcard is a text in angle brackets or in braces, whatever stands between them.
pub proof fn law_wildcards_are_bracketed(t: Seq<char>)
    ensures
        wildcard(t) <==> exists|x: Seq<char>|
            t == #[trigger] (seq!['<'] + x + seq!['>']) || t == seq!['{'] + x + seq!['}'],
{
    if wildcard(t) {
        let x = t.subrange(1, t.len() - 1);
        assert(t =~= seq!['<'] + x + seq!['>'] || t =~= seq!['{'] + x + seq!['}']);
    }
    if exists|x: Seq<char>|
        t == #[trigger] (seq!['<'] + x + seq!['>']) || t == seq!['{'] + x + seq!['}'] {
        let x = choose|x: Seq<char>|
            t == #[trigger] (seq!['<'] + x + seq!['>']) || t == seq!['{'] + x + seq!['}'];
        assert(t.len() == x.len() + 2);
    }
}

/// The name of a wildcard is all that stands between its brackets. Only nothing and `*` are no
/// names, and what is no wildcard has none.
pub proof fn law_name_is_between_brackets(x: Seq<char>, t: Seq<char>)
    ensures
        x.len() > 0 && x != seq!['*'] ==> {
            &&& wildcard_name(seq!['<'] + x + seq!['>']) == Some(x)
            &&& wildcard_name(seq!['{'] + x + seq!['}']) == Some(x)
        },
        x.len() == 0 || x == seq!['*'] ==> {
            &&& wildcard_name(seq!['<'] + x + seq!['>']) is None
            &&& wildcard_name(seq!['{'] + x + seq!['}']) is None
        },
        !wildcard(t) ==> wildcard_name(t) is None,
{
    let a = seq!['<'] + x + seq!['>'];
    let b = seq!['{'] + x + seq!['}'];
    assert(a.subrange(1, a.len() - 1) =~= x);
    assert(b.subrange(1, b.len() - 1) =~= x);
}

/// Which wildcards come before position `i`.
pub open spec fn wildcards_before(template: Seq<Seq<char>>, i: int) -> Seq<Seq<char>> {
    template.take(i).filter(|t: Seq<char>| wildcard(t))
}

/// Which wildcards without a name come before position `i`.
pub open spec fn unnamed_before(template: Seq<Seq<char>>, i: int) -> Seq<Seq<char>> {
    template.take(i).filter(|t: Seq<char>| wildcard(t) && wildcard_name(t) is None)
}

proof fn lemma_unnamed_count(template: Seq<Seq<char>>)
    ensures
        unnamed_count(template) == unnamed_before(template, template.len() as int).len(),
    decreases template.len(),
{
    reveal(Seq::filter);
    assert(template.take(template.len() as int) =~= template);
    if template.len() > 0 {
        let rest = template.drop_last();
        lemma_unnamed_count(rest);
        assert(rest.take(rest.len() as int) =~= rest);
    }
}

/// The wildcard at position `i` has the parameter that comes after those of the wildcards before
/// it. Its value is the message's token at that position. Its name is the wildcard's own, or,
/// if it has none, an underscore and its number among the wildcards without a name.
pub proof fn law_params_follow_wildcards(template: Seq<Seq<char>>, tokens: Seq<Seq<char>>, i: int)
    requires
        template.len() == tokens.len(),
        0 <= i < template.len(),
        wildcard(template[i]),
    ensures
        params_of(template, tokens).len() == wildcards_before(
            template,
            template.len() as int,
        ).len(),
        ({
            let params = params_of(template, tokens);
            let k = wildcards_before(template, i).len() as int;
            &&& k < params.len()
            &&& params[k].1 == tokens[i]
            &&& params[k].0 == match wildcard_name(template[i]) {
                Some(name) => name,
                None => seq!['_'] + decimal(unnamed_before(template, i).len() + 1),
            }
        }),
    decreases template.len(),
{
    lemma_params_len(template, tokens);
    let rest = template.drop_last();
    let rest_tokens = tokens.drop_last();
    lemma_params_len(rest, rest_tokens);
    assert(template.take(i) =~= rest.take(i));
    if i < rest.len() {
        law_params_follow_wildcards(rest, rest_tokens, i);
        let k = wildcards_before(rest, i).len() as int;
        assert(params_of(template, tokens)[k] == params_of(rest, rest_tokens)[k]);
    } else {
        assert(rest.take(i) =~= rest);
        lemma_unnamed_count(rest);
    }
}

pub proof fn lemma_params_len(template: Seq<Seq<char>>, tokens: Seq<Seq<char>>)
    requires
        template.len() == tokens.len(),
    ensures
        params_of(template, tokens).len() == wildcards_before(
            template,
            template.len() as int,
        ).len(),
    decreases template.len(),
{
    reveal(Seq::filter);
    assert(template.take(template.len() as int) =~= template);
    if template.len() > 0 {
        let rest = template.drop_last();
        lemma_params_len(rest, tokens.drop_last());
        assert(rest.take(rest.len() as int) =~= rest);
    }
}

/// Parameters are extracted from the words of a message by the words of a template, and only
/// where there are as many of the one as of the other.
pub proof fn law_extraction_goes_by_words(template: Seq<char>, message: Seq<char>)
    ensures
        words(template).len() == words(message).len() ==> extracted(template, message)
            == params_of(words(template), words(message)),
        words(template).len() != words(message).len() ==> extracted(template, message).len() == 0,
{
}

} // verus!
