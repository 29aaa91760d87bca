//! What splitting, replacing and joining do to texts, and that what is written is read back:
//! templates, rows, numerals and quoted names.
use vstd::prelude::*;
use crate::laws::{law_fresh_valid, law_rebuilt_valid};
use crate::session::{loaded_state, row_views, TableRow};
use crate::sql::{identifier_body, literal_body};
use crate::text::{
    decimal, divided, divided_each, joined, lemma_match_pos, lemma_run_len, match_pos, replaced,
    run_len, split_all, texts, whitespace, words,
};
use crate::tokens::spaced;
use crate::types::{ClusterView, ConfigView, StateView};

verus! {

/// A text that is not empty and holds no whitespace.
pub open spec fn is_word(t: Seq<char>) -> bool {
    &&& t.len() > 0
    &&& forall|i: int| 0 <= i < t.len() ==> !whitespace(#[trigger] t[i])
}

/// Texts each of which is one word.
pub open spec fn are_words(tokens: Seq<Seq<char>>) -> bool {
    forall|i: int| 0 <= i < tokens.len() ==> is_word(#[trigger] tokens[i])
}

/// The words of a text hold no whitespace, and none is empty.
pub proof fn law_words_hold_no_whitespace(s: Seq<char>)
    ensures
        are_words(words(s)),
    decreases s.len(),
{
    if s.len() > 0 {
        lemma_run_len(s);
        let n = run_len(s) as int;
        if whitespace(s[0]) {
            law_words_hold_no_whitespace(s.skip(1));
            assert(words(s) == words(s.skip(1)));
        } else {
            law_words_hold_no_whitespace(s.skip(n));
            let rest = words(s.skip(n));
            let first = s.take(n);
            assert(words(s) == seq![first] + rest);
            assert forall|i: int| 0 <= i < first.len() implies !whitespace(
                #[trigger] first[i],
            ) by {
                assert(first[i] == s[i]);
            }
            assert forall|i: int| 0 <= i < words(s).len() implies is_word(
                #[trigger] words(s)[i],
            ) by {
                if i > 0 {
                    assert(words(s)[i] == rest[i - 1]);
                }
            }
        }
    }
}

/// The tokens of a message are words where it is split on whitespace, if the wildcard is a
/// word.
pub proof fn law_tokens_are_words(config: ConfigView, content: Seq<char>)
    requires
        config.delimiters.len() == 0,
        is_word(config.param_str),
    ensures
        are_words(config.tokens(content)),
{
    law_words_hold_no_whitespace(spaced(content, config.extra_delimiters));
    let pieces = config.pieces(content);
    assert forall|i: int| 0 <= i < config.tokens(content).len() implies is_word(
        #[trigger] config.tokens(content)[i]) by {
        assert(is_word(pieces[i]));
    }
}

/// Whether `pat` stands somewhere in `s`.
pub open spec fn occurs(pat: Seq<char>, s: Seq<char>) -> bool {
    exists|j: int|
        0 <= j && j + pat.len() <= s.len() && #[trigger] s.subrange(j, j + pat.len()) == pat
}

proof fn lemma_divided(s: Seq<char>, pat: Seq<char>, i: int)
    requires
        pat.len() > 0,
        0 <= i < divided(s, pat).len(),
    ensures
        divided(s, pat)[i].len() > 0,
        !occurs(pat, divided(s, pat)[i]),
        occurs(divided(s, pat)[i], s),
    decreases s.len(),
{
    lemma_match_pos(s, pat);
    let n = match_pos(s, pat) as int;
    let piece = divided(s, pat)[i];
    if n > 0 && i == 0 {
        let first = s.take(n);
        assert(s.subrange(0int, 0int + first.len()) =~= first);
        assert(s.take(s.len() as int) =~= s);
        assert(piece == first);
        assert(occurs(first, s));
        assert forall|j: int|
            0 <= j && j + pat.len() <= first.len() implies #[trigger] first.subrange(
            j,
            j + pat.len(),
        ) != pat by {
            assert(s.skip(j).take(pat.len() as int) =~= first.subrange(j, j + pat.len()));
        }
    } else {
        let at = n + pat.len() as int;
        let rest = s.skip(at);
        let k = if n == 0 {
            i
        } else {
            i - 1
        };
        assert(piece == divided(rest, pat)[k]);
        lemma_divided(rest, pat, k);
        let j = choose|j: int|
            0 <= j && j + piece.len() <= rest.len() && #[trigger] rest.subrange(
                j,
                j + piece.len(),
            ) == piece;
        assert(s.subrange(at + j, at + j + piece.len()) =~= rest.subrange(j, j + piece.len()));
        assert(occurs(piece, s));
    }
}

/// What does not occur in a text occurs in no part of it.
proof fn lemma_part_free(pat: Seq<char>, part: Seq<char>, s: Seq<char>)
    requires
        occurs(part, s),
        !occurs(pat, s),
    ensures
        !occurs(pat, part),
{
    let at = choose|at: int|
        0 <= at && at + part.len() <= s.len() && #[trigger] s.subrange(at, at + part.len())
            == part;
    assert forall|j: int| 0 <= j && j + pat.len() <= part.len() implies #[trigger] part.subrange(
        j,
        j + pat.len(),
    ) != pat by {
        assert(s.subrange(at + j, at + j + pat.len()) =~= part.subrange(j, j + pat.len()));
    }
}

/// Each piece of pieces comes from one of them.
proof fn lemma_divided_each(pieces: Seq<Seq<char>>, pat: Seq<char>, i: int)
    requires
        pat.len() > 0,
        0 <= i < divided_each(pieces, pat).len(),
    ensures
        divided_each(pieces, pat)[i].len() > 0,
        !occurs(pat, divided_each(pieces, pat)[i]),
        exists|k: int|
            0 <= k < pieces.len() && occurs(divided_each(pieces, pat)[i], #[trigger] pieces[k]),
    decreases pieces.len(),
{
    let before = divided_each(pieces.drop_last(), pat);
    let piece = divided_each(pieces, pat)[i];
    if i < before.len() {
        assert(piece == before[i]);
        lemma_divided_each(pieces.drop_last(), pat, i);
        let k = choose|k: int|
            0 <= k < pieces.len() - 1 && occurs(piece, #[trigger] pieces.drop_last()[k]);
        assert(pieces[k] == pieces.drop_last()[k]);
    } else {
        assert(piece == divided(pieces.last(), pat)[i - before.len()]);
        lemma_divided(pieces.last(), pat, i - before.len());
        assert(occurs(piece, pieces[pieces.len() - 1]));
    }
}

/// Own delimiters split a message wherever they stand: no piece holds one, and none is empty.
pub proof fn law_pieces_hold_no_delimiter(content: Seq<char>, delimiters: Seq<Seq<char>>, i: int)
    requires
        delimiters.len() > 0,
        forall|k: int| 0 <= k < delimiters.len() ==> (#[trigger] delimiters[k]).len() > 0,
        0 <= i < split_all(seq![content], delimiters).len(),
    ensures
        split_all(seq![content], delimiters)[i].len() > 0,
        forall|k: int|
            0 <= k < delimiters.len() ==> !occurs(
                #[trigger] delimiters[k],
                split_all(seq![content], delimiters)[i],
            ),
    decreases delimiters.len(),
{
    let rest = delimiters.drop_last();
    let before = split_all(seq![content], rest);
    let piece = split_all(seq![content], delimiters)[i];
    lemma_divided_each(before, delimiters.last(), i);
    let j = choose|j: int| 0 <= j < before.len() && occurs(piece, #[trigger] before[j]);
    assert forall|k: int| 0 <= k < delimiters.len() implies !occurs(
        #[trigger] delimiters[k],
        piece,
    ) by {
        if k < rest.len() {
            assert(delimiters[k] == rest[k]);
            law_pieces_hold_no_delimiter(content, rest, j);
            assert(!occurs(rest[k], before[j]));
            lemma_part_free(delimiters[k], piece, before[j]);
        }
    }
}

/// Own delimiters are all that splits a message: where none of them stands in it, it stays one
/// piece, whatever else it holds.
pub proof fn law_only_delimiters_split(content: Seq<char>, delimiters: Seq<Seq<char>>)
    requires
        content.len() > 0,
        forall|k: int|
            0 <= k < delimiters.len() ==> (#[trigger] delimiters[k]).len() > 0 && !occurs(
                delimiters[k],
                content,
            ),
    ensures
        split_all(seq![content], delimiters) == seq![content],
    decreases delimiters.len(),
{
    if delimiters.len() > 0 {
        let rest = delimiters.drop_last();
        let pat = delimiters.last();
        assert forall|k: int| 0 <= k < rest.len() implies (#[trigger] rest[k]).len() > 0
            && !occurs(rest[k], content) by {
            assert(rest[k] == delimiters[k]);
        }
        law_only_delimiters_split(content, rest);
        assert(delimiters[delimiters.len() - 1] == pat);
        lemma_match_pos(content, pat);
        let n = match_pos(content, pat) as int;
        if n < content.len() {
            assert(content.skip(n).take(pat.len() as int) =~= content.subrange(n, n + pat.len()));
            assert(occurs(pat, content));
        }
        let one = seq![content];
        assert(one.drop_last() =~= Seq::empty());
        assert(divided_each(one.drop_last(), pat) =~= Seq::empty());
        assert(divided_each(one, pat) =~= divided(content, pat));
    }
}

proof fn lemma_run_len_of(t: Seq<char>, rest: Seq<char>)
    requires
        forall|i: int| 0 <= i < t.len() ==> !whitespace(#[trigger] t[i]),
        rest.len() > 0 ==> whitespace(rest[0]),
    ensures
        run_len(t + rest) == t.len(),
    decreases t.len(),
{
    if t.len() > 0 {
        let tail = t.skip(1);
        assert forall|i: int| 0 <= i < tail.len() implies !whitespace(#[trigger] tail[i]) by {
            assert(tail[i] == t[i + 1]);
        }
        lemma_run_len_of(tail, rest);
        assert((t + rest)[0] == t[0]);
        assert((t + rest).skip(1) =~= tail + rest);
    } else {
        assert(t + rest =~= rest);
    }
}

/// Words that were joined by spaces are split into the same words.
pub proof fn law_words_survive_joining(tokens: Seq<Seq<char>>)
    requires
        are_words(tokens),
    ensures
        words(joined(tokens, " "@)) == tokens,
    decreases tokens.len(),
{
    reveal_strlit(" ");
    assert(" "@ =~= seq![' ']);
    assert(whitespace(' '));
    if tokens.len() == 0 {
        assert(tokens =~= Seq::empty());
    } else {
        let t = tokens[0];
        assert(is_word(t));
        if tokens.len() == 1 {
            lemma_run_len_of(t, Seq::empty());
            assert(t + Seq::empty() =~= t);
            assert(t.take(t.len() as int) =~= t);
            assert(t.skip(t.len() as int) =~= Seq::empty());
            assert(!whitespace(t[0]));
            assert(words(t) =~= seq![t] + words(Seq::empty()));
            assert(words(t) =~= tokens);
        } else {
            let others = tokens.skip(1);
            assert forall|i: int| 0 <= i < others.len() implies is_word(
                #[trigger] others[i]) by {
                assert(others[i] == tokens[i + 1]);
            }
            law_words_survive_joining(others);
            let rest = " "@ + joined(others, " "@);
            let line = joined(tokens, " "@);
            assert(line =~= t + rest);
            lemma_run_len_of(t, rest);
            assert(line[0] == t[0]);
            assert(line.take(t.len() as int) =~= t);
            assert(line.skip(t.len() as int) =~= rest);
            assert(rest.skip(1) =~= joined(others, " "@));
            assert(!whitespace(line[0]));
            assert(whitespace(rest[0]));
            assert(words(rest) == words(rest.skip(1)));
            assert(words(line) =~= seq![t] + words(rest));
            assert(words(line) =~= tokens);
        }
    }
}

/// Whether a row holds what a cluster is saved as.
pub open spec fn saved_as(row: TableRow, cluster: ClusterView) -> bool {
    &&& row.id matches Some(id) && id == cluster.cluster_id <= usize::MAX
    &&& row.template matches Some(template) && template@ == cluster.template()
    &&& row.size matches Some(size) && size == cluster.size <= usize::MAX
    &&& row.examples matches Some(examples) && texts(examples@) == cluster.examples
}

/// A cluster that was saved is loaded as it was, if its template's tokens are words.
pub proof fn law_saved_is_loaded(rows: Seq<TableRow>, clusters: Seq<ClusterView>)
    requires
        rows.len() == clusters.len(),
        forall|i: int| 0 <= i < rows.len() ==> saved_as(#[trigger] rows[i], clusters[i]),
        forall|i: int|
            0 <= i < clusters.len() ==> are_words((#[trigger] clusters[i]).template_tokens),
    ensures
        row_views(rows) == clusters,
{
    assert forall|i: int| 0 <= i < rows.len() implies row_views(rows)[i] == clusters[i] by {
        assert(saved_as(rows[i], clusters[i]));
        law_words_survive_joining(clusters[i].template_tokens);
    }
    assert(row_views(rows) =~= clusters);
}

/// A model that was saved is loaded with its clusters, as a valid model whose next id is that
/// of no cluster, if the tokens of its templates are words. It has no more clusters than it may
/// have, as no model does that was mined or loaded.
pub proof fn law_saved_model_is_loaded(state: StateView, rows: Seq<TableRow>)
    requires
        state.valid(),
        state.clusters.len() <= state.config.max_clusters,
        rows.len() == state.clusters.len(),
        forall|i: int| 0 <= i < rows.len() ==> saved_as(#[trigger] rows[i], state.clusters[i]),
        forall|i: int|
            0 <= i < state.clusters.len() ==> are_words(
                (#[trigger] state.clusters[i]).template_tokens,
            ),
    ensures
        loaded_state(state.config, row_views(rows)).clusters == state.clusters,
        loaded_state(state.config, row_views(rows)).valid(),
{
    law_saved_is_loaded(rows, state.clusters);
    if rows.len() == 0 {
        law_fresh_valid(state.config);
        assert(state.clusters =~= Seq::empty());
    } else {
        law_rebuilt_valid(state.config, state.clusters);
    }
}

/// What a text between quotes stands for: two quotes stand for one. There is no such text if a
/// quote stands alone.
pub open spec fn unquoted(s: Seq<char>, quote: char) -> Option<Seq<char>>
    decreases s.len(),
{
    if s.len() == 0 {
        Some(Seq::empty())
    } else if s[0] != quote {
        match unquoted(s.skip(1), quote) {
            Some(rest) => Some(seq![s[0]] + rest),
            None => None,
        }
    } else if s.len() >= 2 && s[1] == quote {
        match unquoted(s.skip(2), quote) {
            Some(rest) => Some(seq![quote] + rest),
            None => None,
        }
    } else {
        None
    }
}

proof fn lemma_unquoted_doubled(s: Seq<char>, quote: char)
    ensures
        unquoted(replaced(s, seq![quote], seq![quote, quote]), quote) == Some(s),
    decreases s.len(),
{
    let pat = seq![quote];
    let to = seq![quote, quote];
    let out = replaced(s, pat, to);
    if s.len() == 0 {
        assert(s =~= Seq::empty());
    } else {
        let rest = s.skip(1);
        lemma_unquoted_doubled(rest, quote);
        let tail = replaced(rest, pat, to);
        if s[0] == quote {
            assert(s.take(1) =~= pat);
            assert(out =~= to + tail);
            assert(out.skip(2) =~= tail);
            assert(seq![quote] + rest =~= s);
        } else {
            assert(s.take(1)[0] == s[0]);
            assert(s.take(1) != pat);
            assert(out =~= seq![s[0]] + tail);
            assert(out.skip(1) =~= tail);
            assert(seq![s[0]] + rest =~= s);
        }
    }
}

/// Texts and names stand in a statement as what they are: a literal's body and an identifier's
/// body hold no quote that stands alone, and stand for the text that they were made from.
pub proof fn law_quoting_reads_back(s: Seq<char>)
    ensures
        unquoted(literal_body(s), '\'') == Some(s),
        unquoted(identifier_body(s), '"') == Some(s),
{
    reveal_strlit("'");
    reveal_strlit("''");
    reveal_strlit("\"");
    reveal_strlit("\"\"");
    assert("'"@ =~= seq!['\'']);
    assert("''"@ =~= seq!['\'', '\'']);
    assert("\""@ =~= seq!['"']);
    assert("\"\""@ =~= seq!['"', '"']);
    lemma_unquoted_doubled(s, '\'');
    lemma_unquoted_doubled(s, '"');
}

// ---------------------------------------------------------------------------------------------
// Words
// ---------------------------------------------------------------------------------------------

/// A run does not reach past whitespace.
proof fn lemma_run_len_before(a: Seq<char>, rest: Seq<char>)
    requires
        rest.len() > 0,
        whitespace(rest[0]),
    ensures
        run_len(a + rest) == run_len(a),
    decreases a.len(),
{
    if a.len() > 0 {
        assert((a + rest)[0] == a[0]);
        assert((a + rest).skip(1) =~= a.skip(1) + rest);
        lemma_run_len_before(a.skip(1), rest);
    } else {
        assert(a + rest =~= rest);
    }
}

/// Whitespace parts a text: what is before it and what is after it are split on their own.
pub proof fn law_whitespace_parts(a: Seq<char>, c: char, b: Seq<char>)
    requires
        whitespace(c),
    ensures
        words(a + seq![c] + b) == words(a) + words(b),
    decreases a.len(),
{
    let rest = seq![c] + b;
    let s = a + seq![c] + b;
    assert(s =~= a + rest);
    assert(rest.skip(1) =~= b);
    if a.len() == 0 {
        assert(s =~= rest);
        assert(words(s) =~= words(a) + words(b));
    } else if whitespace(a[0]) {
        assert(s[0] == a[0]);
        assert(s.skip(1) =~= a.skip(1) + seq![c] + b);
        law_whitespace_parts(a.skip(1), c, b);
    } else {
        lemma_run_len(a);
        lemma_run_len_before(a, rest);
        let n = run_len(a) as int;
        assert(s[0] == a[0]);
        assert(s.take(n) =~= a.take(n));
        assert(s.skip(n) =~= a.skip(n) + seq![c] + b);
        law_whitespace_parts(a.skip(n), c, b);
        assert(words(s) =~= words(a) + words(b));
    }
}

/// A word is its only word, and an empty text has none.
pub proof fn law_word_is_its_word(w: Seq<char>)
    ensures
        w.len() > 0 && (forall|i: int| 0 <= i < w.len() ==> !whitespace(#[trigger] w[i])) ==> words(
            w,
        ) == seq![w],
        w.len() == 0 ==> words(w) == Seq::<Seq<char>>::empty(),
{
    if w.len() > 0 && forall|i: int| 0 <= i < w.len() ==> !whitespace(#[trigger] w[i]) {
        lemma_run_len_of(w, Seq::empty());
        assert(w + Seq::empty() =~= w);
        assert(w.take(w.len() as int) =~= w);
        assert(w.skip(w.len() as int) =~= Seq::empty());
        assert(!whitespace(w[0]));
        assert(words(Seq::<char>::empty()) =~= Seq::empty());
        assert(words(w) =~= seq![w] + words(Seq::<char>::empty()));
        assert(words(w) =~= seq![w]);
    }
}

// ---------------------------------------------------------------------------------------------
// Replacing, dividing and joining
// ---------------------------------------------------------------------------------------------

/// Whether `pat` stands first at `at` in `s`.
pub open spec fn first_at(s: Seq<char>, pat: Seq<char>, at: int) -> bool {
    &&& 0 <= at
    &&& at + pat.len() <= s.len()
    &&& s.subrange(at, at + pat.len()) == pat
    &&& forall|j: int| 0 <= j < at ==> #[trigger] s.subrange(j, j + pat.len()) != pat
}

/// A text without the pattern stays as it is.
pub proof fn law_replacing_nothing(s: Seq<char>, pat: Seq<char>, to: Seq<char>)
    requires
        pat.len() > 0,
        !occurs(pat, s),
    ensures
        replaced(s, pat, to) == s,
    decreases s.len(),
{
    if s.len() >= pat.len() {
        let n = pat.len() as int;
        assert(s.subrange(0int, 0int + pat.len()) =~= s.take(n));
        assert(s.take(n) != pat);
        let rest = s.skip(1);
        assert forall|j: int|
            0 <= j && j + pat.len() <= rest.len() implies #[trigger] rest.subrange(
            j,
            j + pat.len(),
        ) != pat by {
            assert(s.subrange(j + 1, j + 1 + pat.len()) =~= rest.subrange(j, j + pat.len()));
        }
        law_replacing_nothing(rest, pat, to);
        assert(seq![s[0]] + rest =~= s);
    }
}

/// The first match is replaced: what is before it stays, and what is after it is treated on its
/// own.
pub proof fn law_replacing_first(s: Seq<char>, pat: Seq<char>, to: Seq<char>, at: int)
    requires
        pat.len() > 0,
        first_at(s, pat, at),
    ensures
        replaced(s, pat, to) == s.take(at) + to + replaced(s.skip(at + pat.len()), pat, to),
    decreases s.len(),
{
    let n = pat.len() as int;
    assert(s.subrange(0int, 0int + pat.len()) =~= s.take(n));
    if at == 0 {
        assert(s.take(n) == pat);
        assert(replaced(s, pat, to) =~= s.take(0) + to + replaced(s.skip(n), pat, to));
    } else {
        assert(s.take(n) != pat);
        let rest = s.skip(1);
        assert(rest.subrange(at - 1, at - 1 + pat.len()) =~= s.subrange(at, at + pat.len()));
        assert forall|j: int| 0 <= j < at - 1 implies #[trigger] rest.subrange(j, j + pat.len())
            != pat by {
            assert(s.subrange(j + 1, j + 1 + pat.len()) =~= rest.subrange(j, j + pat.len()));
        }
        law_replacing_first(rest, pat, to, at - 1);
        assert(rest.skip(at - 1 + pat.len()) =~= s.skip(at + pat.len()));
        assert(seq![s[0]] + rest.take(at - 1) =~= s.take(at));
        assert(replaced(s, pat, to) =~= s.take(at) + to + replaced(
            s.skip(at + pat.len()),
            pat,
            to,
        ));
    }
}

/// An empty pattern stands before every character and at the end.
pub proof fn law_replacing_between(s: Seq<char>, to: Seq<char>, c: char)
    ensures
        replaced(Seq::empty(), Seq::empty(), to) == to,
        replaced(seq![c] + s, Seq::empty(), to) == to + seq![c] + replaced(s, Seq::empty(), to),
{
    assert((seq![c] + s).skip(1) =~= s);
}

proof fn lemma_match_pos_first(s: Seq<char>, pat: Seq<char>, at: int)
    requires
        pat.len() > 0,
        first_at(s, pat, at),
    ensures
        match_pos(s, pat) == at,
{
    lemma_match_pos(s, pat);
    let p = match_pos(s, pat) as int;
    let n = pat.len() as int;
    if p > at {
        assert(s.skip(at).take(n) =~= s.subrange(at, at + n));
    } else if p < at {
        assert(s.skip(p).take(n) =~= s.subrange(p, p + n));
    }
}

/// The first match divides a text: what is before it is a piece unless it is empty, and what is
/// after it is divided on its own.
pub proof fn law_dividing_at_first(s: Seq<char>, pat: Seq<char>, at: int)
    requires
        pat.len() > 0,
        first_at(s, pat, at),
    ensures
        divided(s, pat) == (if at == 0 {
            Seq::empty()
        } else {
            seq![s.take(at)]
        }) + divided(s.skip(at + pat.len()), pat),
{
    lemma_match_pos_first(s, pat, at);
    assert(divided(s, pat) =~= (if at == 0 {
        Seq::empty()
    } else {
        seq![s.take(at)]
    }) + divided(s.skip(at + pat.len()), pat));
}

/// A text without the pattern is one piece, or none if it is empty.
pub proof fn law_dividing_nothing(s: Seq<char>, pat: Seq<char>)
    requires
        pat.len() > 0,
        !occurs(pat, s),
    ensures
        s.len() > 0 ==> divided(s, pat) == seq![s],
        s.len() == 0 ==> divided(s, pat) == Seq::<Seq<char>>::empty(),
{
    lemma_match_pos(s, pat);
    let n = match_pos(s, pat) as int;
    if n < s.len() {
        assert(s.skip(n).take(pat.len() as int) =~= s.subrange(n, n + pat.len()));
        assert(occurs(pat, s));
    }
}

/// An empty pattern divides a text into its characters.
pub proof fn law_dividing_characters(s: Seq<char>)
    ensures
        divided(s, Seq::empty()).len() == s.len(),
        forall|i: int|
            0 <= i < s.len() ==> #[trigger] divided(s, Seq::empty())[i] == seq![s[i]],
{
}

/// Delimiters divide in turn, and each divides every piece on its own, in order.
pub proof fn law_delimiters_divide_in_turn(
    s: Seq<char>,
    delimiters: Seq<Seq<char>>,
    d: Seq<char>,
    p: Seq<Seq<char>>,
    q: Seq<Seq<char>>,
)
    ensures
        split_all(seq![s], Seq::empty()) == seq![s],
        split_all(seq![s], delimiters.push(d)) == divided_each(split_all(seq![s], delimiters), d),
        divided_each(seq![s], d) == divided(s, d),
        divided_each(p + q, d) == divided_each(p, d) + divided_each(q, d),
    decreases q.len(),
{
    assert(delimiters.push(d).drop_last() =~= delimiters);
    let one = seq![s];
    assert(one.drop_last() =~= Seq::empty());
    assert(divided_each(one.drop_last(), d) =~= Seq::empty());
    assert(divided_each(one, d) =~= divided(s, d));
    if q.len() == 0 {
        assert(p + q =~= p);
        assert(divided_each(p + q, d) =~= divided_each(p, d) + divided_each(q, d));
    } else {
        law_delimiters_divide_in_turn(s, delimiters, d, p, q.drop_last());
        assert((p + q).drop_last() =~= p + q.drop_last());
        assert(divided_each(p + q, d) =~= divided_each(p, d) + divided_each(q, d));
    }
}

/// Joining puts the separator between parts and nowhere else.
pub proof fn law_joining(a: Seq<Seq<char>>, b: Seq<Seq<char>>, part: Seq<char>, sep: Seq<char>)
    ensures
        joined(Seq::empty(), sep) == Seq::<char>::empty(),
        joined(seq![part], sep) == part,
        a.len() > 0 && b.len() > 0 ==> joined(a + b, sep) == joined(a, sep) + sep + joined(b, sep),
    decreases a.len(),
{
    if a.len() > 0 && b.len() > 0 {
        assert((a + b).skip(1) =~= a.skip(1) + b);
        if a.len() == 1 {
            assert(a.skip(1) + b =~= b);
            assert(joined(a + b, sep) =~= joined(a, sep) + sep + joined(b, sep));
        } else {
            law_joining(a.skip(1), b, part, sep);
            assert(joined(a + b, sep) =~= joined(a, sep) + sep + joined(b, sep));
        }
    }
}

// ---------------------------------------------------------------------------------------------
// Numerals
// ---------------------------------------------------------------------------------------------

/// The number that decimal digits stand for.
pub open spec fn numeral_value(s: Seq<char>) -> int
    decreases s.len(),
{
    if s.len() == 0 {
        0
    } else {
        10 * numeral_value(s.drop_last()) + (s.last() as int - 48)
    }
}

/// A numeral consists of digits, has no leading zero, and stands for its number.
pub proof fn law_numeral_reads_back(n: nat)
    ensures
        decimal(n).len() >= 1,
        forall|i: int| 0 <= i < decimal(n).len() ==> '0' <= #[trigger] decimal(n)[i] <= '9',
        decimal(n)[0] == '0' ==> decimal(n).len() == 1,
        numeral_value(decimal(n)) == n,
    decreases n,
{
    let s = decimal(n);
    if n < 10 {
        assert(s.drop_last() =~= Seq::empty());
        assert(numeral_value(Seq::empty()) == 0);
    } else {
        law_numeral_reads_back(n / 10);
        assert(s.drop_last() =~= decimal(n / 10));
        assert(s[0] == decimal(n / 10)[0]);
        if s[0] == '0' {
            assert(numeral_value(decimal(n / 10).drop_last()) == 0) by {
                assert(decimal(n / 10).drop_last() =~= Seq::empty());
            }
        }
    }
}

} // verus!
