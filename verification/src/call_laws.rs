//! What calls of the library's functions return, said of their arguments and results.
use vstd::prelude::*;
use crate::drain::{best_of, create_template, get_seq_distance, seq_similarity};
use crate::entries::{keys, lemma_zip_map_at};
use crate::json::{
    drain3_extract_params, json_value, law_named_param_is_merged, law_no_other_keys,
    law_values_are_in_order, law_values_key_is_reserved, params_to_json, JsonView,
    PARAMS_VALUES_KEY,
};
use crate::laws::{best_position, candidate_bits, law_best_candidate};
use crate::model_laws::{
    covered_positions, ids_at, insert_path, law_eviction_renumbers,
    law_eviction_takes_the_oldest, law_feeding_what_is_found, law_feeding_what_is_new,
    law_found_is_the_best, law_insertion_lists_once, law_insertion_starts_at_the_count,
    law_matching_predicts_feeding, law_merging_keeps_what_agrees, law_rebuilding,
    law_similarity_counts_positions, reaching_at,
};
use crate::session::{clusters_from_rows, row_views, TableRow};
use crate::similarity::{
    at_least, is_number, law_ratio_range, law_reaching_is_the_order, rank, ratio, ratio_bits,
    reaches, Similarity,
};
use crate::sql::{delete_statement, exists_query, insert_statement, select_query};
use crate::sql_laws::{
    asks_for, deletes, inserts, law_delete_reads_back, law_exists_reads_back,
    law_insert_reads_back, law_select_reads_back, selects,
};
use crate::text::{decimal, joined, texts, words};
use crate::token_laws::{law_digits_are_numbers, law_numbers_are_digits, number_of};
use crate::tokens::{is_numeric, numeric};
use crate::tree::{adjust_tree_indices, leaf};
use crate::types::{
    child_views, cluster_views, index_views, lemma_node_children, DrainConfig, DrainState,
    LogCluster, Node, StateView,
};
use crate::wildcard::{
    extract_wildcard_name, is_wildcard, law_name_is_between_brackets,
    law_params_follow_wildcards, law_wildcards_are_bracketed, lemma_params_len, pair_texts,
    unnamed_before, wildcard, wildcard_name, wildcards_before,
};

verus! {

// ---------------------------------------------------------------------------------------------
// Views
// ---------------------------------------------------------------------------------------------

/// The texts of strings are those of each, in order.
pub proof fn law_texts(strings: Seq<String>)
    ensures
        texts(strings).len() == strings.len(),
        forall|i: int| 0 <= i < strings.len() ==> #[trigger] texts(strings)[i] == strings[i]@,
{
}

/// The view of a configuration has all that is set in it.
pub proof fn law_config_view(config: DrainConfig)
    ensures
        config@.depth == config.depth,
        config@.sim_th == config.sim_th,
        config@.max_children == config.max_children,
        config@.max_clusters == config.max_clusters,
        config@.param_str == config.param_str@,
        config@.parametrize_numeric_tokens == config.parametrize_numeric_tokens,
        config@.extra_delimiters == texts(config.extra_delimiters@),
        config@.delimiters == texts(config.delimiters@),
{
}

/// The view of a cluster has all that it holds.
pub proof fn law_cluster_view(cluster: LogCluster)
    ensures
        cluster@.cluster_id == cluster.cluster_id,
        cluster@.template_tokens == texts(cluster.template_tokens@),
        cluster@.size == cluster.size,
        cluster@.examples == texts(cluster.examples@),
{
}

/// The view of a node has its list of clusters, and under the key of each child that child.
pub proof fn law_node_view(node: Node, k: Seq<char>)
    requires
        node.wf(),
    ensures
        node@.cluster_ids.len() == node.cluster_ids@.len(),
        forall|i: int|
            0 <= i < node.cluster_ids@.len() ==> #[trigger] node@.cluster_ids[i]
                == node.cluster_ids@[i],
        forall|i: int|
            0 <= i < node.key_to_child@.len() ==> {
                let child = #[trigger] node.key_to_child@[i];
                node@.key_to_child.contains_key(child.0@) && node@.key_to_child[child.0@]
                    == child.1@
            },
        node@.key_to_child.contains_key(k) ==> exists|i: int|
            0 <= i < node.key_to_child@.len() && (#[trigger] node.key_to_child@[i]).0@ == k,
{
    lemma_node_children(&node);
    let children = node.key_to_child@;
    let names = keys(children);
    assert forall|i: int| 0 <= i < children.len() implies {
        let child = #[trigger] children[i];
        node@.key_to_child.contains_key(child.0@) && node@.key_to_child[child.0@] == child.1@
    } by {
        assert(names[i] == children[i].0@);
        lemma_zip_map_at(names, child_views(children), i);
        assert(child_views(children)[i] == children[i].1@);
    }
    if node@.key_to_child.contains_key(k) {
        let i = choose|i: int| 0 <= i < names.len() && names[i] == k;
        assert(children[i].0@ == k);
    }
}

/// The view of a model has all that it holds.
pub proof fn law_state_view(state: DrainState)
    ensures
        state@.config == state.config@,
        state@.root == state.root@,
        state@.clusters.len() == state.clusters@.len(),
        forall|i: int|
            0 <= i < state.clusters@.len() ==> #[trigger] state@.clusters[i] == state.clusters@[i]@,
        state@.next_cluster_id == state.next_cluster_id,
{
}

/// A copy of a model is the same model.
pub proof fn law_call_clone(state: &DrainState, res: DrainState)
    requires
        call_ensures(DrainState::clone, (state,), res),
    ensures
        res@ == state@,
        state.wf() ==> res.wf(),
{
}

// ---------------------------------------------------------------------------------------------
// Tokens
// ---------------------------------------------------------------------------------------------

/// A text is numeric exactly if it is a sign or none, and digits with at most one dot.
pub proof fn law_call_is_numeric(s: &str, res: bool)
    requires
        call_ensures(is_numeric, (s,), res),
    ensures
        res <==> exists|sign: Seq<char>, a: Seq<char>, b: Seq<char>| number_of(s@, sign, a, b),
{
    if res {
        law_numbers_are_digits(s@);
    }
    if exists|sign: Seq<char>, a: Seq<char>, b: Seq<char>| number_of(s@, sign, a, b) {
        let (sign, a, b) = choose|sign: Seq<char>, a: Seq<char>, b: Seq<char>|
            number_of(s@, sign, a, b);
        law_digits_are_numbers(s@, sign, a, b);
    }
}

/// A token is used as the wildcard if it is a number and numbers are parametrized, else as it
/// is.
pub proof fn law_call_maybe_parametrize(state: &DrainState, token: &str, res: String)
    requires
        call_ensures(DrainState::maybe_parametrize, (state, token), res),
    ensures
        ({
            let number = exists|sign: Seq<char>, a: Seq<char>, b: Seq<char>|
                number_of(token@, sign, a, b);
            res@ == if state.config.parametrize_numeric_tokens && number {
                state.config.param_str@
            } else {
                token@
            }
        }),
{
    if numeric(token@) {
        law_numbers_are_digits(token@);
    }
    if exists|sign: Seq<char>, a: Seq<char>, b: Seq<char>| number_of(token@, sign, a, b) {
        let (sign, a, b) = choose|sign: Seq<char>, a: Seq<char>, b: Seq<char>|
            number_of(token@, sign, a, b);
        law_digits_are_numbers(token@, sign, a, b);
    }
}

/// A message has one token for each of its pieces: the wildcard for a number where numbers are
/// parametrized, else the piece.
pub proof fn law_call_tokenize(state: &DrainState, content: &str, tokens: Vec<String>)
    requires
        call_ensures(DrainState::tokenize, (state, content), tokens),
    ensures
        texts(tokens@) == state@.config.tokens(content@),
        tokens@.len() == state@.config.pieces(content@).len(),
        forall|i: int|
            0 <= i < tokens@.len() ==> (#[trigger] tokens@[i])@ == (
            if state.config.parametrize_numeric_tokens && numeric(
                state@.config.pieces(content@)[i],
            ) {
                state.config.param_str@
            } else {
                state@.config.pieces(content@)[i]
            }),
        state.config.delimiters@.len() == 0 && state.config.extra_delimiters@.len() == 0
            ==> state@.config.pieces(content@) == words(content@),
{
    assert(texts(tokens@).len() == tokens@.len());
    assert forall|i: int| 0 <= i < tokens@.len() implies (#[trigger] tokens@[i])@ == (
    if state.config.parametrize_numeric_tokens && numeric(
        state@.config.pieces(content@)[i],
    ) {
        state.config.param_str@
    } else {
        state@.config.pieces(content@)[i]
    }) by {
        assert(texts(tokens@)[i] == tokens@[i]@);
    }
}

// ---------------------------------------------------------------------------------------------
// Templates and similarity
// ---------------------------------------------------------------------------------------------

/// A merged template keeps every token that agrees, and has the wildcard for each that differs.
pub proof fn law_call_create_template(
    seq1: &[String],
    seq2: &[String],
    param: &str,
    res: Vec<String>,
)
    requires
        call_ensures(create_template, (seq1, seq2, param), res),
    ensures
        seq1@.len() <= seq2@.len() ==> res@.len() == seq1@.len(),
        seq2@.len() <= seq1@.len() ==> res@.len() == seq2@.len(),
        forall|i: int|
            0 <= i < res@.len() ==> (#[trigger] res@[i])@ == if seq1@[i]@ == seq2@[i]@ {
                seq1@[i]@
            } else {
                param@
            },
{
    let a = texts(seq1@);
    let b = texts(seq2@);
    law_merging_keeps_what_agrees(a, b, param@);
    assert(texts(res@).len() == res@.len());
    assert forall|i: int| 0 <= i < res@.len() implies (#[trigger] res@[i])@ == (if seq1@[i]@
        == seq2@[i]@ {
        seq1@[i]@
    } else {
        param@
    }) by {
        assert(texts(res@)[i] == res@[i]@);
        assert(a[i] == seq1@[i]@ && b[i] == seq2@[i]@);
    }
}

/// Similarity is the ratio of the covered positions to all, and zero for different lengths.
pub proof fn law_call_get_seq_distance(
    seq1: &[String],
    seq2: &[String],
    param: &str,
    sim: Similarity,
)
    requires
        call_ensures(get_seq_distance, (seq1, seq2, param), sim),
    ensures
        seq1@.len() != seq2@.len() ==> sim.bits == 0,
        seq1@.len() == seq2@.len() ==> sim.bits == ratio_bits(
            covered_positions(texts(seq1@), texts(seq2@), param@, seq1@.len()).len(),
            seq1@.len(),
        ) as u64,
{
    law_similarity_counts_positions(texts(seq1@), texts(seq2@), param@);
}

/// A ratio is that of the counts, and reaching is the order of numbers.
pub proof fn law_call_ratio_and_reaches(
    part: usize,
    whole: usize,
    sim: Similarity,
    threshold: Similarity,
    res: bool,
)
    requires
        part <= whole,
        call_ensures(ratio, (part, whole), sim),
        call_ensures(reaches, (sim, threshold), res),
    ensures
        sim.bits == ratio_bits(part as nat, whole as nat),
        res <==> is_number(threshold) && rank(threshold) <= rank(sim),
{
    law_ratio_range(part as nat, whole as nat);
    law_reaching_is_the_order(sim, threshold);
}

/// A cluster's template is its tokens with spaces between them.
pub proof fn law_call_get_template(cluster: &LogCluster, res: String)
    requires
        call_ensures(LogCluster::get_template, (cluster,), res),
    ensures
        res@ == joined(texts(cluster.template_tokens@), seq![' ']),
{
    reveal_strlit(" ");
    assert(" "@ =~= seq![' ']);
}

// ---------------------------------------------------------------------------------------------
// Models
// ---------------------------------------------------------------------------------------------

/// A new model has the configuration, no clusters, and 1 as its next id.
pub proof fn law_call_new(config: DrainConfig, state: DrainState)
    requires
        call_ensures(DrainState::new, (config,), state),
    ensures
        state@.config == config@,
        state.clusters@.len() == 0,
        state.next_cluster_id == 1,
        state.wf(),
{
    assert(state@.clusters.len() == state.clusters@.len());
}

/// Of the candidates, the first of the most similar clusters is taken, if it reaches the
/// threshold.
pub proof fn law_call_fast_match(
    state: &DrainState,
    ids: &[usize],
    tokens: &[String],
    res: Option<(usize, Similarity)>,
)
    requires
        call_ensures(DrainState::fast_match, (state, ids, tokens), res),
    ensures
        ({
            let at = |p: int| state@.clusters[ids@[p] as int].template_tokens;
            let sim = |p: int|
                seq_similarity(at(p), texts(tokens@), state.config.param_str@);
            match res {
                Some((id, best)) => {
                    &&& at_least(best, state.config.sim_th)
                    &&& exists|p: int|
                        {
                            &&& 0 <= p < ids@.len()
                            &&& #[trigger] ids@[p] == id
                            &&& id < state.clusters@.len()
                            &&& best == sim(p)
                            &&& forall|i: int|
                                0 <= i < ids@.len() && (#[trigger] ids@[i]) < state.clusters@.len()
                                    ==> sim(i).bits <= best.bits && (i < p ==> sim(i).bits
                                    < best.bits)
                        }
                },
                None => forall|i: int|
                    0 <= i < ids@.len() && (#[trigger] ids@[i]) < state.clusters@.len()
                        ==> !at_least(sim(i), state.config.sim_th),
            }
        }),
{
    let views = index_views(ids@);
    let words = texts(tokens@);
    let param = state.config.param_str@;
    assert(views.len() == ids@.len());
    assert forall|i: int| 0 <= i < ids@.len() implies views[i] == #[trigger] ids@[i] as nat by {}
    law_best_candidate(state@.clusters, views, words, param);
    if let Some((id, best)) = best_of(state@.clusters, views, words, param) {
        let p = choose|p: int|
            best_position(state@.clusters, views, words, param, p) && views[p] == id;
        assert(ids@[p] as nat == id);
        assert forall|i: int|
            0 <= i < ids@.len() && (#[trigger] ids@[i]) < state.clusters@.len() implies {
            let s = candidate_bits(state@.clusters, views[i], words, param);
            s <= best.bits && (i < p ==> s < best.bits)
        } by {
            assert(views[i] == ids@[i] as nat);
            assert(state@.clusters.len() == state.clusters@.len());
        }
    } else {
        assert forall|i: int| 0 <= i < ids@.len() implies (#[trigger] ids@[i])
            >= state.clusters@.len() by {
            assert(views[i] == ids@[i] as nat);
            assert(state@.clusters.len() == state.clusters@.len());
        }
    }
}

/// A search finds something exactly if it ends among candidates of which one reaches the
/// threshold, and then the best of them.
pub proof fn law_call_tree_search_match(
    state: &DrainState,
    tokens: &[String],
    res: Option<(usize, Similarity)>,
)
    requires
        call_ensures(DrainState::tree_search_match, (state, tokens), res),
    ensures
        match leaf(state@.root, texts(tokens@), state@.config) {
            Some(node) => {
                &&& res is Some <==> exists|p: int|
                    reaching_at(state@, node.cluster_ids, texts(tokens@), p)
                &&& res matches Some((id, sim)) ==> id < state.clusters@.len() && exists|p: int|
                    best_position(
                        state@.clusters,
                        node.cluster_ids,
                        texts(tokens@),
                        state@.config.param_str,
                        p,
                    ) && node.cluster_ids[p] == id
            },
            None => res is None,
        },
{
    law_found_is_the_best(state@, texts(tokens@));
}

/// A cluster that is added to the tree is listed last at the end of its path below its token
/// count, and no other list changes.
pub proof fn law_call_add_to_prefix_tree(
    state: &mut DrainState,
    id: usize,
    tokens: &[String],
    path: Seq<Seq<char>>,
    other: Seq<Seq<char>>,
)
    requires
        call_ensures(DrainState::add_to_prefix_tree, (state, id, tokens), ()),
        ({
            let key = decimal(tokens@.len());
            let root = old(state)@.root;
            root.key_to_child.contains_key(key) && insert_path(
                root.key_to_child[key],
                texts(tokens@),
                old(state)@.config.levels(),
                old(state)@.config,
                path,
            )
        }),
    ensures
        ({
            let key = decimal(tokens@.len());
            let before = old(state)@.root.key_to_child[key];
            let after = final(state)@.root.key_to_child[key];
            &&& ids_at(after, path) == ids_at(before, path).push(id as nat)
            &&& other != path ==> ids_at(after, other) == ids_at(before, other)
            &&& final(state)@.clusters == old(state)@.clusters
            &&& final(state)@.config == old(state)@.config
            &&& final(state)@.next_cluster_id == old(state)@.next_cluster_id
        }),
{
    let key = decimal(tokens@.len());
    let config = old(state)@.config;
    let root = old(state)@.root;
    assert(texts(tokens@).len() == tokens@.len());
    law_insertion_starts_at_the_count(root, texts(tokens@), config, id as nat, key);
    law_insertion_lists_once(
        root.key_to_child[key],
        texts(tokens@),
        config.levels(),
        config,
        id as nat,
        path,
        other,
    );
}

/// A message is matched exactly if feeding it would create no cluster, and by the cluster whose
/// id it would get. Both leave a message without tokens alone.
pub proof fn law_call_match_and_add(
    state: &DrainState,
    same: &mut DrainState,
    content: &str,
    matched: Option<&LogCluster>,
    id: usize,
)
    requires
        old(same)@ == state@,
        call_ensures(DrainState::match_log_message, (state, content), matched),
        call_ensures(DrainState::add_log_message, (same, content), id),
    ensures
        matched is Some <==> state@.config.tokens(content@).len() > 0
            && final(same).next_cluster_id == old(same).next_cluster_id,
        matched matches Some(cluster) ==> cluster.cluster_id == id && state@.clusters.contains(
            cluster@,
        ),
        matched is None && state@.config.tokens(content@).len() > 0 ==> id
            == old(same).next_cluster_id && final(same).next_cluster_id == id + 1,
        state@.config.tokens(content@).len() == 0 ==> id == 0 && final(same)@ == old(same)@,
        final(same).wf(),
{
    law_matching_predicts_feeding(state@, content@);
    assert(final(same)@.next_cluster_id == final(same).next_cluster_id as nat);
    assert(old(same)@.next_cluster_id == old(same).next_cluster_id as nat);
    if let Some(cluster) = matched {
        let k = (state@.found(state@.config.tokens(content@))->0).0 as int;
        assert(state@.clusters[k] == cluster@);
        assert(cluster@.cluster_id == cluster.cluster_id as nat);
    }
}

/// Feeding puts a message into the cluster that was found for it, which then counts one more and
/// has a merged template; or into a new cluster of its own.
pub proof fn law_call_add_log_message(state: &mut DrainState, content: &str, id: usize, j: int)
    requires
        call_ensures(DrainState::add_log_message, (state, content), id),
        old(state)@.config.tokens(content@).len() > 0,
    ensures
        ({
            let tokens = old(state)@.config.tokens(content@);
            let before = old(state)@.clusters;
            let after = final(state)@.clusters;
            match old(state)@.found(tokens) {
                Some((k, _)) => {
                    &&& k < before.len() == after.len()
                    &&& id == before[k as int].cluster_id
                    &&& after[k as int].cluster_id == id
                    &&& after[k as int].size == before[k as int].size + 1
                    &&& forall|i: int|
                        0 <= i < before[k as int].template_tokens.len() && i < tokens.len()
                            ==> #[trigger] after[k as int].template_tokens[i] == (
                        if before[k as int].template_tokens[i] == tokens[i] {
                            tokens[i]
                        } else {
                            old(state)@.config.param_str
                        })
                    &&& 0 <= j < before.len() && j != k ==> after[j] == before[j]
                    &&& final(state)@.next_cluster_id == old(state)@.next_cluster_id
                },
                None => {
                    &&& id == old(state)@.next_cluster_id
                    &&& final(state)@.next_cluster_id == id + 1
                    &&& old(state)@.config.max_clusters >= 1 ==> {
                        &&& after.len() >= 1
                        &&& after.last().cluster_id == id
                        &&& after.last().template_tokens == tokens
                        &&& after.last().size == 1
                        &&& after.last().examples == seq![content@]
                    }
                },
            }
        }),
{
    let tokens = old(state)@.config.tokens(content@);
    if old(state)@.found(tokens) is Some {
        law_feeding_what_is_found(old(state)@, content@, j);
        let k = (old(state)@.found(tokens)->0).0 as int;
        law_merging_keeps_what_agrees(
            old(state)@.clusters[k].template_tokens,
            tokens,
            old(state)@.config.param_str,
        );
    } else {
        law_feeding_what_is_new(old(state)@, content@);
    }
}

/// Trying to feed is feeding, unless there is no room: then nothing happens.
pub proof fn law_call_try_add(state: &mut DrainState, content: &str, res: Option<usize>)
    requires
        call_ensures(DrainState::try_add_log_message, (state, content), res),
    ensures
        res is Some <==> old(state)@.has_room(content@),
        res matches Some(id) ==> (final(state)@, id as nat) == old(state)@.fed(content@),
        res is None ==> final(state)@ == old(state)@,
{
}

/// Eviction takes just as many of the oldest clusters as there are too many.
pub proof fn law_call_evict(state: &mut DrainState)
    requires
        call_ensures(DrainState::evict_if_needed, (state,), ()),
    ensures
        ({
            let over = old(state)@.clusters.len() - old(state)@.config.max_clusters;
            &&& over <= 0 ==> final(state)@ == old(state)@
            &&& over > 0 ==> final(state)@.clusters == old(state)@.clusters.skip(over)
            &&& final(state)@.next_cluster_id == old(state)@.next_cluster_id
            &&& final(state)@.config == old(state)@.config
        }),
{
    law_eviction_takes_the_oldest(old(state)@);
}

/// After the oldest cluster is gone, its index is nowhere in the tree, and every other index is
/// one less.
pub proof fn law_call_adjust_tree_indices(node: &mut Node, path: Seq<Seq<char>>)
    requires
        call_ensures(adjust_tree_indices, (node,), ()),
        old(node).wf(),
    ensures
        ids_at(final(node)@, path) == ids_at(
            old(node)@,
            path,
        ).filter(|x: nat| x >= 1).map_values(|x: nat| (x - 1) as nat),
{
    law_eviction_renumbers(old(node)@, 1, path);
}

/// A model is rebuilt from the youngest of the clusters, as many as it may have, and its next id
/// is one more than the greatest that was given, or 1.
pub proof fn law_call_from_clusters(
    config: DrainConfig,
    clusters: Vec<LogCluster>,
    state: DrainState,
)
    requires
        call_ensures(DrainState::from_clusters, (config, clusters), state),
    ensures
        ({
            let given = cluster_views(clusters@);
            let over = given.len() - config@.max_clusters;
            &&& state@.config == config@
            &&& over <= 0 ==> state@.clusters == given
            &&& over > 0 ==> state@.clusters == given.skip(over)
            &&& given.len() == 0 ==> state@.next_cluster_id == 1
            &&& given.len() > 0 ==> exists|i: int|
                0 <= i < given.len() && (#[trigger] given[i]).cluster_id + 1
                    == state@.next_cluster_id
            &&& forall|i: int|
                0 <= i < given.len() ==> (#[trigger] given[i]).cluster_id < state@.next_cluster_id
        }),
{
    let given = cluster_views(clusters@);
    if given.len() > 0 {
        law_rebuilding(config@, given, given[0]);
    }
    law_eviction_takes_the_oldest(StateView::rebuilt(config@, given));
}

/// The clusters that are handed out are those of the model.
pub proof fn law_call_get_clusters(state: &DrainState, res: &[LogCluster])
    requires
        call_ensures(DrainState::get_clusters, (state,), res),
    ensures
        res@ == state.clusters@,
{
}

/// Rows give one cluster each, in order.
pub proof fn law_call_clusters_from_rows(rows: &Vec<TableRow>, clusters: Vec<LogCluster>)
    requires
        call_ensures(clusters_from_rows, (rows,), clusters),
    ensures
        clusters@.len() == rows@.len(),
        forall|i: int| 0 <= i < rows@.len() ==> (#[trigger] clusters@[i])@ == rows@[i]@,
{
    let views = cluster_views(clusters@);
    assert(views.len() == clusters@.len());
    assert(row_views(rows@).len() == rows@.len());
    assert forall|i: int| 0 <= i < rows@.len() implies (#[trigger] clusters@[i])@ == rows@[i]@ by {
        assert(views[i] == clusters@[i]@);
        assert(row_views(rows@)[i] == rows@[i]@);
    }
}

// ---------------------------------------------------------------------------------------------
// Parameters
// ---------------------------------------------------------------------------------------------

/// A wildcard stands in angle brackets or braces, and its name is all that stands between them,
/// unless that is nothing or `*`.
pub proof fn law_call_wildcards(token: &str, x: Seq<char>, res: bool, name: Option<String>)
    requires
        call_ensures(is_wildcard, (token,), res),
        call_ensures(extract_wildcard_name, (token,), name),
    ensures
        token@ == seq!['<'] + x + seq!['>'] || token@ == seq!['{'] + x + seq!['}'] ==> {
            &&& res
            &&& x.len() > 0 && x != seq!['*'] ==> (name matches Some(n) && n@ == x)
            &&& x.len() == 0 || x == seq!['*'] ==> name is None
        },
        res ==> token@.len() >= 2 && (token@[0] == '<' && token@.last() == '>' || token@[0] == '{'
            && token@.last() == '}'),
        !res ==> name is None,
{
    law_wildcards_are_bracketed(token@);
    law_name_is_between_brackets(x, token@);
    if res {
        let y = choose|y: Seq<char>|
            token@ == #[trigger] (seq!['<'] + y + seq!['>']) || token@ == seq!['{'] + y + seq!['}'];
        assert(token@.len() == y.len() + 2);
    }
}

/// The wildcard at a position of a template has a parameter: its own name, or an underscore and
/// its number among those without a name, and the message's word at that position. Nothing
/// else has one, and there is none where the numbers of words differ.
pub proof fn law_call_extract_params(
    template: &str,
    message: &str,
    params: Vec<(String, String)>,
    i: int,
)
    requires
        call_ensures(DrainState::extract_params, (template, message), params),
    ensures
        ({
            let t = words(template@);
            let m = words(message@);
            &&& t.len() != m.len() ==> params@.len() == 0
            &&& t.len() == m.len() ==> params@.len() == wildcards_before(t, t.len() as int).len()
            &&& t.len() == m.len() && 0 <= i < t.len() && wildcard(t[i]) ==> {
                let k = wildcards_before(t, i).len() as int;
                &&& k < params@.len()
                &&& params@[k].1@ == m[i]
                &&& params@[k].0@ == match wildcard_name(t[i]) {
                    Some(name) => name,
                    None => seq!['_'] + decimal(unnamed_before(t, i).len() + 1),
                }
            }
        }),
{
    let t = words(template@);
    let m = words(message@);
    let pairs = pair_texts(params@);
    assert(pairs.len() == params@.len());
    if t.len() == m.len() {
        lemma_params_len(t, m);
        if 0 <= i < t.len() && wildcard(t[i]) {
            law_params_follow_wildcards(t, m, i);
            let k = wildcards_before(t, i).len() as int;
            assert(pairs[k] == (params@[k].0@, params@[k].1@));
        }
    }
}

/// The JSON object has all values in order under the reserved key, the value of the last
/// parameter of a name under that name unless it starts with an underscore, and nothing else.
pub proof fn law_call_params_to_json(
    params: &Vec<(String, String)>,
    value: serde_json::Value,
    i: int,
    k: Seq<char>,
)
    requires
        call_ensures(params_to_json, (params,), value),
    ensures
        json_value(value) matches JsonView::Object(object) && {
            &&& object.contains_key("_values"@)
            &&& object["_values"@] matches JsonView::Array(values) && values.len() == params@.len()
                && forall|j: int|
                0 <= j < values.len() ==> #[trigger] values[j] == JsonView::Text(params@[j].1@)
            &&& 0 <= i < params@.len() && (params@[i].0@.len() == 0 || params@[i].0@[0] != '_') && (
            forall|j: int| i < j < params@.len() ==> (#[trigger] params@[j]).0@ != params@[i].0@)
                ==> object.contains_key(params@[i].0@) && object[params@[i].0@] == JsonView::Text(
                params@[i].1@,
            )
            &&& object.contains_key(k) && k != "_values"@ ==> (k.len() == 0 || k[0] != '_')
                && exists|j: int| 0 <= j < params@.len() && (#[trigger] params@[j]).0@ == k
        },
{
    let pairs = pair_texts(params@);
    assert(pairs.len() == params@.len());
    assert forall|j: int| 0 <= j < params@.len() implies #[trigger] pairs[j] == (
        params@[j].0@,
        params@[j].1@,
    ) by {}
    law_values_key_is_reserved(pairs);
    law_values_are_in_order(pairs);
    if 0 <= i < params@.len() && (params@[i].0@.len() == 0 || params@[i].0@[0] != '_') && (forall|
        j: int,
    |
        i < j < params@.len() ==> (#[trigger] params@[j]).0@ != params@[i].0@) {
        assert forall|j: int| i < j < pairs.len() implies (#[trigger] pairs[j]).0 != pairs[i].0 by {
            assert(params@[j].0@ != params@[i].0@);
        }
        law_named_param_is_merged(pairs, i);
    }
    let object = crate::json::params_object(pairs);
    if object.contains_key(k) && k != PARAMS_VALUES_KEY@ {
        law_no_other_keys(pairs, k);
        let j = choose|j: int| 0 <= j < pairs.len() && (#[trigger] pairs[j]).0 == k;
        assert(params@[j].0@ == k);
    }
}

/// Extraction as JSON gives the object for the parameters that are extracted.
pub proof fn law_call_extract_as_json(
    template: &str,
    message: &str,
    params: Vec<(String, String)>,
    direct: serde_json::Value,
    value: serde_json::Value,
)
    requires
        call_ensures(DrainState::extract_params, (template, message), params),
        call_ensures(params_to_json, (&params,), direct),
        call_ensures(drain3_extract_params, (template, message), value),
    ensures
        json_value(value) == json_value(direct),
{
}

// ---------------------------------------------------------------------------------------------
// Statements
// ---------------------------------------------------------------------------------------------

/// Statements and queries are about the table and the model that were given, and the insert
/// statement holds the whole cluster.
pub proof fn law_call_statements(
    table: &str,
    model: &str,
    cluster: &LogCluster,
    delete: String,
    insert: String,
    select: String,
    exist: String,
)
    requires
        call_ensures(delete_statement, (table, model), delete),
        call_ensures(insert_statement, (table, model, cluster), insert),
        call_ensures(select_query, (table, model), select),
        call_ensures(exists_query, (table,), exist),
    ensures
        deletes(delete@, table@, model@),
        inserts(
            insert@,
            table@,
            model@,
            cluster.cluster_id as int,
            joined(texts(cluster.template_tokens@), " "@),
            cluster.size as int,
            texts(cluster.examples@),
        ),
        selects(select@, table@, model@),
        asks_for(exist@, table@),
{
    law_delete_reads_back(table@, model@);
    law_insert_reads_back(table@, model@, cluster@);
    law_select_reads_back(table@, model@);
    law_exists_reads_back(table@);
}

} // verus!
