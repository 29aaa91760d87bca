//! What feeding, matching and eviction do to a model, and where clusters stand in its tree.
use vstd::prelude::*;
use crate::drain::{merged, seq_similarity};
use crate::laws::{best_position, law_best_candidate};
use crate::similarity::{at_least, ratio_bits};
use crate::text::decimal;
use crate::tree::{
    child_or_new, leaf, leaf_below, routed_key, shifted, tree_with_cluster, with_cluster,
    without_oldest,
};
use crate::types::{default_config, empty_node, ClusterView, ConfigView, NodeView, StateView};

verus! {

// ---------------------------------------------------------------------------------------------
// Templates
// ---------------------------------------------------------------------------------------------

/// Merging keeps every token that agrees, and puts the wildcard for every one that differs, over
/// the length of the shorter sequence.
pub proof fn law_merging_keeps_what_agrees(a: Seq<Seq<char>>, b: Seq<Seq<char>>, param: Seq<char>)
    ensures
        a.len() <= b.len() ==> merged(a, b, param).len() == a.len(),
        b.len() <= a.len() ==> merged(a, b, param).len() == b.len(),
        forall|i: int|
            0 <= i < a.len() && i < b.len() && a[i] == b[i] ==> #[trigger] merged(a, b, param)[i]
                == a[i],
        forall|i: int|
            0 <= i < a.len() && i < b.len() && a[i] != b[i] ==> #[trigger] merged(a, b, param)[i]
                == param,
{
}

/// The positions below `n` at which a template has the message's token or the wildcard.
pub open spec fn covered_positions(
    template: Seq<Seq<char>>,
    tokens: Seq<Seq<char>>,
    param: Seq<char>,
    n: nat,
) -> Seq<int> {
    Seq::new(n, |i: int| i).filter(
        |i: int| template[i] == tokens[i] || template[i] == param,
    )
}

proof fn lemma_covered_positions(
    template: Seq<Seq<char>>,
    tokens: Seq<Seq<char>>,
    param: Seq<char>,
    n: nat,
)
    requires
        n <= template.len() == tokens.len(),
    ensures
        crate::drain::match_count(template.take(n as int), tokens.take(n as int), param)
            == covered_positions(template, tokens, param, n).len(),
    decreases n,
{
    reveal(Seq::filter);
    if n > 0 {
        let m = (n - 1) as nat;
        lemma_covered_positions(template, tokens, param, m);
        assert(template.take(n as int).drop_last() =~= template.take(m as int));
        assert(tokens.take(n as int).drop_last() =~= tokens.take(m as int));
        assert(Seq::new(n, |i: int| i).drop_last() =~= Seq::new(m, |i: int| i));
    }
}

/// Similarity is the ratio of the covered positions to all, and zero for different lengths.
pub proof fn law_similarity_counts_positions(
    template: Seq<Seq<char>>,
    tokens: Seq<Seq<char>>,
    param: Seq<char>,
)
    ensures
        template.len() == tokens.len() ==> seq_similarity(template, tokens, param).bits
            == ratio_bits(
            covered_positions(template, tokens, param, template.len()).len(),
            template.len(),
        ) as u64,
        template.len() != tokens.len() ==> seq_similarity(template, tokens, param).bits == 0,
{
    if template.len() == tokens.len() {
        lemma_covered_positions(template, tokens, param, template.len());
        assert(template.take(template.len() as int) =~= template);
        assert(tokens.take(tokens.len() as int) =~= tokens);
    }
}

// ---------------------------------------------------------------------------------------------
// Feeding and matching
// ---------------------------------------------------------------------------------------------

/// A message without tokens changes nothing and gets 0.
pub proof fn law_feeding_nothing(state: StateView, content: Seq<char>)
    requires
        state.config.tokens(content).len() == 0,
    ensures
        state.fed(content) == (state, 0nat),
        state.matching(content) is None,
{
}

/// A message that is found goes into the cluster that was found, and gets its id. That cluster
/// keeps its id, counts one more message, has its template merged with the message's tokens,
/// and has the message as its last example if it had fewer than five and not this one. Nothing
/// else changes.
pub proof fn law_feeding_what_is_found(state: StateView, content: Seq<char>, j: int)
    requires
        state.config.tokens(content).len() > 0,
        state.found(state.config.tokens(content)) is Some,
    ensures
        ({
            let tokens = state.config.tokens(content);
            let k = (state.found(tokens)->0).0 as int;
            let (after, id) = state.fed(content);
            let old_one = state.clusters[k];
            let new_one = after.clusters[k];
            &&& 0 <= k < state.clusters.len()
            &&& id == old_one.cluster_id
            &&& after.config == state.config
            &&& after.root == state.root
            &&& after.next_cluster_id == state.next_cluster_id
            &&& after.clusters.len() == state.clusters.len()
            &&& 0 <= j < state.clusters.len() && j != k ==> after.clusters[j] == state.clusters[j]
            &&& new_one.cluster_id == old_one.cluster_id
            &&& new_one.size == old_one.size + 1
            &&& new_one.template_tokens == merged(
                old_one.template_tokens,
                tokens,
                state.config.param_str,
            )
            &&& old_one.examples.len() < 5 && !old_one.examples.contains(content)
                ==> new_one.examples == old_one.examples.push(content)
            &&& old_one.examples.len() >= 5 || old_one.examples.contains(content)
                ==> new_one.examples == old_one.examples
        }),
{
    law_found_is_the_best(state, state.config.tokens(content));
}

/// A message that is not found gets a cluster of its own, the youngest: with the next id, the
/// message's tokens as its template, the size one and the message as its example. The oldest
/// clusters give way where there are too many.
pub proof fn law_feeding_what_is_new(state: StateView, content: Seq<char>)
    requires
        state.config.tokens(content).len() > 0,
        state.found(state.config.tokens(content)) is None,
    ensures
        ({
            let tokens = state.config.tokens(content);
            let (after, id) = state.fed(content);
            let own = ClusterView {
                cluster_id: state.next_cluster_id,
                template_tokens: tokens,
                size: 1,
                examples: seq![content],
            };
            let n = state.clusters.len();
            let over = n + 1 - state.config.max_clusters;
            &&& id == state.next_cluster_id
            &&& after.config == state.config
            &&& after.next_cluster_id == state.next_cluster_id + 1
            &&& over <= 0 ==> after.clusters == state.clusters.push(own)
            &&& over > 0 ==> after.clusters == state.clusters.push(own).skip(over)
            &&& over <= 0 ==> after.root == tree_with_cluster(
                state.root,
                tokens,
                state.config,
                n,
            )
            &&& over > 0 ==> after.root == without_oldest(
                tree_with_cluster(state.root, tokens, state.config, n),
                over as nat,
            )
        }),
{
}

/// Matching tells what feeding would do: a message is matched exactly if it has tokens and
/// feeding it creates no cluster, and it is matched by the cluster that it would go into.
pub proof fn law_matching_predicts_feeding(state: StateView, content: Seq<char>)
    ensures
        state.matching(content) is Some <==> state.config.tokens(content).len() > 0 && state.fed(
            content,
        ).0.next_cluster_id == state.next_cluster_id,
        state.matching(content) matches Some(cluster) ==> {
            &&& cluster.cluster_id == state.fed(content).1
            &&& state.found(state.config.tokens(content)) matches Some((k, _))
                && k < state.clusters.len() && cluster == state.clusters[k as int]
        },
{
    law_found_is_the_best(state, state.config.tokens(content));
}

/// A message is matched exactly if its search ends among candidates of which one reaches the
/// threshold.
pub proof fn law_matched_iff_similar(state: StateView, content: Seq<char>)
    ensures
        ({
            let tokens = state.config.tokens(content);
            state.matching(content) is Some <==> tokens.len() > 0 && (leaf(
                state.root,
                tokens,
                state.config,
            ) matches Some(node) && exists|p: int|
                reaching_at(state, node.cluster_ids, tokens, p))
        }),
{
    law_found_is_the_best(state, state.config.tokens(content));
}

/// Whether the candidate at a position is a cluster whose similarity reaches the threshold.
pub open spec fn reaching_at(
    state: StateView,
    ids: Seq<nat>,
    tokens: Seq<Seq<char>>,
    p: int,
) -> bool {
    &&& 0 <= p < ids.len()
    &&& ids[p] < state.clusters.len()
    &&& at_least(
        seq_similarity(
            state.clusters[ids[p] as int].template_tokens,
            tokens,
            state.config.param_str,
        ),
        state.config.sim_th,
    )
}

/// What is found is the best of the candidates where the search ends, the first of equals.
/// Something is found exactly if one of them reaches the threshold.
pub proof fn law_found_is_the_best(state: StateView, tokens: Seq<Seq<char>>)
    ensures
        match leaf(state.root, tokens, state.config) {
            Some(node) => {
                let ids = node.cluster_ids;
                let param = state.config.param_str;
                &&& state.found(tokens) is Some <==> exists|p: int|
                    reaching_at(state, ids, tokens, p)
                &&& state.found(tokens) matches Some((id, sim)) ==> {
                    &&& id < state.clusters.len()
                    &&& sim == seq_similarity(
                        state.clusters[id as int].template_tokens,
                        tokens,
                        param,
                    )
                    &&& exists|p: int|
                        best_position(state.clusters, ids, tokens, param, p) && ids[p] == id
                }
            },
            None => state.found(tokens) is None,
        },
{
    if let Some(node) = leaf(state.root, tokens, state.config) {
        let ids = node.cluster_ids;
        let param = state.config.param_str;
        law_best_candidate(state.clusters, ids, tokens, param);
        if let Some((id, sim)) = crate::drain::best_of(state.clusters, ids, tokens, param) {
            let q = choose|q: int|
                best_position(state.clusters, ids, tokens, param, q) && ids[q] == id;
            if state.found(tokens) is Some {
                assert(reaching_at(state, ids, tokens, q));
            }
            if exists|p: int| reaching_at(state, ids, tokens, p) {
                let p = choose|p: int| reaching_at(state, ids, tokens, p);
                assert(crate::laws::candidate_bits(state.clusters, ids[p], tokens, param)
                    <= crate::laws::candidate_bits(state.clusters, ids[q], tokens, param));
            }
        } else {
            if exists|p: int| reaching_at(state, ids, tokens, p) {
                let p = choose|p: int| reaching_at(state, ids, tokens, p);
                assert(ids[p] >= state.clusters.len());
            }
        }
    }
}

/// There is room for a message where every size and the next id are below the limit. Where
/// there is room, the size or id that grows stays within it.
pub proof fn law_room(state: StateView, content: Seq<char>)
    ensures
        (forall|i: int|
            0 <= i < state.clusters.len() ==> (#[trigger] state.clusters[i]).size < usize::MAX)
            && state.next_cluster_id < usize::MAX ==> state.has_room(content),
        state.config.tokens(content).len() == 0 ==> state.has_room(content),
        state.config.tokens(content).len() > 0 ==> (state.has_room(content) <==> (match state.found(
            state.config.tokens(content),
        ) {
            Some((k, _)) => state.fed(content).0.clusters[k as int].size <= usize::MAX,
            None => state.fed(content).0.next_cluster_id <= usize::MAX,
        })),
{
    law_found_is_the_best(state, state.config.tokens(content));
}

// ---------------------------------------------------------------------------------------------
// The tree, by its paths
// ---------------------------------------------------------------------------------------------

/// The node at the end of a path of keys.
pub open spec fn node_at(node: NodeView, path: Seq<Seq<char>>) -> Option<NodeView>
    decreases path.len(),
{
    if path.len() == 0 {
        Some(node)
    } else if node.key_to_child.contains_key(path[0]) {
        node_at(node.key_to_child[path[0]], path.skip(1))
    } else {
        None
    }
}

/// The clusters that are listed at the end of a path.
pub open spec fn ids_at(node: NodeView, path: Seq<Seq<char>>) -> Seq<nat> {
    match node_at(node, path) {
        Some(n) => n.cluster_ids,
        None => Seq::empty(),
    }
}

/// How long paths are: over as many levels as there are, and no more tokens than there are.
pub open spec fn path_len(tokens: Seq<Seq<char>>, levels: nat) -> nat {
    if tokens.len() <= levels {
        tokens.len()
    } else {
        levels
    }
}

/// Whether a path is the one on which tokens are searched: each step goes by the token, or by
/// the wildcard where there is no branch for the token.
pub open spec fn search_path(
    node: NodeView,
    tokens: Seq<Seq<char>>,
    levels: nat,
    param: Seq<char>,
    path: Seq<Seq<char>>,
) -> bool {
    &&& path.len() == path_len(tokens, levels)
    &&& node_at(node, path) is Some
    &&& forall|i: int|
        0 <= i < path.len() ==> #[trigger] path[i] == tokens[i] || (path[i] == param && node_at(
            node,
            path.take(i).push(tokens[i]),
        ) is None)
}

proof fn lemma_search_step(
    node: NodeView,
    tokens: Seq<Seq<char>>,
    levels: nat,
    param: Seq<char>,
    path: Seq<Seq<char>>,
)
    requires
        levels > 0,
        tokens.len() > 0,
        path.len() > 0,
        node.key_to_child.contains_key(path[0]),
        path[0] == tokens[0] || (path[0] == param && !node.key_to_child.contains_key(tokens[0])),
    ensures
        search_path(node, tokens, levels, param, path) <==> search_path(
            node.key_to_child[path[0]],
            tokens.skip(1),
            (levels - 1) as nat,
            param,
            path.skip(1),
        ),
{
    let child = node.key_to_child[path[0]];
    let below = (levels - 1) as nat;
    let rest = path.skip(1);
    let rest_tokens = tokens.skip(1);
    assert forall|i: int| 0 <= i < rest.len() && i < rest_tokens.len() implies node_at(
        node,
        #[trigger] path.take(i + 1).push(tokens[i + 1]),
    ) == node_at(child, rest.take(i).push(rest_tokens[i])) by {
        let p = path.take(i + 1).push(tokens[i + 1]);
        assert(p[0] == path[0]);
        assert(p.skip(1) =~= rest.take(i).push(rest_tokens[i]));
    }
    if search_path(node, tokens, levels, param, path) {
        assert forall|i: int| 0 <= i < rest.len() implies #[trigger] rest[i] == rest_tokens[i] || (
        rest[i] == param && node_at(child, rest.take(i).push(rest_tokens[i])) is None) by {
            assert(path[i + 1] == tokens[i + 1] || (path[i + 1] == param && node_at(
                node,
                path.take(i + 1).push(tokens[i + 1]),
            ) is None));
        }
    }
    if search_path(child, rest_tokens, below, param, rest) {
        assert forall|i: int| 0 <= i < path.len() implies #[trigger] path[i] == tokens[i] || (
        path[i] == param && node_at(node, path.take(i).push(tokens[i])) is None) by {
            if i > 0 {
                assert(rest[i - 1] == path[i]);
                assert(rest_tokens[i - 1] == tokens[i]);
                let p = path.take(i).push(tokens[i]);
                assert(p == path.take((i - 1) + 1).push(tokens[(i - 1) + 1]));
            } else {
                assert(path.take(0).push(tokens[0]) =~= seq![tokens[0]]);
                assert(seq![tokens[0]].skip(1) =~= Seq::empty());
            }
        }
    }
}

/// A search ends at the end of its path.
pub proof fn law_search_follows_its_path(
    node: NodeView,
    tokens: Seq<Seq<char>>,
    levels: nat,
    config: ConfigView,
    path: Seq<Seq<char>>,
)
    requires
        search_path(node, tokens, levels, config.param_str, path),
    ensures
        leaf_below(node, tokens, levels, config) == node_at(node, path),
    decreases levels,
{
    if levels > 0 && tokens.len() > 0 {
        let one = seq![tokens[0]];
        assert(path.take(0).push(tokens[0]) =~= one);
        assert(one.skip(1) =~= Seq::empty());
        assert(node_at(node.key_to_child[tokens[0]], one.skip(1)) is Some);
        assert(node_at(node, one) is Some <==> node.key_to_child.contains_key(tokens[0]));
        assert(path[0] == tokens[0] || path[0] == config.param_str);
        lemma_search_step(node, tokens, levels, config.param_str, path);
        law_search_follows_its_path(
            node.key_to_child[path[0]],
            tokens.skip(1),
            (levels - 1) as nat,
            config,
            path.skip(1),
        );
    }
}

/// A search that ends somewhere has a path.
pub proof fn law_search_has_a_path(
    node: NodeView,
    tokens: Seq<Seq<char>>,
    levels: nat,
    config: ConfigView,
)
    requires
        leaf_below(node, tokens, levels, config) is Some,
    ensures
        exists|path: Seq<Seq<char>>| search_path(node, tokens, levels, config.param_str, path),
    decreases levels,
{
    let param = config.param_str;
    if levels == 0 || tokens.len() == 0 {
        assert(search_path(node, tokens, levels, param, Seq::empty()));
    } else {
        let key = if node.key_to_child.contains_key(tokens[0]) {
            tokens[0]
        } else {
            param
        };
        let child = node.key_to_child[key];
        let below = (levels - 1) as nat;
        law_search_has_a_path(child, tokens.skip(1), below, config);
        let rest = choose|rest: Seq<Seq<char>>|
            search_path(child, tokens.skip(1), below, param, rest);
        let path = seq![key] + rest;
        assert(path.skip(1) =~= rest);
        lemma_search_step(node, tokens, levels, param, path);
        assert(search_path(node, tokens, levels, param, path));
    }
}

/// A search starts at the branch of the token count, and goes over two levels less than the
/// depth, which counts as three where it is less.
pub proof fn law_search_starts_at_the_count(
    root: NodeView,
    tokens: Seq<Seq<char>>,
    config: ConfigView,
)
    ensures
        ({
            let levels = (if config.depth < 3 {
                3
            } else {
                config.depth as int
            } - 2) as nat;
            let key = decimal(tokens.len());
            &&& root.key_to_child.contains_key(key) ==> leaf(root, tokens, config) == leaf_below(
                root.key_to_child[key],
                tokens,
                levels,
                config,
            )
            &&& !root.key_to_child.contains_key(key) ==> leaf(root, tokens, config) is None
        }),
{
}

/// Whether a path is the one on which a cluster for the tokens is put: each step goes by the
/// token, or by the wildcard where the node has no branch for the token and no room for one.
pub open spec fn insert_path(
    node: NodeView,
    tokens: Seq<Seq<char>>,
    levels: nat,
    config: ConfigView,
    path: Seq<Seq<char>>,
) -> bool {
    &&& path.len() == path_len(tokens, levels)
    &&& forall|i: int|
        0 <= i < path.len() ==> #[trigger] path[i] == step_key(
            node_at(node, path.take(i)),
            tokens[i],
            config,
        )
}

/// The key by which a new cluster goes on from a node, which may be yet to come.
pub open spec fn step_key(
    here: Option<NodeView>,
    token: Seq<char>,
    config: ConfigView,
) -> Seq<char> {
    match here {
        Some(n) => if n.key_to_child.contains_key(token) || n.key_to_child.len()
            < config.max_children {
            token
        } else {
            config.param_str
        },
        None => if 0 < config.max_children {
            token
        } else {
            config.param_str
        },
    }
}

proof fn lemma_insert_step(
    node: NodeView,
    tokens: Seq<Seq<char>>,
    levels: nat,
    config: ConfigView,
    path: Seq<Seq<char>>,
)
    requires
        levels > 0,
        tokens.len() > 0,
        path.len() > 0,
        path[0] == routed_key(node, tokens[0], config),
    ensures
        insert_path(node, tokens, levels, config, path) <==> insert_path(
            child_or_new(node, path[0]),
            tokens.skip(1),
            (levels - 1) as nat,
            config,
            path.skip(1),
        ),
{
    let child = child_or_new(node, path[0]);
    let below = (levels - 1) as nat;
    let rest = path.skip(1);
    let rest_tokens = tokens.skip(1);
    assert(empty_node().key_to_child.dom() =~= Set::empty());
    assert(empty_node().key_to_child.len() == 0);
    assert forall|i: int| 0 <= i < rest.len() && i < rest_tokens.len() implies step_key(
        node_at(node, #[trigger] path.take(i + 1)),
        tokens[i + 1],
        config,
    ) == step_key(node_at(child, rest.take(i)), rest_tokens[i], config) by {
        let p = path.take(i + 1);
        assert(p[0] == path[0]);
        assert(p.skip(1) =~= rest.take(i));
    }
    if insert_path(node, tokens, levels, config, path) {
        assert forall|i: int| 0 <= i < rest.len() implies #[trigger] rest[i] == step_key(
            node_at(child, rest.take(i)),
            rest_tokens[i],
            config,
        ) by {
            assert(path[i + 1] == step_key(
                node_at(node, path.take(i + 1)),
                tokens[i + 1],
                config,
            ));
        }
    }
    if insert_path(child, rest_tokens, below, config, rest) {
        assert forall|i: int| 0 <= i < path.len() implies #[trigger] path[i] == step_key(
            node_at(node, path.take(i)),
            tokens[i],
            config,
        ) by {
            if i > 0 {
                assert(rest[i - 1] == path[i]);
                assert(path.take((i - 1) + 1) == path.take(i));
            } else {
                assert(path.take(0) =~= Seq::empty());
            }
        }
    }
}

/// A new cluster is listed last at the end of its path, and the lists at the ends of all other
/// paths stay as they are. The nodes on its path are there, and no others are added.
pub proof fn law_insertion_lists_once(
    node: NodeView,
    tokens: Seq<Seq<char>>,
    levels: nat,
    config: ConfigView,
    id: nat,
    path: Seq<Seq<char>>,
    other: Seq<Seq<char>>,
)
    requires
        insert_path(node, tokens, levels, config, path),
    ensures
        ({
            let after = with_cluster(node, tokens, levels, config, id);
            &&& ids_at(after, path) == ids_at(node, path).push(id)
            &&& other != path ==> ids_at(after, other) == ids_at(node, other)
            &&& node_at(after, other) is Some <==> node_at(node, other) is Some || (other.len()
                <= path.len() && path.take(other.len() as int) == other)
        }),
    decreases levels,
{
    let after = with_cluster(node, tokens, levels, config, id);
    if levels == 0 || tokens.len() == 0 {
        assert(path =~= Seq::empty());
        if other.len() == 0 {
            assert(other =~= path);
            assert(path.take(0) =~= other);
        }
    } else {
        assert(path.take(0) =~= Seq::empty());
        let branch = routed_key(node, tokens[0], config);
        assert(path[0] == step_key(node_at(node, path.take(0)), tokens[0], config));
        assert(path[0] == branch);
        lemma_insert_step(node, tokens, levels, config, path);
        let child = child_or_new(node, branch);
        let below = (levels - 1) as nat;
        let rest = path.skip(1);
        law_insertion_lists_once(child, tokens.skip(1), below, config, id, rest, other.skip(1));
        assert(node_at(after, path) == node_at(after.key_to_child[branch], rest));
        assert(!empty_node().key_to_child.contains_key(branch));
        assert(ids_at(node, path) =~= ids_at(child, rest)) by {
            lemma_empty_lists(rest);
        }
        if other.len() == 0 {
            assert(path.take(0) =~= other);
        } else if other[0] == branch {
            lemma_empty_lists(other.skip(1));
            assert(ids_at(node, other) =~= ids_at(child, other.skip(1)));
            assert(seq![branch] + rest =~= path);
            assert(seq![branch] + other.skip(1) =~= other);
            if other.len() <= path.len() {
                let n = other.len() as int;
                assert(path.take(n) =~= seq![branch] + rest.take(n - 1));
                if rest.take(n - 1) == other.skip(1) {
                    assert(path.take(n) == other);
                }
                if path.take(n) == other {
                    assert(rest.take(n - 1) =~= other.skip(1));
                }
            }
            if !node.key_to_child.contains_key(branch) && other.skip(1).len() == 0 {
                assert(rest.take(0) =~= other.skip(1));
            }
        } else {
            if other.len() <= path.len() {
                assert(path.take(other.len() as int)[0] == branch);
            }
        }
    }
}

proof fn lemma_empty_lists(path: Seq<Seq<char>>)
    ensures
        ids_at(empty_node(), path) == Seq::<nat>::empty(),
        node_at(empty_node(), path) is Some <==> path.len() == 0,
{
    if path.len() > 0 {
        assert(!empty_node().key_to_child.contains_key(path[0]));
    }
}

/// A new cluster has a path.
pub proof fn law_insertion_has_a_path(
    node: NodeView,
    tokens: Seq<Seq<char>>,
    levels: nat,
    config: ConfigView,
)
    ensures
        exists|path: Seq<Seq<char>>| insert_path(node, tokens, levels, config, path),
    decreases levels,
{
    if levels == 0 || tokens.len() == 0 {
        assert(insert_path(node, tokens, levels, config, Seq::empty()));
    } else {
        let branch = routed_key(node, tokens[0], config);
        let child = child_or_new(node, branch);
        let below = (levels - 1) as nat;
        law_insertion_has_a_path(child, tokens.skip(1), below, config);
        let rest = choose|rest: Seq<Seq<char>>|
            insert_path(child, tokens.skip(1), below, config, rest);
        let path = seq![branch] + rest;
        assert(path.skip(1) =~= rest);
        lemma_insert_step(node, tokens, levels, config, path);
        assert(insert_path(node, tokens, levels, config, path));
    }
}

/// A new cluster goes below the branch of its token count, over two levels less than the depth,
/// which counts as three where it is less. The other branches stay as they are.
pub proof fn law_insertion_starts_at_the_count(
    root: NodeView,
    tokens: Seq<Seq<char>>,
    config: ConfigView,
    id: nat,
    k: Seq<char>,
)
    ensures
        ({
            let levels = (if config.depth < 3 {
                3
            } else {
                config.depth as int
            } - 2) as nat;
            let key = decimal(tokens.len());
            let after = tree_with_cluster(root, tokens, config, id);
            &&& after.cluster_ids == root.cluster_ids
            &&& after.key_to_child.contains_key(k) <==> k == key
                || root.key_to_child.contains_key(k)
            &&& k != key && root.key_to_child.contains_key(k) ==> after.key_to_child[k]
                == root.key_to_child[k]
            &&& after.key_to_child[key] == with_cluster(
                if root.key_to_child.contains_key(key) {
                    root.key_to_child[key]
                } else {
                    NodeView { key_to_child: Map::empty(), cluster_ids: Seq::empty() }
                },
                tokens,
                levels,
                config,
                id,
            )
        }),
{
}

proof fn lemma_shifted_filters(ids: Seq<nat>, d: nat)
    ensures
        shifted(ids, d) == ids.filter(|x: nat| x >= d).map_values(|x: nat| (x - d) as nat),
    decreases ids.len(),
{
    reveal(Seq::filter);
    if ids.len() > 0 {
        lemma_shifted_filters(ids.drop_last(), d);
        let kept = ids.drop_last().filter(|x: nat| x >= d);
        assert(kept.push(ids.last()).map_values(|x: nat| (x - d) as nat) =~= kept.map_values(
            |x: nat| (x - d) as nat,
        ).push((ids.last() - d) as nat));
    }
    assert(shifted(ids, d) =~= ids.filter(|x: nat| x >= d).map_values(|x: nat| (x - d) as nat));
}

/// Eviction drops the indices of the evicted clusters everywhere and moves the others down, and
/// leaves every node where it is.
pub proof fn law_eviction_renumbers(node: NodeView, d: nat, path: Seq<Seq<char>>)
    ensures
        node_at(without_oldest(node, d), path) is Some <==> node_at(node, path) is Some,
        ids_at(without_oldest(node, d), path) == ids_at(node, path).filter(
            |x: nat| x >= d,
        ).map_values(|x: nat| (x - d) as nat),
    decreases path.len(),
{
    let after = without_oldest(node, d);
    if path.len() == 0 {
        lemma_shifted_filters(node.cluster_ids, d);
    } else if node.key_to_child.contains_key(path[0]) {
        assert(after.key_to_child.contains_key(path[0]));
        law_eviction_renumbers(node.key_to_child[path[0]], d, path.skip(1));
    } else {
        assert(!after.key_to_child.contains_key(path[0]));
        lemma_shifted_filters(Seq::empty(), d);
    }
}

/// Eviction takes just as many of the oldest clusters as there are too many, and changes nothing
/// else of the model.
pub proof fn law_eviction_takes_the_oldest(state: StateView)
    ensures
        ({
            let after = state.evicted();
            let over = state.clusters.len() - state.config.max_clusters;
            &&& after.config == state.config
            &&& after.next_cluster_id == state.next_cluster_id
            &&& over <= 0 ==> after == state
            &&& over > 0 ==> after.clusters == state.clusters.skip(over) && after.root
                == without_oldest(state.root, over as nat)
        }),
{
}

// ---------------------------------------------------------------------------------------------
// Starting and rebuilding
// ---------------------------------------------------------------------------------------------

/// A model starts with nothing but its configuration, and its first id is 1.
pub proof fn law_start(config: ConfigView, k: Seq<char>)
    ensures
        StateView::fresh(config).config == config,
        StateView::fresh(config).clusters.len() == 0,
        StateView::fresh(config).next_cluster_id == 1,
        StateView::fresh(config).root.cluster_ids.len() == 0,
        !StateView::fresh(config).root.key_to_child.contains_key(k),
{
}

/// A model is rebuilt by putting its clusters into the tree one after the other, each by its
/// template. Its next id is one more than the greatest, or 1.
pub proof fn law_rebuilding(config: ConfigView, clusters: Seq<ClusterView>, last: ClusterView)
    ensures
        StateView::rebuilt(config, clusters).config == config,
        StateView::rebuilt(config, clusters).clusters == clusters,
        StateView::rebuilt(config, Seq::empty()) == StateView::fresh(config),
        StateView::rebuilt(config, clusters.push(last)).root == tree_with_cluster(
            StateView::rebuilt(config, clusters).root,
            last.template_tokens,
            config,
            clusters.len(),
        ),
        clusters.len() > 0 ==> exists|i: int|
            0 <= i < clusters.len() && (#[trigger] clusters[i]).cluster_id + 1
                == StateView::rebuilt(config, clusters).next_cluster_id,
        forall|i: int|
            0 <= i < clusters.len() ==> (#[trigger] clusters[i]).cluster_id < StateView::rebuilt(
                config,
                clusters,
            ).next_cluster_id,
{
    assert(clusters.push(last).drop_last() =~= clusters);
    lemma_greatest_is_one(clusters);
    assert(StateView::rebuilt(config, Seq::empty()) =~= StateView::fresh(config));
}

proof fn lemma_greatest_is_one(clusters: Seq<ClusterView>)
    ensures
        forall|i: int|
            0 <= i < clusters.len() ==> (#[trigger] clusters[i]).cluster_id
                <= crate::drain::greatest_id(clusters),
        clusters.len() > 0 ==> exists|i: int|
            0 <= i < clusters.len() && (#[trigger] clusters[i]).cluster_id
                == crate::drain::greatest_id(clusters),
    decreases clusters.len(),
{
    if clusters.len() > 0 {
        let rest = clusters.drop_last();
        let last = clusters.len() - 1;
        lemma_greatest_is_one(rest);
        assert forall|i: int| 0 <= i < clusters.len() implies (#[trigger] clusters[i]).cluster_id
            <= crate::drain::greatest_id(clusters) by {
            if i < last {
                assert(rest[i] == clusters[i]);
            }
        }
        if clusters[last].cluster_id != crate::drain::greatest_id(clusters) {
            let i = choose|i: int|
                0 <= i < rest.len() && (#[trigger] rest[i]).cluster_id
                    == crate::drain::greatest_id(rest);
            assert(clusters[i].cluster_id == crate::drain::greatest_id(clusters));
        } else {
            assert(clusters[last].cluster_id == crate::drain::greatest_id(clusters));
        }
    }
}

/// What a model is like in which nothing was set.
pub proof fn law_defaults()
    ensures
        default_config().depth == 4,
        default_config().sim_th.bits == ratio_bits(2, 5),
        default_config().max_children == 100,
        default_config().max_clusters == 1024,
        default_config().param_str == seq!['<', '*', '>'],
        default_config().parametrize_numeric_tokens,
        default_config().extra_delimiters.len() == 0,
        default_config().delimiters.len() == 0,
{
    crate::types::law_default_threshold();
    reveal_strlit("<*>");
    assert("<*>"@ =~= seq!['<', '*', '>']);
}

} // verus!
