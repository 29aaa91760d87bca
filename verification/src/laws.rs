//! What holds of every model: its invariant, and what learning does to matching.
use vstd::prelude::*;
use crate::drain::{
    best_of, covers_token, greatest_id, match_count, merged, seq_similarity, tree_of,
};
use crate::similarity::{
    at_least, is_number, law_lower_threshold, law_ratio_never_decreases, law_ratio_range,
    law_ratio_strictly_increases, rank, Similarity, ONE, UNIT,
};
use crate::text::decimal;
use crate::tree::{
    child_or_new, leaf, leaf_below, routed_key, shifted, tree_with_cluster, with_cluster,
    without_oldest,
};
use crate::types::{empty_node, ClusterView, ConfigView, NodeView, StateView, MAX_EXAMPLES};

verus! {

// ---------------------------------------------------------------------------------------------
// Similarity of templates and messages
// ---------------------------------------------------------------------------------------------

/// Whether a template covers a message: same length, and covered at every position.
pub open spec fn covers(
    template: Seq<Seq<char>>,
    tokens: Seq<Seq<char>>,
    param: Seq<char>,
) -> bool {
    &&& template.len() == tokens.len()
    &&& forall|i: int|
        0 <= i < template.len() ==> covers_token(#[trigger] template[i], tokens[i], param)
}

proof fn lemma_match_count(template: Seq<Seq<char>>, tokens: Seq<Seq<char>>, param: Seq<char>)
    requires
        template.len() == tokens.len(),
    ensures
        match_count(template, tokens, param) <= template.len(),
        match_count(template, tokens, param) == template.len() <==> covers(
            template,
            tokens,
            param,
        ),
    decreases template.len(),
{
    if template.len() > 0 {
        let t = template.drop_last();
        let m = tokens.drop_last();
        lemma_match_count(t, m, param);
        if covers(template, tokens, param) {
            assert forall|i: int| 0 <= i < t.len() implies covers_token(
                #[trigger] t[i],
                m[i],
                param,
            ) by {
                assert(covers_token(template[i], tokens[i], param));
            }
            assert(covers_token(template.last(), tokens.last(), param));
        }
        if covers(t, m, param) && covers_token(template.last(), tokens.last(), param) {
            assert forall|i: int| 0 <= i < template.len() implies covers_token(
                #[trigger] template[i],
                tokens[i],
                param,
            ) by {
                if i < t.len() {
                    assert(covers_token(t[i], m[i], param));
                }
            }
        }
    }
}

/// A similarity lies between 0 and 1, is 0 for different lengths, and is 1 for a template that
/// covers the message.
pub proof fn law_similarity_range(
    template: Seq<Seq<char>>,
    tokens: Seq<Seq<char>>,
    param: Seq<char>,
)
    requires
        template.len() <= u64::MAX,
    ensures
        seq_similarity(template, tokens, param).bits <= ONE,
        template.len() != tokens.len() ==> seq_similarity(template, tokens, param).bits == 0,
        covers(template, tokens, param) && tokens.len() > 0 ==> seq_similarity(
            template,
            tokens,
            param,
        ).bits == ONE,
{
    if template.len() == tokens.len() {
        lemma_match_count(template, tokens, param);
        law_ratio_range(match_count(template, tokens, param), template.len());
    }
}

/// Full similarity means that the template covers the message, as long as it has fewer than 2 to
/// the power 53 tokens: beyond that, a ratio below 1 may round to 1.
pub proof fn law_full_similarity_covers(
    template: Seq<Seq<char>>,
    tokens: Seq<Seq<char>>,
    param: Seq<char>,
)
    requires
        template.len() < 2 * UNIT,
        seq_similarity(template, tokens, param).bits == ONE,
    ensures
        covers(template, tokens, param),
{
    lemma_match_count(template, tokens, param);
    let part = match_count(template, tokens, param);
    law_ratio_range(part, template.len());
    if part < template.len() {
        law_ratio_range(template.len(), template.len());
        law_ratio_strictly_increases(part, template.len(), template.len());
    }
}

/// A merged template covers both of the sequences that it was merged from.
pub proof fn law_merged_covers_both(a: Seq<Seq<char>>, b: Seq<Seq<char>>, param: Seq<char>)
    requires
        a.len() == b.len(),
    ensures
        covers(merged(a, b, param), a, param),
        covers(merged(a, b, param), b, param),
{
}

/// A template keeps covering what it covered: merging only makes it more general.
pub proof fn law_merged_keeps_cover(
    template: Seq<Seq<char>>,
    tokens: Seq<Seq<char>>,
    earlier: Seq<Seq<char>>,
    param: Seq<char>,
)
    requires
        template.len() == tokens.len(),
        covers(template, earlier, param),
    ensures
        covers(merged(template, tokens, param), earlier, param),
{
    let m = merged(template, tokens, param);
    assert forall|i: int| 0 <= i < m.len() implies covers_token(
        #[trigger] m[i],
        earlier[i],
        param,
    ) by {
        assert(covers_token(template[i], earlier[i], param));
    }
}

/// Merging a message into a template that covers it changes nothing.
pub proof fn law_merged_stable(
    template: Seq<Seq<char>>,
    tokens: Seq<Seq<char>>,
    param: Seq<char>,
)
    requires
        covers(template, tokens, param),
    ensures
        merged(template, tokens, param) == template,
{
    let m = merged(template, tokens, param);
    assert forall|i: int| 0 <= i < m.len() implies m[i] == template[i] by {
        assert(covers_token(template[i], tokens[i], param));
    }
    assert(m =~= template);
}

proof fn lemma_merged_count(
    a: Seq<Seq<char>>,
    b: Seq<Seq<char>>,
    tokens: Seq<Seq<char>>,
    param: Seq<char>,
)
    requires
        a.len() == b.len() == tokens.len(),
    ensures
        match_count(a, tokens, param) <= match_count(merged(a, b, param), tokens, param),
    decreases a.len(),
{
    if a.len() > 0 {
        lemma_merged_count(a.drop_last(), b.drop_last(), tokens.drop_last(), param);
        assert(merged(a, b, param).drop_last() =~= merged(a.drop_last(), b.drop_last(), param));
    }
}

/// Merging only makes a template more general: it is fully similar to both sources, and no
/// message is less similar to it than to the template that it was merged from.
pub proof fn law_merging_generalizes(
    a: Seq<Seq<char>>,
    b: Seq<Seq<char>>,
    tokens: Seq<Seq<char>>,
    param: Seq<char>,
)
    requires
        a.len() == b.len() <= u64::MAX,
    ensures
        a.len() > 0 ==> seq_similarity(merged(a, b, param), a, param).bits == ONE,
        a.len() > 0 ==> seq_similarity(merged(a, b, param), b, param).bits == ONE,
        seq_similarity(a, tokens, param).bits <= seq_similarity(
            merged(a, b, param),
            tokens,
            param,
        ).bits,
{
    let m = merged(a, b, param);
    law_merged_covers_both(a, b, param);
    law_similarity_range(m, a, param);
    law_similarity_range(m, b, param);
    if a.len() == tokens.len() {
        lemma_merged_count(a, b, tokens, param);
        lemma_match_count(a, tokens, param);
        lemma_match_count(m, tokens, param);
        let part = match_count(a, tokens, param);
        let more = match_count(m, tokens, param);
        law_ratio_range(part, a.len());
        law_ratio_range(more, a.len());
        law_ratio_never_decreases(part, more, a.len());
    }
}

// ---------------------------------------------------------------------------------------------
// The best candidate
// ---------------------------------------------------------------------------------------------

/// The bits of a candidate's similarity.
pub open spec fn candidate_bits(
    clusters: Seq<ClusterView>,
    id: nat,
    tokens: Seq<Seq<char>>,
    param: Seq<char>,
) -> u64 {
    seq_similarity(clusters[id as int].template_tokens, tokens, param).bits
}

/// The position of the best candidate: a cluster, more similar than all before it, and no less
/// than any.
pub open spec fn best_position(
    clusters: Seq<ClusterView>,
    ids: Seq<nat>,
    tokens: Seq<Seq<char>>,
    param: Seq<char>,
    p: int,
) -> bool {
    &&& 0 <= p < ids.len()
    &&& ids[p] < clusters.len()
    &&& forall|i: int|
        0 <= i < p && (#[trigger] ids[i]) < clusters.len() ==> candidate_bits(
            clusters,
            ids[i],
            tokens,
            param,
        ) < candidate_bits(clusters, ids[p], tokens, param)
    &&& forall|i: int|
        0 <= i < ids.len() && (#[trigger] ids[i]) < clusters.len() ==> candidate_bits(
            clusters,
            ids[i],
            tokens,
            param,
        ) <= candidate_bits(clusters, ids[p], tokens, param)
}

/// The best candidate is a cluster whose similarity that of no candidate exceeds, and the first
/// such. There is none only if no index is that of a cluster.
pub proof fn law_best_candidate(
    clusters: Seq<ClusterView>,
    ids: Seq<nat>,
    tokens: Seq<Seq<char>>,
    param: Seq<char>,
)
    ensures
        match best_of(clusters, ids, tokens, param) {
            Some((id, sim)) => {
                &&& id < clusters.len()
                &&& sim == seq_similarity(clusters[id as int].template_tokens, tokens, param)
                &&& exists|p: int|
                    best_position(clusters, ids, tokens, param, p) && ids[p] == id
            },
            None => forall|i: int| 0 <= i < ids.len() ==> (#[trigger] ids[i]) >= clusters.len(),
        },
    decreases ids.len(),
{
    if ids.len() > 0 {
        let rest = ids.drop_last();
        law_best_candidate(clusters, rest, tokens, param);
        let last = ids.len() - 1;
        assert forall|i: int| 0 <= i < last implies #[trigger] ids[i] == rest[i] by {}
        match best_of(clusters, rest, tokens, param) {
            Some((id, _)) => {
                let p = choose|p: int|
                    best_position(clusters, rest, tokens, param, p) && rest[p] == id;
                assert(ids[p] == rest[p]);
                if best_of(clusters, ids, tokens, param) == best_of(
                    clusters,
                    rest,
                    tokens,
                    param,
                ) {
                    assert(best_position(clusters, ids, tokens, param, p));
                } else {
                    assert(best_position(clusters, ids, tokens, param, last));
                }
            },
            None => {
                if ids[last] < clusters.len() {
                    assert(best_position(clusters, ids, tokens, param, last));
                }
            },
        }
    }
}

/// No candidate is more similar than the best one.
proof fn lemma_no_better(
    clusters: Seq<ClusterView>,
    ids: Seq<nat>,
    tokens: Seq<Seq<char>>,
    param: Seq<char>,
    i: int,
)
    requires
        0 <= i < ids.len(),
        ids[i] < clusters.len(),
    ensures
        best_of(clusters, ids, tokens, param) matches Some((_, sim)) && candidate_bits(
            clusters,
            ids[i],
            tokens,
            param,
        ) <= sim.bits,
{
    law_best_candidate(clusters, ids, tokens, param);
    match best_of(clusters, ids, tokens, param) {
        Some((id, _)) => {
            let p = choose|p: int| best_position(clusters, ids, tokens, param, p) && ids[p] == id;
            assert(candidate_bits(clusters, ids[i], tokens, param) <= candidate_bits(
                clusters,
                ids[p],
                tokens,
                param,
            ));
        },
        None => {},
    }
}

// ---------------------------------------------------------------------------------------------
// The invariant
// ---------------------------------------------------------------------------------------------

/// A subtree that holds, over at most `levels` levels, only clusters whose token count has the
/// numeral `key`, and none of whose nodes has too many children. The wildcard's child does not
/// count.
pub open spec fn subtree_valid(
    node: NodeView,
    levels: nat,
    config: ConfigView,
    clusters: Seq<ClusterView>,
    key: Seq<char>,
) -> bool
    decreases levels,
{
    &&& node.key_to_child.dom().finite()
    &&& node.key_to_child.dom().remove(config.param_str).len() <= config.max_children
    &&& forall|i: int|
        0 <= i < node.cluster_ids.len() ==> {
            &&& (#[trigger] node.cluster_ids[i]) < clusters.len()
            &&& decimal(clusters[node.cluster_ids[i] as int].template_tokens.len()) == key
        }
    &&& forall|k: Seq<char>| #[trigger]
        node.key_to_child.contains_key(k) ==> levels > 0 && subtree_valid(
            node.key_to_child[k],
            (levels - 1) as nat,
            config,
            clusters,
            key,
        )
}

/// A tree whose branches each hold clusters of one token count, and no index of no cluster.
pub open spec fn tree_valid(
    root: NodeView,
    config: ConfigView,
    clusters: Seq<ClusterView>,
) -> bool {
    &&& root.key_to_child.dom().finite()
    &&& root.cluster_ids.len() == 0
    &&& forall|k: Seq<char>| #[trigger]
        root.key_to_child.contains_key(k) ==> subtree_valid(
            root.key_to_child[k],
            config.levels(),
            config,
            clusters,
            k,
        )
}

impl ClusterView {
    /// A cluster that holds messages, and examples of them, few and pairwise different.
    pub open spec fn valid(self) -> bool {
        &&& self.size >= 1
        &&& self.examples.len() <= MAX_EXAMPLES
        &&& self.examples.no_duplicates()
    }
}

/// Clusters that are valid, and no two of which have one id.
pub open spec fn clusters_valid(clusters: Seq<ClusterView>) -> bool {
    &&& forall|i: int| 0 <= i < clusters.len() ==> (#[trigger] clusters[i]).valid()
    &&& forall|i: int, j: int|
        0 <= i < j < clusters.len() ==> (#[trigger] clusters[i]).cluster_id != (
        #[trigger] clusters[j]).cluster_id
}

impl StateView {
    /// The invariant of a model.
    pub open spec fn valid(self) -> bool {
        &&& tree_valid(self.root, self.config, self.clusters)
        &&& clusters_valid(self.clusters)
        &&& forall|i: int|
            0 <= i < self.clusters.len() ==> (#[trigger] self.clusters[i]).cluster_id
                < self.next_cluster_id
    }
}

/// Whether every cluster of `before` is in `after` at the same index, with a template of the
/// same length.
spec fn keeps_lengths(before: Seq<ClusterView>, after: Seq<ClusterView>) -> bool {
    &&& before.len() <= after.len()
    &&& forall|i: int|
        0 <= i < before.len() ==> (#[trigger] before[i]).template_tokens.len()
            == after[i].template_tokens.len()
}

proof fn lemma_subtree_keeps_lengths(
    node: NodeView,
    levels: nat,
    config: ConfigView,
    before: Seq<ClusterView>,
    after: Seq<ClusterView>,
    key: Seq<char>,
)
    requires
        subtree_valid(node, levels, config, before, key),
        keeps_lengths(before, after),
    ensures
        subtree_valid(node, levels, config, after, key),
    decreases levels,
{
    assert forall|i: int| 0 <= i < node.cluster_ids.len() implies {
        &&& (#[trigger] node.cluster_ids[i]) < after.len()
        &&& decimal(after[node.cluster_ids[i] as int].template_tokens.len()) == key
    } by {
        assert(before[node.cluster_ids[i] as int].template_tokens.len()
            == after[node.cluster_ids[i] as int].template_tokens.len());
    }
    assert forall|k: Seq<char>| #[trigger] node.key_to_child.contains_key(k) implies levels > 0
        && subtree_valid(
        node.key_to_child[k],
        (levels - 1) as nat,
        config,
        after,
        key,
    ) by {
        lemma_subtree_keeps_lengths(
            node.key_to_child[k],
            (levels - 1) as nat,
            config,
            before,
            after,
            key,
        );
    }
}

proof fn lemma_tree_keeps_lengths(
    root: NodeView,
    config: ConfigView,
    before: Seq<ClusterView>,
    after: Seq<ClusterView>,
)
    requires
        tree_valid(root, config, before),
        keeps_lengths(before, after),
    ensures
        tree_valid(root, config, after),
{
    assert forall|k: Seq<char>| #[trigger] root.key_to_child.contains_key(k) implies subtree_valid(
        root.key_to_child[k],
        config.levels(),
        config,
        after,
        k,
    ) by {
        lemma_subtree_keeps_lengths(
            root.key_to_child[k],
            config.levels(),
            config,
            before,
            after,
            k,
        );
    }
}

proof fn lemma_empty_subtree_valid(
    levels: nat,
    config: ConfigView,
    clusters: Seq<ClusterView>,
    key: Seq<char>,
)
    ensures
        subtree_valid(empty_node(), levels, config, clusters, key),
{
    let dom = empty_node().key_to_child.dom();
    assert(dom =~= Set::empty());
    assert(dom.remove(config.param_str) =~= Set::empty());
}

proof fn lemma_with_cluster_valid(
    node: NodeView,
    tokens: Seq<Seq<char>>,
    levels: nat,
    config: ConfigView,
    clusters: Seq<ClusterView>,
    key: Seq<char>,
    id: nat,
)
    requires
        subtree_valid(node, levels, config, clusters, key),
        id < clusters.len(),
        decimal(clusters[id as int].template_tokens.len()) == key,
    ensures
        subtree_valid(
            with_cluster(node, tokens, levels, config, id),
            levels,
            config,
            clusters,
            key,
        ),
    decreases levels,
{
    let after = with_cluster(node, tokens, levels, config, id);
    if levels == 0 || tokens.len() == 0 {
        assert forall|i: int| 0 <= i < after.cluster_ids.len() implies {
            &&& (#[trigger] after.cluster_ids[i]) < clusters.len()
            &&& decimal(clusters[after.cluster_ids[i] as int].template_tokens.len()) == key
        } by {
            if i < node.cluster_ids.len() {
                assert(after.cluster_ids[i] == node.cluster_ids[i]);
            }
        }
        assert forall|k: Seq<char>| #[trigger] after.key_to_child.contains_key(k) implies levels > 0
            && subtree_valid(
            after.key_to_child[k],
            (levels - 1) as nat,
            config,
            clusters,
            key,
        ) by {
            assert(node.key_to_child.contains_key(k));
        }
    } else {
        let branch = routed_key(node, tokens[0], config);
        let below = (levels - 1) as nat;
        lemma_empty_subtree_valid(below, config, clusters, key);
        lemma_with_cluster_valid(
            child_or_new(node, branch),
            tokens.skip(1),
            below,
            config,
            clusters,
            key,
            id,
        );
        let dom = node.key_to_child.dom();
        let param = config.param_str;
        assert(after.key_to_child.dom() =~= dom.insert(branch));
        if dom.contains(branch) {
            assert(dom.insert(branch) =~= dom);
        } else if branch == param {
            assert(dom.insert(branch).remove(param) =~= dom.remove(param));
        } else {
            assert(dom.insert(branch).remove(param) =~= dom.remove(param).insert(branch));
            assert(dom.remove(param).len() <= dom.len());
        }
        assert forall|k: Seq<char>| #[trigger] after.key_to_child.contains_key(k) implies levels > 0
            && subtree_valid(after.key_to_child[k], below, config, clusters, key) by {
            if k != branch {
                assert(node.key_to_child.contains_key(k));
            }
        }
        assert(after.cluster_ids == node.cluster_ids);
    }
}

proof fn lemma_tree_with_cluster_valid(
    root: NodeView,
    config: ConfigView,
    clusters: Seq<ClusterView>,
    id: nat,
)
    requires
        tree_valid(root, config, clusters),
        id < clusters.len(),
    ensures
        tree_valid(
            tree_with_cluster(root, clusters[id as int].template_tokens, config, id),
            config,
            clusters,
        ),
{
    let tokens = clusters[id as int].template_tokens;
    let key = decimal(tokens.len());
    let after = tree_with_cluster(root, tokens, config, id);
    lemma_empty_subtree_valid(config.levels(), config, clusters, key);
    lemma_with_cluster_valid(
        child_or_new(root, key),
        tokens,
        config.levels(),
        config,
        clusters,
        key,
        id,
    );
    assert(after.key_to_child.dom() =~= root.key_to_child.dom().insert(key));
    assert forall|k: Seq<char>| #[trigger] after.key_to_child.contains_key(k) implies subtree_valid(
        after.key_to_child[k],
        config.levels(),
        config,
        clusters,
        k,
    ) by {
        if k != key {
            assert(root.key_to_child.contains_key(k));
        }
    }
}

/// What is left of indices after an eviction.
proof fn lemma_shifted(ids: Seq<nat>, d: nat, i: int)
    requires
        0 <= i < shifted(ids, d).len(),
    ensures
        exists|j: int| 0 <= j < ids.len() && #[trigger] ids[j] == shifted(ids, d)[i] + d,
    decreases ids.len(),
{
    if ids.len() > 0 {
        let rest = ids.drop_last();
        if i < shifted(rest, d).len() {
            lemma_shifted(rest, d, i);
            let j = choose|j: int|
                0 <= j < rest.len() && #[trigger] rest[j] == shifted(rest, d)[i] + d;
            assert(ids[j] == shifted(ids, d)[i] + d);
        } else {
            assert(ids[ids.len() - 1] == shifted(ids, d)[i] + d);
        }
    }
}

proof fn lemma_without_oldest_valid(
    node: NodeView,
    levels: nat,
    config: ConfigView,
    clusters: Seq<ClusterView>,
    key: Seq<char>,
    d: nat,
)
    requires
        subtree_valid(node, levels, config, clusters, key),
        d <= clusters.len(),
    ensures
        subtree_valid(without_oldest(node, d), levels, config, clusters.skip(d as int), key),
    decreases levels,
{
    let after = without_oldest(node, d);
    let kept = clusters.skip(d as int);
    assert(after.key_to_child.dom() =~= node.key_to_child.dom());
    assert forall|i: int| 0 <= i < after.cluster_ids.len() implies {
        &&& (#[trigger] after.cluster_ids[i]) < kept.len()
        &&& decimal(kept[after.cluster_ids[i] as int].template_tokens.len()) == key
    } by {
        lemma_shifted(node.cluster_ids, d, i);
        let j = choose|j: int|
            0 <= j < node.cluster_ids.len() && #[trigger] node.cluster_ids[j]
                == after.cluster_ids[i] + d;
        assert(node.cluster_ids[j] < clusters.len());
    }
    assert forall|k: Seq<char>| #[trigger] after.key_to_child.contains_key(k) implies levels > 0
        && subtree_valid(after.key_to_child[k], (levels - 1) as nat, config, kept, key) by {
        assert(node.key_to_child.contains_key(k));
        lemma_without_oldest_valid(
            node.key_to_child[k],
            (levels - 1) as nat,
            config,
            clusters,
            key,
            d,
        );
    }
}

proof fn lemma_evicted_tree_valid(state: StateView)
    requires
        tree_valid(state.root, state.config, state.clusters),
    ensures
        tree_valid(state.evicted().root, state.config, state.evicted().clusters),
{
    if state.clusters.len() > state.config.max_clusters {
        let d = (state.clusters.len() - state.config.max_clusters) as nat;
        let after = state.evicted();
        assert(after.root.key_to_child.dom() =~= state.root.key_to_child.dom());
        assert(after.root.cluster_ids =~= Seq::empty());
        assert forall|k: Seq<char>| #[trigger]
            after.root.key_to_child.contains_key(k) implies subtree_valid(
            after.root.key_to_child[k],
            after.config.levels(),
            after.config,
            after.clusters,
            k,
        ) by {
            assert(state.root.key_to_child.contains_key(k));
            lemma_without_oldest_valid(
                state.root.key_to_child[k],
                state.config.levels(),
                state.config,
                state.clusters,
                k,
                d,
            );
        }
    }
}

/// A model starts valid.
pub proof fn law_fresh_valid(config: ConfigView)
    ensures
        StateView::fresh(config).valid(),
{
    assert(empty_node().key_to_child.dom() =~= Set::empty());
}

/// A found cluster is one of the model's.
proof fn lemma_found(state: StateView, tokens: Seq<Seq<char>>)
    ensures
        state.found(tokens) matches Some((id, sim)) ==> id < state.clusters.len(),
{
    match leaf(state.root, tokens, state.config) {
        Some(node) => {
            law_best_candidate(
                state.clusters,
                node.cluster_ids,
                tokens,
                state.config.param_str,
            );
        },
        None => {},
    }
}

/// A search ends among clusters of the model that have the branch's token count.
proof fn lemma_leaf_ids_valid(
    node: NodeView,
    tokens: Seq<Seq<char>>,
    levels: nat,
    config: ConfigView,
    clusters: Seq<ClusterView>,
    key: Seq<char>,
)
    requires
        subtree_valid(node, levels, config, clusters, key),
    ensures
        leaf_below(node, tokens, levels, config) matches Some(n) ==> forall|i: int|
            0 <= i < n.cluster_ids.len() ==> {
                &&& (#[trigger] n.cluster_ids[i]) < clusters.len()
                &&& decimal(clusters[n.cluster_ids[i] as int].template_tokens.len()) == key
            },
    decreases levels,
{
    if levels > 0 && tokens.len() > 0 {
        if node.key_to_child.contains_key(tokens[0]) {
            lemma_leaf_ids_valid(
                node.key_to_child[tokens[0]],
                tokens.skip(1),
                (levels - 1) as nat,
                config,
                clusters,
                key,
            );
        } else if node.key_to_child.contains_key(config.param_str) {
            lemma_leaf_ids_valid(
                node.key_to_child[config.param_str],
                tokens.skip(1),
                (levels - 1) as nat,
                config,
                clusters,
                key,
            );
        }
    }
}

/// The template of a found cluster has the message's length.
pub proof fn law_found_has_length(state: StateView, tokens: Seq<Seq<char>>)
    requires
        tree_valid(state.root, state.config, state.clusters),
    ensures
        state.found(tokens) matches Some((id, sim)) ==> id < state.clusters.len()
            && state.clusters[id as int].template_tokens.len() == tokens.len(),
{
    if let Some((id, _)) = state.found(tokens) {
        let key = decimal(tokens.len());
        let ids = leaf(state.root, tokens, state.config)->0.cluster_ids;
        let param = state.config.param_str;
        law_best_candidate(state.clusters, ids, tokens, param);
        let p = choose|p: int|
            best_position(state.clusters, ids, tokens, param, p) && ids[p] == id;
        lemma_leaf_ids_valid(
            state.root.key_to_child[key],
            tokens,
            state.config.levels(),
            state.config,
            state.clusters,
            key,
        );
        assert(decimal(state.clusters[ids[p] as int].template_tokens.len()) == key);
        law_numerals_differ(state.clusters[id as int].template_tokens.len(), tokens.len());
    }
}

/// Learning keeps the tree valid: every index in it is that of a cluster, under the cluster's
/// token count; no node has too many children, and none is too deep.
pub proof fn law_fed_tree_valid(state: StateView, content: Seq<char>)
    requires
        tree_valid(state.root, state.config, state.clusters),
    ensures
        ({
            let after = state.fed(content).0;
            tree_valid(after.root, after.config, after.clusters)
        }),
{
    let tokens = state.config.tokens(content);
    law_found_has_length(state, tokens);
    if tokens.len() > 0 {
        let after = match state.found(tokens) {
            Some((id, _)) => state.updated(id, tokens, content),
            None => state.extended(tokens, content),
        };
        assert(keeps_lengths(state.clusters, after.clusters));
        lemma_tree_keeps_lengths(state.root, state.config, state.clusters, after.clusters);
        if state.found(tokens) is None {
            let n = state.clusters.len();
            assert(after.clusters[n as int].template_tokens == tokens);
            lemma_tree_with_cluster_valid(state.root, state.config, after.clusters, n);
            lemma_evicted_tree_valid(after);
        }
    }
}

/// Learning keeps a model valid: besides its tree, ids stay pairwise different and below the
/// next one, and examples few and pairwise different.
pub proof fn law_fed_valid(state: StateView, content: Seq<char>)
    requires
        state.valid(),
    ensures
        state.fed(content).0.valid(),
{
    let tokens = state.config.tokens(content);
    law_fed_tree_valid(state, content);
    lemma_found(state, tokens);
    if tokens.len() > 0 {
        let after = state.fed(content).0;
        match state.found(tokens) {
            Some((id, _)) => {
                let old_cluster = state.clusters[id as int];
                let new_cluster = after.clusters[id as int];
                assert(old_cluster.valid());
                assert(new_cluster.valid()) by {
                    if old_cluster.examples.len() < MAX_EXAMPLES
                        && !old_cluster.examples.contains(content) {
                        assert(new_cluster.examples =~= old_cluster.examples.push(content));
                    }
                }
                assert forall|i: int| 0 <= i < after.clusters.len() implies {
                    &&& (#[trigger] after.clusters[i]).valid()
                    &&& after.clusters[i].cluster_id < after.next_cluster_id
                } by {
                    assert(state.clusters[i].valid());
                }
                assert forall|i: int, j: int| 0 <= i < j < after.clusters.len() implies (
                #[trigger] after.clusters[i]).cluster_id != (
                #[trigger] after.clusters[j]).cluster_id by {
                    assert(state.clusters[i].cluster_id != state.clusters[j].cluster_id);
                }
            },
            None => {
                let n = state.clusters.len();
                let grown = state.extended(tokens, content).clusters;
                let d = grown.len() - after.clusters.len();
                assert forall|i: int| 0 <= i < after.clusters.len() implies {
                    &&& (#[trigger] after.clusters[i]).valid()
                    &&& after.clusters[i].cluster_id < after.next_cluster_id
                } by {
                    assert(after.clusters[i] == grown[i + d]);
                    if i + d < n {
                        assert(grown[i + d] == state.clusters[i + d]);
                    }
                }
                assert forall|i: int, j: int| 0 <= i < j < after.clusters.len() implies (
                #[trigger] after.clusters[i]).cluster_id != (
                #[trigger] after.clusters[j]).cluster_id by {
                    assert(after.clusters[i] == state.clusters[i + d]);
                    if j + d < n {
                        assert(after.clusters[j] == state.clusters[j + d]);
                    }
                }
            },
        }
    }
}

proof fn lemma_greatest_id(clusters: Seq<ClusterView>, i: int)
    requires
        0 <= i < clusters.len(),
    ensures
        clusters[i].cluster_id <= greatest_id(clusters),
    decreases clusters.len(),
{
    if i < clusters.len() - 1 {
        lemma_greatest_id(clusters.drop_last(), i);
    }
}

proof fn lemma_tree_of_valid(clusters: Seq<ClusterView>, config: ConfigView)
    ensures
        tree_valid(tree_of(clusters, config), config, clusters),
    decreases clusters.len(),
{
    if clusters.len() == 0 {
        assert(empty_node().key_to_child.dom() =~= Set::empty());
    } else {
        let rest = clusters.drop_last();
        lemma_tree_of_valid(rest, config);
        assert(keeps_lengths(rest, clusters));
        lemma_tree_keeps_lengths(tree_of(rest, config), config, rest, clusters);
        lemma_tree_with_cluster_valid(
            tree_of(rest, config),
            config,
            clusters,
            (clusters.len() - 1) as nat,
        );
    }
}

/// A model rebuilt from any clusters has a valid tree, keeps to its limit, and has the youngest
/// of the clusters. Its next id is greater than that of any given cluster.
pub proof fn law_rebuilt_tree_valid(config: ConfigView, clusters: Seq<ClusterView>)
    ensures
        ({
            let state = StateView::rebuilt(config, clusters).evicted();
            &&& tree_valid(state.root, config, state.clusters)
            &&& state.clusters.len() <= config.max_clusters
            &&& state.clusters.is_suffix_of(clusters)
            &&& state.clusters.len() == clusters.len() || state.clusters.len()
                == config.max_clusters
            &&& forall|i: int|
                0 <= i < clusters.len() ==> (#[trigger] clusters[i]).cluster_id
                    < state.next_cluster_id
        }),
{
    let all = StateView::rebuilt(config, clusters);
    let state = all.evicted();
    lemma_tree_of_valid(clusters, config);
    lemma_evicted_tree_valid(all);
    assert(clusters.skip(0) =~= clusters);
    assert(state.clusters =~= clusters.skip(clusters.len() - state.clusters.len()));
    assert forall|i: int| 0 <= i < clusters.len() implies (#[trigger] clusters[i]).cluster_id
        < state.next_cluster_id by {
        lemma_greatest_id(clusters, i);
    }
}

/// A model rebuilt from valid clusters is valid.
pub proof fn law_rebuilt_valid(config: ConfigView, clusters: Seq<ClusterView>)
    requires
        clusters_valid(clusters),
    ensures
        StateView::rebuilt(config, clusters).evicted().valid(),
{
    law_rebuilt_tree_valid(config, clusters);
    let after = StateView::rebuilt(config, clusters).evicted();
    let d = clusters.len() - after.clusters.len();
    assert forall|i: int| 0 <= i < after.clusters.len() implies #[trigger] after.clusters[i]
        == clusters[i + d] by {}
}

// ---------------------------------------------------------------------------------------------
// Places in the tree
// ---------------------------------------------------------------------------------------------

/// Whether cluster `id` stands at the place for `tokens`, to which every search for them leads,
/// whatever clusters are added.
pub open spec fn placed_below(
    node: NodeView,
    tokens: Seq<Seq<char>>,
    levels: nat,
    config: ConfigView,
    id: nat,
) -> bool
    decreases levels,
{
    if levels == 0 || tokens.len() == 0 {
        node.cluster_ids.contains(id)
    } else if node.key_to_child.contains_key(tokens[0]) {
        placed_below(
            node.key_to_child[tokens[0]],
            tokens.skip(1),
            (levels - 1) as nat,
            config,
            id,
        )
    } else {
        &&& node.key_to_child.len() >= config.max_children
        &&& node.key_to_child.contains_key(config.param_str)
        &&& placed_below(
            node.key_to_child[config.param_str],
            tokens.skip(1),
            (levels - 1) as nat,
            config,
            id,
        )
    }
}

/// Whether cluster `id` stands at the place for `tokens` in the tree.
pub open spec fn placed(
    root: NodeView,
    tokens: Seq<Seq<char>>,
    config: ConfigView,
    id: nat,
) -> bool {
    let key = decimal(tokens.len());
    &&& root.key_to_child.contains_key(key)
    &&& placed_below(root.key_to_child[key], tokens, config.levels(), config, id)
}

/// A search leads to what is placed.
proof fn lemma_placed_found_below(
    node: NodeView,
    tokens: Seq<Seq<char>>,
    levels: nat,
    config: ConfigView,
    id: nat,
)
    requires
        placed_below(node, tokens, levels, config, id),
    ensures
        leaf_below(node, tokens, levels, config) matches Some(n) && n.cluster_ids.contains(id),
    decreases levels,
{
    if levels > 0 && tokens.len() > 0 {
        let key = if node.key_to_child.contains_key(tokens[0]) {
            tokens[0]
        } else {
            config.param_str
        };
        lemma_placed_found_below(
            node.key_to_child[key],
            tokens.skip(1),
            (levels - 1) as nat,
            config,
            id,
        );
    }
}

/// What is placed stays placed when another cluster is added.
proof fn lemma_placed_stays_below(
    node: NodeView,
    tokens: Seq<Seq<char>>,
    levels: nat,
    config: ConfigView,
    id: nat,
    other_tokens: Seq<Seq<char>>,
    other: nat,
)
    requires
        placed_below(node, tokens, levels, config, id),
        subtree_finite(node, levels),
        tokens.len() == other_tokens.len(),
    ensures
        placed_below(
            with_cluster(node, other_tokens, levels, config, other),
            tokens,
            levels,
            config,
            id,
        ),
    decreases levels,
{
    let after = with_cluster(node, other_tokens, levels, config, other);
    if levels == 0 || tokens.len() == 0 {
        let p = choose|p: int| 0 <= p < node.cluster_ids.len() && node.cluster_ids[p] == id;
        assert(after.cluster_ids[p] == id);
    } else {
        let branch = routed_key(node, other_tokens[0], config);
        let dom = node.key_to_child.dom();
        assert(after.key_to_child.dom() =~= dom.insert(branch));
        let key = if dom.contains(tokens[0]) {
            tokens[0]
        } else {
            config.param_str
        };
        if key == branch {
            lemma_placed_stays_below(
                node.key_to_child[key],
                tokens.skip(1),
                (levels - 1) as nat,
                config,
                id,
                other_tokens.skip(1),
                other,
            );
        }
    }
}

/// No node of a subtree has infinitely many children.
pub open spec fn subtree_finite(node: NodeView, levels: nat) -> bool
    decreases levels,
{
    &&& node.key_to_child.dom().finite()
    &&& levels > 0 ==> forall|k: Seq<char>| #[trigger]
        node.key_to_child.contains_key(k) ==> subtree_finite(
            node.key_to_child[k],
            (levels - 1) as nat,
        )
}

proof fn lemma_valid_finite(
    node: NodeView,
    levels: nat,
    config: ConfigView,
    clusters: Seq<ClusterView>,
    key: Seq<char>,
)
    requires
        subtree_valid(node, levels, config, clusters, key),
    ensures
        subtree_finite(node, levels),
    decreases levels,
{
    if levels > 0 {
        assert forall|k: Seq<char>| #[trigger]
            node.key_to_child.contains_key(k) implies subtree_finite(
            node.key_to_child[k],
            (levels - 1) as nat,
        ) by {
            lemma_valid_finite(
                node.key_to_child[k],
                (levels - 1) as nat,
                config,
                clusters,
                key,
            );
        }
    }
}

/// A cluster that is added is placed.
proof fn lemma_added_placed_below(
    node: NodeView,
    tokens: Seq<Seq<char>>,
    levels: nat,
    config: ConfigView,
    id: nat,
)
    requires
        subtree_finite(node, levels),
    ensures
        placed_below(with_cluster(node, tokens, levels, config, id), tokens, levels, config, id),
    decreases levels,
{
    let after = with_cluster(node, tokens, levels, config, id);
    if levels == 0 || tokens.len() == 0 {
        assert(after.cluster_ids[node.cluster_ids.len() as int] == id);
    } else {
        let branch = routed_key(node, tokens[0], config);
        let below = (levels - 1) as nat;
        lemma_empty_finite(below);
        lemma_added_placed_below(child_or_new(node, branch), tokens.skip(1), below, config, id);
        let dom = node.key_to_child.dom();
        assert(after.key_to_child.dom() =~= dom.insert(branch));
    }
}

proof fn lemma_empty_finite(levels: nat)
    ensures
        subtree_finite(empty_node(), levels),
{
    assert(empty_node().key_to_child.dom() =~= Set::empty());
}

/// Eviction leaves the younger clusters at their places.
proof fn lemma_placed_without_oldest_below(
    node: NodeView,
    tokens: Seq<Seq<char>>,
    levels: nat,
    config: ConfigView,
    id: nat,
    d: nat,
)
    requires
        placed_below(node, tokens, levels, config, id),
        d <= id,
    ensures
        placed_below(without_oldest(node, d), tokens, levels, config, (id - d) as nat),
    decreases levels,
{
    let after = without_oldest(node, d);
    assert(after.key_to_child.dom() =~= node.key_to_child.dom());
    if levels == 0 || tokens.len() == 0 {
        lemma_shifted_contains(node.cluster_ids, d, id);
    } else {
        let key = if node.key_to_child.contains_key(tokens[0]) {
            tokens[0]
        } else {
            config.param_str
        };
        lemma_placed_without_oldest_below(
            node.key_to_child[key],
            tokens.skip(1),
            (levels - 1) as nat,
            config,
            id,
            d,
        );
    }
}

proof fn lemma_shifted_contains(ids: Seq<nat>, d: nat, id: nat)
    requires
        ids.contains(id),
        d <= id,
    ensures
        shifted(ids, d).contains((id - d) as nat),
    decreases ids.len(),
{
    let rest = ids.drop_last();
    let after = shifted(ids, d);
    if ids.last() == id {
        assert(after[after.len() - 1] == id - d);
    } else {
        let p = choose|p: int| 0 <= p < ids.len() && ids[p] == id;
        assert(rest[p] == id);
        lemma_shifted_contains(rest, d, id);
        let q = choose|q: int|
            0 <= q < shifted(rest, d).len() && shifted(rest, d)[q] == (id - d) as nat;
        assert(after[q] == (id - d) as nat);
    }
}

/// A cluster that is added to a model stands at the place for its tokens, and stays there
/// while others are added and older ones are evicted.
pub proof fn law_place_is_stable(
    state: StateView,
    tokens: Seq<Seq<char>>,
    id: nat,
    other_tokens: Seq<Seq<char>>,
    other: nat,
    d: nat,
)
    requires
        tree_valid(state.root, state.config, state.clusters),
        d <= id,
    ensures
        placed(
            tree_with_cluster(state.root, tokens, state.config, id),
            tokens,
            state.config,
            id,
        ),
        placed(state.root, tokens, state.config, id) ==> placed(
            tree_with_cluster(state.root, other_tokens, state.config, other),
            tokens,
            state.config,
            id,
        ),
        placed(state.root, tokens, state.config, id) ==> placed(
            without_oldest(state.root, d),
            tokens,
            state.config,
            (id - d) as nat,
        ),
{
    let levels = state.config.levels();
    let key = decimal(tokens.len());
    let other_key = decimal(other_tokens.len());
    lemma_empty_finite(levels);
    if state.root.key_to_child.contains_key(key) {
        lemma_valid_finite(
            state.root.key_to_child[key],
            levels,
            state.config,
            state.clusters,
            key,
        );
    }
    lemma_added_placed_below(child_or_new(state.root, key), tokens, levels, state.config, id);
    if placed(state.root, tokens, state.config, id) {
        if key == other_key {
            law_numerals_differ(tokens.len(), other_tokens.len());
            lemma_placed_stays_below(
                state.root.key_to_child[key],
                tokens,
                levels,
                state.config,
                id,
                other_tokens,
                other,
            );
        }
        lemma_placed_without_oldest_below(
            state.root.key_to_child[key],
            tokens,
            levels,
            state.config,
            id,
            d,
        );
    }
}

/// Different numbers have different numerals, so messages of different token counts never
/// share a branch of the tree.
pub proof fn law_numerals_differ(a: nat, b: nat)
    ensures
        decimal(a) == decimal(b) ==> a == b,
    decreases a + b,
{
    if decimal(a) == decimal(b) {
        lemma_decimal_nonempty(a / 10);
        lemma_decimal_nonempty(b / 10);
        let da = decimal(a);
        let db = decimal(b);
        assert(da.last() == crate::text::digit(a % 10));
        assert(db.last() == crate::text::digit(b % 10));
        if a >= 10 && b >= 10 {
            assert(da.drop_last() =~= decimal(a / 10));
            assert(db.drop_last() =~= decimal(b / 10));
            law_numerals_differ(a / 10, b / 10);
        } else if a >= 10 {
            assert(da.len() >= 2);
        } else if b >= 10 {
            assert(db.len() >= 2);
        }
    }
}

proof fn lemma_decimal_nonempty(n: nat)
    ensures
        decimal(n).len() >= 1,
{
    if n >= 10 {
        assert(decimal(n) == decimal(n / 10).push(crate::text::digit(n % 10)));
    }
}

// ---------------------------------------------------------------------------------------------
// What is learned is matched
// ---------------------------------------------------------------------------------------------

/// Where a search ends after a cluster was added for the same tokens: at a node that holds the
/// new cluster last, after no others or those among which the search ended before.
proof fn lemma_leaf_after_added(
    node: NodeView,
    tokens: Seq<Seq<char>>,
    levels: nat,
    config: ConfigView,
    id: nat,
) -> (prior: Seq<nat>)
    requires
        subtree_finite(node, levels),
    ensures
        leaf_below(with_cluster(node, tokens, levels, config, id), tokens, levels, config) matches
            Some(n) && n.cluster_ids == prior.push(id),
        prior.len() > 0 ==> (leaf_below(node, tokens, levels, config) matches Some(n)
            && n.cluster_ids == prior),
    decreases levels,
{
    if levels == 0 || tokens.len() == 0 {
        node.cluster_ids
    } else {
        let after = with_cluster(node, tokens, levels, config, id);
        let branch = routed_key(node, tokens[0], config);
        let below = (levels - 1) as nat;
        let dom = node.key_to_child.dom();
        assert(after.key_to_child.dom() =~= dom.insert(branch));
        lemma_empty_finite(below);
        let prior = lemma_leaf_after_added(
            child_or_new(node, branch),
            tokens.skip(1),
            below,
            config,
            id,
        );
        if !dom.contains(branch) && prior.len() > 0 {
            lemma_leaf_of_empty(tokens.skip(1), below, config);
        }
        prior
    }
}

proof fn lemma_leaf_of_empty(tokens: Seq<Seq<char>>, levels: nat, config: ConfigView)
    ensures
        leaf_below(empty_node(), tokens, levels, config) matches Some(n)
            ==> n.cluster_ids.len() == 0,
{
    if levels > 0 && tokens.len() > 0 {
        assert(!empty_node().key_to_child.contains_key(tokens[0]));
        assert(!empty_node().key_to_child.contains_key(config.param_str));
    }
}

/// The best of candidates of which only the last is fully similar.
proof fn lemma_best_is_last(
    clusters: Seq<ClusterView>,
    ids: Seq<nat>,
    tokens: Seq<Seq<char>>,
    param: Seq<char>,
)
    requires
        ids.len() > 0,
        ids.last() < clusters.len(),
        candidate_bits(clusters, ids.last(), tokens, param) == ONE,
        forall|i: int|
            0 <= i < ids.len() - 1 ==> candidate_bits(clusters, #[trigger] ids[i], tokens, param)
                < ONE,
    ensures
        best_of(clusters, ids, tokens, param) == Some((ids.last(), Similarity { bits: ONE })),
{
    let rest = ids.drop_last();
    law_best_candidate(clusters, rest, tokens, param);
    if let Some((id, _)) = best_of(clusters, rest, tokens, param) {
        let p = choose|p: int| best_position(clusters, rest, tokens, param, p) && rest[p] == id;
        assert(ids[p] == rest[p]);
    }
}

/// Eviction of single indices from a list whose last index stays.
proof fn lemma_shifted_last(ids: Seq<nat>, id: nat, d: nat)
    requires
        d <= id,
    ensures
        shifted(ids.push(id), d) == shifted(ids, d).push((id - d) as nat),
{
    assert(ids.push(id).drop_last() =~= ids);
}

/// A search ends at the same node after an eviction.
proof fn lemma_leaf_without_oldest(
    node: NodeView,
    tokens: Seq<Seq<char>>,
    levels: nat,
    config: ConfigView,
    d: nat,
)
    ensures
        match leaf_below(node, tokens, levels, config) {
            Some(n) => leaf_below(without_oldest(node, d), tokens, levels, config) == Some(
                without_oldest(n, d),
            ),
            None => leaf_below(without_oldest(node, d), tokens, levels, config) is None,
        },
    decreases levels,
{
    let after = without_oldest(node, d);
    assert(after.key_to_child.dom() =~= node.key_to_child.dom());
    if levels > 0 && tokens.len() > 0 {
        if node.key_to_child.contains_key(tokens[0]) {
            lemma_leaf_without_oldest(
                node.key_to_child[tokens[0]],
                tokens.skip(1),
                (levels - 1) as nat,
                config,
                d,
            );
        } else if node.key_to_child.contains_key(config.param_str) {
            lemma_leaf_without_oldest(
                node.key_to_child[config.param_str],
                tokens.skip(1),
                (levels - 1) as nat,
                config,
                d,
            );
        }
    }
}

/// The created cluster is found.
proof fn lemma_created_found(state: StateView, tokens: Seq<Seq<char>>, content: Seq<char>)
    requires
        tree_valid(state.root, state.config, state.clusters),
        0 < tokens.len() <= u64::MAX,
        state.found(tokens) is None,
        at_least(Similarity { bits: ONE }, state.config.sim_th),
        state.config.max_clusters >= 1,
    ensures
        ({
            let after = state.extended(tokens, content).evicted();
            after.found(tokens) matches Some((id, _)) && id == after.clusters.len() - 1
                && after.clusters[id as int].cluster_id == state.next_cluster_id
                && after.clusters[id as int].template_tokens == tokens
                && after.clusters[id as int].examples == seq![content]
        }),
{
    let config = state.config;
    let param = config.param_str;
    let levels = config.levels();
    let n = state.clusters.len();
    let key = decimal(tokens.len());
    let ext = state.extended(tokens, content);
    let after = ext.evicted();
    let d: nat = if n + 1 > config.max_clusters {
        (n + 1 - config.max_clusters) as nat
    } else {
        0
    };
    let start = child_or_new(state.root, key);
    lemma_empty_finite(levels);
    if state.root.key_to_child.contains_key(key) {
        lemma_valid_finite(start, levels, config, state.clusters, key);
    }
    let prior = lemma_leaf_after_added(start, tokens, levels, config, n);
    if !state.root.key_to_child.contains_key(key) && prior.len() > 0 {
        lemma_leaf_of_empty(tokens, levels, config);
    }
    // The candidates before were not accepted, so none of them was fully similar.
    assert forall|i: int| 0 <= i < prior.len() implies {
        &&& (#[trigger] prior[i]) < n
        &&& candidate_bits(state.clusters, prior[i], tokens, param) < ONE
    } by {
        let node = leaf(state.root, tokens, config)->0;
        assert(node.cluster_ids == prior);
        lemma_leaf_ids_valid(
            state.root.key_to_child[key],
            tokens,
            levels,
            config,
            state.clusters,
            key,
        );
        lemma_no_better(state.clusters, prior, tokens, param, i);
    }
    let grown = with_cluster(start, tokens, levels, config, n);
    assert(leaf(ext.root, tokens, config) == leaf_below(grown, tokens, levels, config));
    lemma_leaf_without_oldest(grown, tokens, levels, config, d);
    crate::drain::lemma_without_oldest_none(ext.root);
    assert(ext.clusters.skip(0) =~= ext.clusters);
    assert(after.root == without_oldest(ext.root, d));
    assert(after.clusters == ext.clusters.skip(d as int));
    assert(after.root.key_to_child.contains_key(key));
    assert(after.root.key_to_child[key] == without_oldest(grown, d));
    lemma_shifted_last(prior, n, d);
    let ids = shifted(prior, d).push((n - d) as nat);
    let node = leaf(after.root, tokens, config)->0;
    assert(node.cluster_ids == ids);
    let last = (n - d) as nat;
    assert(after.clusters[last as int] == ext.clusters[n as int]);
    assert(covers(tokens, tokens, param));
    law_similarity_range(tokens, tokens, param);
    assert forall|i: int| 0 <= i < ids.len() - 1 implies candidate_bits(
        after.clusters,
        #[trigger] ids[i],
        tokens,
        param,
    ) < ONE by {
        lemma_shifted(prior, d, i);
        let j = choose|j: int|
            0 <= j < prior.len() && #[trigger] prior[j] == shifted(prior, d)[i] + d;
        assert(prior[j] < n);
        assert(after.clusters[ids[i] as int] == state.clusters[prior[j] as int]);
    }
    lemma_best_is_last(after.clusters, ids, tokens, param);
}

/// The best candidate after it absorbed the message.
proof fn lemma_best_after_update(
    clusters: Seq<ClusterView>,
    ids: Seq<nat>,
    tokens: Seq<Seq<char>>,
    content: Seq<char>,
    param: Seq<char>,
    id: nat,
)
    requires
        0 < tokens.len() <= u64::MAX,
        best_of(clusters, ids, tokens, param) matches Some((best, _)) && best == id,
        clusters[id as int].template_tokens.len() == tokens.len(),
    ensures
        best_of(
            clusters.update(id as int, clusters[id as int].absorbing(tokens, content, param)),
            ids,
            tokens,
            param,
        ) == Some((id, Similarity { bits: ONE })),
{
    law_best_candidate(clusters, ids, tokens, param);
    let old_cluster = clusters[id as int];
    let new_cluster = old_cluster.absorbing(tokens, content, param);
    let after = clusters.update(id as int, new_cluster);
    law_merged_covers_both(old_cluster.template_tokens, tokens, param);
    law_similarity_range(new_cluster.template_tokens, tokens, param);
    law_similarity_range(old_cluster.template_tokens, tokens, param);
    let p = choose|p: int| best_position(clusters, ids, tokens, param, p) && ids[p] == id;
    lemma_no_better(after, ids, tokens, param, p);
    law_best_candidate(after, ids, tokens, param);
    let found = (best_of(after, ids, tokens, param)->0).0;
    let q = choose|q: int| best_position(after, ids, tokens, param, q) && ids[q] == found;
    if after[found as int].template_tokens.len() == tokens.len() {
        law_similarity_range(after[found as int].template_tokens, tokens, param);
    }
    if found != id {
        assert(candidate_bits(after, ids[q], tokens, param) == candidate_bits(
            clusters,
            ids[q],
            tokens,
            param,
        ));
        assert(candidate_bits(after, ids[p], tokens, param) == ONE);
        assert(q != p);
    }
}

/// A message that was just learned is matched by the cluster whose id it got, and that
/// cluster's template covers it: their similarity is 1. This holds where the threshold is one
/// that full similarity reaches, and where a cluster that is created for the message may stay.
pub proof fn law_learned_is_matched(state: StateView, content: Seq<char>)
    requires
        tree_valid(state.root, state.config, state.clusters),
        0 < state.config.tokens(content).len() <= u64::MAX,
        at_least(Similarity { bits: ONE }, state.config.sim_th),
        state.config.max_clusters >= 1 || state.found(state.config.tokens(content)) is Some,
    ensures
        state.fed(content).0.matching(content) matches Some(cluster) && {
            let tokens = state.config.tokens(content);
            &&& cluster.cluster_id == state.fed(content).1
            &&& covers(cluster.template_tokens, tokens, state.config.param_str)
            &&& seq_similarity(cluster.template_tokens, tokens, state.config.param_str).bits == ONE
        },
{
    let tokens = state.config.tokens(content);
    match state.found(tokens) {
        Some((id, _)) => {
            let node = leaf(state.root, tokens, state.config)->0;
            law_found_has_length(state, tokens);
            law_merged_covers_both(
                state.clusters[id as int].template_tokens,
                tokens,
                state.config.param_str,
            );
            lemma_best_after_update(
                state.clusters,
                node.cluster_ids,
                tokens,
                content,
                state.config.param_str,
                id,
            );
        },
        None => {
            lemma_created_found(state, tokens, content);
        },
    }
    let cluster = state.fed(content).0.matching(content)->0;
    law_similarity_range(cluster.template_tokens, tokens, state.config.param_str);
}

/// Learning a message again gives it the same id, and changes nothing but the size of its
/// cluster, which grows by one.
pub proof fn law_relearning_only_counts(state: StateView, content: Seq<char>)
    requires
        tree_valid(state.root, state.config, state.clusters),
        0 < state.config.tokens(content).len() <= u64::MAX,
        at_least(Similarity { bits: ONE }, state.config.sim_th),
        state.config.max_clusters >= 1 || state.found(state.config.tokens(content)) is Some,
    ensures
        ({
            let (once, id) = state.fed(content);
            let (twice, same_id) = once.fed(content);
            let i = (once.found(state.config.tokens(content))->0).0 as int;
            let cluster = once.clusters[i];
            &&& same_id == id
            &&& 0 <= i < once.clusters.len()
            &&& cluster.cluster_id == id
            &&& twice == (StateView {
                clusters: once.clusters.update(
                    i,
                    ClusterView { size: cluster.size + 1, ..cluster },
                ),
                ..once
            })
        }),
{
    law_learned_is_matched(state, content);
    let tokens = state.config.tokens(content);
    let once = state.fed(content).0;
    lemma_found(once, tokens);
    let i = (once.found(tokens)->0).0 as int;
    let cluster = once.clusters[i];
    law_merged_stable(cluster.template_tokens, tokens, state.config.param_str);
    // The content is an example by now, or there is no room for it.
    assert(cluster.examples.len() >= MAX_EXAMPLES || cluster.examples.contains(content)) by {
        match state.found(tokens) {
            Some((id, _)) => {
                lemma_found(state, tokens);
                lemma_relearned_index(state, content);
                let before = state.clusters[id as int].examples;
                if before.len() < MAX_EXAMPLES && !before.contains(content) {
                    assert(before.push(content)[before.len() as int] == content);
                }
            },
            None => {
                lemma_created_found(state, tokens, content);
                assert(cluster.examples[0] == content);
            },
        }
    }
}

/// Where a message was found, it is found again.
proof fn lemma_relearned_index(state: StateView, content: Seq<char>)
    requires
        tree_valid(state.root, state.config, state.clusters),
        0 < state.config.tokens(content).len() <= u64::MAX,
        at_least(Similarity { bits: ONE }, state.config.sim_th),
        state.found(state.config.tokens(content)) is Some,
    ensures
        ({
            let tokens = state.config.tokens(content);
            let again = state.fed(content).0.found(tokens);
            again is Some && (again->0).0 == (state.found(tokens)->0).0
        }),
{
    let tokens = state.config.tokens(content);
    law_found_has_length(state, tokens);
    lemma_best_after_update(
        state.clusters,
        leaf(state.root, tokens, state.config)->0.cluster_ids,
        tokens,
        content,
        state.config.param_str,
        (state.found(tokens)->0).0,
    );
}

/// What is found reaches the threshold.
pub proof fn law_found_is_similar(state: StateView, tokens: Seq<Seq<char>>)
    ensures
        state.found(tokens) matches Some((id, sim)) ==> {
            &&& id < state.clusters.len()
            &&& sim == seq_similarity(
                state.clusters[id as int].template_tokens,
                tokens,
                state.config.param_str,
            )
            &&& at_least(sim, state.config.sim_th)
        },
{
    match leaf(state.root, tokens, state.config) {
        Some(node) => {
            law_best_candidate(state.clusters, node.cluster_ids, tokens, state.config.param_str);
        },
        None => {},
    }
}

/// A higher threshold is stricter: what is found with it is found with a lower one, too.
pub proof fn law_higher_threshold_is_stricter(
    state: StateView,
    higher: Similarity,
    tokens: Seq<Seq<char>>,
)
    requires
        is_number(state.config.sim_th),
        is_number(higher),
        rank(state.config.sim_th) <= rank(higher),
    ensures
        ({
            let strict = StateView {
                config: ConfigView { sim_th: higher, ..state.config },
                ..state
            };
            strict.found(tokens) is Some ==> strict.found(tokens) == state.found(tokens)
        }),
{
    let config = ConfigView { sim_th: higher, ..state.config };
    lemma_leaf_ignores_threshold(
        child_or_new(state.root, decimal(tokens.len())),
        tokens,
        state.config.levels(),
        state.config,
        config,
    );
    if let Some(node) = leaf(state.root, tokens, state.config) {
        if let Some((_, sim)) = best_of(
            state.clusters,
            node.cluster_ids,
            tokens,
            config.param_str,
        ) {
            if at_least(sim, higher) {
                law_lower_threshold(sim, higher, state.config.sim_th);
            }
        }
    }
}

proof fn lemma_leaf_ignores_threshold(
    node: NodeView,
    tokens: Seq<Seq<char>>,
    levels: nat,
    a: ConfigView,
    b: ConfigView,
)
    requires
        a.param_str == b.param_str,
    ensures
        leaf_below(node, tokens, levels, a) == leaf_below(node, tokens, levels, b),
    decreases levels,
{
    if levels > 0 && tokens.len() > 0 {
        let below = (levels - 1) as nat;
        if node.key_to_child.contains_key(tokens[0]) {
            lemma_leaf_ignores_threshold(
                node.key_to_child[tokens[0]],
                tokens.skip(1),
                below,
                a,
                b,
            );
        } else if node.key_to_child.contains_key(a.param_str) {
            lemma_leaf_ignores_threshold(
                node.key_to_child[a.param_str],
                tokens.skip(1),
                below,
                a,
                b,
            );
        }
    }
}

// ---------------------------------------------------------------------------------------------
// Age, limit and counting
// ---------------------------------------------------------------------------------------------

/// Whether clusters stand in the order of their ids, all below the next one.
pub open spec fn ids_ascend(clusters: Seq<ClusterView>, next: nat) -> bool {
    &&& forall|i: int, j: int|
        0 <= i < j < clusters.len() ==> (#[trigger] clusters[i]).cluster_id < (
        #[trigger] clusters[j]).cluster_id
    &&& forall|i: int| 0 <= i < clusters.len() ==> (#[trigger] clusters[i]).cluster_id < next
}

/// Clusters stay in the order of their ids, so the oldest is the one with the least id.
pub proof fn law_ids_ascend(state: StateView, content: Seq<char>)
    requires
        ids_ascend(state.clusters, state.next_cluster_id),
    ensures
        ids_ascend(state.fed(content).0.clusters, state.fed(content).0.next_cluster_id),
{
    let tokens = state.config.tokens(content);
    if tokens.len() > 0 {
        match state.found(tokens) {
            Some((id, _)) => {
                lemma_found(state, tokens);
                let after = state.updated(id, tokens, content);
                assert forall|i: int| 0 <= i < after.clusters.len() implies (
                #[trigger] after.clusters[i]).cluster_id == state.clusters[i].cluster_id by {}
            },
            None => {
                let grown = state.extended(tokens, content);
                let after = grown.evicted();
                let d = grown.clusters.len() - after.clusters.len();
                assert forall|i: int| 0 <= i < after.clusters.len() implies (
                #[trigger] after.clusters[i]) == grown.clusters[i + d] by {}
            },
        }
    }
}

/// A model without too many clusters does not get too many. Where a new cluster is created,
/// those that stay are the youngest, in their order.
pub proof fn law_cluster_limit(state: StateView, content: Seq<char>)
    ensures
        state.clusters.len() <= state.config.max_clusters ==> state.fed(content).0.clusters.len()
            <= state.config.max_clusters,
        state.config.tokens(content).len() > 0 && state.found(state.config.tokens(content)) is None
            ==> {
            let after = state.fed(content).0.clusters;
            let all = state.extended(state.config.tokens(content), content).clusters;
            &&& after.len() <= state.config.max_clusters
            &&& after.is_suffix_of(all)
            &&& after.len() == all.len() || after.len() == state.config.max_clusters
        },
{
    let tokens = state.config.tokens(content);
    lemma_found(state, tokens);
    if tokens.len() > 0 && state.found(tokens) is None {
        let all = state.extended(tokens, content).clusters;
        let after = state.fed(content).0.clusters;
        assert(all.skip(0) =~= all);
        assert(after =~= all.skip(all.len() - after.len()));
    }
}

/// The number of messages that clusters count.
pub open spec fn total_size(clusters: Seq<ClusterView>) -> nat
    decreases clusters.len(),
{
    if clusters.len() == 0 {
        0
    } else {
        total_size(clusters.drop_last()) + clusters.last().size
    }
}

proof fn lemma_total_size_update(clusters: Seq<ClusterView>, i: int, cluster: ClusterView)
    requires
        0 <= i < clusters.len(),
    ensures
        total_size(clusters.update(i, cluster)) + clusters[i].size == total_size(clusters)
            + cluster.size,
    decreases clusters.len(),
{
    let after = clusters.update(i, cluster);
    if i == clusters.len() - 1 {
        assert(after.drop_last() =~= clusters.drop_last());
    } else {
        assert(after.drop_last() =~= clusters.drop_last().update(i, cluster));
        lemma_total_size_update(clusters.drop_last(), i, cluster);
    }
}

/// Every message with tokens is counted once, in the size of its cluster, as long as no
/// cluster is evicted.
pub proof fn law_messages_are_counted(state: StateView, content: Seq<char>)
    requires
        state.clusters.len() < state.config.max_clusters || state.config.tokens(content).len() == 0
            || state.found(state.config.tokens(content)) is Some,
    ensures
        total_size(state.fed(content).0.clusters) == total_size(state.clusters)
            + if state.config.tokens(content).len() > 0 {
            1nat
        } else {
            0
        },
{
    let tokens = state.config.tokens(content);
    if tokens.len() > 0 {
        match state.found(tokens) {
            Some((id, _)) => {
                lemma_found(state, tokens);
                lemma_total_size_update(
                    state.clusters,
                    id as int,
                    state.clusters[id as int].absorbing(tokens, content, state.config.param_str),
                );
            },
            None => {
                let all = state.extended(tokens, content).clusters;
                assert(all.drop_last() =~= state.clusters);
            },
        }
    }
}

proof fn lemma_rebuilt_placed(clusters: Seq<ClusterView>, config: ConfigView, i: int)
    requires
        0 <= i < clusters.len(),
    ensures
        placed(tree_of(clusters, config), clusters[i].template_tokens, config, i as nat),
    decreases clusters.len(),
{
    let rest = clusters.drop_last();
    let last = (clusters.len() - 1) as nat;
    lemma_tree_of_valid(rest, config);
    let before = tree_of(rest, config);
    let tokens = clusters[i].template_tokens;
    let other = clusters[last as int].template_tokens;
    let levels = config.levels();
    let key = decimal(tokens.len());
    lemma_empty_finite(levels);
    if before.key_to_child.contains_key(key) {
        lemma_valid_finite(before.key_to_child[key], levels, config, rest, key);
    }
    if i == last {
        lemma_added_placed_below(child_or_new(before, key), tokens, levels, config, last);
    } else {
        lemma_rebuilt_placed(rest, config, i);
        if key == decimal(other.len()) {
            law_numerals_differ(tokens.len(), other.len());
            lemma_placed_stays_below(
                before.key_to_child[key],
                tokens,
                levels,
                config,
                i as nat,
                other,
                last,
            );
        }
    }
}

/// Whether two messages have one length and the same tokens on the way down the tree.
pub open spec fn same_way(a: Seq<Seq<char>>, b: Seq<Seq<char>>, levels: nat) -> bool {
    &&& a.len() == b.len()
    &&& forall|i: int| 0 <= i < a.len() && i < levels ==> #[trigger] a[i] == b[i]
}

proof fn lemma_placed_same_way(
    node: NodeView,
    a: Seq<Seq<char>>,
    b: Seq<Seq<char>>,
    levels: nat,
    config: ConfigView,
    id: nat,
)
    requires
        placed_below(node, a, levels, config, id),
        same_way(a, b, levels),
    ensures
        placed_below(node, b, levels, config, id),
    decreases levels,
{
    if levels > 0 && a.len() > 0 {
        let key = if node.key_to_child.contains_key(a[0]) {
            a[0]
        } else {
            config.param_str
        };
        assert(a[0] == b[0]);
        assert forall|i: int| 0 <= i < a.skip(1).len() && i < levels - 1 implies #[trigger] a.skip(
            1,
        )[i] == b.skip(1)[i] by {
            assert(a[i + 1] == b[i + 1]);
        }
        lemma_placed_same_way(
            node.key_to_child[key],
            a.skip(1),
            b.skip(1),
            (levels - 1) as nat,
            config,
            id,
        );
    }
}

/// A message is found wherever a cluster stands at its place that is similar enough: what is
/// found is at least as similar as that cluster.
pub proof fn law_placed_is_found(state: StateView, id: nat, tokens: Seq<Seq<char>>)
    requires
        placed(state.root, tokens, state.config, id),
        id < state.clusters.len(),
        at_least(
            seq_similarity(
                state.clusters[id as int].template_tokens,
                tokens,
                state.config.param_str,
            ),
            state.config.sim_th,
        ),
    ensures
        state.found(tokens) matches Some((_, sim)) && sim.bits >= seq_similarity(
            state.clusters[id as int].template_tokens,
            tokens,
            state.config.param_str,
        ).bits,
{
    let clusters = state.clusters;
    let param = state.config.param_str;
    lemma_placed_found_below(
        state.root.key_to_child[decimal(tokens.len())],
        tokens,
        state.config.levels(),
        state.config,
        id,
    );
    let ids = leaf(state.root, tokens, state.config)->0.cluster_ids;
    let p = choose|p: int| 0 <= p < ids.len() && ids[p] == id;
    lemma_no_better(clusters, ids, tokens, param, p);
}

/// A cluster that stays is at the place for every message that goes its way.
proof fn lemma_rebuilt_stays_placed(
    config: ConfigView,
    clusters: Seq<ClusterView>,
    i: int,
    tokens: Seq<Seq<char>>,
)
    requires
        0 <= i < clusters.len(),
        clusters.len() - i <= config.max_clusters,
        same_way(clusters[i].template_tokens, tokens, config.levels()),
    ensures
        ({
            let state = StateView::rebuilt(config, clusters).evicted();
            let d = clusters.len() - state.clusters.len();
            0 <= d <= i && placed(state.root, tokens, config, (i - d) as nat)
        }),
{
    let all = StateView::rebuilt(config, clusters);
    let state = all.evicted();
    let key = decimal(tokens.len());
    lemma_rebuilt_placed(clusters, config, i);
    lemma_placed_same_way(
        all.root.key_to_child[key],
        clusters[i].template_tokens,
        tokens,
        config.levels(),
        config,
        i as nat,
    );
    let d = (clusters.len() - state.clusters.len()) as nat;
    if d > 0 {
        lemma_placed_without_oldest_below(
            all.root.key_to_child[key],
            tokens,
            config.levels(),
            config,
            i as nat,
            d,
        );
    }
}

/// A rebuilt model finds every message that is similar enough to the template of one of the
/// clusters that stay, and has the template's leading tokens.
pub proof fn law_rebuilt_finds(
    config: ConfigView,
    clusters: Seq<ClusterView>,
    i: int,
    tokens: Seq<Seq<char>>,
)
    requires
        0 <= i < clusters.len(),
        clusters.len() - i <= config.max_clusters,
        same_way(clusters[i].template_tokens, tokens, config.levels()),
        at_least(
            seq_similarity(clusters[i].template_tokens, tokens, config.param_str),
            config.sim_th,
        ),
    ensures
        StateView::rebuilt(config, clusters).evicted().found(tokens) matches Some((_, sim))
            && sim.bits >= seq_similarity(
            clusters[i].template_tokens,
            tokens,
            config.param_str,
        ).bits,
{
    let state = StateView::rebuilt(config, clusters).evicted();
    let d = (clusters.len() - state.clusters.len()) as nat;
    lemma_rebuilt_stays_placed(config, clusters, i, tokens);
    law_placed_is_found(state, (i - d) as nat, tokens);
}

/// Whether indices ascend.
pub open spec fn ascending(ids: Seq<nat>) -> bool {
    forall|i: int, j: int|
        0 <= i < j < ids.len() ==> (#[trigger] ids[i]) < (#[trigger] ids[j])
}

/// Whether every node of a subtree lists its clusters in the order of their age.
pub open spec fn subtree_ascends(node: NodeView, levels: nat) -> bool
    decreases levels,
{
    &&& ascending(node.cluster_ids)
    &&& levels > 0 ==> forall|k: Seq<char>| #[trigger]
        node.key_to_child.contains_key(k) ==> subtree_ascends(
            node.key_to_child[k],
            (levels - 1) as nat,
        )
}

/// A younger cluster is listed after those that are there.
proof fn lemma_with_cluster_ascends(
    node: NodeView,
    tokens: Seq<Seq<char>>,
    levels: nat,
    config: ConfigView,
    clusters: Seq<ClusterView>,
    key: Seq<char>,
)
    requires
        subtree_valid(node, levels, config, clusters, key),
        subtree_ascends(node, levels),
    ensures
        subtree_ascends(with_cluster(node, tokens, levels, config, clusters.len()), levels),
    decreases levels,
{
    let after = with_cluster(node, tokens, levels, config, clusters.len());
    if levels > 0 && tokens.len() > 0 {
        let branch = routed_key(node, tokens[0], config);
        let below = (levels - 1) as nat;
        lemma_empty_subtree_valid(below, config, clusters, key);
        lemma_empty_ascends(below);
        lemma_with_cluster_ascends(
            child_or_new(node, branch),
            tokens.skip(1),
            below,
            config,
            clusters,
            key,
        );
        assert forall|k: Seq<char>| #[trigger]
            after.key_to_child.contains_key(k) implies subtree_ascends(
            after.key_to_child[k],
            below,
        ) by {
            if k != branch {
                assert(node.key_to_child.contains_key(k));
            }
        }
    }
}

proof fn lemma_empty_ascends(levels: nat)
    ensures
        subtree_ascends(empty_node(), levels),
{
}

/// A rebuilt tree lists clusters in the order of their age.
proof fn lemma_tree_of_ascends(clusters: Seq<ClusterView>, config: ConfigView, k: Seq<char>)
    requires
        tree_of(clusters, config).key_to_child.contains_key(k),
    ensures
        subtree_ascends(tree_of(clusters, config).key_to_child[k], config.levels()),
    decreases clusters.len(),
{
    if clusters.len() > 0 {
        let rest = clusters.drop_last();
        let before = tree_of(rest, config);
        let tokens = clusters.last().template_tokens;
        let levels = config.levels();
        if before.key_to_child.contains_key(k) {
            lemma_tree_of_ascends(rest, config, k);
        }
        if k == decimal(tokens.len()) {
            lemma_tree_of_valid(rest, config);
            lemma_empty_subtree_valid(levels, config, rest, k);
            lemma_empty_ascends(levels);
            lemma_with_cluster_ascends(
                child_or_new(before, k),
                tokens,
                levels,
                config,
                rest,
                k,
            );
        }
    }
}

/// A search ends at clusters in the order of their age.
proof fn lemma_leaf_ascends(
    node: NodeView,
    tokens: Seq<Seq<char>>,
    levels: nat,
    config: ConfigView,
)
    requires
        subtree_ascends(node, levels),
    ensures
        leaf_below(node, tokens, levels, config) matches Some(n) ==> ascending(n.cluster_ids),
    decreases levels,
{
    if levels > 0 && tokens.len() > 0 {
        let below = (levels - 1) as nat;
        if node.key_to_child.contains_key(tokens[0]) {
            lemma_leaf_ascends(node.key_to_child[tokens[0]], tokens.skip(1), below, config);
        } else if node.key_to_child.contains_key(config.param_str) {
            lemma_leaf_ascends(node.key_to_child[config.param_str], tokens.skip(1), below, config);
        }
    }
}

/// Eviction keeps the order.
proof fn lemma_shifted_ascends(ids: Seq<nat>, d: nat)
    requires
        ascending(ids),
    ensures
        ascending(shifted(ids, d)),
    decreases ids.len(),
{
    if ids.len() > 0 {
        let rest = ids.drop_last();
        let before = shifted(rest, d);
        let after = shifted(ids, d);
        lemma_shifted_ascends(rest, d);
        assert forall|i: int, j: int| 0 <= i < j < after.len() implies (#[trigger] after[i]) < (
        #[trigger] after[j]) by {
            lemma_shifted(rest, d, i);
            let p = choose|p: int| 0 <= p < rest.len() && #[trigger] rest[p] == before[i] + d;
            assert(ids[p] < ids[ids.len() - 1] || p == ids.len() - 1);
            if j < before.len() {
                assert(before[i] < before[j]);
            }
        }
    }
}

/// A rebuilt model recognizes the template of each of the clusters that stay: a search for it
/// finds that cluster or an older one, with similarity 1. This holds where the threshold is one
/// that full similarity reaches.
pub proof fn law_rebuilt_recognizes(config: ConfigView, clusters: Seq<ClusterView>, i: int)
    requires
        0 <= i < clusters.len(),
        clusters.len() - i <= config.max_clusters,
        0 < clusters[i].template_tokens.len() <= u64::MAX,
        at_least(Similarity { bits: ONE }, config.sim_th),
    ensures
        ({
            let state = StateView::rebuilt(config, clusters).evicted();
            let at = i - (clusters.len() - state.clusters.len());
            let tokens = clusters[i].template_tokens;
            &&& 0 <= at < state.clusters.len()
            &&& state.clusters[at] == clusters[i]
            &&& state.found(tokens) matches Some((j, sim)) && {
                &&& j <= at
                &&& sim.bits == ONE
                &&& sim == seq_similarity(
                    state.clusters[j as int].template_tokens,
                    tokens,
                    config.param_str,
                )
            }
        }),
{
    let all = StateView::rebuilt(config, clusters);
    let state = all.evicted();
    let tokens = clusters[i].template_tokens;
    let param = config.param_str;
    let levels = config.levels();
    let key = decimal(tokens.len());
    let d = (clusters.len() - state.clusters.len()) as nat;
    let at = (i - d) as nat;
    assert(covers(tokens, tokens, param));
    law_similarity_range(tokens, tokens, param);
    law_rebuilt_finds(config, clusters, i, tokens);
    law_found_is_similar(state, tokens);
    let id = (state.found(tokens)->0).0;
    law_rebuilt_tree_valid(config, clusters);
    law_found_has_length(state, tokens);
    law_similarity_range(state.clusters[id as int].template_tokens, tokens, param);
    // The candidates stand in the order of their age, and the first of the best is taken.
    lemma_rebuilt_stays_placed(config, clusters, i, tokens);
    lemma_placed_found_below(state.root.key_to_child[key], tokens, levels, config, at);
    lemma_rebuilt_placed(clusters, config, i);
    lemma_tree_of_ascends(clusters, config, key);
    lemma_leaf_ascends(all.root.key_to_child[key], tokens, levels, config);
    lemma_leaf_without_oldest(all.root.key_to_child[key], tokens, levels, config, d);
    crate::drain::lemma_without_oldest_none(all.root);
    assert(state.root == without_oldest(all.root, d));
    let ids = leaf(state.root, tokens, config)->0.cluster_ids;
    lemma_shifted_ascends(leaf(all.root, tokens, config)->0.cluster_ids, d);
    assert(ascending(ids));
    law_best_candidate(state.clusters, ids, tokens, param);
    let p = choose|p: int| 0 <= p < ids.len() && ids[p] == at;
    let q = choose|q: int| best_position(state.clusters, ids, tokens, param, q) && ids[q] == id;
    if id > at {
        assert(p < q);
        assert(candidate_bits(state.clusters, ids[p], tokens, param) == ONE);
    }
}

// ---------------------------------------------------------------------------------------------
// Models that were mined
// ---------------------------------------------------------------------------------------------

impl ClusterView {
    /// A cluster that was mined: it has an id, and between one and as many examples as it
    /// counts messages, few and pairwise different. Each of them is a message that the template
    /// covers.
    pub open spec fn mined(self, config: ConfigView) -> bool {
        &&& self.cluster_id >= 1
        &&& 1 <= self.examples.len() <= self.size
        &&& self.examples.len() <= MAX_EXAMPLES
        &&& self.examples.no_duplicates()
        &&& forall|j: int|
            0 <= j < self.examples.len() ==> {
                let tokens = config.tokens(#[trigger] self.examples[j]);
                tokens.len() > 0 && covers(self.template_tokens, tokens, config.param_str)
            }
    }
}

impl StateView {
    /// A model that was mined: its tree is valid, its clusters stand in the order of their ids
    /// and are no more than may be, and each was mined.
    pub open spec fn mined(self) -> bool {
        &&& tree_valid(self.root, self.config, self.clusters)
        &&& ids_ascend(self.clusters, self.next_cluster_id)
        &&& self.next_cluster_id >= 1
        &&& self.clusters.len() <= self.config.max_clusters
        &&& forall|i: int|
            0 <= i < self.clusters.len() ==> (#[trigger] self.clusters[i]).mined(self.config)
    }

    /// The model after messages, starting without clusters.
    pub open spec fn mined_from(config: ConfigView, messages: Seq<Seq<char>>) -> StateView
        decreases messages.len(),
    {
        if messages.len() == 0 {
            StateView::fresh(config)
        } else {
            StateView::mined_from(config, messages.drop_last()).fed(messages.last()).0
        }
    }
}

proof fn lemma_absorbing_mined(
    cluster: ClusterView,
    tokens: Seq<Seq<char>>,
    content: Seq<char>,
    config: ConfigView,
)
    requires
        cluster.mined(config),
        tokens == config.tokens(content),
        tokens.len() > 0,
        cluster.template_tokens.len() == tokens.len(),
    ensures
        cluster.absorbing(tokens, content, config.param_str).mined(config),
{
    let param = config.param_str;
    let after = cluster.absorbing(tokens, content, param);
    law_merged_covers_both(cluster.template_tokens, tokens, param);
    assert forall|j: int| 0 <= j < after.examples.len() implies {
        let t = config.tokens(#[trigger] after.examples[j]);
        t.len() > 0 && covers(after.template_tokens, t, param)
    } by {
        if j < cluster.examples.len() {
            assert(after.examples[j] == cluster.examples[j]);
            law_merged_keeps_cover(
                cluster.template_tokens,
                tokens,
                config.tokens(cluster.examples[j]),
                param,
            );
        } else {
            assert(after.examples[j] == content);
        }
    }
}

/// Learning keeps a model as models that were mined are.
pub proof fn law_fed_mined(state: StateView, content: Seq<char>)
    requires
        state.mined(),
    ensures
        state.fed(content).0.mined(),
{
    let tokens = state.config.tokens(content);
    law_fed_tree_valid(state, content);
    law_ids_ascend(state, content);
    law_cluster_limit(state, content);
    law_found_has_length(state, tokens);
    if tokens.len() > 0 {
        let after = state.fed(content).0;
        match state.found(tokens) {
            Some((id, _)) => {
                lemma_absorbing_mined(state.clusters[id as int], tokens, content, state.config);
                assert forall|i: int| 0 <= i < after.clusters.len() implies (
                #[trigger] after.clusters[i]).mined(after.config) by {
                    assert(state.clusters[i].mined(state.config));
                }
            },
            None => {
                let grown = state.extended(tokens, content).clusters;
                let d = grown.len() - after.clusters.len();
                let n = state.clusters.len() as int;
                assert(grown[n].mined(state.config)) by {
                    assert(covers(tokens, tokens, state.config.param_str));
                }
                assert forall|i: int| 0 <= i < after.clusters.len() implies (
                #[trigger] after.clusters[i]).mined(after.config) by {
                    assert(after.clusters[i] == grown[i + d]);
                    if i + d < n {
                        assert(grown[i + d] == state.clusters[i + d]);
                    }
                }
            },
        }
    }
}

/// Whatever messages a model is mined from: its tree is valid; its ids ascend, start at 1 and
/// stay below the next one; it keeps to its limit; every cluster has between one and as many
/// examples as it counts messages, at most five and pairwise different, and its template covers
/// each of them.
pub proof fn law_mined(config: ConfigView, messages: Seq<Seq<char>>)
    ensures
        StateView::mined_from(config, messages).mined(),
        StateView::mined_from(config, messages).config == config,
    decreases messages.len(),
{
    if messages.len() == 0 {
        law_fresh_valid(config);
    } else {
        law_mined(config, messages.drop_last());
        law_fed_mined(StateView::mined_from(config, messages.drop_last()), messages.last());
    }
}

/// The examples of a mined cluster are fully similar to its template.
pub proof fn law_examples_fit(state: StateView, i: int, j: int)
    requires
        state.mined(),
        0 <= i < state.clusters.len(),
        0 <= j < state.clusters[i].examples.len(),
        state.clusters[i].template_tokens.len() <= u64::MAX,
    ensures
        seq_similarity(
            state.clusters[i].template_tokens,
            state.config.tokens(state.clusters[i].examples[j]),
            state.config.param_str,
        ).bits == ONE,
{
    let cluster = state.clusters[i];
    assert(cluster.mined(state.config));
    let tokens = state.config.tokens(cluster.examples[j]);
    law_similarity_range(cluster.template_tokens, tokens, state.config.param_str);
}

/// The id 0 stands for messages without tokens, and for them alone: a mined model gives no
/// cluster that id. Such a message changes nothing.
pub proof fn law_zero_is_no_cluster(state: StateView, content: Seq<char>)
    requires
        state.mined(),
    ensures
        state.fed(content).1 == 0 <==> state.config.tokens(content).len() == 0,
        state.fed(content).1 == 0 ==> state.fed(content).0 == state,
{
    let tokens = state.config.tokens(content);
    lemma_found(state, tokens);
    if let Some((id, _)) = state.found(tokens) {
        assert(state.clusters[id as int].mined(state.config));
    }
}

} // verus!
