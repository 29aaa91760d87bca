//! The prefix tree: clusters are found by token count, then by leading tokens.
use vstd::prelude::*;
use crate::entries::{
    keys, lemma_zip_map_at, lemma_zip_map_len, lemma_zip_map_push, lemma_zip_map_update, position,
    zip_map,
};
use crate::text::{decimal, numeral, texts};
use crate::types::{
    child_views, empty_node, index_views, lemma_node_children, ConfigView, Node, NodeView,
};

verus! {

/// The key under which a token's branch is entered on the way to a new cluster's place: the
/// token itself, or the wildcard where the node has its full number of children and none for
/// the token.
pub open spec fn routed_key(node: NodeView, token: Seq<char>, config: ConfigView) -> Seq<char> {
    if node.key_to_child.len() >= config.max_children && !node.key_to_child.contains_key(token) {
        config.param_str
    } else {
        token
    }
}

/// The child under `key`, or a new one.
pub open spec fn child_or_new(node: NodeView, key: Seq<char>) -> NodeView {
    if node.key_to_child.contains_key(key) {
        node.key_to_child[key]
    } else {
        empty_node()
    }
}

/// The node with cluster `id` put where the first `levels` of the tokens lead.
pub open spec fn with_cluster(
    node: NodeView,
    tokens: Seq<Seq<char>>,
    levels: nat,
    config: ConfigView,
    id: nat,
) -> NodeView
    decreases levels,
{
    if levels == 0 || tokens.len() == 0 {
        NodeView { cluster_ids: node.cluster_ids.push(id), ..node }
    } else {
        let key = routed_key(node, tokens[0], config);
        let child = with_cluster(
            child_or_new(node, key),
            tokens.skip(1),
            (levels - 1) as nat,
            config,
            id,
        );
        NodeView { key_to_child: node.key_to_child.insert(key, child), ..node }
    }
}

/// The tree with cluster `id` put at the place for `tokens`.
pub open spec fn tree_with_cluster(
    root: NodeView,
    tokens: Seq<Seq<char>>,
    config: ConfigView,
    id: nat,
) -> NodeView {
    let count = decimal(tokens.len());
    let child = with_cluster(child_or_new(root, count), tokens, config.levels(), config, id);
    NodeView { key_to_child: root.key_to_child.insert(count, child), ..root }
}

/// The node to which the first `levels` of the tokens lead: each by its own branch, or by the
/// wildcard's where it has none.
pub open spec fn leaf_below(
    node: NodeView,
    tokens: Seq<Seq<char>>,
    levels: nat,
    config: ConfigView,
) -> Option<NodeView>
    decreases levels,
{
    if levels == 0 || tokens.len() == 0 {
        Some(node)
    } else if node.key_to_child.contains_key(tokens[0]) {
        leaf_below(node.key_to_child[tokens[0]], tokens.skip(1), (levels - 1) as nat, config)
    } else if node.key_to_child.contains_key(config.param_str) {
        leaf_below(node.key_to_child[config.param_str], tokens.skip(1), (levels - 1) as nat, config)
    } else {
        None
    }
}

/// The node whose clusters are the candidates for `tokens`.
pub open spec fn leaf(
    root: NodeView,
    tokens: Seq<Seq<char>>,
    config: ConfigView,
) -> Option<NodeView> {
    let count = decimal(tokens.len());
    if root.key_to_child.contains_key(count) {
        leaf_below(root.key_to_child[count], tokens, config.levels(), config)
    } else {
        None
    }
}

/// The indices after the `d` oldest clusters are gone: theirs are dropped, the others move
/// down by `d`.
pub open spec fn shifted(ids: Seq<nat>, d: nat) -> Seq<nat>
    decreases ids.len(),
{
    if ids.len() == 0 {
        Seq::empty()
    } else if ids.last() >= d {
        shifted(ids.drop_last(), d).push((ids.last() - d) as nat)
    } else {
        shifted(ids.drop_last(), d)
    }
}

/// The tree after the `d` oldest clusters are gone.
pub open spec fn without_oldest(node: NodeView, d: nat) -> NodeView
    decreases node,
{
    NodeView {
        key_to_child: Map::new(
            |k: Seq<char>| node.key_to_child.contains_key(k),
            |k: Seq<char>|
                if node.key_to_child.contains_key(k) {
                    without_oldest(node.key_to_child[k], d)
                } else {
                    arbitrary()
                },
        ),
        cluster_ids: shifted(node.cluster_ids, d),
    }
}

/// The index of the child under `key`, which is added if there is none.
fn child_entry(children: &mut Vec<(String, Node)>, key: String) -> (at: usize)
    requires
        keys(old(children)@).no_duplicates(),
        forall|i: int| 0 <= i < old(children)@.len() ==> (#[trigger] old(children)@[i]).1.wf(),
    ensures
        keys(final(children)@).no_duplicates(),
        forall|i: int| 0 <= i < final(children)@.len() ==> (#[trigger] final(children)@[i]).1.wf(),
        at < final(children)@.len(),
        final(children)@[at as int].0@ == key@,
        ({
            let before = zip_map(keys(old(children)@), child_views(old(children)@));
            let after = zip_map(keys(final(children)@), child_views(final(children)@));
            if before.contains_key(key@) {
                after == before
            } else {
                after == before.insert(key@, empty_node())
            }
        }),
{
    match position(children, &key) {
        Some(at) => {
            proof {
                assert(keys(children@)[at as int] == key@);
            }
            at
        },
        None => {
            let ghost before = children@;
            let at = children.len();
            let node = Node::default();
            children.push((key, node));
            proof {
                lemma_zip_map_push(keys(before), child_views(before), key@, empty_node());
                assert(keys(children@) =~= keys(before).push(key@));
                assert(child_views(children@) =~= child_views(before).push(empty_node()));
            }
            at
        },
    }
}

/// A new child for an old one, at the same key.
proof fn lemma_child_update(before: Seq<(String, Node)>, after: Seq<(String, Node)>, at: int)
    requires
        keys(before).no_duplicates(),
        0 <= at < before.len(),
        after == before.update(at, after[at]),
        after[at].0 == before[at].0,
    ensures
        keys(after) == keys(before),
        zip_map(keys(after), child_views(after)) == zip_map(
            keys(before),
            child_views(before),
        ).insert(before[at].0@, after[at].1@),
{
    assert(keys(after) =~= keys(before));
    assert(child_views(after) =~= child_views(before).update(at, after[at].1@));
    lemma_zip_map_update(keys(before), child_views(before), at, after[at].1@);
}

/// Puts cluster `id` where the tokens from `from` on lead, over at most `levels` levels.
fn insert_below(
    node: &mut Node,
    tokens: &[String],
    from: usize,
    levels: usize,
    config: &crate::types::DrainConfig,
    id: usize,
)
    requires
        old(node).wf(),
        from <= tokens@.len(),
    ensures
        final(node).wf(),
        final(node)@ == with_cluster(
            old(node)@,
            texts(tokens@).skip(from as int),
            levels as nat,
            config@,
            id as nat,
        ),
    decreases levels,
{
    let ghost rest = texts(tokens@).skip(from as int);
    proof {
        lemma_node_children(node);
    }
    if levels == 0 || from >= tokens.len() {
        node.cluster_ids.push(id);
        proof {
            lemma_node_children(node);
            assert(node@.cluster_ids =~= old(node)@.cluster_ids.push(id as nat));
        }
        return;
    }
    let ghost entries0 = node.key_to_child@;
    let full = node.key_to_child.len() >= config.max_children;
    let key = if full {
        match position(&node.key_to_child, &tokens[from]) {
            Some(at) => {
                proof {
                    assert(keys(entries0)[at as int] == tokens@[from as int]@);
                }
                tokens[from].clone()
            },
            None => config.param_str.clone(),
        }
    } else {
        tokens[from].clone()
    };
    proof {
        lemma_zip_map_len(keys(entries0), child_views(entries0));
        assert(rest[0] == tokens@[from as int]@);
        assert(key@ == routed_key(old(node)@, rest[0], config@));
    }
    let at = child_entry(&mut node.key_to_child, key);
    let ghost entries1 = node.key_to_child@;
    proof {
        assert(keys(entries1)[at as int] == key@);
        lemma_zip_map_at(keys(entries1), child_views(entries1), at as int);
        assert(entries1[at as int].1@ == child_or_new(old(node)@, key@));
    }
    insert_below(&mut node.key_to_child[at].1, tokens, from + 1, levels - 1, config, id);
    proof {
        let entries2 = node.key_to_child@;
        lemma_child_update(entries1, entries2, at as int);
        lemma_node_children(node);
        assert(rest.skip(1) =~= texts(tokens@).skip(from + 1));
        let child = entries2[at as int].1@;
        assert(node@.key_to_child =~= old(node)@.key_to_child.insert(key@, child));
        assert forall|i: int| 0 <= i < entries2.len() implies (#[trigger] entries2[i]).1.wf() by {
            if i != at {
                assert(entries2[i] == entries1[i]);
            }
        }
    }
}

/// Puts cluster `id` at the place for `tokens`.
pub fn add_to_tree(
    root: &mut Node,
    tokens: &[String],
    config: &crate::types::DrainConfig,
    id: usize,
)
    requires
        old(root).wf(),
    ensures
        final(root).wf(),
        final(root)@ == tree_with_cluster(old(root)@, texts(tokens@), config@, id as nat),
{
    let levels: usize = if config.depth <= 3 {
        1
    } else {
        config.depth - 2
    };
    let count = numeral(tokens.len() as u64);
    proof {
        lemma_node_children(root);
    }
    let at = child_entry(&mut root.key_to_child, count);
    let ghost entries1 = root.key_to_child@;
    proof {
        assert(keys(entries1)[at as int] == count@);
        lemma_zip_map_at(keys(entries1), child_views(entries1), at as int);
        assert(entries1[at as int].1@ == child_or_new(old(root)@, count@));
    }
    insert_below(&mut root.key_to_child[at].1, tokens, 0, levels, config, id);
    proof {
        let entries2 = root.key_to_child@;
        lemma_child_update(entries1, entries2, at as int);
        lemma_node_children(root);
        assert(texts(tokens@).skip(0) =~= texts(tokens@));
        let child = entries2[at as int].1@;
        assert(root@.key_to_child =~= old(root)@.key_to_child.insert(count@, child));
        assert forall|i: int| 0 <= i < entries2.len() implies (#[trigger] entries2[i]).1.wf() by {
            if i != at {
                assert(entries2[i] == entries1[i]);
            }
        }
    }
}

/// The child under `key`, if there is one.
fn child<'a>(node: &'a Node, key: &String) -> (res: Option<&'a Node>)
    requires
        node.wf(),
    ensures
        match res {
            Some(n) => n.wf() && node@.key_to_child.contains_key(key@)
                && node@.key_to_child[key@] == n@,
            None => !node@.key_to_child.contains_key(key@),
        },
{
    proof {
        lemma_node_children(node);
    }
    match position(&node.key_to_child, key) {
        Some(at) => {
            proof {
                assert(keys(node.key_to_child@)[at as int] == key@);
                lemma_zip_map_at(
                    keys(node.key_to_child@),
                    child_views(node.key_to_child@),
                    at as int,
                );
            }
            Some(&node.key_to_child[at].1)
        },
        None => None,
    }
}

/// The node whose clusters are the candidates for `tokens`.
pub fn find_leaf<'a>(
    root: &'a Node,
    tokens: &[String],
    config: &crate::types::DrainConfig,
) -> (res: Option<&'a Node>)
    requires
        root.wf(),
    ensures
        match res {
            Some(n) => leaf(root@, texts(tokens@), config@) == Some(n@),
            None => leaf(root@, texts(tokens@), config@) is None,
        },
{
    let levels: usize = if config.depth <= 3 {
        1
    } else {
        config.depth - 2
    };
    let count = numeral(tokens.len() as u64);
    let mut current: &'a Node = match child(root, &count) {
        Some(n) => n,
        None => {
            return None;
        },
    };
    let mut i: usize = 0;
    proof {
        assert(texts(tokens@).skip(0) =~= texts(tokens@));
    }
    while i < tokens.len() && i < levels
        invariant
            i <= tokens@.len(),
            i <= levels,
            current.wf(),
            leaf(root@, texts(tokens@), config@) == leaf_below(
                current@,
                texts(tokens@).skip(i as int),
                (levels - i) as nat,
                config@,
            ),
        decreases tokens@.len() - i,
    {
        proof {
            let rest = texts(tokens@).skip(i as int);
            assert(rest[0] == tokens@[i as int]@);
            assert(rest.skip(1) =~= texts(tokens@).skip(i + 1));
        }
        match child(current, &tokens[i]) {
            Some(n) => {
                current = n;
            },
            None => match child(current, &config.param_str) {
                Some(n) => {
                    current = n;
                },
                None => {
                    return None;
                },
            },
        }
        i = i + 1;
    }
    Some(current)
}

/// Adjusts the cluster indices of a tree after cluster 0 was removed.
pub fn adjust_tree_indices(node: &mut Node)
    requires
        old(node).wf(),
    ensures
        final(node).wf(),
        final(node)@ == without_oldest(old(node)@, 1),
    decreases *old(node),
{
    let ghost children0 = node.key_to_child@;
    let ghost ids0 = node.cluster_ids@;
    let mut kept: Vec<usize> = Vec::new();
    let mut i: usize = 0;
    while i < node.cluster_ids.len()
        invariant
            i <= node.cluster_ids@.len(),
            node.cluster_ids@ == ids0,
            node.key_to_child@ == children0,
            index_views(kept@) == shifted(index_views(ids0).take(i as int), 1),
        decreases node.cluster_ids@.len() - i,
    {
        let id: usize = node.cluster_ids[i];
        let ghost before = kept@;
        if id > 0 {
            kept.push(id - 1);
        }
        proof {
            let taken = index_views(ids0).take(i + 1);
            assert(taken.drop_last() =~= index_views(ids0).take(i as int));
            assert(taken.last() == id as nat);
            if id > 0 {
                assert(index_views(kept@) =~= index_views(before).push((id - 1) as nat));
            }
        }
        i = i + 1;
    }
    proof {
        assert(index_views(ids0).take(i as int) =~= index_views(ids0));
    }
    node.cluster_ids = kept;
    let mut j: usize = 0;
    while j < node.key_to_child.len()
        invariant
            j <= node.key_to_child@.len(),
            node.key_to_child@.len() == children0.len(),
            node.cluster_ids@ == kept@,
            old(node).key_to_child@ == children0,
            old(node).wf(),
            keys(node.key_to_child@) == keys(children0),
            forall|k: int|
                j <= k < children0.len() ==> #[trigger] node.key_to_child@[k] == children0[k],
            forall|k: int|
                0 <= k < j ==> (#[trigger] node.key_to_child@[k]).1.wf()
                    && node.key_to_child@[k].1@ == without_oldest(children0[k].1@, 1),
        decreases node.key_to_child@.len() - j,
    {
        let ghost before = node.key_to_child@;
        adjust_tree_indices(&mut node.key_to_child[j].1);
        proof {
            assert(keys(node.key_to_child@) =~= keys(before));
        }
        j = j + 1;
    }
    proof {
        let children1 = node.key_to_child@;
        lemma_node_children(node);
        lemma_node_children(&*old(node));
        let after = node@.key_to_child;
        let wanted = without_oldest(old(node)@, 1).key_to_child;
        assert forall|k: Seq<char>| after.contains_key(k) implies after[k] == wanted[k] by {
            let p = keys(children0).index_of(k);
            assert(keys(children0)[p] == k);
            assert(child_views(children1)[p] == children1[p].1@);
            assert(child_views(children0)[p] == children0[p].1@);
        }
        assert(after =~= wanted);
        assert(node@ =~= without_oldest(old(node)@, 1));
    }
}

} // verus!
