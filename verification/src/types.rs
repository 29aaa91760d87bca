//! The model: configuration, clusters, prefix tree and state.
use vstd::prelude::*;
use crate::entries::{keys, zip_map};
use crate::similarity::{
    doublings, nearest_double, ratio_bits, round_half_even, scaled, spacing, Similarity, UNIT,
};
use crate::text::{join, joined, texts};

verus! {

/// Configuration of the miner.
#[derive(Debug)]
pub struct DrainConfig {
    /// Prefix tree depth (minimum 3).
    pub depth: usize,
    /// Similarity threshold, a number from 0 to 1.
    pub sim_th: Similarity,
    /// Maximum children per tree node.
    pub max_children: usize,
    /// Maximum number of clusters; the oldest are evicted.
    pub max_clusters: usize,
    /// Wildcard string for parameterized tokens.
    pub param_str: String,
    /// Automatically replace numeric tokens with the wildcard.
    pub parametrize_numeric_tokens: bool,
    /// Extra delimiters to split on in addition to whitespace.
    pub extra_delimiters: Vec<String>,
    /// If not empty, split only on these delimiters instead of whitespace.
    pub delimiters: Vec<String>,
}

/// What a [`DrainConfig`] says.
pub struct ConfigView {
    pub depth: nat,
    pub sim_th: Similarity,
    pub max_children: nat,
    pub max_clusters: nat,
    pub param_str: Seq<char>,
    pub parametrize_numeric_tokens: bool,
    pub extra_delimiters: Seq<Seq<char>>,
    pub delimiters: Seq<Seq<char>>,
}

impl View for DrainConfig {
    type V = ConfigView;

    open spec fn view(&self) -> ConfigView {
        ConfigView {
            depth: self.depth as nat,
            sim_th: self.sim_th,
            max_children: self.max_children as nat,
            max_clusters: self.max_clusters as nat,
            param_str: self.param_str@,
            parametrize_numeric_tokens: self.parametrize_numeric_tokens,
            extra_delimiters: texts(self.extra_delimiters@),
            delimiters: texts(self.delimiters@),
        }
    }
}

impl ConfigView {
    /// How many tokens of a message lead down the tree, below the level of token counts.
    pub open spec fn levels(self) -> nat {
        if self.depth <= 3 {
            1
        } else {
            (self.depth - 2) as nat
        }
    }
}

/// The bit pattern of the double nearest to 0.4.
pub const DEFAULT_SIM_TH: u64 = 0x3FD9_9999_9999_999A;

/// The configuration in which nothing was set.
pub open spec fn default_config() -> ConfigView {
    ConfigView {
        depth: 4,
        sim_th: Similarity { bits: DEFAULT_SIM_TH },
        max_children: 100,
        max_clusters: 1024,
        param_str: "<*>"@,
        parametrize_numeric_tokens: true,
        extra_delimiters: Seq::empty(),
        delimiters: Seq::empty(),
    }
}

impl Default for DrainConfig {
    fn default() -> (res: Self)
        ensures
            res@ == default_config(),
    {
        let config = DrainConfig {
            depth: 4,
            sim_th: Similarity { bits: DEFAULT_SIM_TH },
            max_children: 100,
            max_clusters: 1024,
            param_str: "<*>".to_string(),
            parametrize_numeric_tokens: true,
            extra_delimiters: Vec::new(),
            delimiters: Vec::new(),
        };
        proof {
            assert(texts(config.extra_delimiters@) =~= Seq::empty());
        }
        config
    }
}

/// A copy of a vector of strings.
pub fn copy_strings(strings: &Vec<String>) -> (res: Vec<String>)
    ensures
        texts(res@) == texts(strings@),
{
    let res = strings.clone();
    proof {
        assert(texts(res@) =~= texts(strings@));
    }
    res
}

impl Clone for DrainConfig {
    fn clone(&self) -> (res: Self)
        ensures
            res@ == self@,
    {
        DrainConfig {
            depth: self.depth,
            sim_th: self.sim_th,
            max_children: self.max_children,
            max_clusters: self.max_clusters,
            param_str: self.param_str.clone(),
            parametrize_numeric_tokens: self.parametrize_numeric_tokens,
            extra_delimiters: copy_strings(&self.extra_delimiters),
            delimiters: copy_strings(&self.delimiters),
        }
    }
}

/// A cluster of similar log messages sharing a template.
#[derive(Debug)]
pub struct LogCluster {
    pub cluster_id: usize,
    pub template_tokens: Vec<String>,
    pub size: usize,
    /// Sample log messages for this cluster, without duplicates, at most [`MAX_EXAMPLES`].
    pub examples: Vec<String>,
}

/// What a [`LogCluster`] says.
pub struct ClusterView {
    pub cluster_id: nat,
    pub template_tokens: Seq<Seq<char>>,
    pub size: nat,
    pub examples: Seq<Seq<char>>,
}

/// Max examples to track per cluster.
pub const MAX_EXAMPLES: usize = 5;

impl View for LogCluster {
    type V = ClusterView;

    open spec fn view(&self) -> ClusterView {
        ClusterView {
            cluster_id: self.cluster_id as nat,
            template_tokens: texts(self.template_tokens@),
            size: self.size as nat,
            examples: texts(self.examples@),
        }
    }
}

impl ClusterView {
    /// The template as one line: its tokens with one space between each two.
    pub open spec fn template(self) -> Seq<char> {
        joined(self.template_tokens, " "@)
    }
}

impl Clone for LogCluster {
    fn clone(&self) -> (res: Self)
        ensures
            res@ == self@,
    {
        LogCluster {
            cluster_id: self.cluster_id,
            template_tokens: copy_strings(&self.template_tokens),
            size: self.size,
            examples: copy_strings(&self.examples),
        }
    }
}

impl LogCluster {
    /// The template as one line.
    pub fn get_template(&self) -> (res: String)
        ensures
            res@ == self@.template(),
    {
        join(self.template_tokens.as_slice(), " ")
    }
}

/// The clusters as what they say.
pub open spec fn cluster_views(clusters: Seq<LogCluster>) -> Seq<ClusterView> {
    clusters.map_values(|c: LogCluster| c@)
}

/// Prefix tree node: its children, each under its key, and the indices of the clusters that
/// end here.
#[derive(Debug)]
pub struct Node {
    pub key_to_child: Vec<(String, Node)>,
    pub cluster_ids: Vec<usize>,
}

/// What a [`Node`] says.
#[verifier::ext_equal]
pub struct NodeView {
    pub key_to_child: Map<Seq<char>, NodeView>,
    pub cluster_ids: Seq<nat>,
}

/// Indices as numbers.
pub open spec fn index_views(ids: Seq<usize>) -> Seq<nat> {
    ids.map_values(|i: usize| i as nat)
}

/// The children as what they say.
pub open spec fn child_views(children: Seq<(String, Node)>) -> Seq<NodeView> {
    children.map_values(|c: (String, Node)| c.1@)
}

impl Node {
    /// No node of the tree has two children under one key.
    pub open spec fn wf(&self) -> bool
        decreases self,
    {
        &&& keys(self.key_to_child@).no_duplicates()
        &&& forall|i: int|
            0 <= i < self.key_to_child@.len() ==> (#[trigger] self.key_to_child@[i]).1.wf()
    }
}

impl Node {
    /// The node as what it says.
    pub open spec fn view(&self) -> NodeView
        decreases self,
    {
        let children = self.key_to_child@;
        NodeView {
            key_to_child: zip_map(
                keys(children),
                Seq::new(
                    children.len(),
                    |i: int|
                        if 0 <= i < children.len() {
                            children[i].1.view()
                        } else {
                            arbitrary()
                        },
                ),
            ),
            cluster_ids: index_views(self.cluster_ids@),
        }
    }
}

/// The node without children and clusters.
pub open spec fn empty_node() -> NodeView {
    NodeView { key_to_child: Map::empty(), cluster_ids: Seq::empty() }
}

/// A node's children, as a map from keys.
pub proof fn lemma_node_children(node: &Node)
    ensures
        node@.key_to_child == zip_map(keys(node.key_to_child@), child_views(node.key_to_child@)),
        node@.cluster_ids == index_views(node.cluster_ids@),
{
    let children = node.key_to_child@;
    let m1 = node@.key_to_child;
    let m2 = zip_map(keys(children), child_views(children));
    assert forall|k: Seq<char>| m1.contains_key(k) implies m1[k] == m2[k] by {
        let i = keys(children).index_of(k);
        assert(keys(children)[i] == k);
        assert(child_views(children)[i] == children[i].1@);
    }
    assert(m1 =~= m2);
}

impl Default for Node {
    fn default() -> (res: Self)
        ensures
            res@ == empty_node(),
            res.wf(),
    {
        let node = Node { key_to_child: Vec::new(), cluster_ids: Vec::new() };
        proof {
            lemma_node_children(&node);
            assert(node@.key_to_child =~= Map::empty());
            assert(node@.cluster_ids =~= Seq::empty());
        }
        node
    }
}

/// A copy of a node and all below it.
fn copy_node(node: &Node) -> (res: Node)
    ensures
        res@ == node@,
        node.wf() ==> res.wf(),
    decreases node,
{
    let mut children: Vec<(String, Node)> = Vec::new();
    let mut i: usize = 0;
    while i < node.key_to_child.len()
        invariant
            i <= node.key_to_child@.len(),
            keys(children@) == keys(node.key_to_child@).take(i as int),
            child_views(children@) == child_views(node.key_to_child@).take(i as int),
            node.wf() ==> forall|j: int| 0 <= j < i ==> (#[trigger] children@[j]).1.wf(),
        decreases node.key_to_child@.len() - i,
    {
        let ghost before = children@;
        let key = node.key_to_child[i].0.clone();
        let child = copy_node(&node.key_to_child[i].1);
        children.push((key, child));
        i = i + 1;
        proof {
            assert(children@ == before.push((key, child)));
            assert(keys(before).push(key@) =~= keys(node.key_to_child@).take(i as int));
            assert(keys(children@) =~= keys(before).push(key@));
            assert(keys(children@) =~= keys(node.key_to_child@).take(i as int));
            assert(child_views(children@) =~= child_views(node.key_to_child@).take(i as int));
        }
    }
    let res = Node { key_to_child: children, cluster_ids: node.cluster_ids.clone() };
    proof {
        assert(keys(children@) =~= keys(node.key_to_child@));
        assert(child_views(children@) =~= child_views(node.key_to_child@));
        lemma_node_children(&res);
        lemma_node_children(node);
        assert(res@.cluster_ids =~= node@.cluster_ids);
    }
    res
}

impl Clone for Node {
    fn clone(&self) -> (res: Self)
        ensures
            res@ == self@,
            self.wf() ==> res.wf(),
    {
        copy_node(self)
    }
}

/// Complete state of the miner.
#[derive(Debug)]
pub struct DrainState {
    pub config: DrainConfig,
    pub root: Node,
    pub clusters: Vec<LogCluster>,
    pub next_cluster_id: usize,
}

/// What a [`DrainState`] says.
#[verifier::ext_equal]
pub struct StateView {
    pub config: ConfigView,
    pub root: NodeView,
    pub clusters: Seq<ClusterView>,
    pub next_cluster_id: nat,
}

impl DrainState {
    /// The tree is well-formed.
    pub open spec fn wf(&self) -> bool {
        self.root.wf()
    }
}

impl View for DrainState {
    type V = StateView;

    open spec fn view(&self) -> StateView {
        StateView {
            config: self.config@,
            root: self.root@,
            clusters: cluster_views(self.clusters@),
            next_cluster_id: self.next_cluster_id as nat,
        }
    }
}

impl Clone for DrainState {
    fn clone(&self) -> (res: Self)
        ensures
            res@ == self@,
            self.wf() ==> res.wf(),
    {
        let clusters = self.clusters.clone();
        proof {
            assert(cluster_views(clusters@) =~= cluster_views(self.clusters@));
        }
        DrainState {
            config: self.config.clone(),
            root: self.root.clone(),
            clusters,
            next_cluster_id: self.next_cluster_id,
        }
    }
}

/// The default threshold is the double nearest to two fifths.
pub proof fn law_default_threshold()
    ensures
        ratio_bits(2, 5) == DEFAULT_SIM_TH,
{
    reveal_with_fuel(doublings, 3);
    reveal_with_fuel(scaled, 3);
    assert(spacing(2) == 1 && spacing(5) == 1);
    assert(round_half_even(2, 1) == 2 && round_half_even(5, 1) == 5);
    assert(nearest_double(2) == 2 * 1 && nearest_double(5) == 5 * 1);
    let num = 8 * UNIT as nat;
    assert(num / 5 == 7205759403792793 && num % 5 == 3);
}

} // verus!
