//! Mining: matching messages to clusters, and learning from them.
use vstd::prelude::*;
use crate::similarity::{at_least, ratio, ratio_bits, reaches, Similarity};
use crate::text::texts;
use crate::tree::{
    add_to_tree, adjust_tree_indices, find_leaf, leaf, shifted, tree_with_cluster, without_oldest,
};
use crate::types::{
    cluster_views, copy_strings, empty_node, index_views, lemma_node_children, ClusterView,
    ConfigView, DrainConfig, DrainState, LogCluster, Node, NodeView, StateView, MAX_EXAMPLES,
};

verus! {

/// Whether a template's token covers a message's token: it is the same or the wildcard.
pub open spec fn covers_token(t: Seq<char>, m: Seq<char>, param: Seq<char>) -> bool {
    t == m || t == param
}

/// At how many positions a template's token covers the message's.
pub open spec fn match_count(
    template: Seq<Seq<char>>,
    tokens: Seq<Seq<char>>,
    param: Seq<char>,
) -> nat
    decreases template.len(),
{
    if template.len() == 0 {
        0
    } else {
        match_count(template.drop_last(), tokens.drop_last(), param) + if covers_token(
            template.last(),
            tokens.last(),
            param,
        ) {
            1nat
        } else {
            0
        }
    }
}

/// The similarity of a template and a message: the share of the positions at which the
/// template covers the message, and zero where the lengths differ.
pub open spec fn seq_similarity(
    template: Seq<Seq<char>>,
    tokens: Seq<Seq<char>>,
    param: Seq<char>,
) -> Similarity {
    if template.len() != tokens.len() {
        Similarity { bits: 0 }
    } else {
        Similarity {
            bits: ratio_bits(match_count(template, tokens, param), template.len()) as u64,
        }
    }
}

/// Two sequences of tokens merged into a template: what is the same stays, what differs
/// becomes the wildcard, and the longer one is cut.
pub open spec fn merged(a: Seq<Seq<char>>, b: Seq<Seq<char>>, param: Seq<char>) -> Seq<Seq<char>> {
    Seq::new(
        if a.len() <= b.len() {
            a.len()
        } else {
            b.len()
        },
        |i: int|
            if a[i] == b[i] {
                a[i]
            } else {
                param
            },
    )
}

/// The best of the candidates and its similarity: the first with the greatest. Indices of no
/// cluster are passed over.
pub open spec fn best_of(
    clusters: Seq<ClusterView>,
    ids: Seq<nat>,
    tokens: Seq<Seq<char>>,
    param: Seq<char>,
) -> Option<(nat, Similarity)>
    decreases ids.len(),
{
    if ids.len() == 0 {
        None
    } else {
        let best = best_of(clusters, ids.drop_last(), tokens, param);
        let id = ids.last();
        let sim = seq_similarity(clusters[id as int].template_tokens, tokens, param);
        if id < clusters.len() && (best matches Some((_, b)) ==> sim.bits > b.bits) {
            Some((id, sim))
        } else {
            best
        }
    }
}

impl ClusterView {
    /// The cluster after one more message.
    pub open spec fn absorbing(
        self,
        tokens: Seq<Seq<char>>,
        content: Seq<char>,
        param: Seq<char>,
    ) -> ClusterView {
        ClusterView {
            cluster_id: self.cluster_id,
            template_tokens: merged(self.template_tokens, tokens, param),
            size: self.size + 1,
            examples: if self.examples.len() < MAX_EXAMPLES && !self.examples.contains(content) {
                self.examples.push(content)
            } else {
                self.examples
            },
        }
    }
}

impl StateView {
    /// The state without clusters.
    pub open spec fn fresh(config: ConfigView) -> StateView {
        StateView { config, root: empty_node(), clusters: Seq::empty(), next_cluster_id: 1 }
    }

    /// The best of the candidates and its similarity, if that reaches the threshold.
    pub open spec fn accepted(self, ids: Seq<nat>, tokens: Seq<Seq<char>>) -> Option<
        (nat, Similarity),
    > {
        match best_of(self.clusters, ids, tokens, self.config.param_str) {
            Some((id, sim)) => if at_least(sim, self.config.sim_th) {
                Some((id, sim))
            } else {
                None
            },
            None => None,
        }
    }

    /// The index of the cluster that the tokens belong to, and its similarity.
    pub open spec fn found(self, tokens: Seq<Seq<char>>) -> Option<(nat, Similarity)> {
        match leaf(self.root, tokens, self.config) {
            Some(node) => self.accepted(node.cluster_ids, tokens),
            None => None,
        }
    }

    /// The state after cluster `id` absorbed a message.
    pub open spec fn updated(
        self,
        id: nat,
        tokens: Seq<Seq<char>>,
        content: Seq<char>,
    ) -> StateView {
        let cluster = self.clusters[id as int].absorbing(tokens, content, self.config.param_str);
        StateView { clusters: self.clusters.update(id as int, cluster), ..self }
    }

    /// The state with a new cluster for a message.
    pub open spec fn extended(self, tokens: Seq<Seq<char>>, content: Seq<char>) -> StateView {
        let cluster = ClusterView {
            cluster_id: self.next_cluster_id,
            template_tokens: tokens,
            size: 1,
            examples: seq![content],
        };
        StateView {
            root: tree_with_cluster(self.root, tokens, self.config, self.clusters.len()),
            clusters: self.clusters.push(cluster),
            next_cluster_id: self.next_cluster_id + 1,
            ..self
        }
    }

    /// The state without as many of the oldest clusters as there are too many.
    pub open spec fn evicted(self) -> StateView {
        if self.clusters.len() > self.config.max_clusters {
            let d = (self.clusters.len() - self.config.max_clusters) as nat;
            StateView {
                root: without_oldest(self.root, d),
                clusters: self.clusters.skip(d as int),
                ..self
            }
        } else {
            self
        }
    }

    /// The state after a message, and the id of the message's cluster. A message without
    /// tokens changes nothing and gets 0.
    pub open spec fn fed(self, content: Seq<char>) -> (StateView, nat) {
        let tokens = self.config.tokens(content);
        if tokens.len() == 0 {
            (self, 0)
        } else {
            match self.found(tokens) {
                Some((id, _)) => (
                    self.updated(id, tokens, content),
                    self.clusters[id as int].cluster_id,
                ),
                None => (self.extended(tokens, content).evicted(), self.next_cluster_id),
            }
        }
    }

    /// Whether the counters have room for a message: its cluster's size, or the next id.
    pub open spec fn has_room(self, content: Seq<char>) -> bool {
        let tokens = self.config.tokens(content);
        tokens.len() > 0 ==> match self.found(tokens) {
            Some((id, _)) => self.clusters[id as int].size < usize::MAX,
            None => self.next_cluster_id < usize::MAX,
        }
    }

    /// The cluster that a message matches.
    pub open spec fn matching(self, content: Seq<char>) -> Option<ClusterView> {
        let tokens = self.config.tokens(content);
        if tokens.len() == 0 {
            None
        } else {
            match self.found(tokens) {
                Some((id, _)) => Some(self.clusters[id as int]),
                None => None,
            }
        }
    }
}

/// The greatest id among the clusters, or 0.
pub open spec fn greatest_id(clusters: Seq<ClusterView>) -> nat
    decreases clusters.len(),
{
    if clusters.len() == 0 {
        0
    } else if clusters.last().cluster_id > greatest_id(clusters.drop_last()) {
        clusters.last().cluster_id
    } else {
        greatest_id(clusters.drop_last())
    }
}

/// The tree in which each cluster stands at the place for its template.
pub open spec fn tree_of(clusters: Seq<ClusterView>, config: ConfigView) -> NodeView
    decreases clusters.len(),
{
    if clusters.len() == 0 {
        empty_node()
    } else {
        tree_with_cluster(
            tree_of(clusters.drop_last(), config),
            clusters.last().template_tokens,
            config,
            (clusters.len() - 1) as nat,
        )
    }
}

impl StateView {
    /// The state with the given clusters, its tree built anew from their templates.
    pub open spec fn rebuilt(config: ConfigView, clusters: Seq<ClusterView>) -> StateView {
        StateView {
            config,
            root: tree_of(clusters, config),
            clusters,
            next_cluster_id: greatest_id(clusters) + 1,
        }
    }
}

/// The similarity of a template and a sequence of tokens.
pub fn get_seq_distance(seq1: &[String], seq2: &[String], param_str: &str) -> (sim: Similarity)
    ensures
        sim == seq_similarity(texts(seq1@), texts(seq2@), param_str@),
{
    let ghost a = texts(seq1@);
    let ghost b = texts(seq2@);
    if seq1.len() != seq2.len() {
        return Similarity { bits: 0 };
    }
    let param = param_str.to_string();
    let mut count: usize = 0;
    let mut i: usize = 0;
    while i < seq1.len()
        invariant
            i <= seq1@.len(),
            seq1@.len() == seq2@.len(),
            a == texts(seq1@),
            b == texts(seq2@),
            param@ == param_str@,
            count <= i,
            count == match_count(a.take(i as int), b.take(i as int), param_str@),
        decreases seq1@.len() - i,
    {
        proof {
            assert(a.take(i + 1).drop_last() =~= a.take(i as int));
            assert(b.take(i + 1).drop_last() =~= b.take(i as int));
        }
        if seq1[i] == seq2[i] || seq1[i] == param {
            count = count + 1;
        }
        i = i + 1;
    }
    proof {
        assert(a.take(i as int) =~= a);
        assert(b.take(i as int) =~= b);
    }
    ratio(count, seq1.len())
}

/// Merges two sequences into a template, replacing differences with `param_str`.
pub fn create_template(seq1: &[String], seq2: &[String], param_str: &str) -> (res: Vec<String>)
    ensures
        texts(res@) == merged(texts(seq1@), texts(seq2@), param_str@),
{
    let ghost want = merged(texts(seq1@), texts(seq2@), param_str@);
    let mut res: Vec<String> = Vec::new();
    let mut i: usize = 0;
    while i < seq1.len() && i < seq2.len()
        invariant
            i <= seq1@.len(),
            i <= seq2@.len(),
            want == merged(texts(seq1@), texts(seq2@), param_str@),
            texts(res@) == want.take(i as int),
        decreases seq1@.len() - i,
    {
        let ghost before = res@;
        let token = if seq1[i] == seq2[i] {
            seq1[i].clone()
        } else {
            param_str.to_string()
        };
        res.push(token);
        proof {
            assert(texts(res@) =~= texts(before).push(token@));
            assert(want.take(i + 1) =~= want.take(i as int).push(token@));
        }
        i = i + 1;
    }
    proof {
        assert(want.take(i as int) =~= want);
    }
    res
}

/// Eviction in two steps.
pub proof fn lemma_without_oldest_twice(node: NodeView, a: nat, b: nat)
    ensures
        without_oldest(without_oldest(node, a), b) == without_oldest(node, a + b),
    decreases node,
{
    let once = without_oldest(node, a);
    let twice = without_oldest(once, b);
    let direct = without_oldest(node, a + b);
    lemma_shifted_twice(node.cluster_ids, a, b);
    assert forall|k: Seq<char>| twice.key_to_child.contains_key(k) implies twice.key_to_child[k]
        == direct.key_to_child[k] by {
        lemma_without_oldest_twice(node.key_to_child[k], a, b);
    }
    assert(twice.key_to_child =~= direct.key_to_child);
}

proof fn lemma_shifted_twice(ids: Seq<nat>, a: nat, b: nat)
    ensures
        shifted(shifted(ids, a), b) == shifted(ids, a + b),
    decreases ids.len(),
{
    if ids.len() > 0 {
        lemma_shifted_twice(ids.drop_last(), a, b);
        if ids.last() >= a {
            let s = shifted(ids.drop_last(), a);
            assert(s.push((ids.last() - a) as nat).drop_last() =~= s);
        }
    }
}

/// Eviction of nothing.
pub proof fn lemma_without_oldest_none(node: NodeView)
    ensures
        without_oldest(node, 0) == node,
    decreases node,
{
    let same = without_oldest(node, 0);
    lemma_shifted_none(node.cluster_ids);
    assert forall|k: Seq<char>| same.key_to_child.contains_key(k) implies same.key_to_child[k]
        == node.key_to_child[k] by {
        lemma_without_oldest_none(node.key_to_child[k]);
    }
    assert(same.key_to_child =~= node.key_to_child);
}

proof fn lemma_shifted_none(ids: Seq<nat>)
    ensures
        shifted(ids, 0) == ids,
    decreases ids.len(),
{
    if ids.len() > 0 {
        lemma_shifted_none(ids.drop_last());
        assert(ids.drop_last().push(ids.last()) =~= ids);
    }
}

/// Whether `strings` holds the text `s`.
fn holds_text(strings: &Vec<String>, s: &String) -> (res: bool)
    ensures
        res == texts(strings@).contains(s@),
{
    let mut i: usize = 0;
    while i < strings.len()
        invariant
            i <= strings@.len(),
            forall|j: int| 0 <= j < i ==> texts(strings@)[j] != s@,
        decreases strings@.len() - i,
    {
        if strings[i] == *s {
            proof {
                assert(texts(strings@)[i as int] == s@);
            }
            return true;
        }
        i = i + 1;
    }
    false
}

impl DrainState {
    /// A state without clusters.
    pub fn new(config: DrainConfig) -> (res: Self)
        ensures
            res.wf(),
            res@ == StateView::fresh(config@),
    {
        let state = DrainState {
            config,
            root: Node::default(),
            clusters: Vec::new(),
            next_cluster_id: 1,
        };
        proof {
            assert(state@.clusters =~= Seq::empty());
        }
        state
    }

    /// The best matching cluster among the candidates: its index and its similarity.
    pub fn fast_match(&self, cluster_ids: &[usize], tokens: &[String]) -> (res: Option<
        (usize, Similarity),
    >)
        ensures
            match res {
                Some((idx, sim)) => idx < self.clusters@.len() && self@.accepted(
                    index_views(cluster_ids@),
                    texts(tokens@),
                ) == Some((idx as nat, sim)),
                None => self@.accepted(index_views(cluster_ids@), texts(tokens@)) is None,
            },
    {
        let ghost ids = index_views(cluster_ids@);
        let ghost words = texts(tokens@);
        let mut best: Option<(usize, Similarity)> = None;
        let mut i: usize = 0;
        while i < cluster_ids.len()
            invariant
                i <= cluster_ids@.len(),
                ids == index_views(cluster_ids@),
                words == texts(tokens@),
                best_of(self@.clusters, ids.take(i as int), words, self@.config.param_str) == (
                match best {
                    Some((idx, sim)) => Some((idx as nat, sim)),
                    None => None,
                }),
                best matches Some((idx, _)) ==> idx < self.clusters@.len(),
            decreases cluster_ids@.len() - i,
        {
            let cluster_idx: usize = cluster_ids[i];
            proof {
                assert(ids.take(i + 1).drop_last() =~= ids.take(i as int));
                assert(ids.take(i + 1).last() == cluster_idx as nat);
            }
            if cluster_idx < self.clusters.len() {
                let sim = get_seq_distance(
                    self.clusters[cluster_idx].template_tokens.as_slice(),
                    tokens,
                    self.config.param_str.as_str(),
                );
                let better = match best {
                    Some((_, best_sim)) => sim.bits > best_sim.bits,
                    None => true,
                };
                if better {
                    best = Some((cluster_idx, sim));
                }
            }
            i = i + 1;
        }
        proof {
            assert(ids.take(i as int) =~= ids);
        }
        match best {
            Some((idx, sim)) => if reaches(sim, self.config.sim_th) {
                Some((idx, sim))
            } else {
                None
            },
            None => None,
        }
    }

    /// Searches the prefix tree, then matches among the candidates found there.
    pub fn tree_search_match(&self, tokens: &[String]) -> (res: Option<(usize, Similarity)>)
        requires
            self.wf(),
        ensures
            match res {
                Some((idx, sim)) => idx < self.clusters@.len() && self@.found(texts(tokens@))
                    == Some((idx as nat, sim)),
                None => self@.found(texts(tokens@)) is None,
            },
    {
        match find_leaf(&self.root, tokens, &self.config) {
            Some(node) => {
                proof {
                    lemma_node_children(node);
                }
                self.fast_match(node.cluster_ids.as_slice(), tokens)
            },
            None => None,
        }
    }

    /// Adds a cluster to the prefix tree.
    pub fn add_to_prefix_tree(&mut self, cluster_idx: usize, tokens: &[String])
        requires
            old(self).wf(),
        ensures
            final(self).wf(),
            final(self)@ == (StateView {
                root: tree_with_cluster(
                    old(self)@.root,
                    texts(tokens@),
                    old(self)@.config,
                    cluster_idx as nat,
                ),
                ..old(self)@
            }),
    {
        add_to_tree(&mut self.root, tokens, &self.config, cluster_idx);
    }

    /// Evicts the oldest clusters if there are more than `max_clusters`.
    pub fn evict_if_needed(&mut self)
        requires
            old(self).wf(),
        ensures
            final(self).wf(),
            final(self)@ == old(self)@.evicted(),
    {
        let ghost mut d: nat = 0;
        proof {
            lemma_without_oldest_none(self@.root);
            assert(self@.clusters.skip(0) =~= self@.clusters);
        }
        while self.clusters.len() > self.config.max_clusters
            invariant
                self.wf(),
                d <= old(self)@.clusters.len(),
                d > 0 ==> old(self)@.clusters.len() - d >= old(self)@.config.max_clusters,
                self@ == (StateView {
                    root: without_oldest(old(self)@.root, d),
                    clusters: old(self)@.clusters.skip(d as int),
                    ..old(self)@
                }),
            decreases self.clusters@.len(),
        {
            let ghost before = self.clusters@;
            proof {
                assert(cluster_views(before).len() == before.len());
            }
            self.clusters.remove(0);
            adjust_tree_indices(&mut self.root);
            proof {
                lemma_without_oldest_twice(old(self)@.root, d, 1);
                assert(cluster_views(self.clusters@) =~= cluster_views(before).skip(1));
                d = d + 1;
                assert(self@.clusters =~= old(self)@.clusters.skip(d as int));
            }
        }
        proof {
            assert(self@.clusters.len() == self.clusters@.len());
        }
    }

    /// Learns from a message whose search ended as `found` says.
    fn learn(
        &mut self,
        content: &str,
        tokens: Vec<String>,
        found: Option<(usize, Similarity)>,
    ) -> (id: usize)
        requires
            old(self).wf(),
            tokens@.len() > 0,
            texts(tokens@) == old(self)@.config.tokens(content@),
            match found {
                Some((idx, sim)) => idx < old(self).clusters@.len() && old(self)@.found(
                    texts(tokens@),
                ) == Some((idx as nat, sim)),
                None => old(self)@.found(texts(tokens@)) is None,
            },
            old(self)@.has_room(content@),
        ensures
            final(self).wf(),
            (final(self)@, id as nat) == old(self)@.fed(content@),
    {
        let ghost words = texts(tokens@);
        proof {
            assert(words.len() == tokens@.len());
        }
        match found {
            Some((idx, _)) => {
                let new_template = create_template(
                    self.clusters[idx].template_tokens.as_slice(),
                    tokens.as_slice(),
                    self.config.param_str.as_str(),
                );
                let example = content.to_string();
                let ghost before = self.clusters@;
                let keep = self.clusters[idx].examples.len() < MAX_EXAMPLES && !holds_text(
                    &self.clusters[idx].examples,
                    &example,
                );
                self.clusters[idx].template_tokens = new_template;
                self.clusters[idx].size = self.clusters[idx].size + 1;
                if keep {
                    self.clusters[idx].examples.push(example);
                }
                proof {
                    let after = self.clusters@;
                    let param = self@.config.param_str;
                    let want = before[idx as int]@.absorbing(words, content@, param);
                    assert(texts(before[idx as int].examples@).len()
                        == before[idx as int].examples@.len());
                    assert(after[idx as int]@.examples =~= want.examples);
                    assert(after[idx as int]@ == want);
                    assert(self@.clusters =~= old(self)@.clusters.update(idx as int, want));
                }
                self.clusters[idx].cluster_id
            },
            None => {
                let cluster_id = self.next_cluster_id;
                self.next_cluster_id = self.next_cluster_id + 1;
                let mut examples: Vec<String> = Vec::new();
                examples.push(content.to_string());
                let cluster = LogCluster {
                    cluster_id,
                    template_tokens: copy_strings(&tokens),
                    size: 1,
                    examples,
                };
                let cluster_idx = self.clusters.len();
                self.clusters.push(cluster);
                self.add_to_prefix_tree(cluster_idx, tokens.as_slice());
                proof {
                    assert(cluster@.examples =~= seq![content@]);
                    assert(old(self)@.clusters.len() == cluster_idx);
                    assert(self@.clusters =~= old(self)@.clusters.push(cluster@));
                    assert(self@ =~= old(self)@.extended(words, content@));
                }
                self.evict_if_needed();
                cluster_id
            },
        }
    }

    /// Trains on a log message and returns the id of its cluster: the one it matches, or a new
    /// one. A message without tokens changes nothing and gets 0.
    pub fn add_log_message(&mut self, content: &str) -> (id: usize)
        requires
            old(self).wf(),
            old(self)@.has_room(content@),
        ensures
            final(self).wf(),
            (final(self)@, id as nat) == old(self)@.fed(content@),
    {
        let tokens = self.tokenize(content);
        proof {
            assert(texts(tokens@).len() == tokens@.len());
        }
        if tokens.len() == 0 {
            return 0;
        }
        let found = self.tree_search_match(tokens.as_slice());
        self.learn(content, tokens, found)
    }

    /// Trains on a log message as [`Self::add_log_message`] does, unless a counter has no room
    /// for it: then nothing changes, and nothing is returned.
    pub fn try_add_log_message(&mut self, content: &str) -> (res: Option<usize>)
        requires
            old(self).wf(),
        ensures
            final(self).wf(),
            match res {
                Some(id) => old(self)@.has_room(content@) && (final(self)@, id as nat) == old(
                    self,
                )@.fed(content@),
                None => !old(self)@.has_room(content@) && final(self)@ == old(self)@,
            },
    {
        let tokens = self.tokenize(content);
        proof {
            assert(texts(tokens@).len() == tokens@.len());
        }
        if tokens.len() == 0 {
            return Some(0);
        }
        let found = self.tree_search_match(tokens.as_slice());
        let room = match found {
            Some((idx, _)) => self.clusters[idx].size < usize::MAX,
            None => self.next_cluster_id < usize::MAX,
        };
        if room {
            Some(self.learn(content, tokens, found))
        } else {
            None
        }
    }

    /// Matches a log message against the model without modifying the state.
    pub fn match_log_message(&self, content: &str) -> (res: Option<&LogCluster>)
        requires
            self.wf(),
        ensures
            match res {
                Some(c) => self@.matching(content@) == Some(c@),
                None => self@.matching(content@) is None,
            },
    {
        let tokens = self.tokenize(content);
        proof {
            assert(texts(tokens@).len() == tokens@.len());
        }
        if tokens.len() == 0 {
            return None;
        }
        match self.tree_search_match(tokens.as_slice()) {
            Some((idx, _)) => Some(&self.clusters[idx]),
            None => None,
        }
    }

    /// The clusters, oldest first.
    pub fn get_clusters(&self) -> (res: &[LogCluster])
        ensures
            res@ == self.clusters@,
            cluster_views(res@) == self@.clusters,
    {
        self.clusters.as_slice()
    }

    /// Rebuilds a state from clusters, for example after they were loaded from a table. If there
    /// are more than `max_clusters`, the oldest are evicted; the next id is greater than that of
    /// any given cluster.
    pub fn from_clusters(config: DrainConfig, clusters: Vec<LogCluster>) -> (res: Self)
        requires
            forall|i: int|
                0 <= i < clusters@.len() ==> (#[trigger] clusters@[i]).cluster_id < usize::MAX,
        ensures
            res.wf(),
            res@ == StateView::rebuilt(config@, cluster_views(clusters@)).evicted(),
    {
        let ghost views = cluster_views(clusters@);
        let mut greatest: usize = 0;
        let mut i: usize = 0;
        while i < clusters.len()
            invariant
                i <= clusters@.len(),
                views == cluster_views(clusters@),
                greatest < usize::MAX,
                greatest == greatest_id(views.take(i as int)),
                forall|i: int|
                    0 <= i < clusters@.len() ==> (#[trigger] clusters@[i]).cluster_id < usize::MAX,
            decreases clusters@.len() - i,
        {
            proof {
                assert(views.take(i + 1).drop_last() =~= views.take(i as int));
            }
            if clusters[i].cluster_id > greatest {
                greatest = clusters[i].cluster_id;
            }
            i = i + 1;
        }
        proof {
            assert(views.take(i as int) =~= views);
        }
        let mut state = DrainState {
            config,
            root: Node::default(),
            clusters,
            next_cluster_id: greatest + 1,
        };
        let mut idx: usize = 0;
        while idx < state.clusters.len()
            invariant
                state.wf(),
                idx <= state.clusters@.len(),
                state.clusters@ == clusters@,
                views == cluster_views(clusters@),
                state@ == (StateView {
                    config: config@,
                    root: tree_of(views.take(idx as int), config@),
                    clusters: views,
                    next_cluster_id: greatest_id(views) + 1,
                }),
            decreases state.clusters@.len() - idx,
        {
            add_to_tree(
                &mut state.root,
                state.clusters[idx].template_tokens.as_slice(),
                &state.config,
                idx,
            );
            proof {
                assert(views.take(idx + 1).drop_last() =~= views.take(idx as int));
            }
            idx = idx + 1;
        }
        proof {
            assert(views.take(idx as int) =~= views);
        }
        state.evict_if_needed();
        state
    }
}

} // verus!
