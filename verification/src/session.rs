//! Models in session memory, each under its name, and models as values.
use vstd::prelude::*;
use crate::entries::{
    keys, lemma_zip_map_at, lemma_zip_map_push, lemma_zip_map_remove, lemma_zip_map_update,
    position, zip_map,
};
use crate::sql::{delete_sql, delete_statement, insert_sql, insert_statement};
use crate::text::{split_whitespace, texts, words};
use crate::types::{
    cluster_views, copy_strings, default_config, ClusterView, ConfigView, DrainConfig, DrainState,
    LogCluster, StateView,
};

verus! {

/// The text of an optional string.
pub open spec fn optional_text(s: Option<String>) -> Option<Seq<char>> {
    match s {
        Some(t) => Some(t@),
        None => None,
    }
}

/// The text of an optional string slice.
pub open spec fn optional_str(s: Option<&str>) -> Option<Seq<char>> {
    match s {
        Some(t) => Some(t@),
        None => None,
    }
}

/// A model in session memory.
#[derive(Debug)]
pub struct ModelSession {
    pub state: DrainState,
    /// The table to which the model is saved, if one was bound to it.
    pub table: Option<String>,
}

/// What a [`ModelSession`] says.
pub struct SessionView {
    pub state: StateView,
    pub table: Option<Seq<char>>,
}

impl View for ModelSession {
    type V = SessionView;

    open spec fn view(&self) -> SessionView {
        SessionView { state: self.state@, table: optional_text(self.table) }
    }
}

/// The models of a session.
#[derive(Debug)]
pub struct Sessions {
    models: Vec<(String, ModelSession)>,
}

/// What sessions say, in order.
pub open spec fn session_views(models: Seq<(String, ModelSession)>) -> Seq<SessionView> {
    models.map_values(|m: (String, ModelSession)| m.1@)
}

impl View for Sessions {
    type V = Map<Seq<char>, SessionView>;

    closed spec fn view(&self) -> Map<Seq<char>, SessionView> {
        zip_map(keys(self.models@), session_views(self.models@))
    }
}

/// Why a request is refused.
#[derive(Debug)]
pub enum SessionError {
    /// No model of this name is loaded.
    NotLoaded(String),
    /// No model of this name is loaded, so it cannot be saved.
    NotLoadedForDump(String),
    /// A model is to be saved, and no table is given or bound.
    NoTable,
    /// A counter of the model has reached its greatest value.
    CounterFull,
}

impl SessionError {
    /// The message for the user.
    pub open spec fn text(self) -> Seq<char> {
        match self {
            SessionError::NotLoaded(name) => "model '"@ + name@
                + "' not loaded, call drain3_load first"@,
            SessionError::NotLoadedForDump(name) => "model '"@ + name@ + "' not loaded"@,
            SessionError::NoTable => "no table specified, pass table_name or bind at load"@,
            SessionError::CounterFull => "attempt to add with overflow"@,
        }
    }

    /// The message for the user.
    pub fn message(&self) -> (res: String)
        ensures
            res@ == self.text(),
    {
        match self {
            SessionError::NotLoaded(name) => {
                let mut res = "model '".to_string();
                res.append(name.as_str());
                res.append("' not loaded, call drain3_load first");
                res
            },
            SessionError::NotLoadedForDump(name) => {
                let mut res = "model '".to_string();
                res.append(name.as_str());
                res.append("' not loaded");
                res
            },
            SessionError::NoTable => {
                "no table specified, pass table_name or bind at load".to_string()
            },
            SessionError::CounterFull => "attempt to add with overflow".to_string(),
        }
    }
}

/// A row of a table of clusters, as it was read.
#[derive(Debug)]
pub struct TableRow {
    pub id: Option<i64>,
    pub template: Option<String>,
    pub size: Option<i64>,
    pub examples: Option<Vec<String>>,
}

impl TableRow {
    /// The cluster id in the row, with 0 for none.
    pub open spec fn cluster_id(self) -> usize {
        (match self.id {
            Some(id) => id,
            None => 0,
        }) as usize
    }
}

impl View for TableRow {
    type V = ClusterView;

    /// The cluster that the row stands for: its template split on whitespace, with zeros and
    /// empty texts for what is missing.
    open spec fn view(&self) -> ClusterView {
        ClusterView {
            cluster_id: self.cluster_id() as nat,
            template_tokens: match self.template {
                Some(template) => words(template@),
                None => Seq::empty(),
            },
            size: ((match self.size {
                Some(size) => size,
                None => 0,
            }) as usize) as nat,
            examples: match self.examples {
                Some(examples) => texts(examples@),
                None => Seq::empty(),
            },
        }
    }
}

/// The clusters that rows stand for.
pub open spec fn row_views(rows: Seq<TableRow>) -> Seq<ClusterView> {
    rows.map_values(|r: TableRow| r@)
}

/// The cluster that a row stands for.
pub fn cluster_from_row(row: &TableRow) -> (cluster: LogCluster)
    ensures
        cluster@ == row@,
        cluster.cluster_id == row.cluster_id(),
{
    let id: i64 = match row.id {
        Some(id) => id,
        None => 0,
    };
    let size: i64 = match row.size {
        Some(size) => size,
        None => 0,
    };
    let template_tokens: Vec<String> = match &row.template {
        Some(template) => split_whitespace(template.as_str()),
        None => Vec::new(),
    };
    let examples: Vec<String> = match &row.examples {
        Some(examples) => copy_strings(examples),
        None => Vec::new(),
    };
    let cluster = LogCluster {
        cluster_id: id as usize,
        template_tokens,
        size: size as usize,
        examples,
    };
    proof {
        assert(cluster@.template_tokens =~= row@.template_tokens);
        assert(cluster@.examples =~= row@.examples);
    }
    cluster
}

/// The clusters that rows stand for.
pub fn clusters_from_rows(rows: &Vec<TableRow>) -> (clusters: Vec<LogCluster>)
    ensures
        cluster_views(clusters@) == row_views(rows@),
        forall|i: int|
            0 <= i < clusters@.len() ==> (#[trigger] clusters@[i]).cluster_id
                == rows@[i].cluster_id(),
{
    let mut clusters: Vec<LogCluster> = Vec::new();
    let mut i: usize = 0;
    while i < rows.len()
        invariant
            i <= rows@.len(),
            clusters@.len() == i,
            cluster_views(clusters@) == row_views(rows@).take(i as int),
            forall|j: int|
                0 <= j < i ==> (#[trigger] clusters@[j]).cluster_id == rows@[j].cluster_id(),
        decreases rows@.len() - i,
    {
        let ghost before = clusters@;
        let cluster = cluster_from_row(&rows[i]);
        clusters.push(cluster);
        proof {
            assert(cluster_views(clusters@) =~= cluster_views(before).push(cluster@));
            assert(row_views(rows@).take(i + 1) =~= row_views(rows@).take(i as int).push(
                cluster@,
            ));
        }
        i = i + 1;
    }
    proof {
        assert(row_views(rows@).take(i as int) =~= row_views(rows@));
        assert(cluster_views(clusters@).len() == clusters@.len());
    }
    clusters
}

/// Whether every cluster has an id that leaves room for a greater one.
fn ids_have_room(clusters: &Vec<LogCluster>) -> (res: bool)
    ensures
        res ==> forall|i: int|
            0 <= i < clusters@.len() ==> (#[trigger] clusters@[i]).cluster_id < usize::MAX,
        !res ==> exists|i: int|
            0 <= i < clusters@.len() && (#[trigger] clusters@[i]).cluster_id == usize::MAX,
{
    let mut i: usize = 0;
    while i < clusters.len()
        invariant
            i <= clusters@.len(),
            forall|j: int| 0 <= j < i ==> (#[trigger] clusters@[j]).cluster_id < usize::MAX,
        decreases clusters@.len() - i,
    {
        if clusters[i].cluster_id == usize::MAX {
            return false;
        }
        i = i + 1;
    }
    true
}

/// A cluster as it is listed: id, template, size, examples.
pub type ClusterRow = (i64, String, i64, Vec<String>);

/// What a listed cluster says.
pub open spec fn listed(row: ClusterRow) -> (i64, Seq<char>, i64, Seq<Seq<char>>) {
    (row.0, row.1@, row.2, texts(row.3@))
}

/// A cluster as it is listed.
pub open spec fn listing(cluster: ClusterView) -> (i64, Seq<char>, i64, Seq<Seq<char>>) {
    (cluster.cluster_id as i64, cluster.template(), cluster.size as i64, cluster.examples)
}

/// The clusters of a state, as they are listed.
pub fn list_clusters(state: &DrainState) -> (rows: Vec<ClusterRow>)
    ensures
        rows@.map_values(|r: ClusterRow| listed(r)) == state@.clusters.map_values(
            |c: ClusterView| listing(c),
        ),
{
    let ghost want = state@.clusters.map_values(|c: ClusterView| listing(c));
    let clusters = state.get_clusters();
    let mut rows: Vec<ClusterRow> = Vec::new();
    let mut i: usize = 0;
    while i < clusters.len()
        invariant
            i <= clusters@.len(),
            cluster_views(clusters@) == state@.clusters,
            want == state@.clusters.map_values(|c: ClusterView| listing(c)),
            rows@.map_values(|r: ClusterRow| listed(r)) == want.take(i as int),
        decreases clusters@.len() - i,
    {
        let ghost before = rows@;
        let row = (
            clusters[i].cluster_id as i64,
            clusters[i].get_template(),
            clusters[i].size as i64,
            copy_strings(&clusters[i].examples),
        );
        rows.push(row);
        proof {
            assert(state@.clusters[i as int] == clusters@[i as int]@);
            assert(rows@.map_values(|r: ClusterRow| listed(r)) =~= before.map_values(
                |r: ClusterRow| listed(r),
            ).push(listed(row)));
            assert(want.take(i + 1) =~= want.take(i as int).push(listed(row)));
        }
        i = i + 1;
    }
    proof {
        assert(cluster_views(clusters@).len() == clusters@.len());
        assert(want.take(i as int) =~= want);
    }
    rows
}

/// The statements that save a model: one that deletes its old rows, then one for each cluster.
#[derive(Debug)]
pub struct Dump {
    pub delete: String,
    pub inserts: Vec<String>,
    /// How many clusters are saved.
    pub saved: i64,
}

/// A loaded model, as it is listed: name, number of clusters, table.
pub type ModelRow = (String, i64, Option<String>);

/// The names of listed models.
pub open spec fn model_names(rows: Seq<ModelRow>) -> Seq<Seq<char>> {
    rows.map_values(|r: ModelRow| r.0@)
}

/// The state of a model that is loaded: without clusters if none were read, else rebuilt, with
/// no more clusters than it may have.
pub open spec fn loaded_state(config: ConfigView, clusters: Seq<ClusterView>) -> StateView {
    if clusters.len() == 0 {
        StateView::fresh(config)
    } else {
        StateView::rebuilt(config, clusters).evicted()
    }
}

impl Sessions {
    /// No name twice, and every tree well-formed.
    pub closed spec fn wf(&self) -> bool {
        &&& keys(self.models@).no_duplicates()
        &&& forall|i: int| 0 <= i < self.models@.len() ==> (#[trigger] self.models@[i]).1.state.wf()
    }

    /// No models.
    pub fn new() -> (res: Self)
        ensures
            res.wf(),
            res@.is_empty(),
    {
        let res = Sessions { models: Vec::new() };
        proof {
            assert(res@ =~= Map::empty());
        }
        res
    }

    /// The model named `name`, if it is loaded.
    pub fn get(&self, name: &str) -> (res: Option<&ModelSession>)
        requires
            self.wf(),
        ensures
            match res {
                Some(session) => session.state.wf() && self@.contains_key(name@) && self@[name@]
                    == session@,
                None => !self@.contains_key(name@),
            },
    {
        match position(&self.models, &name.to_string()) {
            Some(at) => {
                proof {
                    assert(keys(self.models@)[at as int] == name@);
                    lemma_zip_map_at(keys(self.models@), session_views(self.models@), at as int);
                }
                Some(&self.models[at].1)
            },
            None => None,
        }
    }

    /// Puts a model under a name, in place of one that may be there.
    fn put(&mut self, name: &str, session: ModelSession)
        requires
            old(self).wf(),
            session.state.wf(),
        ensures
            final(self).wf(),
            final(self)@ == old(self)@.insert(name@, session@),
    {
        let key = name.to_string();
        let ghost before = self.models@;
        match position(&self.models, &key) {
            Some(at) => {
                proof {
                    lemma_zip_map_update(
                        keys(before),
                        session_views(before),
                        at as int,
                        session@,
                    );
                }
                self.models[at].1 = session;
                proof {
                    assert(keys(before)[at as int] == name@);
                    assert(keys(self.models@) =~= keys(before));
                    assert(session_views(self.models@) =~= session_views(before).update(
                        at as int,
                        session@,
                    ));
                }
            },
            None => {
                self.models.push((key, session));
                proof {
                    lemma_zip_map_push(keys(before), session_views(before), name@, session@);
                    assert(keys(self.models@) =~= keys(before).push(name@));
                    assert(session_views(self.models@) =~= session_views(before).push(session@));
                }
            },
        }
    }

    /// Loads or creates a model under a name, and returns its number of clusters. If a table is
    /// named, it is bound to the model, and `rows` are the rows that it has for the model.
    pub fn load(
        &mut self,
        name: &str,
        config: DrainConfig,
        table_name: Option<&str>,
        rows: &Vec<TableRow>,
    ) -> (res: Result<i64, SessionError>)
        requires
            old(self).wf(),
        ensures
            final(self).wf(),
            ({
                let clusters = if table_name is Some {
                    row_views(rows@)
                } else {
                    Seq::empty()
                };
                match res {
                    Ok(count) => {
                        &&& table_name is Some ==> forall|i: int|
                            0 <= i < rows@.len() ==> (#[trigger] rows@[i]).cluster_id()
                                < usize::MAX
                        &&& count == loaded_state(config@, clusters).clusters.len() as i64
                        &&& final(self)@ == old(self)@.insert(
                            name@,
                            SessionView {
                                state: loaded_state(config@, clusters),
                                table: optional_str(table_name),
                            },
                        )
                    },
                    Err(e) => {
                        &&& e is CounterFull
                        &&& table_name is Some && exists|i: int|
                            0 <= i < rows@.len() && (#[trigger] rows@[i]).cluster_id()
                                == usize::MAX
                        &&& final(self)@ == old(self)@
                    },
                }
            }),
    {
        let (state, table) = match table_name {
            Some(table) => {
                let clusters = clusters_from_rows(rows);
                proof {
                    assert(row_views(rows@).len() == rows@.len());
                    assert(cluster_views(clusters@).len() == clusters@.len());
                }
                if !ids_have_room(&clusters) {
                    proof {
                        let i = choose|i: int|
                            0 <= i < clusters@.len() && (#[trigger] clusters@[i]).cluster_id
                                == usize::MAX;
                        assert(rows@[i].cluster_id() == usize::MAX);
                    }
                    return Err(SessionError::CounterFull);
                }
                proof {
                    assert forall|j: int| 0 <= j < rows@.len() implies (
                    #[trigger] rows@[j]).cluster_id() < usize::MAX by {
                        assert(clusters@[j].cluster_id < usize::MAX);
                    }
                }
                let state = if clusters.len() == 0 {
                    DrainState::new(config)
                } else {
                    DrainState::from_clusters(config, clusters)
                };
                (state, Some(table.to_string()))
            },
            None => (DrainState::new(config), None),
        };
        let count = state.clusters.len() as i64;
        proof {
            assert(state@.clusters.len() == state.clusters@.len());
        }
        self.put(name, ModelSession { state, table });
        Ok(count)
    }

    /// Feeds a log message into a loaded model, and returns the id of the message's cluster.
    pub fn feed(&mut self, name: &str, log_message: &str) -> (res: Result<i64, SessionError>)
        requires
            old(self).wf(),
        ensures
            final(self).wf(),
            match res {
                Ok(id) => {
                    let session = old(self)@[name@];
                    &&& old(self)@.contains_key(name@)
                    &&& session.state.has_room(log_message@)
                    &&& id == session.state.fed(log_message@).1 as i64
                    &&& final(self)@ == old(self)@.insert(
                        name@,
                        SessionView { state: session.state.fed(log_message@).0, ..session },
                    )
                },
                Err(e) => {
                    &&& final(self)@ == old(self)@
                    &&& if old(self)@.contains_key(name@) {
                        e is CounterFull && !old(self)@[name@].state.has_room(log_message@)
                    } else {
                        e matches SessionError::NotLoaded(n) && n@ == name@
                    }
                },
            },
    {
        let ghost before = self.models@;
        match position(&self.models, &name.to_string()) {
            Some(at) => {
                proof {
                    assert(keys(before)[at as int] == name@);
                    lemma_zip_map_at(keys(before), session_views(before), at as int);
                }
                let fed = self.models[at].1.state.try_add_log_message(log_message);
                proof {
                    let session = self.models@[at as int].1@;
                    assert(keys(self.models@) =~= keys(before));
                    assert(session_views(self.models@) =~= session_views(before).update(
                        at as int,
                        session,
                    ));
                    lemma_zip_map_update(keys(before), session_views(before), at as int, session);
                }
                match fed {
                    Some(id) => Ok(id as i64),
                    None => {
                        proof {
                            assert(self@ =~= old(self)@);
                        }
                        Err(SessionError::CounterFull)
                    },
                }
            },
            None => Err(SessionError::NotLoaded(name.to_string())),
        }
    }

    /// The template that a log message matches in a loaded model.
    pub fn match_model(&self, name: &str, log_message: &str) -> (res: Result<
        Option<String>,
        SessionError,
    >)
        requires
            self.wf(),
        ensures
            match res {
                Ok(template) => self@.contains_key(name@) && optional_text(template)
                    == matched_template(self@[name@].state, log_message@),
                Err(e) => !self@.contains_key(name@) && (e matches SessionError::NotLoaded(n)
                    && n@ == name@),
            },
    {
        match self.get(name) {
            Some(session) => Ok(template_for(&session.state, log_message)),
            None => Err(SessionError::NotLoaded(name.to_string())),
        }
    }

    /// The clusters of a loaded model, as they are listed.
    pub fn model_clusters(&self, name: &str) -> (res: Result<Vec<ClusterRow>, SessionError>)
        requires
            self.wf(),
        ensures
            match res {
                Ok(rows) => self@.contains_key(name@) && rows@.map_values(
                    |r: ClusterRow| listed(r),
                ) == self@[name@].state.clusters.map_values(|c: ClusterView| listing(c)),
                Err(e) => !self@.contains_key(name@) && (e matches SessionError::NotLoaded(n)
                    && n@ == name@),
            },
    {
        match self.get(name) {
            Some(session) => Ok(list_clusters(&session.state)),
            None => Err(SessionError::NotLoaded(name.to_string())),
        }
    }

    /// The statements that save a loaded model to the given table, or to the one bound to it.
    pub fn dump(&self, name: &str, table_name: Option<&str>) -> (res: Result<Dump, SessionError>)
        requires
            self.wf(),
        ensures
            ({
                let session = self@[name@];
                let table = match optional_str(table_name) {
                    Some(t) => Some(t),
                    None => session.table,
                };
                match res {
                    Ok(dump) => {
                        &&& self@.contains_key(name@)
                        &&& table is Some
                        &&& dump.delete@ == delete_sql(table->0, name@)
                        &&& texts(dump.inserts@) == session.state.clusters.map_values(
                            |c: ClusterView| insert_sql(table->0, name@, c),
                        )
                        &&& dump.saved == session.state.clusters.len() as i64
                    },
                    Err(e) => if self@.contains_key(name@) {
                        e is NoTable && table is None
                    } else {
                        e matches SessionError::NotLoadedForDump(n) && n@ == name@
                    },
                }
            }),
    {
        let session = match self.get(name) {
            Some(session) => session,
            None => {
                return Err(SessionError::NotLoadedForDump(name.to_string()));
            },
        };
        let table: String = match table_name {
            Some(t) => t.to_string(),
            None => match &session.table {
                Some(t) => t.clone(),
                None => {
                    return Err(SessionError::NoTable);
                },
            },
        };
        let ghost want = session.state@.clusters.map_values(
            |c: ClusterView| insert_sql(table@, name@, c),
        );
        let clusters = &session.state.clusters;
        let mut inserts: Vec<String> = Vec::new();
        let mut i: usize = 0;
        while i < clusters.len()
            invariant
                i <= clusters@.len(),
                cluster_views(clusters@) == session.state@.clusters,
                want == session.state@.clusters.map_values(
                    |c: ClusterView| insert_sql(table@, name@, c),
                ),
                texts(inserts@) == want.take(i as int),
            decreases clusters@.len() - i,
        {
            let ghost before = inserts@;
            let statement = insert_statement(table.as_str(), name, &clusters[i]);
            inserts.push(statement);
            proof {
                assert(session.state@.clusters[i as int] == clusters@[i as int]@);
                assert(texts(inserts@) =~= texts(before).push(statement@));
                assert(want.take(i + 1) =~= want.take(i as int).push(statement@));
            }
            i = i + 1;
        }
        proof {
            assert(cluster_views(clusters@).len() == clusters@.len());
            assert(want.take(i as int) =~= want);
        }
        Ok(
            Dump {
                delete: delete_statement(table.as_str(), name),
                inserts,
                saved: clusters.len() as i64,
            },
        )
    }

    /// Unloads a model, and says whether it was loaded.
    pub fn unload(&mut self, name: &str) -> (res: bool)
        requires
            old(self).wf(),
        ensures
            final(self).wf(),
            final(self)@ == old(self)@.remove(name@),
            res == old(self)@.contains_key(name@),
    {
        let ghost before = self.models@;
        match position(&self.models, &name.to_string()) {
            Some(at) => {
                self.models.remove(at);
                proof {
                    assert(keys(before)[at as int] == name@);
                    lemma_zip_map_remove(keys(before), session_views(before), at as int);
                    assert(keys(self.models@) =~= keys(before).remove(at as int));
                    assert(session_views(self.models@) =~= session_views(before).remove(
                        at as int,
                    ));
                }
                true
            },
            None => {
                proof {
                    assert(self@.remove(name@) =~= self@);
                }
                false
            },
        }
    }

    /// All loaded models, as they are listed, each once.
    pub fn models(&self) -> (rows: Vec<ModelRow>)
        requires
            self.wf(),
        ensures
            model_names(rows@).no_duplicates(),
            model_names(rows@).to_set() == self@.dom(),
            forall|i: int|
                0 <= i < rows@.len() ==> {
                    let session = self@[(#[trigger] rows@[i]).0@];
                    rows@[i].1 == session.state.clusters.len() as i64 && optional_text(rows@[i].2)
                        == session.table
                },
    {
        let mut rows: Vec<ModelRow> = Vec::new();
        let mut i: usize = 0;
        while i < self.models.len()
            invariant
                i <= self.models@.len(),
                self.wf(),
                rows@.len() == i,
                model_names(rows@) == keys(self.models@).take(i as int),
                forall|j: int|
                    0 <= j < i ==> {
                        let session = self@[(#[trigger] rows@[j]).0@];
                        rows@[j].1 == session.state.clusters.len() as i64 && optional_text(
                            rows@[j].2,
                        ) == session.table
                    },
            decreases self.models@.len() - i,
        {
            let ghost before = rows@;
            let name = self.models[i].0.clone();
            let session = &self.models[i].1;
            let table: Option<String> = match &session.table {
                Some(t) => Some(t.clone()),
                None => None,
            };
            rows.push((name, session.state.clusters.len() as i64, table));
            proof {
                assert(keys(self.models@)[i as int] == name@);
                lemma_zip_map_at(keys(self.models@), session_views(self.models@), i as int);
                assert(session.state@.clusters.len() == session.state.clusters@.len());
                assert(model_names(rows@) =~= model_names(before).push(name@));
                assert(keys(self.models@).take(i + 1) =~= keys(self.models@).take(i as int).push(
                    name@,
                ));
            }
            i = i + 1;
        }
        proof {
            assert(keys(self.models@).take(i as int) =~= keys(self.models@));
            assert(model_names(rows@).to_set() =~= self@.dom());
        }
        rows
    }
}

/// The template that a message matches.
pub open spec fn matched_template(state: StateView, message: Seq<char>) -> Option<Seq<char>> {
    match state.matching(message) {
        Some(cluster) => Some(cluster.template()),
        None => None,
    }
}

/// The template that a message matches.
fn template_for(state: &DrainState, message: &str) -> (res: Option<String>)
    requires
        state.wf(),
    ensures
        optional_text(res) == matched_template(state@, message@),
{
    match state.match_log_message(message) {
        Some(cluster) => Some(cluster.get_template()),
        None => None,
    }
}

/// A model as a value.
#[derive(Debug)]
pub struct PgDrainState(pub DrainState);

impl Clone for PgDrainState {
    fn clone(&self) -> (res: Self)
        ensures
            res.0@ == self.0@,
            self.0.wf() ==> res.0.wf(),
    {
        PgDrainState(self.0.clone())
    }
}

/// The template that a message matches in a model.
pub fn drain3_match(state: &PgDrainState, log_message: &str) -> (res: Option<String>)
    requires
        state.0.wf(),
    ensures
        optional_text(res) == matched_template(state.0@, log_message@),
{
    template_for(&state.0, log_message)
}

/// The clusters of a model, as they are listed.
pub fn drain3_clusters(state: &PgDrainState) -> (rows: Vec<ClusterRow>)
    ensures
        rows@.map_values(|r: ClusterRow| listed(r)) == state.0@.clusters.map_values(
            |c: ClusterView| listing(c),
        ),
{
    list_clusters(&state.0)
}

/// One step of the aggregate that mines messages: the model after one more message, which
/// starts as a model with the default configuration.
pub fn drain3_mine_sfunc(state: Option<PgDrainState>, log_message: &str) -> (res: Result<
    PgDrainState,
    SessionError,
>)
    requires
        state matches Some(s) ==> s.0.wf(),
    ensures
        ({
            let before = match state {
                Some(s) => s.0@,
                None => StateView::fresh(default_config()),
            };
            match res {
                Ok(s) => before.has_room(log_message@) && s.0.wf() && s.0@ == before.fed(
                    log_message@,
                ).0,
                Err(e) => !before.has_room(log_message@) && e is CounterFull,
            }
        }),
{
    let mut s = match state {
        Some(s) => s,
        None => PgDrainState(DrainState::new(DrainConfig::default())),
    };
    match s.0.try_add_log_message(log_message) {
        Some(_) => Ok(s),
        None => Err(SessionError::CounterFull),
    }
}

} // verus!
