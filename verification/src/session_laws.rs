//! What requests to a session answer, and what they change.
use vstd::prelude::*;
use crate::session::{
    cluster_from_row, drain3_clusters, drain3_match, drain3_mine_sfunc, listed, listing,
    model_names, row_views, ClusterRow, Dump, ModelRow, ModelSession, PgDrainState, SessionError,
    Sessions, TableRow,
};
use crate::sql::insert_sql;
use crate::sql_laws::{deletes, inserts, law_delete_reads_back, law_insert_reads_back};
use crate::text::{joined, texts, words};
use crate::types::{ClusterView, DrainConfig, LogCluster, StateView};

verus! {

/// A row stands for a cluster with its id, its size and its examples, and the words of its
/// template as tokens. What is missing counts as zero or nothing.
pub proof fn law_row_stands_for_cluster(row: &TableRow, cluster: LogCluster)
    requires
        call_ensures(cluster_from_row, (row,), cluster),
    ensures
        cluster@ == row@,
        row.id matches Some(id) ==> (0 <= id <= usize::MAX ==> cluster@.cluster_id == id),
        row.id is None ==> cluster@.cluster_id == 0,
        row.template matches Some(t) ==> cluster@.template_tokens == words(t@),
        row.template is None ==> cluster@.template_tokens.len() == 0,
        row.size matches Some(size) ==> (0 <= size <= usize::MAX ==> cluster@.size == size),
        row.size is None ==> cluster@.size == 0,
        row.examples matches Some(examples) ==> cluster@.examples == texts(examples@),
        row.examples is None ==> cluster@.examples.len() == 0,
{
}

/// Loading puts a model with the given configuration under its name, bound to the table if one
/// is given, and leaves all other models as they are. With a table, its clusters are those of
/// the rows, or the youngest of them if there are too many; without one, it has none. Loading is
/// refused only where a row's id leaves no greater one, and then changes nothing.
pub proof fn law_loading(
    sessions: &mut Sessions,
    name: &str,
    config: DrainConfig,
    table: Option<&str>,
    rows: &Vec<TableRow>,
    answer: Result<i64, SessionError>,
    other: Seq<char>,
)
    requires
        call_ensures(Sessions::load, (sessions, name, config, table, rows), answer),
    ensures
        answer is Err <==> table is Some && exists|i: int|
            0 <= i < rows@.len() && (#[trigger] rows@[i]).cluster_id() == usize::MAX,
        answer is Err ==> final(sessions)@ == old(sessions)@,
        answer matches Ok(count) ==> {
            let model = final(sessions)@[name@];
            let clusters = model.state.clusters;
            let over = rows@.len() - config@.max_clusters;
            &&& final(sessions)@.contains_key(name@)
            &&& model.state.config == config@
            &&& table is None ==> model.table is None && clusters.len() == 0
            &&& table matches Some(t) ==> model.table == Some(t@)
            &&& table is Some && over <= 0 ==> clusters == row_views(rows@)
            &&& table is Some && over > 0 ==> clusters == row_views(rows@).skip(over)
            &&& count == clusters.len() as i64
            &&& table is None ==> model.state == StateView::fresh(config@)
            &&& table is Some ==> model.state == StateView::rebuilt(
                config@,
                row_views(rows@),
            ).evicted()
            &&& other != name@ ==> {
                &&& final(sessions)@.contains_key(other) <==> old(sessions)@.contains_key(other)
                &&& final(sessions)@[other] == old(sessions)@[other]
            }
        },
{
    assert(row_views(rows@).len() == rows@.len());
    if answer is Ok && table is Some && rows@.len() == 0 {
        assert(row_views(rows@) =~= Seq::empty());
        assert(StateView::rebuilt(config@, row_views(rows@)).evicted() =~= StateView::fresh(
            config@,
        ));
    }
    if answer is Ok && table is Some {
        assert forall|i: int| 0 <= i < rows@.len() implies (#[trigger] rows@[i]).cluster_id()
            != usize::MAX by {}
    }
}

/// A model is looked up by its name.
pub proof fn law_looking_up(sessions: &Sessions, name: &str, answer: Option<&ModelSession>)
    requires
        call_ensures(Sessions::get, (sessions, name), answer),
    ensures
        answer is Some <==> sessions@.contains_key(name@),
        answer matches Some(model) ==> {
            &&& model.state@ == sessions@[name@].state
            &&& match sessions@[name@].table {
                Some(t) => model.table matches Some(s) && s@ == t,
                None => model.table is None,
            }
        },
{
}

/// Feeding answers the id of the message's cluster and changes the model that is named, just as
/// the message changes a model, and no other. It is refused where no such model is loaded, with
/// the name that was asked for, or where a counter is full, and then changes nothing.
pub proof fn law_feeding(
    sessions: &mut Sessions,
    name: &str,
    message: &str,
    answer: Result<i64, SessionError>,
    other: Seq<char>,
)
    requires
        call_ensures(Sessions::feed, (sessions, name, message), answer),
    ensures
        answer is Ok <==> old(sessions)@.contains_key(name@)
            && old(sessions)@[name@].state.has_room(message@),
        answer matches Ok(id) ==> {
            let before = old(sessions)@[name@];
            let after = final(sessions)@[name@];
            &&& final(sessions)@.contains_key(name@)
            &&& id == before.state.fed(message@).1 as i64
            &&& after.state == before.state.fed(message@).0
            &&& after.table == before.table
            &&& other != name@ ==> {
                &&& final(sessions)@.contains_key(other) <==> old(sessions)@.contains_key(other)
                &&& final(sessions)@[other] == old(sessions)@[other]
            }
        },
        answer matches Err(e) ==> {
            &&& final(sessions)@ == old(sessions)@
            &&& old(sessions)@.contains_key(name@) ==> e is CounterFull
            &&& !old(sessions)@.contains_key(name@) ==> (e matches SessionError::NotLoaded(n)
                && n@ == name@)
        },
{
}

/// Matching answers the template of the matched cluster, its tokens with spaces between them, or
/// nothing if none matches. It is refused exactly where no such model is loaded.
pub proof fn law_matching(
    sessions: &Sessions,
    name: &str,
    message: &str,
    answer: Result<Option<String>, SessionError>,
)
    requires
        call_ensures(Sessions::match_model, (sessions, name, message), answer),
    ensures
        answer is Ok <==> sessions@.contains_key(name@),
        answer matches Ok(found) ==> match sessions@[name@].state.matching(message@) {
            Some(cluster) => found matches Some(t) && t@ == joined(cluster.template_tokens, " "@),
            None => found is None,
        },
        answer matches Err(e) ==> (e matches SessionError::NotLoaded(n) && n@ == name@),
{
}

/// Whether rows list clusters: each once, in order, with its id, its template, its size and all
/// its examples.
pub open spec fn lists(rows: Seq<ClusterRow>, clusters: Seq<ClusterView>) -> bool {
    &&& rows.len() == clusters.len()
    &&& forall|i: int|
        0 <= i < rows.len() ==> {
            &&& (#[trigger] rows[i]).0 == clusters[i].cluster_id as i64
            &&& rows[i].1@ == joined(clusters[i].template_tokens, " "@)
            &&& rows[i].2 == clusters[i].size as i64
            &&& texts(rows[i].3@) == clusters[i].examples
        }
}

proof fn lemma_lists(rows: Seq<ClusterRow>, clusters: Seq<ClusterView>)
    requires
        rows.map_values(|r: ClusterRow| listed(r)) == clusters.map_values(
            |c: ClusterView| listing(c),
        ),
    ensures
        lists(rows, clusters),
{
    let a = rows.map_values(|r: ClusterRow| listed(r));
    let b = clusters.map_values(|c: ClusterView| listing(c));
    assert(a.len() == rows.len() && b.len() == clusters.len());
    assert forall|i: int| 0 <= i < rows.len() implies {
        &&& (#[trigger] rows[i]).0 == clusters[i].cluster_id as i64
        &&& rows[i].1@ == joined(clusters[i].template_tokens, " "@)
        &&& rows[i].2 == clusters[i].size as i64
        &&& texts(rows[i].3@) == clusters[i].examples
    } by {
        assert(a[i] == listed(rows[i]));
        assert(b[i] == listing(clusters[i]));
    }
}

/// All clusters of a model are listed. This is refused exactly where no such model is loaded.
pub proof fn law_listing_clusters(
    sessions: &Sessions,
    name: &str,
    answer: Result<Vec<ClusterRow>, SessionError>,
)
    requires
        call_ensures(Sessions::model_clusters, (sessions, name), answer),
    ensures
        answer is Ok <==> sessions@.contains_key(name@),
        answer matches Ok(rows) ==> lists(rows@, sessions@[name@].state.clusters),
        answer matches Err(e) ==> (e matches SessionError::NotLoaded(n) && n@ == name@),
{
    if let Ok(rows) = answer {
        lemma_lists(rows@, sessions@[name@].state.clusters);
    }
}

/// Saving goes to the table that is given, else to the one that is bound. It deletes the model's
/// rows there and inserts each cluster, in order, with all that it holds. It is refused exactly
/// where no such model is loaded or there is no table.
pub proof fn law_saving(
    sessions: &Sessions,
    name: &str,
    given: Option<&str>,
    answer: Result<Dump, SessionError>,
)
    requires
        call_ensures(Sessions::dump, (sessions, name, given), answer),
    ensures
        answer is Ok <==> sessions@.contains_key(name@) && (given is Some
            || sessions@[name@].table is Some),
        answer matches Ok(dump) ==> {
            let clusters = sessions@[name@].state.clusters;
            let table = match given {
                Some(t) => t@,
                None => sessions@[name@].table->0,
            };
            &&& deletes(dump.delete@, table, name@)
            &&& dump.inserts@.len() == clusters.len()
            &&& forall|i: int|
                0 <= i < clusters.len() ==> inserts(
                    (#[trigger] dump.inserts@[i])@,
                    table,
                    name@,
                    clusters[i].cluster_id as int,
                    joined(clusters[i].template_tokens, " "@),
                    clusters[i].size as int,
                    clusters[i].examples,
                )
            &&& dump.saved == clusters.len() as i64
        },
        answer matches Err(e) ==> {
            &&& sessions@.contains_key(name@) ==> e is NoTable
            &&& !sessions@.contains_key(name@) ==> (e matches SessionError::NotLoadedForDump(n)
                && n@ == name@)
        },
{
    if let Ok(dump) = answer {
        let clusters = sessions@[name@].state.clusters;
        let table = match given {
            Some(t) => t@,
            None => sessions@[name@].table->0,
        };
        law_delete_reads_back(table, name@);
        let all = texts(dump.inserts@);
        assert(all.len() == dump.inserts@.len());
        assert(all.len() == clusters.len());
        assert forall|i: int| 0 <= i < clusters.len() implies inserts(
            (#[trigger] dump.inserts@[i])@,
            table,
            name@,
            clusters[i].cluster_id as int,
            joined(clusters[i].template_tokens, " "@),
            clusters[i].size as int,
            clusters[i].examples,
        ) by {
            assert(all[i] == dump.inserts@[i]@);
            assert(all[i] == insert_sql(table, name@, clusters[i]));
            law_insert_reads_back(table, name@, clusters[i]);
        }
    }
}

/// Unloading takes away the model that is named, and no other, and says whether it was there.
pub proof fn law_unloading(
    sessions: &mut Sessions,
    name: &str,
    answer: bool,
    other: Seq<char>,
)
    requires
        call_ensures(Sessions::unload, (sessions, name), answer),
    ensures
        answer <==> old(sessions)@.contains_key(name@),
        !final(sessions)@.contains_key(name@),
        other != name@ ==> {
            &&& final(sessions)@.contains_key(other) <==> old(sessions)@.contains_key(other)
            &&& old(sessions)@.contains_key(other) ==> final(sessions)@[other]
                == old(sessions)@[other]
        },
{
}

/// Every loaded model is listed exactly once, with its number of clusters and its table, and
/// nothing else is listed.
pub proof fn law_listing_models(sessions: &Sessions, rows: Vec<ModelRow>, name: Seq<char>)
    requires
        call_ensures(Sessions::models, (sessions,), rows),
    ensures
        sessions@.contains_key(name) <==> exists|i: int|
            0 <= i < rows@.len() && (#[trigger] rows@[i]).0@ == name,
        forall|i: int, j: int|
            0 <= i < j < rows@.len() ==> (#[trigger] rows@[i]).0@ != (#[trigger] rows@[j]).0@,
        forall|i: int|
            0 <= i < rows@.len() ==> {
                let model = sessions@[(#[trigger] rows@[i]).0@];
                &&& rows@[i].1 == model.state.clusters.len() as i64
                &&& match model.table {
                    Some(t) => rows@[i].2 matches Some(s) && s@ == t,
                    None => rows@[i].2 is None,
                }
            },
{
    let names = model_names(rows@);
    assert(names.len() == rows@.len());
    assert forall|i: int| 0 <= i < rows@.len() implies names[i] == (#[trigger] rows@[i]).0@ by {}
    if sessions@.contains_key(name) {
        assert(names.to_set().contains(name));
        let i = choose|i: int| 0 <= i < names.len() && names[i] == name;
        assert(rows@[i].0@ == name);
    }
    if exists|i: int| 0 <= i < rows@.len() && (#[trigger] rows@[i]).0@ == name {
        let i = choose|i: int| 0 <= i < rows@.len() && (#[trigger] rows@[i]).0@ == name;
        assert(names[i] == name);
        assert(names.to_set().contains(name));
    }
}

/// Refusals say what is wrong, with the whole name that was asked for.
pub proof fn law_refusals_say_why(error: &SessionError, message: String)
    requires
        call_ensures(SessionError::message, (error,), message),
    ensures
        error matches SessionError::NotLoaded(name) ==> message@ == "model '"@ + name@
            + "' not loaded, call drain3_load first"@,
        error matches SessionError::NotLoadedForDump(name) ==> message@ == "model '"@ + name@
            + "' not loaded"@,
        error is NoTable ==> message@ == "no table specified, pass table_name or bind at load"@,
{
}

/// A model as a value is matched and listed as one in a session is.
pub proof fn law_value_is_matched_and_listed(
    model: &PgDrainState,
    message: &str,
    found: Option<String>,
    rows: Vec<ClusterRow>,
)
    requires
        call_ensures(drain3_match, (model, message), found),
        call_ensures(drain3_clusters, (model,), rows),
    ensures
        match model.0@.matching(message@) {
            Some(cluster) => found matches Some(t) && t@ == joined(cluster.template_tokens, " "@),
            None => found is None,
        },
        lists(rows@, model.0@.clusters),
{
    lemma_lists(rows@, model.0@.clusters);
}

/// Mining starts from a model with the defaults and goes on with what it gave, one message after
/// the other. It stops only where a counter is full.
pub proof fn law_mining_step(
    before: Option<PgDrainState>,
    message: &str,
    answer: Result<PgDrainState, SessionError>,
)
    requires
        call_ensures(drain3_mine_sfunc, (before, message), answer),
    ensures
        ({
            let start = match before {
                Some(model) => model.0@,
                None => StateView::fresh(crate::types::default_config()),
            };
            &&& answer is Ok <==> start.has_room(message@)
            &&& answer matches Ok(model) ==> model.0@ == start.fed(message@).0
        }),
{
}

} // verus!
