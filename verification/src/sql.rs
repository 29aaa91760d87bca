//! The SQL statements that save and load a model's clusters.
use vstd::prelude::*;
use crate::text::{decimal, join, joined, numeral, replace, replaced, texts};
use crate::types::{ClusterView, LogCluster};

verus! {

/// The body of an SQL string literal: quotes are doubled.
pub open spec fn literal_body(s: Seq<char>) -> Seq<char> {
    replaced(s, "'"@, "''"@)
}

/// The body of a quoted SQL identifier: double quotes are doubled.
pub open spec fn identifier_body(s: Seq<char>) -> Seq<char> {
    replaced(s, "\""@, "\"\""@)
}

/// An SQL string literal.
pub open spec fn literal(s: Seq<char>) -> Seq<char> {
    "'"@ + literal_body(s) + "'"@
}

/// An SQL identifier, quoted.
pub open spec fn identifier(s: Seq<char>) -> Seq<char> {
    "\""@ + identifier_body(s) + "\""@
}

/// The statement that deletes a model's rows.
pub open spec fn delete_sql(table: Seq<char>, model: Seq<char>) -> Seq<char> {
    "DELETE FROM "@ + identifier(table) + " WHERE model = "@ + literal(model)
}

/// The literals of examples, with commas between them.
pub open spec fn examples_sql(examples: Seq<Seq<char>>) -> Seq<char> {
    joined(examples.map_values(|e: Seq<char>| literal(e)), ","@)
}

/// The statement that inserts a cluster as a row of a model.
pub open spec fn insert_sql(
    table: Seq<char>,
    model: Seq<char>,
    cluster: ClusterView,
) -> Seq<char> {
    "INSERT INTO "@ + identifier(table) + " (model, id, template, size, examples) VALUES ("@
        + literal(model) + ", "@ + decimal(cluster.cluster_id) + ", "@ + literal(
        cluster.template(),
    ) + ", "@ + decimal(cluster.size) + ", ARRAY["@ + examples_sql(cluster.examples)
        + "]::text[])"@
}

/// The query for a model's rows, by id.
pub open spec fn select_sql(table: Seq<char>, model: Seq<char>) -> Seq<char> {
    "SELECT id, template, size, examples FROM "@ + identifier(table) + " WHERE model = "@
        + literal(model) + " ORDER BY id"@
}

/// The query whether a table exists.
pub open spec fn exists_sql(table: Seq<char>) -> Seq<char> {
    "SELECT EXISTS(SELECT 1 FROM pg_class WHERE relname = "@ + literal(table)
        + " AND relkind = 'r')"@
}

/// An SQL string literal.
fn write_literal(s: &str) -> (out: String)
    ensures
        out@ == literal(s@),
{
    let mut out = "'".to_string();
    out.append(replace(s, "'", "''").as_str());
    out.append("'");
    out
}

/// An SQL identifier, quoted.
fn write_identifier(s: &str) -> (out: String)
    ensures
        out@ == identifier(s@),
{
    let mut out = "\"".to_string();
    out.append(replace(s, "\"", "\"\"").as_str());
    out.append("\"");
    out
}

/// The statement that deletes a model's rows.
pub fn delete_statement(table: &str, model: &str) -> (out: String)
    ensures
        out@ == delete_sql(table@, model@),
{
    let mut out = "DELETE FROM ".to_string();
    out.append(write_identifier(table).as_str());
    out.append(" WHERE model = ");
    out.append(write_literal(model).as_str());
    out
}

/// The literals of examples, with commas between them.
fn write_examples(examples: &Vec<String>) -> (out: String)
    ensures
        out@ == examples_sql(texts(examples@)),
{
    let ghost want = texts(examples@).map_values(|e: Seq<char>| literal(e));
    let mut literals: Vec<String> = Vec::new();
    let mut i: usize = 0;
    while i < examples.len()
        invariant
            i <= examples@.len(),
            want == texts(examples@).map_values(|e: Seq<char>| literal(e)),
            texts(literals@) == want.take(i as int),
        decreases examples@.len() - i,
    {
        let ghost before = literals@;
        let piece = write_literal(examples[i].as_str());
        literals.push(piece);
        proof {
            assert(texts(literals@) =~= texts(before).push(piece@));
            assert(want.take(i + 1) =~= want.take(i as int).push(piece@));
        }
        i = i + 1;
    }
    proof {
        assert(want.take(i as int) =~= want);
    }
    join(literals.as_slice(), ",")
}

/// The statement that inserts a cluster as a row of a model.
pub fn insert_statement(table: &str, model: &str, cluster: &LogCluster) -> (out: String)
    ensures
        out@ == insert_sql(table@, model@, cluster@),
{
    let mut out = "INSERT INTO ".to_string();
    out.append(write_identifier(table).as_str());
    out.append(" (model, id, template, size, examples) VALUES (");
    out.append(write_literal(model).as_str());
    out.append(", ");
    out.append(numeral(cluster.cluster_id as u64).as_str());
    out.append(", ");
    out.append(write_literal(cluster.get_template().as_str()).as_str());
    out.append(", ");
    out.append(numeral(cluster.size as u64).as_str());
    out.append(", ARRAY[");
    out.append(write_examples(&cluster.examples).as_str());
    out.append("]::text[])");
    out
}

/// The query for a model's rows, by id.
pub fn select_query(table: &str, model: &str) -> (out: String)
    ensures
        out@ == select_sql(table@, model@),
{
    let mut out = "SELECT id, template, size, examples FROM ".to_string();
    out.append(write_identifier(table).as_str());
    out.append(" WHERE model = ");
    out.append(write_literal(model).as_str());
    out.append(" ORDER BY id");
    out
}

/// The query whether a table exists.
pub fn exists_query(table: &str) -> (out: String)
    ensures
        out@ == exists_sql(table@),
{
    let mut out = "SELECT EXISTS(SELECT 1 FROM pg_class WHERE relname = ".to_string();
    out.append(write_literal(table).as_str());
    out.append(" AND relkind = 'r')");
    out
}

} // verus!
