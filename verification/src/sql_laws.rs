//! The SQL statements read back: a reader that takes them apart finds in them what they were
//! made from.
use vstd::prelude::*;
use crate::session::TableRow;
use crate::sql::{
    delete_sql, examples_sql, exists_sql, identifier, identifier_body, insert_sql, literal,
    literal_body, select_sql,
};
use crate::text::{decimal, joined, replaced, texts};
use crate::text_laws::{law_numeral_reads_back, numeral_value, saved_as};
use crate::types::ClusterView;

verus! {

/// What follows a prefix.
pub open spec fn after(s: Seq<char>, prefix: Seq<char>) -> Option<Seq<char>> {
    if s.len() >= prefix.len() && s.take(prefix.len() as int) == prefix {
        Some(s.skip(prefix.len() as int))
    } else {
        None
    }
}

/// A text up to its closing quote, in which two quotes stand for one, and what follows.
pub open spec fn read_body(s: Seq<char>, quote: char) -> Option<(Seq<char>, Seq<char>)>
    decreases s.len(),
{
    if s.len() == 0 {
        None
    } else if s[0] != quote {
        match read_body(s.skip(1), quote) {
            Some((text, rest)) => Some((seq![s[0]] + text, rest)),
            None => None,
        }
    } else if s.len() >= 2 && s[1] == quote {
        match read_body(s.skip(2), quote) {
            Some((text, rest)) => Some((seq![quote] + text, rest)),
            None => None,
        }
    } else {
        Some((Seq::empty(), s.skip(1)))
    }
}

/// A quoted text, and what follows.
pub open spec fn read_quoted(s: Seq<char>, quote: char) -> Option<(Seq<char>, Seq<char>)> {
    if s.len() > 0 && s[0] == quote {
        read_body(s.skip(1), quote)
    } else {
        None
    }
}

/// How many digits a text starts with.
pub open spec fn digit_run(s: Seq<char>) -> nat
    decreases s.len(),
{
    if s.len() > 0 && '0' <= s[0] <= '9' {
        1 + digit_run(s.skip(1))
    } else {
        0
    }
}

/// A number in decimal digits, and what follows.
pub open spec fn read_number(s: Seq<char>) -> Option<(int, Seq<char>)> {
    let n = digit_run(s) as int;
    if n > 0 {
        Some((numeral_value(s.take(n)), s.skip(n)))
    } else {
        None
    }
}

/// One or more string literals with commas between them, and what follows.
pub open spec fn read_literals(s: Seq<char>) -> Option<(Seq<Seq<char>>, Seq<char>)>
    decreases s.len(),
{
    match read_quoted(s, '\'') {
        Some((text, rest)) => if 0 < rest.len() < s.len() && rest[0] == ',' {
            match read_literals(rest.skip(1)) {
                Some((more, end)) => Some((seq![text] + more, end)),
                None => None,
            }
        } else {
            Some((seq![text], rest))
        },
        None => None,
    }
}

/// The string literals of an array up to its closing bracket, and what follows from there.
pub open spec fn read_array(s: Seq<char>) -> Option<(Seq<Seq<char>>, Seq<char>)> {
    if s.len() > 0 && s[0] == ']' {
        Some((Seq::empty(), s))
    } else {
        read_literals(s)
    }
}

/// Whether a statement deletes the rows of a model from a table.
pub open spec fn deletes(s: Seq<char>, table: Seq<char>, model: Seq<char>) -> bool {
    &&& after(s, "DELETE FROM "@) matches Some(a)
    &&& read_quoted(a, '"') matches Some((t, b))
    &&& after(b, " WHERE model = "@) matches Some(c)
    &&& read_quoted(c, '\'') matches Some((m, end))
    &&& t == table
    &&& m == model
    &&& end.len() == 0
}

/// Whether a statement inserts the row of a cluster for a model into a table.
pub open spec fn inserts(
    s: Seq<char>,
    table: Seq<char>,
    model: Seq<char>,
    id: int,
    template: Seq<char>,
    size: int,
    examples: Seq<Seq<char>>,
) -> bool {
    &&& after(s, "INSERT INTO "@) matches Some(a)
    &&& read_quoted(a, '"') matches Some((r_table, b))
    &&& after(b, " (model, id, template, size, examples) VALUES ("@) matches Some(c)
    &&& read_quoted(c, '\'') matches Some((r_model, d))
    &&& after(d, ", "@) matches Some(e)
    &&& read_number(e) matches Some((r_id, f))
    &&& after(f, ", "@) matches Some(g)
    &&& read_quoted(g, '\'') matches Some((r_template, h))
    &&& after(h, ", "@) matches Some(i)
    &&& read_number(i) matches Some((r_size, j))
    &&& after(j, ", ARRAY["@) matches Some(k)
    &&& read_array(k) matches Some((r_examples, end))
    &&& end == "]::text[])"@
    &&& r_table == table
    &&& r_model == model
    &&& r_id == id
    &&& r_template == template
    &&& r_size == size
    &&& r_examples == examples
}

/// Whether a query asks for the rows of a model in a table, by id.
pub open spec fn selects(s: Seq<char>, table: Seq<char>, model: Seq<char>) -> bool {
    &&& after(s, "SELECT id, template, size, examples FROM "@) matches Some(a)
    &&& read_quoted(a, '"') matches Some((t, b))
    &&& after(b, " WHERE model = "@) matches Some(c)
    &&& read_quoted(c, '\'') matches Some((m, end))
    &&& end == " ORDER BY id"@
    &&& t == table
    &&& m == model
}

/// Whether a query asks if a table exists.
pub open spec fn asks_for(s: Seq<char>, table: Seq<char>) -> bool {
    &&& after(s, "SELECT EXISTS(SELECT 1 FROM pg_class WHERE relname = "@) matches Some(a)
    &&& read_quoted(a, '\'') matches Some((t, end))
    &&& end == " AND relkind = 'r')"@
    &&& t == table
}

proof fn lemma_after(prefix: Seq<char>, rest: Seq<char>)
    ensures
        after(prefix + rest, prefix) == Some(rest),
{
    assert((prefix + rest).take(prefix.len() as int) =~= prefix);
    assert((prefix + rest).skip(prefix.len() as int) =~= rest);
}

proof fn lemma_read_body(x: Seq<char>, quote: char, rest: Seq<char>)
    requires
        rest.len() == 0 || rest[0] != quote,
    ensures
        read_body(replaced(x, seq![quote], seq![quote, quote]) + seq![quote] + rest, quote) == Some(
            (x, rest),
        ),
    decreases x.len(),
{
    let pat = seq![quote];
    let to = seq![quote, quote];
    let s = replaced(x, pat, to) + seq![quote] + rest;
    if x.len() == 0 {
        assert(replaced(x, pat, to) =~= Seq::empty());
        assert(s =~= seq![quote] + rest);
        assert(s.skip(1) =~= rest);
        assert(x =~= Seq::empty());
    } else {
        let tail = x.skip(1);
        let more = replaced(tail, pat, to) + seq![quote] + rest;
        lemma_read_body(tail, quote, rest);
        assert(x.take(1) =~= seq![x[0]]);
        assert(seq![x[0]] + tail =~= x);
        if x[0] == quote {
            assert(replaced(x, pat, to) =~= to + replaced(tail, pat, to));
            assert(s =~= to + more);
            assert(s.skip(2) =~= more);
        } else {
            assert(x.take(1)[0] != pat[0]);
            assert(replaced(x, pat, to) =~= seq![x[0]] + replaced(tail, pat, to));
            assert(s =~= seq![x[0]] + more);
            assert(s.skip(1) =~= more);
        }
    }
}

/// A literal is read as its text.
pub proof fn law_literal_reads_back(x: Seq<char>, rest: Seq<char>)
    requires
        rest.len() == 0 || rest[0] != '\'',
    ensures
        read_quoted(literal(x) + rest, '\'') == Some((x, rest)),
{
    reveal_strlit("'");
    reveal_strlit("''");
    assert("'"@ =~= seq!['\'']);
    assert("''"@ =~= seq!['\'', '\'']);
    lemma_read_body(x, '\'', rest);
    assert((literal(x) + rest).skip(1) =~= literal_body(x) + seq!['\''] + rest);
}

/// A quoted identifier is read as its name.
pub proof fn law_identifier_reads_back(x: Seq<char>, rest: Seq<char>)
    requires
        rest.len() == 0 || rest[0] != '"',
    ensures
        read_quoted(identifier(x) + rest, '"') == Some((x, rest)),
{
    reveal_strlit("\"");
    reveal_strlit("\"\"");
    assert("\""@ =~= seq!['"']);
    assert("\"\""@ =~= seq!['"', '"']);
    lemma_read_body(x, '"', rest);
    assert((identifier(x) + rest).skip(1) =~= identifier_body(x) + seq!['"'] + rest);
}

proof fn lemma_digit_run(s: Seq<char>, rest: Seq<char>)
    requires
        forall|i: int| 0 <= i < s.len() ==> '0' <= #[trigger] s[i] <= '9',
        rest.len() == 0 || !('0' <= rest[0] <= '9'),
    ensures
        digit_run(s + rest) == s.len(),
    decreases s.len(),
{
    if s.len() == 0 {
        assert(s + rest =~= rest);
    } else {
        assert((s + rest)[0] == s[0]);
        assert((s + rest).skip(1) =~= s.skip(1) + rest);
        lemma_digit_run(s.skip(1), rest);
    }
}

proof fn lemma_read_number(n: nat, rest: Seq<char>)
    requires
        rest.len() == 0 || !('0' <= rest[0] <= '9'),
    ensures
        read_number(decimal(n) + rest) == Some((n as int, rest)),
{
    law_numeral_reads_back(n);
    let s = decimal(n);
    lemma_digit_run(s, rest);
    assert((s + rest).take(s.len() as int) =~= s);
    assert((s + rest).skip(s.len() as int) =~= rest);
}

proof fn lemma_read_literals(examples: Seq<Seq<char>>, rest: Seq<char>)
    requires
        examples.len() > 0,
        rest.len() > 0,
        rest[0] == ']',
    ensures
        read_literals(examples_sql(examples) + rest) == Some((examples, rest)),
    decreases examples.len(),
{
    reveal_strlit(",");
    assert(","@ =~= seq![',']);
    let literals = examples.map_values(|e: Seq<char>| literal(e));
    let s = examples_sql(examples) + rest;
    assert(literals[0] == literal(examples[0]));
    if examples.len() == 1 {
        assert(s =~= literal(examples[0]) + rest);
        law_literal_reads_back(examples[0], rest);
        assert(examples =~= seq![examples[0]]);
    } else {
        let others = examples.skip(1);
        assert(literals.skip(1) =~= others.map_values(|e: Seq<char>| literal(e)));
        let more = examples_sql(others) + rest;
        assert(s =~= literal(examples[0]) + (","@ + more));
        law_literal_reads_back(examples[0], ","@ + more);
        assert((","@ + more).skip(1) =~= more);
        assert(literal(examples[0]).len() > 0) by {
            reveal_strlit("'");
        }
        lemma_read_literals(others, rest);
        assert(seq![examples[0]] + others =~= examples);
    }
}

/// An array reads back as the examples: as many literals, each the text of one, in order.
pub proof fn law_array_reads_back(examples: Seq<Seq<char>>, rest: Seq<char>)
    requires
        rest.len() > 0,
        rest[0] == ']',
    ensures
        read_array(examples_sql(examples) + rest) == Some((examples, rest)),
{
    if examples.len() == 0 {
        assert(examples_sql(examples) =~= Seq::empty());
        assert(examples_sql(examples) + rest =~= rest);
        assert(examples =~= Seq::empty());
    } else {
        lemma_read_literals(examples, rest);
        let literals = examples.map_values(|e: Seq<char>| literal(e));
        assert(literals[0] == literal(examples[0]));
        reveal_strlit("'");
        assert(literals[0][0] == '\'');
        assert(examples_sql(examples)[0] == '\'');
    }
}

/// The delete statement names the table and the model.
pub proof fn law_delete_reads_back(table: Seq<char>, model: Seq<char>)
    ensures
        deletes(delete_sql(table, model), table, model),
{
    reveal_strlit(" WHERE model = ");
    let none = Seq::<char>::empty();
    let c = literal(model) + none;
    let b = " WHERE model = "@ + c;
    let a = identifier(table) + b;
    assert(delete_sql(table, model) =~= "DELETE FROM "@ + a);
    lemma_after("DELETE FROM "@, a);
    law_identifier_reads_back(table, b);
    lemma_after(" WHERE model = "@, c);
    law_literal_reads_back(model, none);
}

/// The insert statement holds the whole cluster: its id, its template, its size and every
/// example, for the model and the table.
pub proof fn law_insert_reads_back(table: Seq<char>, model: Seq<char>, cluster: ClusterView)
    ensures
        inserts(
            insert_sql(table, model, cluster),
            table,
            model,
            cluster.cluster_id as int,
            joined(cluster.template_tokens, " "@),
            cluster.size as int,
            cluster.examples,
        ),
{
    reveal_strlit(" (model, id, template, size, examples) VALUES (");
    reveal_strlit(", ");
    reveal_strlit(", ARRAY[");
    reveal_strlit("]::text[])");
    let end = "]::text[])"@;
    let k = examples_sql(cluster.examples) + end;
    let j = ", ARRAY["@ + k;
    let i = decimal(cluster.size) + j;
    let h = ", "@ + i;
    let g = literal(cluster.template()) + h;
    let f = ", "@ + g;
    let e = decimal(cluster.cluster_id) + f;
    let d = ", "@ + e;
    let c = literal(model) + d;
    let b = " (model, id, template, size, examples) VALUES ("@ + c;
    let a = identifier(table) + b;
    assert(insert_sql(table, model, cluster) =~= "INSERT INTO "@ + a);
    lemma_after("INSERT INTO "@, a);
    law_identifier_reads_back(table, b);
    lemma_after(" (model, id, template, size, examples) VALUES ("@, c);
    law_literal_reads_back(model, d);
    lemma_after(", "@, e);
    lemma_read_number(cluster.cluster_id, f);
    lemma_after(", "@, g);
    law_literal_reads_back(cluster.template(), h);
    lemma_after(", "@, i);
    lemma_read_number(cluster.size, j);
    lemma_after(", ARRAY["@, k);
    law_array_reads_back(cluster.examples, end);
}

/// A row with what the insert statement holds is one that the cluster is saved as, so it is
/// loaded as the cluster.
pub proof fn law_inserted_row_is_saved(
    table: Seq<char>,
    model: Seq<char>,
    cluster: ClusterView,
    row: TableRow,
)
    requires
        cluster.cluster_id <= usize::MAX,
        cluster.size <= usize::MAX,
        row.id matches Some(id) && row.template matches Some(template) && row.size matches Some(
            size,
        ) && row.examples matches Some(examples) && inserts(
            insert_sql(table, model, cluster),
            table,
            model,
            id as int,
            template@,
            size as int,
            texts(examples@),
        ),
    ensures
        saved_as(row, cluster),
{
    law_insert_reads_back(table, model, cluster);
}

/// The query for rows names the table and the model, and orders by id.
pub proof fn law_select_reads_back(table: Seq<char>, model: Seq<char>)
    ensures
        selects(select_sql(table, model), table, model),
{
    reveal_strlit(" WHERE model = ");
    reveal_strlit(" ORDER BY id");
    let c = literal(model) + " ORDER BY id"@;
    let b = " WHERE model = "@ + c;
    let a = identifier(table) + b;
    assert(select_sql(table, model) =~= "SELECT id, template, size, examples FROM "@ + a);
    lemma_after("SELECT id, template, size, examples FROM "@, a);
    law_identifier_reads_back(table, b);
    lemma_after(" WHERE model = "@, c);
    law_literal_reads_back(model, " ORDER BY id"@);
}

/// The query whether a table exists names the table.
pub proof fn law_exists_reads_back(table: Seq<char>)
    ensures
        asks_for(exists_sql(table), table),
{
    reveal_strlit(" AND relkind = 'r')");
    let end = " AND relkind = 'r')"@;
    let a = literal(table) + end;
    assert(exists_sql(table) =~= "SELECT EXISTS(SELECT 1 FROM pg_class WHERE relname = "@ + a);
    lemma_after("SELECT EXISTS(SELECT 1 FROM pg_class WHERE relname = "@, a);
    law_literal_reads_back(table, end);
}

} // verus!
