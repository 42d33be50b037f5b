use vstd::prelude::*;

use crate::codec::{enc, encode_param};
use crate::error::Error;
use crate::schema::{ident_wf, Schema};
use crate::value::{Param, Type, Value};

verus! {

/// The abstract SQL representation the statement compiler renders: one
/// unit of database work against a declared table.
pub enum Statement {
    /// Creates one declared table.
    CreateTable { table: usize },
    /// Inserts one row, one value per declared column.
    Insert { table: usize, values: Vec<Value> },
    /// Updates every row matching the precondition, which doubles as the
    /// optimistic-concurrency guard; optionally returns a projection of
    /// the updated rows.
    Update {
        table: usize,
        assignments: Vec<(usize, Value)>,
        pre_condition: Option<(usize, Value)>,
        returning: Option<Vec<usize>>,
    },
    /// Reads all declared columns, with an optional equality filter.
    Select { table: usize, filter: Option<(usize, Value)> },
}

/// A backend-agnostic description of one unit of work, as handed over by
/// the query-builder layer.
pub enum Operation {
    /// A raw SQL statement with an optional expected output shape.
    QuerySql { stmt: Statement, ty: Option<Type> },
    /// An insert with no expected output.
    Insert(Statement),
    /// Reserved for a future point lookup by primary key; no driver
    /// supports it yet.
    FindPk { table: usize, key: Value },
}

/// Whether a statement can be rendered against the schema: its table
/// exists and every column reference is in range, with one value per
/// column on insert.
pub open spec fn stmt_wf(stmt: Statement, schema: Schema) -> bool {
    match stmt {
        Statement::CreateTable { table } => table < schema.tables@.len(),
        Statement::Insert { table, values } => table < schema.tables@.len() && values@.len()
            == schema.spec_field_count(table as int),
        Statement::Update { table, assignments, pre_condition, returning } => {
            &&& table < schema.tables@.len()
            &&& forall|k: int|
                0 <= k < assignments@.len() ==> (#[trigger] assignments@[k]).0
                    < schema.spec_field_count(table as int)
            &&& match pre_condition {
                Some(c) => c.0 < schema.spec_field_count(table as int),
                None => true,
            }
            &&& match returning {
                Some(cols) => forall|k: int|
                    0 <= k < cols@.len() ==> #[trigger] cols@[k] < schema.spec_field_count(
                        table as int,
                    ),
                None => true,
            }
        },
        Statement::Select { table, filter } => {
            &&& table < schema.tables@.len()
            &&& match filter {
                Some(c) => c.0 < schema.spec_field_count(table as int),
                None => true,
            }
        },
    }
}

/// The values of an assignment list, in assignment order.
pub open spec fn asg_vals(asg: Seq<(usize, Value)>) -> Seq<Value> {
    asg.map_values(|a: (usize, Value)| a.1)
}

/// The value bound by an optional equality condition.
pub open spec fn cond_vals(cond: Option<(usize, Value)>) -> Seq<Value> {
    match cond {
        Some(c) => seq![c.1],
        None => Seq::empty(),
    }
}

/// The ordered bound parameters of a statement: exactly the values its
/// rendered SQL references through placeholders, in placeholder order.
pub open spec fn params_of(stmt: Statement) -> Seq<Value> {
    match stmt {
        Statement::CreateTable { .. } => Seq::empty(),
        Statement::Insert { values, .. } => values@,
        Statement::Update { assignments, pre_condition, .. } => asg_vals(assignments@)
            + cond_vals(pre_condition),
        Statement::Select { filter, .. } => cond_vals(filter),
    }
}

/// Encodes a value list as bind parameters; `None` as soon as one value
/// has no encoding.
pub open spec fn enc_list(vs: Seq<Value>) -> Option<Seq<Param>>
    decreases vs.len(),
{
    if vs.len() == 0 {
        Some(Seq::empty())
    } else {
        match (enc_list(vs.drop_last()), enc(vs.last())) {
            (Some(ps), Some(p)) => Some(ps.push(p)),
            _ => None,
        }
    }
}

/// Appending an encodable value extends the encoded list by its encoding.
pub proof fn lemma_enc_list_push(vs: Seq<Value>, v: Value)
    ensures
        vs.push(v).drop_last() =~= vs,
        enc_list(vs.push(v)) == match (enc_list(vs), enc(v)) {
            (Some(ps), Some(p)) => Some(ps.push(p)),
            _ => None::<Seq<Param>>,
        },
{
    assert(vs.push(v).drop_last() =~= vs);
    assert(vs.push(v).last() == v);
}

/// A sequence of characters free of the placeholder mark.
pub open spec fn qfree(s: Seq<char>) -> bool {
    forall|i: int| 0 <= i < s.len() ==> s[i] != '?'
}

/// The number of placeholder marks in a piece of SQL text.
pub open spec fn qcount(s: Seq<char>) -> nat
    decreases s.len(),
{
    if s.len() == 0 {
        0
    } else {
        qcount(s.drop_last()) + if s.last() == '?' {
            1nat
        } else {
            0nat
        }
    }
}

/// Placeholder counting distributes over concatenation.
pub proof fn lemma_qcount_app(a: Seq<char>, b: Seq<char>)
    ensures
        qcount(a + b) == qcount(a) + qcount(b),
    decreases b.len(),
{
    if b.len() == 0 {
        assert(a + b =~= a);
    } else {
        assert((a + b).drop_last() =~= a + b.drop_last());
        assert((a + b).last() == b.last());
        assert((a + b).len() > 0);
        lemma_qcount_app(a, b.drop_last());
    }
}

/// Text without the placeholder mark has no placeholders.
pub proof fn lemma_qcount_qfree(s: Seq<char>)
    requires
        qfree(s),
    ensures
        qcount(s) == 0,
    decreases s.len(),
{
    if s.len() > 0 {
        assert(qfree(s.drop_last()));
        lemma_qcount_qfree(s.drop_last());
    }
}

/// Appends placeholder-free text; the placeholder count is unchanged.
fn push_sql(text: &mut String, s: &str)
    requires
        qfree(s@),
    ensures
        final(text)@ == old(text)@ + s@,
        qcount(final(text)@) == qcount(old(text)@),
{
    text.append(s);
    proof {
        lemma_qcount_app(old(text)@, s@);
        lemma_qcount_qfree(s@);
    }
}

/// Appends one placeholder mark; the placeholder count grows by one.
fn push_placeholder(text: &mut String)
    ensures
        qcount(final(text)@) == qcount(old(text)@) + 1,
{
    text.append("?");
    proof {
        reveal_strlit("?");
        assert("?"@.drop_last() =~= Seq::<char>::empty());
        assert(qcount(Seq::<char>::empty()) == 0);
        assert(qcount("?"@) == 1);
        lemma_qcount_app(old(text)@, "?"@);
    }
}

/// Appends a schema identifier, which never contains a placeholder mark.
fn push_ident(text: &mut String, s: &String)
    requires
        ident_wf(s@),
    ensures
        qcount(final(text)@) == qcount(old(text)@),
{
    proof {
        assert forall|i: int| 0 <= i < s@.len() implies s@[i] != '?' by {
            assert(crate::schema::is_ident_char(s@[i]));
        }
    }
    text.append(s.as_str());
    proof {
        lemma_qcount_app(old(text)@, s@);
        lemma_qcount_qfree(s@);
    }
}

/// The SQL column type keyword for a declared scalar shape.
fn type_keyword(ty: &Type) -> (r: &'static str)
    ensures
        qfree(r@),
{
    proof {
        reveal_strlit("TEXT");
        reveal_strlit("BIGINT");
        reveal_strlit("BOOLEAN");
        reveal_strlit("BYTEA");
        reveal_strlit("DOUBLE PRECISION");
        reveal_strlit("INTEGER");
    }
    match ty {
        Type::Id => "TEXT",
        Type::I64 => "BIGINT",
        Type::String => "TEXT",
        Type::Bool => "BOOLEAN",
        Type::Bytes => "BYTEA",
        Type::Float => "DOUBLE PRECISION",
        Type::Null => "TEXT",
        Type::Enum => "BIGINT",
        Type::Record(_) => "TEXT",
    }
}


/// A value list whose entry at `k` has no encoding does not encode.
pub proof fn lemma_enc_list_none_at(vs: Seq<Value>, k: int)
    requires
        0 <= k < vs.len(),
        enc(vs[k]) is None,
    ensures
        enc_list(vs) is None,
    decreases vs.len(),
{
    if k == vs.len() - 1 {
    } else {
        assert(vs.drop_last()[k] == vs[k]);
        lemma_enc_list_none_at(vs.drop_last(), k);
    }
}

/// Decides whether a statement is well formed against the schema.
#[verifier::loop_isolation(false)]
pub fn check_stmt(stmt: &Statement, schema: &Schema) -> (b: bool)
    ensures
        b == stmt_wf(*stmt, *schema),
{
    match stmt {
        Statement::CreateTable { table } => *table < schema.table_count(),
        Statement::Insert { table, values } => *table < schema.table_count() && values.len()
            == schema.field_count(*table),
        Statement::Update { table, assignments, pre_condition, returning } => {
            if !(*table < schema.table_count()) {
                return false;
            }
            let fc = schema.field_count(*table);
            let mut k: usize = 0;
            while k < assignments.len()
                invariant
                    k <= assignments@.len(),
                    forall|j: int| 0 <= j < k ==> (#[trigger] assignments@[j]).0 < fc,
                decreases assignments@.len() - k,
            {
                if !(assignments[k].0 < fc) {
                    return false;
                }
                k = k + 1;
            }
            match pre_condition {
                Some(c) => {
                    if !(c.0 < fc) {
                        return false;
                    }
                },
                None => {},
            }
            match returning {
                Some(cols) => {
                    let mut k: usize = 0;
                    while k < cols.len()
                        invariant
                            k <= cols@.len(),
                            forall|j: int| 0 <= j < k ==> #[trigger] cols@[j] < fc,
                        decreases cols@.len() - k,
                    {
                        if !(cols[k] < fc) {
                            return false;
                        }
                        k = k + 1;
                    }
                    true
                },
                None => true,
            }
        },
        Statement::Select { table, filter } => {
            if !(*table < schema.table_count()) {
                return false;
            }
            match filter {
                Some(c) => c.0 < schema.field_count(*table),
                None => true,
            }
        },
    }
}

/// Renders a statement to dialect SQL and appends its encoded bind
/// parameters.
///
/// The compiled output keeps placeholders and parameters in lockstep: the
/// text contains exactly one placeholder mark per appended parameter, and
/// the parameters encode the statement's bound values in placeholder
/// order. An ill-formed statement fails to compile; a value without an
/// encoding fails loudly instead of defaulting.
#[verifier::loop_isolation(false)]
pub fn to_sql(stmt: &Statement, schema: &Schema, params: &mut Vec<Param>) -> (r: Result<
    String,
    Error,
>)
    requires
        schema.wf(),
    ensures
        r is Ok <==> stmt_wf(*stmt, *schema) && enc_list(params_of(*stmt)) is Some,
        r matches Ok(text) ==> ({
            &&& enc_list(params_of(*stmt)) matches Some(ps) && final(params)@ == old(params)@ + ps
            &&& qcount(text@) == params_of(*stmt).len()
        }),
        r matches Err(e) ==> final(params)@ == old(params)@ && (if !stmt_wf(*stmt, *schema) {
            e == Error::CompileFailure
        } else {
            e == Error::UnsupportedEncoding && enc_list(params_of(*stmt)) is None
        }),
{
    if !check_stmt(stmt, schema) {
        return Err(Error::CompileFailure);
    }
    let mut text = String::new();
    let mut ps: Vec<Param> = Vec::new();
    match stmt {
        Statement::CreateTable { table } => {
            proof {
                reveal_strlit("CREATE TABLE ");
                reveal_strlit(" (");
                reveal_strlit(", ");
                reveal_strlit(" ");
                reveal_strlit(")");
            }
            push_sql(&mut text, "CREATE TABLE ");
            push_ident(&mut text, &schema.tables[*table].name);
            push_sql(&mut text, " (");
            let cols = &schema.tables[*table].columns;
            let mut c: usize = 0;
            while c < cols.len()
                invariant
                    qcount(text@) == 0,
                decreases cols@.len() - c,
            {
                if c > 0 {
                    push_sql(&mut text, ", ");
                }
                push_ident(&mut text, &cols[c].name);
                push_sql(&mut text, " ");
                let kw = type_keyword(&cols[c].ty);
                push_sql(&mut text, kw);
                c = c + 1;
            }
            push_sql(&mut text, ")");
            proof {
                assert(params_of(*stmt) =~= Seq::<Value>::empty());
                assert(final(params)@ =~= old(params)@ + Seq::<Param>::empty());
            }
            Ok(text)
        },
        Statement::Insert { table, values } => {
            proof {
                reveal_strlit("INSERT INTO ");
                reveal_strlit(" VALUES (");
                reveal_strlit(", ");
                reveal_strlit(")");
            }
            push_sql(&mut text, "INSERT INTO ");
            push_ident(&mut text, &schema.tables[*table].name);
            push_sql(&mut text, " VALUES (");
            let mut k: usize = 0;
            while k < values.len()
                invariant
                    k <= values@.len(),
                    ps@.len() == k,
                    qcount(text@) == k,
                    enc_list(values@.take(k as int)) == Some(ps@),
                decreases values@.len() - k,
            {
                if k > 0 {
                    push_sql(&mut text, ", ");
                }
                match encode_param(&values[k]) {
                    Ok(p) => {
                        proof {
                            lemma_enc_list_push(values@.take(k as int), values@[k as int]);
                            assert(values@.take(k as int).push(values@[k as int]) =~= values@.take(
                                k as int + 1,
                            ));
                        }
                        ps.push(p);
                    },
                    Err(e) => {
                        proof {
                            lemma_enc_list_none_at(values@, k as int);
                        }
                        return Err(e);
                    },
                }
                push_placeholder(&mut text);
                k = k + 1;
            }
            push_sql(&mut text, ")");
            proof {
                assert(values@.take(values@.len() as int) =~= values@);
            }
            params.append(&mut ps);
            Ok(text)
        },
        Statement::Update { table, assignments, pre_condition, returning } => {
            proof {
                reveal_strlit("UPDATE ");
                reveal_strlit(" SET ");
                reveal_strlit(", ");
                reveal_strlit(" = ");
                reveal_strlit(" WHERE ");
                reveal_strlit(" RETURNING ");
            }
            let ghost vals = asg_vals(assignments@);
            push_sql(&mut text, "UPDATE ");
            push_ident(&mut text, &schema.tables[*table].name);
            push_sql(&mut text, " SET ");
            let cols = &schema.tables[*table].columns;
            let mut k: usize = 0;
            while k < assignments.len()
                invariant
                    k <= assignments@.len(),
                    ps@.len() == k,
                    qcount(text@) == k,
                    enc_list(vals.take(k as int)) == Some(ps@),
                decreases assignments@.len() - k,
            {
                if k > 0 {
                    push_sql(&mut text, ", ");
                }
                push_ident(&mut text, &cols[assignments[k].0].name);
                push_sql(&mut text, " = ");
                match encode_param(&assignments[k].1) {
                    Ok(p) => {
                        proof {
                            assert(vals[k as int] == assignments@[k as int].1);
                            lemma_enc_list_push(vals.take(k as int), vals[k as int]);
                            assert(vals.take(k as int).push(vals[k as int]) =~= vals.take(
                                k as int + 1,
                            ));
                        }
                        ps.push(p);
                    },
                    Err(e) => {
                        proof {
                            assert(params_of(*stmt)[k as int] == vals[k as int]);
                            lemma_enc_list_none_at(params_of(*stmt), k as int);
                        }
                        return Err(e);
                    },
                }
                push_placeholder(&mut text);
                k = k + 1;
            }
            proof {
                assert(vals.take(vals.len() as int) =~= vals);
            }
            match pre_condition {
                Some(c) => {
                    push_sql(&mut text, " WHERE ");
                    push_ident(&mut text, &cols[c.0].name);
                    push_sql(&mut text, " = ");
                    match encode_param(&c.1) {
                        Ok(p) => {
                            proof {
                                lemma_enc_list_push(vals, c.1);
                                assert(vals.push(c.1) =~= params_of(*stmt));
                            }
                            ps.push(p);
                        },
                        Err(e) => {
                            proof {
                                assert(params_of(*stmt)[vals.len() as int] == c.1);
                                lemma_enc_list_none_at(params_of(*stmt), vals.len() as int);
                            }
                            return Err(e);
                        },
                    }
                    push_placeholder(&mut text);
                },
                None => {
                    proof {
                        assert(params_of(*stmt) =~= vals);
                    }
                },
            }
            match returning {
                Some(rcols) => {
                    push_sql(&mut text, " RETURNING ");
                    let mut k: usize = 0;
                    while k < rcols.len()
                        invariant
                            k <= rcols@.len(),
                            qcount(text@) == params_of(*stmt).len(),
                        decreases rcols@.len() - k,
                    {
                        if k > 0 {
                            push_sql(&mut text, ", ");
                        }
                        push_ident(&mut text, &cols[rcols[k]].name);
                        k = k + 1;
                    }
                },
                None => {},
            }
            params.append(&mut ps);
            Ok(text)
        },
        Statement::Select { table, filter } => {
            proof {
                reveal_strlit("SELECT * FROM ");
                reveal_strlit(" WHERE ");
                reveal_strlit(" = ");
            }
            push_sql(&mut text, "SELECT * FROM ");
            push_ident(&mut text, &schema.tables[*table].name);
            match filter {
                Some(c) => {
                    push_sql(&mut text, " WHERE ");
                    push_ident(&mut text, &schema.tables[*table].columns[c.0].name);
                    push_sql(&mut text, " = ");
                    match encode_param(&c.1) {
                        Ok(p) => {
                            proof {
                                lemma_enc_list_push(Seq::<Value>::empty(), c.1);
                                assert(Seq::<Value>::empty().push(c.1) =~= params_of(*stmt));
                                assert(enc_list(Seq::<Value>::empty())
                                    == Some(Seq::<Param>::empty()));
                            }
                            ps.push(p);
                        },
                        Err(e) => {
                            proof {
                                assert(params_of(*stmt)[0] == c.1);
                                lemma_enc_list_none_at(params_of(*stmt), 0);
                            }
                            return Err(e);
                        },
                    }
                    push_placeholder(&mut text);
                },
                None => {
                    proof {
                        assert(params_of(*stmt) =~= Seq::<Value>::empty());
                    }
                },
            }
            params.append(&mut ps);
            Ok(text)
        },
    }
}

} // verus!
