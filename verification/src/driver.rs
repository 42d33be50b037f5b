use vstd::prelude::*;

use crate::codec::{decode_rows, enc, encode_param, rows_can_decode, rows_v, stream_decodes};
use crate::error::Error;
use crate::schema::Schema;
use crate::sql::{check_stmt, stmt_wf, Operation, Statement};
use crate::stream::ValueStream;
use crate::value::{clone_row, p_eq, param_eq, Param, Type, Value};

verus! {

/// Static descriptor of the statement forms a driver supports, consumed by
/// the planning layer above.
#[derive(Clone, Copy, PartialEq, Eq, Structural, Debug)]
pub enum Capability {
    /// Full SQL statement execution.
    Sql,
}

/// The in-memory reference backend: one table of raw rows per declared
/// table, executing compiled statements with the same observable contract
/// a SQL backend provides.
pub struct Mem {
    tables: Vec<Vec<Vec<Param>>>,
}

/// The classified form of an operation: its statement and its optional
/// expected output shape; `None` for unsupported variants.
pub open spec fn op_stmt(op: Operation) -> Option<(Statement, Option<Type>)> {
    match op {
        Operation::QuerySql { stmt, ty } => Some((stmt, ty)),
        Operation::Insert(stmt) => Some((stmt, None)),
        Operation::FindPk { .. } => None,
    }
}

/// The effective output shape: the boolean success marker when none is
/// expected.
pub open spec fn eff_ty(tyo: Option<Type>) -> Type {
    match tyo {
        Some(t) => t,
        None => Type::Bool,
    }
}

/// The write-only fast path applies when no output is expected and, for an
/// update, no precondition must be checked.
pub open spec fn write_only(stmt: Statement, tyo: Option<Type>) -> bool {
    tyo is None && !(stmt matches Statement::Update { pre_condition: Some(_), .. })
}

/// The encoding of a value, where one exists.
pub open spec fn enc1(v: Value) -> Param {
    match enc(v) {
        Some(p) => p,
        None => Param::Null,
    }
}

/// A value row encoded cell by cell.
pub open spec fn row_of(vs: Seq<Value>) -> Seq<Param> {
    vs.map_values(|v: Value| enc1(v))
}

/// An assignment list with its values encoded.
pub open spec fn asg_enc(asg: Seq<(usize, Value)>) -> Seq<(usize, Param)> {
    asg.map_values(|a: (usize, Value)| (a.0, enc1(a.1)))
}

/// An optional equality condition with its value encoded.
pub open spec fn cond_enc(cond: Option<(usize, Value)>) -> Option<(usize, Param)> {
    match cond {
        Some(c) => Some((c.0, enc1(c.1))),
        None => None,
    }
}

/// Every value the statement binds has an encoding.
pub open spec fn stmt_enc_ok(stmt: Statement) -> bool {
    match stmt {
        Statement::CreateTable { .. } => true,
        Statement::Insert { values, .. } => forall|k: int|
            0 <= k < values@.len() ==> enc(#[trigger] values@[k]) is Some,
        Statement::Update { assignments, pre_condition, .. } => {
            &&& forall|k: int|
                0 <= k < assignments@.len() ==> enc((#[trigger] assignments@[k]).1) is Some
            &&& match pre_condition {
                Some(c) => enc(c.1) is Some,
                None => true,
            }
        },
        Statement::Select { filter, .. } => match filter {
            Some(c) => enc(c.1) is Some,
            None => true,
        },
    }
}

/// Whether a stored row matches an optional equality condition, by cell
/// content.
pub open spec fn row_matches(r: Seq<Param>, cond: Option<(usize, Param)>) -> bool {
    match cond {
        None => true,
        Some(c) => c.0 < r.len() && p_eq(r[c.0 as int], c.1),
    }
}

/// A row after an assignment list is applied left to right; an
/// out-of-range column leaves the row unchanged.
pub open spec fn apply_assigns(r: Seq<Param>, asg: Seq<(usize, Param)>) -> Seq<Param>
    decreases asg.len(),
{
    if asg.len() == 0 {
        r
    } else {
        let prev = apply_assigns(r, asg.drop_last());
        let a = asg.last();
        if a.0 < r.len() {
            prev.update(a.0 as int, a.1)
        } else {
            prev
        }
    }
}

/// Applying assignments preserves the row's arity.
pub proof fn lemma_apply_len(r: Seq<Param>, asg: Seq<(usize, Param)>)
    ensures
        apply_assigns(r, asg).len() == r.len(),
    decreases asg.len(),
{
    if asg.len() > 0 {
        lemma_apply_len(r, asg.drop_last());
    }
}

/// A table after an update: matching rows get the assignments, the others
/// stay; row order and row count are unchanged.
pub open spec fn updated_rows(
    rows: Seq<Seq<Param>>,
    asg: Seq<(usize, Param)>,
    cond: Option<(usize, Param)>,
) -> Seq<Seq<Param>> {
    rows.map_values(
        |r: Seq<Param>|
            if row_matches(r, cond) {
                apply_assigns(r, asg)
            } else {
                r
            },
    )
}

/// The rows an update physically returns: the matching rows after the
/// assignments, in table order.
pub open spec fn matched_rows(
    rows: Seq<Seq<Param>>,
    asg: Seq<(usize, Param)>,
    cond: Option<(usize, Param)>,
) -> Seq<Seq<Param>>
    decreases rows.len(),
{
    if rows.len() == 0 {
        Seq::empty()
    } else {
        let p = matched_rows(rows.drop_last(), asg, cond);
        if row_matches(rows.last(), cond) {
            p.push(apply_assigns(rows.last(), asg))
        } else {
            p
        }
    }
}

/// A row projected to the requested columns, in request order.
pub open spec fn project(r: Seq<Param>, cols: Seq<usize>) -> Seq<Param> {
    cols.map_values(|c: usize| r[c as int])
}

/// A row set projected row by row.
pub open spec fn project_rows(rows: Seq<Seq<Param>>, cols: Seq<usize>) -> Seq<Seq<Param>> {
    rows.map_values(|r: Seq<Param>| project(r, cols))
}

/// What an update hands back: the projection requested by its returning
/// clause, or the full matched rows when none is requested.
pub open spec fn returned_rows(
    matched: Seq<Seq<Param>>,
    returning: Option<Vec<usize>>,
) -> Seq<Seq<Param>> {
    match returning {
        Some(cols) => project_rows(matched, cols@),
        None => matched,
    }
}

/// The table state a well-formed, encodable statement commits.
pub open spec fn exec_tables(pre: Seq<Seq<Seq<Param>>>, stmt: Statement) -> Seq<Seq<Seq<Param>>> {
    match stmt {
        Statement::CreateTable { table } => pre.update(table as int, Seq::empty()),
        Statement::Insert { table, values } => pre.update(
            table as int,
            pre[table as int].push(row_of(values@)),
        ),
        Statement::Update { table, assignments, pre_condition, .. } => pre.update(
            table as int,
            updated_rows(pre[table as int], asg_enc(assignments@), cond_enc(pre_condition)),
        ),
        Statement::Select { .. } => pre,
    }
}

/// The raw rows a statement fetches on the transactional path.
pub open spec fn fetched(pre: Seq<Seq<Seq<Param>>>, stmt: Statement) -> Seq<Seq<Param>> {
    match stmt {
        Statement::CreateTable { .. } => Seq::empty(),
        Statement::Insert { values, .. } => seq![row_of(values@)],
        Statement::Update { table, assignments, pre_condition, returning } => returned_rows(
            matched_rows(pre[table as int], asg_enc(assignments@), cond_enc(pre_condition)),
            returning,
        ),
        Statement::Select { table, filter } => matched_rows(
            pre[table as int],
            Seq::empty(),
            cond_enc(filter),
        ),
    }
}

impl View for Mem {
    type V = Seq<Seq<Seq<Param>>>;

    /// The backend's observable state: the raw rows of each table, in
    /// table and insertion order.
    closed spec fn view(&self) -> Seq<Seq<Seq<Param>>> {
        self.tables@.map_values(|t: Vec<Vec<Param>>| rows_v(t@))
    }
}

impl Mem {
    /// Whether the backend carries the declared tables, every stored row
    /// with its table's declared arity.
    pub open spec fn wf(&self, schema: Schema) -> bool {
        &&& self@.len() == schema.tables@.len()
        &&& forall|t: int, r: int|
            0 <= t < self@.len() && 0 <= r < self@[t].len() ==> (#[trigger] self@[t][r]).len()
                == schema.spec_field_count(t)
    }

    /// A backend with no tables; `reset_db` declares them.
    pub fn new() -> (r: Mem)
        ensures
            r@ =~= Seq::<Seq<Seq<Param>>>::empty(),
    {
        Mem { tables: Vec::new() }
    }

    /// The statement forms this driver supports.
    pub fn capability(&self) -> (r: Capability)
        ensures
            r == Capability::Sql,
    {
        Capability::Sql
    }

    /// One-time backend-side preparation; this backend needs none.
    pub fn register_schema(&mut self, schema: &Schema) -> (r: Result<(), Error>)
        ensures
            r is Ok,
            final(self)@ == old(self)@,
    {
        Ok(())
    }

    /// Creates (or recreates, empty) the table at index `table`.
    fn create_table(&mut self, table: usize)
        requires
            table <= old(self)@.len(),
        ensures
            table < old(self)@.len() ==> final(self)@ =~= old(self)@.update(
                table as int,
                Seq::empty(),
            ),
            table == old(self)@.len() ==> final(self)@ =~= old(self)@.push(Seq::empty()),
    {
        if table < self.tables.len() {
            self.tables[table] = Vec::new();
            proof {
                assert(self@[table as int] =~= Seq::<Seq<Param>>::empty());
                assert forall|j: int| 0 <= j < self@.len() && j != table implies self@[j] == old(
                    self,
                )@[j] by {
                    assert(self.tables@[j] == old(self).tables@[j]);
                }
                assert(self@ =~= old(self)@.update(table as int, Seq::empty()));
            }
        } else {
            self.tables.push(Vec::new());
            proof {
                assert(self@[table as int] =~= Seq::<Seq<Param>>::empty());
                assert forall|j: int| 0 <= j < old(self)@.len() implies self@[j] == old(
                    self,
                )@[j] by {
                    assert(self.tables@[j] == old(self).tables@[j]);
                }
                assert(self@ =~= old(self)@.push(Seq::empty()));
            }
        }
    }

    /// Drops and recreates every declared table, leaving each empty.
    ///
    /// Intended for test and bootstrap use, not incremental migration.
    pub fn reset_db(&mut self, schema: &Schema) -> (r: Result<(), Error>)
        ensures
            r is Ok,
            final(self).wf(*schema),
            final(self)@.len() == schema.tables@.len(),
            forall|t: int| 0 <= t < final(self)@.len() ==> (#[trigger] final(self)@[t]).len() == 0,
    {
        self.tables = Vec::new();
        let n = schema.table_count();
        let mut t: usize = 0;
        while t < n
            invariant
                t <= n,
                n == schema.tables@.len(),
                self@.len() == t,
                forall|j: int| 0 <= j < t ==> (#[trigger] self@[j]).len() == 0,
            decreases n - t,
        {
            self.create_table(t);
            t = t + 1;
        }
        Ok(())
    }
}


/// The decoded items of a successful stream: one `Ok` record per raw row,
/// in row order.
pub open spec fn ok_stream(
    items: Seq<Result<Value, Error>>,
    raws: Seq<Seq<Param>>,
    ety: Type,
) -> bool {
    items.len() == raws.len() && forall|k: int|
        0 <= k < raws.len() ==> (items[k] matches Ok(v) && crate::codec::row_decodes_to(
            #[trigger] raws[k],
            ety,
            v,
        ))
}

/// The full observable contract of `exec`: which error comes on which
/// input, that every error leaves the backend unchanged (the transaction
/// rolls back), and what a success commits and streams.
pub open spec fn exec_post(
    pre: Seq<Seq<Seq<Param>>>,
    post: Seq<Seq<Seq<Param>>>,
    schema: Schema,
    op: Operation,
    r: Result<ValueStream, Error>,
) -> bool {
    match op_stmt(op) {
        None => r matches Err(e) && e == Error::UnsupportedOperation && post == pre,
        Some((stmt, tyo)) => if !stmt_wf(stmt, schema) {
            r matches Err(e) && e == Error::CompileFailure && post == pre
        } else if !stmt_enc_ok(stmt) {
            r matches Err(e) && e == Error::UnsupportedEncoding && post == pre
        } else if write_only(stmt, tyo) {
            r matches Ok(s) && s@.len() == 0 && post == exec_tables(pre, stmt)
        } else {
            let raws = fetched(pre, stmt);
            let ety = eff_ty(tyo);
            if !rows_can_decode(raws, ety) {
                r matches Err(e) && e == Error::UnsupportedDecoding && post == pre
            } else if (stmt matches Statement::Update { pre_condition: Some(_), .. })
                && raws.len() == 0 {
                r matches Err(e) && e == Error::PreconditionFailed && post == pre
            } else if stmt matches Statement::Update { returning: None, .. } {
                r matches Ok(s) && s@.len() == 0 && post == exec_tables(pre, stmt)
            } else {
                r matches Ok(s) && post == exec_tables(pre, stmt) && ok_stream(s@, raws, ety)
            }
        },
    }
}

/// Encodes an insert's value row cell by cell.
#[verifier::loop_isolation(false)]
fn encode_values(values: &Vec<Value>) -> (r: Result<Vec<Param>, Error>)
    ensures
        r is Ok <==> (forall|k: int| 0 <= k < values@.len() ==> enc(#[trigger] values@[k]) is Some),
        r matches Ok(ps) ==> ps@ == row_of(values@),
        r matches Err(e) ==> e == Error::UnsupportedEncoding,
{
    let mut ps: Vec<Param> = Vec::new();
    let mut k: usize = 0;
    while k < values.len()
        invariant
            k <= values@.len(),
            ps@.len() == k,
            forall|j: int| 0 <= j < k ==> enc(#[trigger] values@[j]) is Some,
            forall|j: int| 0 <= j < k ==> ps@[j] == enc1(values@[j]),
        decreases values@.len() - k,
    {
        match encode_param(&values[k]) {
            Ok(p) => {
                ps.push(p);
                k = k + 1;
            },
            Err(e) => {
                return Err(e);
            },
        }
    }
    proof {
        assert(ps@ =~= row_of(values@));
    }
    Ok(ps)
}

/// Encodes an update's assignment values.
#[verifier::loop_isolation(false)]
fn encode_asg(asg: &Vec<(usize, Value)>) -> (r: Result<Vec<(usize, Param)>, Error>)
    ensures
        r is Ok <==> (forall|k: int|
            0 <= k < asg@.len() ==> enc((#[trigger] asg@[k]).1) is Some),
        r matches Ok(ps) ==> ps@ == asg_enc(asg@),
        r matches Err(e) ==> e == Error::UnsupportedEncoding,
{
    let mut ps: Vec<(usize, Param)> = Vec::new();
    let mut k: usize = 0;
    while k < asg.len()
        invariant
            k <= asg@.len(),
            ps@.len() == k,
            forall|j: int| 0 <= j < k ==> enc((#[trigger] asg@[j]).1) is Some,
            forall|j: int| 0 <= j < k ==> ps@[j] == (asg@[j].0, enc1(asg@[j].1)),
        decreases asg@.len() - k,
    {
        match encode_param(&asg[k].1) {
            Ok(p) => {
                let c = asg[k].0;
                ps.push((c, p));
                k = k + 1;
            },
            Err(e) => {
                return Err(e);
            },
        }
    }
    proof {
        assert(ps@ =~= asg_enc(asg@));
    }
    Ok(ps)
}

/// Encodes an optional equality condition's value.
fn encode_cond(cond: &Option<(usize, Value)>) -> (r: Result<Option<(usize, Param)>, Error>)
    ensures
        r is Ok <==> (cond matches Some(c) ==> enc(c.1) is Some),
        r matches Ok(cp) ==> cp == cond_enc(*cond),
        r matches Err(e) ==> e == Error::UnsupportedEncoding,
{
    match cond {
        None => Ok(None),
        Some(c) => match encode_param(&c.1) {
            Ok(p) => {
                let col = c.0;
                Ok(Some((col, p)))
            },
            Err(e) => Err(e),
        },
    }
}

/// Copies a table row by row.
#[verifier::loop_isolation(false)]
fn clone_rows(rows: &Vec<Vec<Param>>) -> (c: Vec<Vec<Param>>)
    ensures
        rows_v(c@) == rows_v(rows@),
        c@.len() == rows@.len(),
        forall|i: int| 0 <= i < rows@.len() ==> (#[trigger] c@[i])@ == rows@[i]@,
{
    let mut c: Vec<Vec<Param>> = Vec::new();
    let mut i: usize = 0;
    while i < rows.len()
        invariant
            i <= rows@.len(),
            c@.len() == i,
            forall|j: int| 0 <= j < i ==> (#[trigger] c@[j])@ == rows@[j]@,
        decreases rows@.len() - i,
    {
        c.push(clone_row(&rows[i]));
        i = i + 1;
    }
    proof {
        assert(rows_v(c@) =~= rows_v(rows@));
    }
    c
}

/// Applies an assignment list to a copy of one row, left to right.
#[verifier::loop_isolation(false)]
fn apply_to_row(row: &Vec<Param>, asg: &Vec<(usize, Param)>) -> (r: Vec<Param>)
    requires
        forall|k: int| 0 <= k < asg@.len() ==> (#[trigger] asg@[k]).0 < row@.len(),
    ensures
        r@ == apply_assigns(row@, asg@),
        r@.len() == row@.len(),
{
    let mut r = clone_row(row);
    let mut k: usize = 0;
    while k < asg.len()
        invariant
            k <= asg@.len(),
            r@.len() == row@.len(),
            r@ == apply_assigns(row@, asg@.take(k as int)),
        decreases asg@.len() - k,
    {
        let c = asg[k].0;
        let p = asg[k].1.clone();
        r[c] = p;
        proof {
            assert(asg@.take(k as int + 1).drop_last() =~= asg@.take(k as int));
            assert(asg@.take(k as int + 1).last() == asg@[k as int]);
            lemma_apply_len(row@, asg@.take(k as int));
        }
        k = k + 1;
    }
    proof {
        assert(asg@.take(asg@.len() as int) =~= asg@);
    }
    r
}

/// Projects one row to the requested columns.
#[verifier::loop_isolation(false)]
fn project_row(row: &Vec<Param>, cols: &Vec<usize>) -> (r: Vec<Param>)
    requires
        forall|k: int| 0 <= k < cols@.len() ==> #[trigger] cols@[k] < row@.len(),
    ensures
        r@ == project(row@, cols@),
{
    let mut r: Vec<Param> = Vec::new();
    let mut k: usize = 0;
    while k < cols.len()
        invariant
            k <= cols@.len(),
            r@.len() == k,
            forall|j: int| 0 <= j < k ==> r@[j] == row@[cols@[j] as int],
        decreases cols@.len() - k,
    {
        r.push(row[cols[k]].clone());
        k = k + 1;
    }
    proof {
        assert(r@ =~= project(row@, cols@));
    }
    r
}

/// Projects a row set row by row.
#[verifier::loop_isolation(false)]
fn project_table(rows: &Vec<Vec<Param>>, cols: &Vec<usize>, fc: usize) -> (r: Vec<Vec<Param>>)
    requires
        forall|i: int| 0 <= i < rows@.len() ==> (#[trigger] rows@[i])@.len() == fc,
        forall|k: int| 0 <= k < cols@.len() ==> #[trigger] cols@[k] < fc,
    ensures
        rows_v(r@) == project_rows(rows_v(rows@), cols@),
{
    let mut r: Vec<Vec<Param>> = Vec::new();
    let mut i: usize = 0;
    while i < rows.len()
        invariant
            i <= rows@.len(),
            r@.len() == i,
            forall|j: int| 0 <= j < i ==> (#[trigger] r@[j])@ == project(rows@[j]@, cols@),
        decreases rows@.len() - i,
    {
        r.push(project_row(&rows[i], cols));
        i = i + 1;
    }
    proof {
        assert(rows_v(r@) =~= project_rows(rows_v(rows@), cols@));
    }
    r
}

/// One pass over a table: the table as the update leaves it, and the
/// matching rows as the update returns them, in table order.
#[verifier::loop_isolation(false)]
fn update_table(
    tbl: &Vec<Vec<Param>>,
    asg: &Vec<(usize, Param)>,
    cond: &Option<(usize, Param)>,
    fc: usize,
) -> (r: (Vec<Vec<Param>>, Vec<Vec<Param>>))
    requires
        forall|i: int| 0 <= i < tbl@.len() ==> (#[trigger] tbl@[i])@.len() == fc,
        forall|k: int| 0 <= k < asg@.len() ==> (#[trigger] asg@[k]).0 < fc,
        cond matches Some(c) ==> c.0 < fc,
    ensures
        rows_v(r.0@) == updated_rows(rows_v(tbl@), asg@, *cond),
        rows_v(r.1@) == matched_rows(rows_v(tbl@), asg@, *cond),
        forall|i: int| 0 <= i < r.0@.len() ==> (#[trigger] r.0@[i])@.len() == fc,
        forall|i: int| 0 <= i < r.1@.len() ==> (#[trigger] r.1@[i])@.len() == fc,
{
    let mut new_rows: Vec<Vec<Param>> = Vec::new();
    let mut matched: Vec<Vec<Param>> = Vec::new();
    let mut i: usize = 0;
    while i < tbl.len()
        invariant
            i <= tbl@.len(),
            rows_v(new_rows@) == updated_rows(rows_v(tbl@).take(i as int), asg@, *cond),
            rows_v(matched@) == matched_rows(rows_v(tbl@).take(i as int), asg@, *cond),
            forall|j: int| 0 <= j < new_rows@.len() ==> (#[trigger] new_rows@[j])@.len() == fc,
            forall|j: int| 0 <= j < matched@.len() ==> (#[trigger] matched@[j])@.len() == fc,
        decreases tbl@.len() - i,
    {
        let row = &tbl[i];
        let m: bool = match cond {
            Some(c) => param_eq(&row[c.0], &c.1),
            None => true,
        };
        proof {
            assert(m == row_matches(row@, *cond));
            assert(rows_v(tbl@).take(i as int + 1).drop_last() =~= rows_v(tbl@).take(i as int));
            assert(rows_v(tbl@).take(i as int + 1).last() == row@);
        }
        let ghost pre_new = new_rows@;
        let ghost pre_m = matched@;
        if m {
            let nr = apply_to_row(row, asg);
            let nr2 = clone_row(&nr);
            proof {
                lemma_apply_len(row@, asg@);
            }
            new_rows.push(nr);
            matched.push(nr2);
            proof {
                assert(rows_v(new_rows@) =~= rows_v(pre_new).push(apply_assigns(row@, asg@)));
                assert(rows_v(matched@) =~= rows_v(pre_m).push(apply_assigns(row@, asg@)));
                assert(updated_rows(rows_v(tbl@).take(i as int + 1), asg@, *cond) =~= updated_rows(
                    rows_v(tbl@).take(i as int),
                    asg@,
                    *cond,
                ).push(apply_assigns(row@, asg@)));
                assert(matched_rows(rows_v(tbl@).take(i as int + 1), asg@, *cond) == matched_rows(
                    rows_v(tbl@).take(i as int),
                    asg@,
                    *cond,
                ).push(apply_assigns(row@, asg@)));
            }
        } else {
            let cr = clone_row(row);
            new_rows.push(cr);
            proof {
                assert(rows_v(new_rows@) =~= rows_v(pre_new).push(row@));
                assert(updated_rows(rows_v(tbl@).take(i as int + 1), asg@, *cond) =~= updated_rows(
                    rows_v(tbl@).take(i as int),
                    asg@,
                    *cond,
                ).push(row@));
                assert(matched_rows(rows_v(tbl@).take(i as int + 1), asg@, *cond) == matched_rows(
                    rows_v(tbl@).take(i as int),
                    asg@,
                    *cond,
                ));
            }
        }
        i = i + 1;
    }
    proof {
        assert(rows_v(tbl@).take(tbl@.len() as int) =~= rows_v(tbl@));
    }
    (new_rows, matched)
}


/// A table with one encoded row appended; every row keeps the declared
/// arity.
#[verifier::loop_isolation(false)]
fn push_row(tbl: &Vec<Vec<Param>>, row: Vec<Param>, fc: usize) -> (r: Vec<Vec<Param>>)
    requires
        forall|i: int| 0 <= i < tbl@.len() ==> (#[trigger] tbl@[i])@.len() == fc,
        row@.len() == fc,
    ensures
        rows_v(r@) == rows_v(tbl@).push(row@),
        forall|i: int| 0 <= i < r@.len() ==> (#[trigger] r@[i])@.len() == fc,
{
    let mut r = clone_rows(tbl);
    let ghost cl = r@;
    r.push(row);
    proof {
        assert(rows_v(r@) =~= rows_v(tbl@).push(row@));
        assert forall|i: int| 0 <= i < r@.len() implies (#[trigger] r@[i])@.len() == fc by {
            if i < r@.len() - 1 {
                assert(r@[i] == cl[i]);
                assert(cl[i]@ == tbl@[i]@);
            }
        }
    }
    r
}

/// A stream built from decoded records satisfies the success-stream
/// contract against the raw rows they came from.
proof fn lemma_ok_stream(
    s_items: Seq<Result<Value, Error>>,
    items: Seq<Value>,
    raws: Seq<Seq<Param>>,
    ety: Type,
)
    requires
        stream_decodes(items, raws, ety),
        s_items.len() == items.len(),
        forall|k: int| 0 <= k < items.len() ==> s_items[k] == Result::<Value, Error>::Ok(items[k]),
    ensures
        ok_stream(s_items, raws, ety),
{
    assert forall|k: int| #![trigger raws[k]] 0 <= k < raws.len() implies (s_items[k] matches Ok(v)
        && crate::codec::row_decodes_to(raws[k], ety, v)) by {
        assert(s_items[k] == Result::<Value, Error>::Ok(items[k]));
    }
}

impl Mem {
    /// Executes one operation against the backend.
    ///
    /// Classifies the operation, encodes its bound values, takes the
    /// write-only fast path where no output is expected and no update
    /// precondition must be checked, and otherwise runs the statement
    /// transactionally: fetch, decode every row under the effective output
    /// shape, enforce the precondition protocol and the returning
    /// suppression, and commit only when no failure path is taken. Every
    /// error leaves the backend exactly as it was.
    #[verifier::loop_isolation(false)]
    pub fn exec(&mut self, schema: &Schema, op: Operation) -> (r: Result<ValueStream, Error>)
        requires
            old(self).wf(*schema),
        ensures
            final(self).wf(*schema),
            exec_post(old(self)@, final(self)@, *schema, op, r),
    {
        let (stmt, tyo): (Statement, Option<Type>) = match op {
            Operation::QuerySql { stmt, ty } => (stmt, ty),
            Operation::Insert(stmt) => (stmt, None),
            Operation::FindPk { .. } => {
                return Err(Error::UnsupportedOperation);
            },
        };
        let ghost gtyo = tyo;
        proof {
            assert(op_stmt(op) == Some((stmt, gtyo)));
        }
        if !check_stmt(&stmt, schema) {
            return Err(Error::CompileFailure);
        }
        let has_ty = tyo.is_some();
        let ety: Type = match tyo {
            Some(t) => t,
            None => Type::Bool,
        };
        proof {
            assert(ety == eff_ty(gtyo));
        }
        match &stmt {
            Statement::CreateTable { table } => {
                self.create_table(*table);
                proof {
                    assert(final(self)@ =~= exec_tables(old(self)@, stmt));
                    assert(fetched(old(self)@, stmt) =~= Seq::<Seq<Param>>::empty());
                }
                Ok(ValueStream::new())
            },
            Statement::Insert { table, values } => {
                let row = match encode_values(values) {
                    Ok(r) => r,
                    Err(e) => {
                        return Err(e);
                    },
                };
                let fc = schema.field_count(*table);
                proof {
                    assert(row@.len() == fc);
                    assert(self@[*table as int] == rows_v(self.tables@[*table as int]@));
                }
                proof {
                    assert forall|i: int|
                        0 <= i < self.tables@[*table as int]@.len() implies (
                    #[trigger] self.tables@[*table as int]@[i])@.len() == fc by {
                        assert(self@[*table as int][i] == self.tables@[*table as int]@[i]@);
                    }
                }
                if !has_ty {
                    let new_tbl = push_row(&self.tables[*table], row, fc);
                    let ghost ntv = new_tbl@;
                    self.tables[*table] = new_tbl;
                    proof {
                        self.lemma_commit(*old(self), *table, ntv, *schema, fc);
                        assert(rows_v(ntv) =~= old(self)@[*table as int].push(row_of(values@)));
                        assert(final(self)@ =~= exec_tables(old(self)@, stmt));
                    }
                    Ok(ValueStream::new())
                } else {
                    let mut fv: Vec<Vec<Param>> = Vec::new();
                    fv.push(clone_row(&row));
                    proof {
                        assert(rows_v(fv@) =~= fetched(old(self)@, stmt));
                    }
                    match decode_rows(&fv, &ety) {
                        Err(_) => Err(Error::UnsupportedDecoding),
                        Ok(items) => {
                            let new_tbl = push_row(&self.tables[*table], row, fc);
                            let ghost ntv = new_tbl@;
                            self.tables[*table] = new_tbl;
                            let s = ValueStream::from_vec(items);
                            proof {
                                self.lemma_commit(*old(self), *table, ntv, *schema, fc);
                                assert(rows_v(ntv) =~= old(self)@[*table as int].push(
                                    row_of(values@),
                                ));
                                assert(final(self)@ =~= exec_tables(old(self)@, stmt));
                                lemma_ok_stream(s@, items@, fetched(old(self)@, stmt), ety);
                            }
                            Ok(s)
                        },
                    }
                }
            },
            Statement::Update { table, assignments, pre_condition, returning } => {
                let asg_e = match encode_asg(assignments) {
                    Ok(a) => a,
                    Err(e) => {
                        return Err(e);
                    },
                };
                let cond_e = match encode_cond(pre_condition) {
                    Ok(c) => c,
                    Err(e) => {
                        return Err(e);
                    },
                };
                let fc = schema.field_count(*table);
                proof {
                    assert(self@[*table as int] == rows_v(self.tables@[*table as int]@));
                    assert forall|i: int|
                        0 <= i < self.tables@[*table as int]@.len() implies (
                    #[trigger] self.tables@[*table as int]@[i])@.len() == fc by {
                        assert(self@[*table as int][i] == self.tables@[*table as int]@[i]@);
                    }
                }
                let (new_rows, matched) = update_table(
                    &self.tables[*table],
                    &asg_e,
                    &cond_e,
                    fc,
                );
                let has_pre = pre_condition.is_some();
                if !has_ty && !has_pre {
                    let ghost ntv = new_rows@;
                    self.tables[*table] = new_rows;
                    proof {
                        self.lemma_commit(*old(self), *table, ntv, *schema, fc);
                        assert(final(self)@ =~= exec_tables(old(self)@, stmt));
                    }
                    Ok(ValueStream::new())
                } else {
                    let returned: Vec<Vec<Param>> = match returning {
                        Some(cols) => project_table(&matched, cols, fc),
                        None => matched,
                    };
                    proof {
                        assert(rows_v(returned@) =~= fetched(old(self)@, stmt));
                    }
                    match decode_rows(&returned, &ety) {
                        Err(_) => Err(Error::UnsupportedDecoding),
                        Ok(items) => {
                            if has_pre && returned.len() == 0 {
                                return Err(Error::PreconditionFailed);
                            }
                            let ghost ntv = new_rows@;
                            self.tables[*table] = new_rows;
                            proof {
                                self.lemma_commit(*old(self), *table, ntv, *schema, fc);
                                assert(final(self)@ =~= exec_tables(old(self)@, stmt));
                            }
                            if returning.is_some() {
                                let s = ValueStream::from_vec(items);
                                proof {
                                    lemma_ok_stream(s@, items@, fetched(old(self)@, stmt), ety);
                                }
                                Ok(s)
                            } else {
                                Ok(ValueStream::new())
                            }
                        },
                    }
                }
            },
            Statement::Select { table, filter } => {
                let cond_e = match encode_cond(filter) {
                    Ok(c) => c,
                    Err(e) => {
                        return Err(e);
                    },
                };
                let fc = schema.field_count(*table);
                proof {
                    assert(self@[*table as int] == rows_v(self.tables@[*table as int]@));
                    assert forall|i: int|
                        0 <= i < self.tables@[*table as int]@.len() implies (
                    #[trigger] self.tables@[*table as int]@[i])@.len() == fc by {
                        assert(self@[*table as int][i] == self.tables@[*table as int]@[i]@);
                    }
                }
                let asg_empty: Vec<(usize, Param)> = Vec::new();
                let (unchanged_rows, matched) = update_table(
                    &self.tables[*table],
                    &asg_empty,
                    &cond_e,
                    fc,
                );
                proof {
                    assert(asg_empty@ =~= Seq::<(usize, Param)>::empty());
                    assert(rows_v(matched@) =~= fetched(old(self)@, stmt));
                }
                if !has_ty {
                    Ok(ValueStream::new())
                } else {
                    match decode_rows(&matched, &ety) {
                        Err(_) => Err(Error::UnsupportedDecoding),
                        Ok(items) => {
                            let s = ValueStream::from_vec(items);
                            proof {
                                lemma_ok_stream(s@, items@, fetched(old(self)@, stmt), ety);
                            }
                            Ok(s)
                        },
                    }
                }
            },
        }
    }

    /// After one table is replaced, the backend equals the old state with
    /// that table updated, and stays well formed when the new rows have
    /// the declared arity.
    proof fn lemma_commit(
        &self,
        pre: Mem,
        table: usize,
        ntv: Seq<Vec<Param>>,
        schema: Schema,
        fc: usize,
    )
        requires
            pre.wf(schema),
            table < pre@.len(),
            self.tables@.len() == pre.tables@.len(),
            self.tables@[table as int]@ == ntv,
            forall|j: int|
                0 <= j < pre.tables@.len() && j != table ==> #[trigger] self.tables@[j]
                    == pre.tables@[j],
            fc == schema.spec_field_count(table as int),
            forall|i: int| 0 <= i < ntv.len() ==> (#[trigger] ntv[i])@.len() == fc,
        ensures
            self@ == pre@.update(table as int, rows_v(ntv)),
            self.wf(schema),
    {
        assert forall|j: int| 0 <= j < pre@.len() && j != table implies self@[j] == pre@[j] by {
            assert(self.tables@[j] == pre.tables@[j]);
        }
        assert(self@[table as int] == rows_v(ntv));
        assert(self@ =~= pre@.update(table as int, rows_v(ntv)));
        assert forall|t: int, r: int|
            0 <= t < self@.len() && 0 <= r < self@[t].len() implies (#[trigger] self@[t][r]).len()
                == schema.spec_field_count(t) by {
            if t == table {
                assert(self@[t][r] == ntv[r]@);
            } else {
                assert(self@[t] == pre@[t]);
            }
        }
    }
}


/// Write-only short-circuit: an insert with no expected output returns a
/// stream that yields nothing on its first pull, after exactly one write:
/// one row appended to its table, every other table untouched.
pub proof fn lemma_write_only_short_circuit(
    pre: Seq<Seq<Seq<Param>>>,
    post: Seq<Seq<Seq<Param>>>,
    schema: Schema,
    table: usize,
    values: Vec<Value>,
    r: Result<ValueStream, Error>,
)
    requires
        exec_post(
            pre,
            post,
            schema,
            Operation::Insert(Statement::Insert { table, values }),
            r,
        ),
        stmt_wf(Statement::Insert { table, values }, schema),
        stmt_enc_ok(Statement::Insert { table, values }),
        table < pre.len(),
    ensures
        r matches Ok(s) && s@.len() == 0,
        post[table as int] == pre[table as int].push(row_of(values@)),
        post[table as int].len() == pre[table as int].len() + 1,
        forall|t: int| 0 <= t < pre.len() && t != table ==> post[t] == pre[t],
{
    let stmt = Statement::Insert { table, values };
    assert(write_only(stmt, None));
    assert(post == exec_tables(pre, stmt));
}

/// Precondition atomicity: an update whose optimistic-concurrency
/// precondition matches zero rows fails with the precondition error, and
/// the backend's observable state is exactly what it was: no mutation is
/// committed.
pub proof fn lemma_precondition_atomicity(
    pre: Seq<Seq<Seq<Param>>>,
    post: Seq<Seq<Seq<Param>>>,
    schema: Schema,
    table: usize,
    assignments: Vec<(usize, Value)>,
    cond: (usize, Value),
    returning: Option<Vec<usize>>,
    tyo: Option<Type>,
    r: Result<ValueStream, Error>,
)
    requires
        exec_post(
            pre,
            post,
            schema,
            Operation::QuerySql {
                stmt: Statement::Update {
                    table,
                    assignments,
                    pre_condition: Some(cond),
                    returning,
                },
                ty: tyo,
            },
            r,
        ),
        stmt_wf(
            Statement::Update { table, assignments, pre_condition: Some(cond), returning },
            schema,
        ),
        stmt_enc_ok(
            Statement::Update { table, assignments, pre_condition: Some(cond), returning },
        ),
        matched_rows(pre[table as int], asg_enc(assignments@), cond_enc(Some(cond))).len() == 0,
    ensures
        r matches Err(e) && e == Error::PreconditionFailed,
        post == pre,
{
    let stmt = Statement::Update { table, assignments, pre_condition: Some(cond), returning };
    let raws = fetched(pre, stmt);
    assert(!write_only(stmt, tyo));
    assert(raws.len() == 0);
    assert(rows_can_decode(raws, eff_ty(tyo)));
}

/// Returning suppression: an update whose precondition matches rows but
/// that requests no returning clause yields an empty stream even though
/// the backend physically returned the matching rows, and the update
/// itself commits.
pub proof fn lemma_returning_suppression(
    pre: Seq<Seq<Seq<Param>>>,
    post: Seq<Seq<Seq<Param>>>,
    schema: Schema,
    table: usize,
    assignments: Vec<(usize, Value)>,
    cond: (usize, Value),
    r: Result<ValueStream, Error>,
)
    requires
        exec_post(
            pre,
            post,
            schema,
            Operation::QuerySql {
                stmt: Statement::Update {
                    table,
                    assignments,
                    pre_condition: Some(cond),
                    returning: None,
                },
                ty: None,
            },
            r,
        ),
        stmt_wf(
            Statement::Update { table, assignments, pre_condition: Some(cond), returning: None },
            schema,
        ),
        stmt_enc_ok(
            Statement::Update { table, assignments, pre_condition: Some(cond), returning: None },
        ),
        matched_rows(pre[table as int], asg_enc(assignments@), cond_enc(Some(cond))).len() > 0,
    ensures
        r matches Ok(s) && s@.len() == 0,
        post == pre.update(
            table as int,
            updated_rows(pre[table as int], asg_enc(assignments@), cond_enc(Some(cond))),
        ),
{
    let stmt = Statement::Update {
        table,
        assignments,
        pre_condition: Some(cond),
        returning: None,
    };
    let raws = fetched(pre, stmt);
    assert(!write_only(stmt, Option::<Type>::None));
    assert(raws.len() > 0);
    assert forall|k: int| 0 <= k < raws.len() implies crate::codec::row_can_decode(
        #[trigger] raws[k],
        eff_ty(Option::<Type>::None),
    ) by {}
    assert(rows_can_decode(raws, eff_ty(Option::<Type>::None)));
    assert(post == exec_tables(pre, stmt));
}


/// The cells the backend stores for an insert are exactly the flat
/// encoding of its values, cell by cell.
pub proof fn lemma_stored_row_is_flat_encoding(vs: Seq<Value>)
    requires
        forall|k: int| 0 <= k < vs.len() ==> enc(#[trigger] vs[k]) is Some,
    ensures
        row_of(vs) == crate::codec::flat_enc_list(vs),
    decreases vs.len(),
{
    if vs.len() == 0 {
        assert(row_of(vs) =~= crate::codec::flat_enc_list(vs));
    } else {
        assert(crate::codec::flat_enc(vs[0]) =~= seq![enc1(vs[0])]);
        assert forall|k: int| 0 <= k < vs.drop_first().len() implies enc(
            #[trigger] vs.drop_first()[k],
        ) is Some by {
            assert(vs.drop_first()[k] == vs[k + 1]);
        }
        lemma_stored_row_is_flat_encoding(vs.drop_first());
        assert(row_of(vs) =~= seq![enc1(vs[0])] + row_of(vs.drop_first()));
    }
}

/// Storage round trip: a row of encodable values, inserted and read back
/// under field shapes each value conforms to, decodes to exactly those
/// values.
pub proof fn lemma_insert_select_round_trip(vs: Seq<Value>, tys: Seq<Type>)
    requires
        vs.len() == tys.len(),
        forall|k: int| 0 <= k < vs.len() ==> crate::value::ty_matches(#[trigger] vs[k], tys[k]),
        forall|k: int| 0 <= k < vs.len() ==> enc(#[trigger] vs[k]) is Some,
    ensures
        crate::codec::decodes_list(row_of(vs), 0, tys, vs),
        crate::codec::can_decode_list(row_of(vs), 0, tys),
{
    lemma_stored_row_is_flat_encoding(vs);
    let cells = crate::codec::flat_enc_list(vs);
    assert(cells.subrange(0, cells.len() as int) =~= cells);
    crate::codec::lemma_enc_dec_list(vs, tys, cells, 0);
}

} // verus!
