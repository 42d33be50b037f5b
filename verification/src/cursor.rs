use vstd::prelude::*;

use crate::error::Error;
use crate::schema::Schema;
use crate::stream::ValueStream;
use crate::value::{Record, Value};

verus! {

/// The model materialization capability, implemented once per application
/// entity type: an identifying constant correlating the type to a schema
/// entry, and a decoder from one arity-checked record.
pub trait Model: Sized {
    /// The schema entry this model corresponds to.
    spec fn id_spec() -> int;

    /// What `load` returns for any record.
    spec fn load_spec(row: Record) -> Result<Self, Error>;

    /// The identifying constant correlating the type to a schema entry.
    fn model_id() -> (r: usize)
        ensures
            r as int == Self::id_spec(),
    ;

    /// Converts one fully-arity-checked record into the typed value; may
    /// fail if field contents are semantically invalid even though arity
    /// matched.
    fn load(row: Record) -> (r: Result<Self, Error>)
        ensures
            r == Self::load_spec(row),
    ;
}

/// An accumulator a cursor can drain into: default construction plus
/// incremental extension by one model instance.
pub trait FromCursor<A>: Sized {
    /// The items accumulated so far, in insertion order.
    spec fn items(&self) -> Seq<A>;

    /// A fresh, empty accumulator.
    fn empty() -> (r: Self)
        ensures
            r.items() =~= Seq::<A>::empty(),
    ;

    /// Appends one item.
    fn extend_one(&mut self, item: A)
        ensures
            final(self).items() == old(self).items().push(item),
    ;
}

impl<A> FromCursor<A> for Vec<A> {
    open spec fn items(&self) -> Seq<A> {
        self@
    }

    fn empty() -> (r: Self) {
        Vec::new()
    }

    fn extend_one(&mut self, item: A) {
        self.push(item);
    }
}

/// An accumulator that keeps a running count beside the collected rows.
pub struct Counted<A> {
    pub count: usize,
    pub rows: Vec<A>,
}

impl<A> FromCursor<A> for Counted<A> {
    open spec fn items(&self) -> Seq<A> {
        self.rows@
    }

    fn empty() -> (r: Self) {
        Counted { count: 0, rows: Vec::new() }
    }

    fn extend_one(&mut self, item: A) {
        self.rows.push(item);
        if self.count < usize::MAX {
            self.count = self.count + 1;
        }
    }
}

/// The outcome of materializing one stream item for a model whose declared
/// field count is `n`: stream errors propagate, a record of the wrong
/// arity is an arity error (checked unconditionally), a non-record item
/// cannot decode, and a valid record is handed to the model's decoder.
pub open spec fn step<M: Model>(item: Result<Value, Error>, n: nat) -> Result<M, Error> {
    match item {
        Err(e) => Err(e),
        Ok(v) => match v {
            Value::Record(rec) => if rec.fields@.len() == n {
                M::load_spec(rec)
            } else {
                Err(Error::ArityMismatch)
            },
            _ => Err(Error::ModelDecodeFailure),
        },
    }
}

/// The result of draining a stream: the typed models in stream order, or
/// the first error encountered.
pub open spec fn materialize<M: Model>(items: Seq<Result<Value, Error>>, n: nat) -> Result<
    Seq<M>,
    Error,
>
    decreases items.len(),
{
    if items.len() == 0 {
        Ok(Seq::empty())
    } else {
        match step::<M>(items[0], n) {
            Err(e) => Err(e),
            Ok(m) => match materialize::<M>(items.drop_first(), n) {
                Ok(s) => Ok(seq![m] + s),
                Err(e) => Err(e),
            },
        }
    }
}

/// Arity enforcement: a record whose length differs from the declared
/// field count materializes as an arity error, never as decoded garbage.
pub proof fn lemma_arity_enforcement<M: Model>(rec: Record, n: nat)
    requires
        rec.fields@.len() != n,
    ensures
        step::<M>(Ok(Value::Record(rec)), n) == Err::<M, Error>(Error::ArityMismatch),
{
}

/// Collection equivalence: the materialization of a stream is one
/// sequence, so any two accumulators drained from the same query hold the
/// same models, in the same order and number.
pub proof fn lemma_collection_equivalence<M: Model>(
    items: Seq<Result<Value, Error>>,
    n: nat,
    s1: Seq<M>,
    s2: Seq<M>,
)
    requires
        materialize::<M>(items, n) == Ok::<Seq<M>, Error>(s1),
        materialize::<M>(items, n) == Ok::<Seq<M>, Error>(s2),
    ensures
        s1 == s2,
        s1.len() == s2.len(),
{
}

/// Binds a value stream to the schema and a target model type `M`: each
/// item's record arity is validated against the schema's declared field
/// count for `M` before `M`'s decoder runs.
pub struct Cursor<'a, M> {
    schema: &'a Schema,
    values: ValueStream,
    _p: core::marker::PhantomData<M>,
}

impl<'a, M: Model> Cursor<'a, M> {
    /// The bound schema.
    pub closed spec fn sch(&self) -> Schema {
        *self.schema
    }

    /// The stream items not yet consumed.
    pub closed spec fn remaining(&self) -> Seq<Result<Value, Error>> {
        self.values@
    }

    /// The model's schema entry exists.
    pub open spec fn wf(&self) -> bool {
        0 <= M::id_spec() < self.sch().tables@.len()
    }

    /// The declared field count every record must match.
    pub open spec fn n(&self) -> nat {
        self.sch().spec_field_count(M::id_spec())
    }

    /// Binds a stream to the schema for model `M`.
    pub fn new(schema: &'a Schema, values: ValueStream) -> (r: Cursor<'a, M>)
        requires
            0 <= M::id_spec() < schema.tables@.len(),
        ensures
            r.wf(),
            r.sch() == *schema,
            r.remaining() == values@,
    {
        Cursor { schema, values, _p: core::marker::PhantomData }
    }

    /// Pulls one item: `None` at end of stream, otherwise the arity-checked,
    /// decoded model or the error that stops this item.
    pub fn next(&mut self) -> (r: Option<Result<M, Error>>)
        requires
            old(self).wf(),
        ensures
            final(self).wf(),
            final(self).sch() == old(self).sch(),
            old(self).remaining().len() == 0 ==> r is None && final(self).remaining() == old(
                self,
            ).remaining(),
            old(self).remaining().len() > 0 ==> final(self).remaining() == old(
                self,
            ).remaining().drop_first() && r == Some(
                step::<M>(old(self).remaining()[0], old(self).n()),
            ),
    {
        match self.values.next() {
            None => None,
            Some(item) => match item {
                Ok(v) => match v {
                    Value::Record(rec) => {
                        let n = self.schema.field_count(M::model_id());
                        if rec.len() == n {
                            Some(M::load(rec))
                        } else {
                            Some(Err(Error::ArityMismatch))
                        }
                    },
                    _ => Some(Err(Error::ModelDecodeFailure)),
                },
                Err(e) => Some(Err(e)),
            },
        }
    }

    /// Drains all remaining items into any accumulator type, stopping at
    /// and propagating the first error; on success every remaining item
    /// has been consumed and the accumulator holds the models in stream
    /// order.
    #[verifier::loop_isolation(false)]
    pub fn collect<B: FromCursor<M>>(self) -> (r: Result<B, Error>)
        requires
            self.wf(),
        ensures
            materialize::<M>(self.remaining(), self.n()) matches Ok(s) ==> (r matches Ok(b)
                && b.items() == s),
            materialize::<M>(self.remaining(), self.n()) matches Err(e) ==> r == Err::<B, Error>(
                e,
            ),
    {
        let ghost total = self.remaining();
        let ghost n = self.n();
        let mut cur = self;
        let mut acc = B::empty();
        loop
            invariant
                cur.wf(),
                cur.n() == n,
                materialize::<M>(total, n) == (match materialize::<M>(cur.remaining(), n) {
                    Ok(s2) => Result::<Seq<M>, Error>::Ok(acc.items() + s2),
                    Err(e) => Err(e),
                }),
            decreases cur.remaining().len(),
        {
            let ghost before = cur.remaining();
            match cur.next() {
                None => {
                    proof {
                        assert(acc.items() + Seq::<M>::empty() =~= acc.items());
                    }
                    return Ok(acc);
                },
                Some(res) => match res {
                    Ok(m) => {
                        let ghost prev_items = acc.items();
                        acc.extend_one(m);
                        proof {
                            assert(step::<M>(before[0], n) == Ok::<M, Error>(m));
                            assert forall|s2: Seq<M>| true implies prev_items + (seq![m] + s2)
                                =~= acc.items() + s2 by {
                                assert(acc.items() == prev_items.push(m));
                            }
                        }
                    },
                    Err(e) => {
                        proof {
                            assert(step::<M>(before[0], n) == Err::<M, Error>(e));
                        }
                        return Err(e);
                    },
                },
            }
        }
    }
}

/// A minimal application model: an integer key and a text label, decoded
/// from a (integer, text) record; it correlates to the first schema entry.
#[derive(Debug, PartialEq)]
pub struct Entry {
    pub key: i64,
    pub label: String,
}

impl Model for Entry {
    open spec fn id_spec() -> int {
        0
    }

    open spec fn load_spec(row: Record) -> Result<Entry, Error> {
        if row.fields@.len() == 2 {
            match (row.fields@[0], row.fields@[1]) {
                (Value::I64(k), Value::String(s)) => Ok(Entry { key: k, label: s }),
                _ => Err(Error::ModelDecodeFailure),
            }
        } else {
            Err(Error::ModelDecodeFailure)
        }
    }

    fn model_id() -> (r: usize) {
        0
    }

    fn load(row: Record) -> (r: Result<Entry, Error>) {
        let mut fields = row.fields;
        if fields.len() == 2 {
            let a = fields.remove(0);
            let b = fields.remove(0);
            match (a, b) {
                (Value::I64(k), Value::String(s)) => Ok(Entry { key: k, label: s }),
                _ => Err(Error::ModelDecodeFailure),
            }
        } else {
            Err(Error::ModelDecodeFailure)
        }
    }
}

} // verus!
