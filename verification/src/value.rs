use vstd::prelude::*;

verus! {

broadcast use {
    vstd::std_specs::vec::axiom_vec_index_decreases,
    vstd::seq::axiom_seq_index_decreases,
    vstd::seq::axiom_seq_subrange_decreases,
};

/// A dynamically tagged data value, used both as a bind parameter and as a
/// decoded row cell.
#[derive(Debug, PartialEq)]
pub enum Value {
    /// An identifier, carried in its canonical textual form.
    Id(String),
    /// A 64-bit signed integer.
    I64(i64),
    /// A text value.
    String(String),
    /// A boolean value.
    Bool(bool),
    /// The SQL null value.
    Null,
    /// An enum member, carried as its discriminant.
    Enum(u32),
    /// A nested record of values.
    Record(Record),
}

/// One decoded row: an ordered, fixed-arity sequence of values.
#[derive(Debug, PartialEq)]
pub struct Record {
    pub fields: Vec<Value>,
}

/// Describes the expected output shape of a statement and drives how raw
/// rows are decoded.
#[derive(Debug, PartialEq)]
pub enum Type {
    /// An identifier column.
    Id,
    /// A 64-bit integer column.
    I64,
    /// A text column.
    String,
    /// A boolean column; also the "success marker" shape for statements
    /// with no meaningful row payload.
    Bool,
    /// A byte-sequence column. No value variant carries bytes, so decoding
    /// under this type fails explicitly.
    Bytes,
    /// A floating-point column. The value model carries no floating-point
    /// payload, so decoding under this type fails explicitly.
    Float,
    /// A column that is always null.
    Null,
    /// An enum-member column.
    Enum,
    /// A flat or nested record of typed fields; decoding consumes one
    /// contiguous run of raw columns per field.
    Record(Vec<Type>),
}

/// A backend bind parameter or raw row cell: the closed set of shapes the
/// backend itself can represent.
#[derive(Debug, PartialEq)]
pub enum Param {
    Text(String),
    Int(i64),
    Bool(bool),
    Null,
}

impl Record {
    /// Wraps an owned vector of values as a record.
    pub fn from_vec(fields: Vec<Value>) -> (r: Record)
        ensures
            r.fields == fields,
    {
        Record { fields }
    }

    /// The record's arity.
    pub fn len(&self) -> (n: usize)
        ensures
            n == self.fields@.len(),
    {
        self.fields.len()
    }
}

/// Equality of raw cells, comparing text content rather than `String`
/// identity.
pub open spec fn p_eq(a: Param, b: Param) -> bool {
    match (a, b) {
        (Param::Text(x), Param::Text(y)) => x@ == y@,
        (Param::Int(x), Param::Int(y)) => x == y,
        (Param::Bool(x), Param::Bool(y)) => x == y,
        (Param::Null, Param::Null) => true,
        _ => false,
    }
}

/// Decides cell equality, as the backend does when it checks whether a row
/// matches an update's precondition.
pub fn param_eq(a: &Param, b: &Param) -> (r: bool)
    ensures
        r == p_eq(*a, *b),
{
    match (a, b) {
        (Param::Text(x), Param::Text(y)) => x.eq(y),
        (Param::Int(x), Param::Int(y)) => *x == *y,
        (Param::Bool(x), Param::Bool(y)) => *x == *y,
        (Param::Null, Param::Null) => true,
        _ => false,
    }
}

/// Content equality of values: scalars compare by payload (text by its
/// characters), records field by field.
pub open spec fn v_eq(a: Value, b: Value) -> bool
    decreases a, 0nat,
{
    match (a, b) {
        (Value::Id(x), Value::Id(y)) => x@ == y@,
        (Value::I64(x), Value::I64(y)) => x == y,
        (Value::String(x), Value::String(y)) => x@ == y@,
        (Value::Bool(x), Value::Bool(y)) => x == y,
        (Value::Null, Value::Null) => true,
        (Value::Enum(x), Value::Enum(y)) => x == y,
        (Value::Record(x), Value::Record(y)) => rec_eq(x, y),
        _ => false,
    }
}

/// Content equality of records: same arity, fields pairwise equal.
pub open spec fn rec_eq(a: Record, b: Record) -> bool
    decreases a, 1nat,
{
    a.fields@.len() == b.fields@.len() && forall|k: int|
        0 <= k < a.fields@.len() ==> v_eq(#[trigger] a.fields@[k], b.fields@[k])
}

/// Content equality is reflexive.
pub proof fn lemma_v_eq_refl(v: Value)
    ensures
        v_eq(v, v),
    decreases v,
{
    match v {
        Value::Record(r) => {
            assert forall|k: int| 0 <= k < r.fields@.len() implies v_eq(
                #[trigger] r.fields@[k],
                r.fields@[k],
            ) by {
                lemma_v_eq_refl(r.fields@[k]);
            }
        },
        _ => {},
    }
}

/// Whether `ty` is a shape that value `v` conforms to; the natural type of
/// a value is such a shape.
pub open spec fn ty_matches(v: Value, ty: Type) -> bool
    decreases v,
{
    match v {
        Value::Id(_) => ty is Id,
        Value::I64(_) => ty is I64,
        Value::String(_) => ty is String,
        Value::Bool(_) => ty is Bool,
        Value::Null => ty is Null,
        Value::Enum(_) => ty is Enum,
        Value::Record(r) => match ty {
            Type::Record(tys) => tys@.len() == r.fields@.len() && forall|k: int|
                0 <= k < tys@.len() ==> ty_matches(#[trigger] r.fields@[k], tys@[k]),
            _ => false,
        },
    }
}

impl Clone for Param {
    /// Clones a cell; the copy equals the original.
    fn clone(&self) -> (r: Self)
        ensures
            r == *self,
    {
        match self {
            Param::Text(s) => Param::Text(s.clone()),
            Param::Int(x) => Param::Int(*x),
            Param::Bool(b) => Param::Bool(*b),
            Param::Null => Param::Null,
        }
    }
}

/// Copies a raw row cell by cell.
pub fn clone_row(r: &Vec<Param>) -> (c: Vec<Param>)
    ensures
        c@ == r@,
{
    let mut c: Vec<Param> = Vec::new();
    let mut i: usize = 0;
    while i < r.len()
        invariant
            i <= r@.len(),
            c@ == r@.subrange(0, i as int),
        decreases r@.len() - i,
    {
        c.push(r[i].clone());
        i = i + 1;
        proof {
            assert(c@ =~= r@.subrange(0, i as int));
        }
    }
    proof {
        assert(c@ =~= r@);
    }
    c
}

} // verus!
