use vstd::prelude::*;

use crate::error::Error;
use crate::value::{p_eq, rec_eq, ty_matches, v_eq, Param, Record, Type, Value};

verus! {

broadcast use {
    vstd::std_specs::vec::axiom_vec_index_decreases,
    vstd::std_specs::vec::axiom_vec_decreases_to_view,
    vstd::seq::axiom_seq_index_decreases,
    vstd::seq::axiom_seq_subrange_decreases,
};

/// The one encoding of each value variant as a bind parameter; a nested
/// record has none.
pub open spec fn enc(v: Value) -> Option<Param> {
    match v {
        Value::Id(s) => Some(Param::Text(s)),
        Value::I64(x) => Some(Param::Int(x)),
        Value::String(s) => Some(Param::Text(s)),
        Value::Bool(b) => Some(Param::Bool(b)),
        Value::Null => Some(Param::Null),
        Value::Enum(e) => Some(Param::Int(e as i64)),
        Value::Record(_) => None,
    }
}

/// Encodes one value as a backend bind parameter.
///
/// Exhaustive over the value variants: a variant with no encoding rule
/// yields an explicit error, never a silent default.
pub fn encode_param(v: &Value) -> (r: Result<Param, Error>)
    ensures
        r matches Ok(p) ==> enc(*v) == Some(p),
        r matches Err(e) ==> enc(*v) is None && e == Error::UnsupportedEncoding,
{
    match v {
        Value::Id(s) => Ok(Param::Text(s.clone())),
        Value::I64(x) => Ok(Param::Int(*x)),
        Value::String(s) => Ok(Param::Text(s.clone())),
        Value::Bool(b) => Ok(Param::Bool(*b)),
        Value::Null => Ok(Param::Null),
        Value::Enum(e) => Ok(Param::Int(*e as i64)),
        Value::Record(_) => Err(Error::UnsupportedEncoding),
    }
}

/// The flat cell sequence a value occupies in a raw row: scalars take one
/// cell, a record the concatenated cells of its fields.
pub open spec fn flat_enc(v: Value) -> Seq<Param>
    decreases v, 0nat,
{
    match v {
        Value::Id(s) => seq![Param::Text(s)],
        Value::I64(x) => seq![Param::Int(x)],
        Value::String(s) => seq![Param::Text(s)],
        Value::Bool(b) => seq![Param::Bool(b)],
        Value::Null => seq![Param::Null],
        Value::Enum(e) => seq![Param::Int(e as i64)],
        Value::Record(r) => flat_enc_list(r.fields@),
    }
}

/// The concatenated flat encodings of a list of values.
pub open spec fn flat_enc_list(vs: Seq<Value>) -> Seq<Param>
    decreases vs, 1nat,
{
    if vs.len() == 0 {
        Seq::empty()
    } else {
        flat_enc(vs[0]) + flat_enc_list(vs.drop_first())
    }
}

/// The number of raw columns a decoded value of shape `ty` consumes.
pub open spec fn width(ty: Type) -> nat
    decreases ty, 0nat,
{
    match ty {
        Type::Record(tys) => width_list(tys@),
        _ => 1,
    }
}

/// The total column run of a list of field shapes.
pub open spec fn width_list(tys: Seq<Type>) -> nat
    decreases tys, 1nat,
{
    if tys.len() == 0 {
        0
    } else {
        width(tys[0]) + width_list(tys.drop_first())
    }
}

/// The one decode rule of a scalar cell under a scalar shape; `None` where
/// the combination is unsupported.
pub open spec fn scalar_dec(p: Param, ty: Type) -> Option<Value> {
    match ty {
        Type::Id => match p {
            Param::Text(s) => Some(Value::Id(s)),
            _ => None,
        },
        Type::I64 => match p {
            Param::Int(x) => Some(Value::I64(x)),
            _ => None,
        },
        Type::String => match p {
            Param::Text(s) => Some(Value::String(s)),
            _ => None,
        },
        Type::Bool => match p {
            Param::Bool(b) => Some(Value::Bool(b)),
            _ => None,
        },
        Type::Enum => match p {
            Param::Int(x) => if 0 <= x && x as int <= u32::MAX as int {
                Some(Value::Enum(x as u32))
            } else {
                None
            },
            _ => None,
        },
        Type::Null => match p {
            Param::Null => Some(Value::Null),
            _ => None,
        },
        Type::Bytes => None,
        Type::Float => None,
        Type::Record(_) => None,
    }
}

/// Whether the cells of a raw row starting at `i` decode under `ty`.
pub open spec fn can_decode(cells: Seq<Param>, i: int, ty: Type) -> bool
    decreases ty, 0nat,
{
    match ty {
        Type::Record(tys) => can_decode_list(cells, i, tys@),
        _ => 0 <= i < cells.len() && scalar_dec(cells[i], ty) is Some,
    }
}

/// Whether a contiguous run of cells decodes under a list of field shapes.
pub open spec fn can_decode_list(cells: Seq<Param>, i: int, tys: Seq<Type>) -> bool
    decreases tys, 1nat,
{
    tys.len() == 0 || (can_decode(cells, i, tys[0]) && can_decode_list(
        cells,
        i + width(tys[0]),
        tys.drop_first(),
    ))
}

/// `v` is the decoding of the cells starting at `i` under `ty`.
pub open spec fn decodes_as(cells: Seq<Param>, i: int, ty: Type, v: Value) -> bool
    decreases ty, 0nat,
{
    match ty {
        Type::Record(tys) => match v {
            Value::Record(rec) => rec.fields@.len() == tys@.len() && decodes_list(
                cells,
                i,
                tys@,
                rec.fields@,
            ),
            _ => false,
        },
        _ => 0 <= i < cells.len() && scalar_dec(cells[i], ty) == Some(v),
    }
}

/// `vs` are the decodings of a contiguous run of cells under field shapes
/// `tys`.
pub open spec fn decodes_list(cells: Seq<Param>, i: int, tys: Seq<Type>, vs: Seq<Value>) -> bool
    decreases tys, 1nat,
{
    if tys.len() == 0 {
        vs.len() == 0
    } else {
        vs.len() == tys.len() && decodes_as(cells, i, tys[0], vs[0]) && decodes_list(
            cells,
            i + width(tys[0]),
            tys.drop_first(),
            vs.drop_first(),
        )
    }
}

/// Appending one shape to a field list adds its width.
pub proof fn lemma_width_list_push(tys: Seq<Type>, t: Type)
    ensures
        width_list(tys.push(t)) == width_list(tys) + width(t),
    decreases tys.len(),
{
    assert(tys.push(t).len() == tys.len() + 1);
    assert(width_list(tys.push(t)) == width(tys.push(t)[0]) + width_list(
        tys.push(t).drop_first(),
    ));
    if tys.len() == 0 {
        assert(tys.push(t)[0] == t);
        assert(tys.push(t).drop_first() =~= Seq::<Type>::empty());
        assert(width_list(tys.push(t).drop_first()) == 0);
    } else {
        assert(tys.push(t)[0] == tys[0]);
        assert(tys.push(t).drop_first() =~= tys.drop_first().push(t));
        lemma_width_list_push(tys.drop_first(), t);
        assert(width_list(tys) == width(tys[0]) + width_list(tys.drop_first()));
    }
}

/// Extends a field-list decoding by one more decoded field.
pub proof fn lemma_decodes_list_push(
    cells: Seq<Param>,
    i: int,
    tys: Seq<Type>,
    vs: Seq<Value>,
    t: Type,
    v: Value,
)
    requires
        decodes_list(cells, i, tys, vs),
        decodes_as(cells, i + width_list(tys), t, v),
    ensures
        decodes_list(cells, i, tys.push(t), vs.push(v)),
    decreases tys.len(),
{
    assert(tys.push(t).len() == tys.len() + 1);
    assert(vs.push(v).len() == vs.len() + 1);
    if tys.len() == 0 {
        assert(tys.push(t)[0] == t);
        assert(vs.push(v)[0] == v);
        assert(vs.len() == 0);
        assert(width_list(tys) == 0);
        assert(tys.push(t).drop_first() =~= Seq::<Type>::empty());
        assert(vs.push(v).drop_first() =~= Seq::<Value>::empty());
        assert(decodes_as(cells, i, tys.push(t)[0], vs.push(v)[0]));
        assert(decodes_list(cells, i + width(t), tys.push(t).drop_first(), vs.push(v).drop_first()));
    } else {
        assert(tys.push(t)[0] == tys[0]);
        assert(vs.push(v)[0] == vs[0]);
        assert(tys.push(t).drop_first() =~= tys.drop_first().push(t));
        assert(vs.push(v).drop_first() =~= vs.drop_first().push(v));
        assert(width_list(tys) == width(tys[0]) + width_list(tys.drop_first()));
        lemma_decodes_list_push(cells, i + width(tys[0]), tys.drop_first(), vs.drop_first(), t, v);
        assert(decodes_as(cells, i, tys.push(t)[0], vs.push(v)[0]));
        assert(decodes_list(cells, i + width(tys.push(t)[0]), tys.push(t).drop_first(), vs.push(
            v,
        ).drop_first()));
    }
}

/// Extends a field-list decodability check by one more field.
pub proof fn lemma_can_decode_list_push(cells: Seq<Param>, i: int, tys: Seq<Type>, t: Type)
    requires
        can_decode_list(cells, i, tys),
        can_decode(cells, i + width_list(tys), t),
    ensures
        can_decode_list(cells, i, tys.push(t)),
    decreases tys.len(),
{
    assert(tys.push(t).len() == tys.len() + 1);
    if tys.len() == 0 {
        assert(tys.push(t)[0] == t);
        assert(width_list(tys) == 0);
        assert(tys.push(t).drop_first() =~= Seq::<Type>::empty());
        assert(can_decode(cells, i, tys.push(t)[0]));
        assert(can_decode_list(cells, i + width(t), tys.push(t).drop_first()));
    } else {
        assert(tys.push(t)[0] == tys[0]);
        assert(tys.push(t).drop_first() =~= tys.drop_first().push(t));
        assert(width_list(tys) == width(tys[0]) + width_list(tys.drop_first()));
        lemma_can_decode_list_push(cells, i + width(tys[0]), tys.drop_first(), t);
        assert(can_decode(cells, i, tys.push(t)[0]));
        assert(can_decode_list(cells, i + width(tys.push(t)[0]), tys.push(t).drop_first()));
    }
}

/// In a decodable field list, every single field is decodable at its
/// accumulated offset.
pub proof fn lemma_can_decode_list_at(cells: Seq<Param>, i: int, tys: Seq<Type>, k: int)
    requires
        can_decode_list(cells, i, tys),
        0 <= k < tys.len(),
    ensures
        can_decode(cells, i + width_list(tys.take(k)), tys[k]),
    decreases k,
{
    if k == 0 {
        assert(tys.take(0) =~= Seq::<Type>::empty());
    } else {
        lemma_can_decode_list_at(cells, i + width(tys[0]), tys.drop_first(), k - 1);
        assert(tys.drop_first().take(k - 1) =~= tys.take(k).drop_first());
        assert(tys.take(k)[0] == tys[0]);
        assert(width_list(tys.take(k)) == width(tys[0]) + width_list(tys.drop_first().take(k - 1)));
        assert(tys.drop_first()[k - 1] == tys[k]);
    }
}


/// Decodes one scalar cell under a scalar shape; an unsupported
/// combination yields an explicit error, never a guess.
pub fn decode_scalar(p: &Param, ty: &Type) -> (r: Result<Value, Error>)
    ensures
        r is Ok <==> scalar_dec(*p, *ty) is Some,
        r matches Ok(v) ==> scalar_dec(*p, *ty) == Some(v),
        r matches Err(e) ==> e == Error::UnsupportedDecoding,
{
    match (ty, p) {
        (Type::Id, Param::Text(s)) => Ok(Value::Id(s.clone())),
        (Type::I64, Param::Int(x)) => Ok(Value::I64(*x)),
        (Type::String, Param::Text(s)) => Ok(Value::String(s.clone())),
        (Type::Bool, Param::Bool(b)) => Ok(Value::Bool(*b)),
        (Type::Enum, Param::Int(x)) => {
            if 0 <= *x && *x <= u32::MAX as i64 {
                Ok(Value::Enum(*x as u32))
            } else {
                Err(Error::UnsupportedDecoding)
            }
        },
        (Type::Null, Param::Null) => Ok(Value::Null),
        _ => Err(Error::UnsupportedDecoding),
    }
}

/// Decodes the run of cells starting at column `i` of one raw row under
/// `ty`, returning the value and the index of the first unconsumed column.
///
/// A nested record shape recursively consumes the contiguous run of its
/// fields; it succeeds exactly when every field run decodes.
#[verifier::loop_isolation(false)]
pub fn decode_value(cells: &Vec<Param>, i: usize, ty: &Type) -> (r: Result<(Value, usize), Error>)
    requires
        i <= cells@.len(),
    ensures
        r is Ok <==> can_decode(cells@, i as int, *ty),
        r matches Ok(p) ==> decodes_as(cells@, i as int, *ty, p.0) && p.1 == i + width(*ty)
            && p.1 <= cells@.len(),
        r matches Err(e) ==> e == Error::UnsupportedDecoding,
    decreases *ty,
{
    match ty {
        Type::Record(tys) => {
            let mut fields: Vec<Value> = Vec::new();
            let mut idx: usize = i;
            let mut k: usize = 0;
            while k < tys.len()
                invariant
                    i <= cells@.len(),
                    k <= tys@.len(),
                    i <= idx <= cells@.len(),
                    fields@.len() == k,
                    idx == i + width_list(tys@.take(k as int)),
                    decodes_list(cells@, i as int, tys@.take(k as int), fields@),
                    can_decode_list(cells@, i as int, tys@.take(k as int)),
                decreases tys@.len() - k,
            {
                proof {
                    assert(decreases_to!(*ty => tys@[k as int]));
                }
                match decode_value(cells, idx, &tys[k]) {
                    Ok((v, nxt)) => {
                        proof {
                            lemma_decodes_list_push(
                                cells@,
                                i as int,
                                tys@.take(k as int),
                                fields@,
                                tys@[k as int],
                                v,
                            );
                            lemma_can_decode_list_push(
                                cells@,
                                i as int,
                                tys@.take(k as int),
                                tys@[k as int],
                            );
                            lemma_width_list_push(tys@.take(k as int), tys@[k as int]);
                            assert(tys@.take(k as int).push(tys@[k as int]) =~= tys@.take(
                                k as int + 1,
                            ));
                        }
                        fields.push(v);
                        idx = nxt;
                        k = k + 1;
                    },
                    Err(_) => {
                        proof {
                            assert(!can_decode(cells@, idx as int, tys@[k as int]));
                            if can_decode_list(cells@, i as int, tys@) {
                                lemma_can_decode_list_at(cells@, i as int, tys@, k as int);
                                assert(can_decode(cells@, idx as int, tys@[k as int]));
                            }
                            assert(!can_decode_list(cells@, i as int, tys@));
                            assert(*ty == Type::Record(*tys));
                        }
                        return Err(Error::UnsupportedDecoding);
                    },
                }
            }
            proof {
                assert(tys@.take(tys@.len() as int) =~= tys@);
            }
            Ok((Value::Record(Record { fields }), idx))
        },
        _ => {
            if i < cells.len() {
                match decode_scalar(&cells[i], ty) {
                    Ok(v) => Ok((v, i + 1)),
                    Err(e) => Err(e),
                }
            } else {
                Err(Error::UnsupportedDecoding)
            }
        },
    }
}

/// Whether one raw row decodes under a top-level output shape: the boolean
/// success marker always does, a record shape when its field runs decode,
/// and no other shape is supported at the top level.
pub open spec fn row_can_decode(row: Seq<Param>, ty: Type) -> bool {
    match ty {
        Type::Bool => true,
        Type::Record(tys) => can_decode_list(row, 0, tys@),
        _ => false,
    }
}

/// `v` is the record decoded from one raw row under a top-level shape.
pub open spec fn row_decodes_to(row: Seq<Param>, ty: Type, v: Value) -> bool {
    match ty {
        Type::Bool => v matches Value::Record(rec) && rec.fields@.len() == 0,
        Type::Record(_) => decodes_as(row, 0, ty, v),
        _ => false,
    }
}

/// Decodes one raw row under the effective output shape: a record shape
/// decodes its fields; the boolean success marker yields an empty record.
pub fn decode_row(row: &Vec<Param>, ty: &Type) -> (r: Result<Value, Error>)
    ensures
        r is Ok <==> row_can_decode(row@, *ty),
        r matches Ok(v) ==> row_decodes_to(row@, *ty, v),
        r matches Err(e) ==> e == Error::UnsupportedDecoding,
{
    match ty {
        Type::Bool => Ok(Value::Record(Record { fields: Vec::new() })),
        Type::Record(_) => match decode_value(row, 0, ty) {
            Ok((v, _)) => Ok(v),
            Err(e) => Err(e),
        },
        _ => Err(Error::UnsupportedDecoding),
    }
}

/// The ghost rows of a buffered raw result set.
pub open spec fn rows_v(rows: Seq<Vec<Param>>) -> Seq<Seq<Param>> {
    rows.map_values(|r: Vec<Param>| r@)
}

/// Every raw row of the set decodes under the shape.
pub open spec fn rows_can_decode(rows: Seq<Seq<Param>>, ty: Type) -> bool {
    forall|k: int| 0 <= k < rows.len() ==> row_can_decode(#[trigger] rows[k], ty)
}

/// `items` are the records decoded from the raw rows, one per row, in row
/// order.
pub open spec fn stream_decodes(items: Seq<Value>, rows: Seq<Seq<Param>>, ty: Type) -> bool {
    items.len() == rows.len() && forall|k: int|
        0 <= k < rows.len() ==> row_decodes_to(#[trigger] rows[k], ty, items[k])
}

/// Decodes a buffered raw result set row by row, in row order; fails on
/// the first undecodable row.
pub fn decode_rows(rows: &Vec<Vec<Param>>, ty: &Type) -> (r: Result<Vec<Value>, Error>)
    ensures
        r is Ok <==> rows_can_decode(rows_v(rows@), *ty),
        r matches Ok(items) ==> stream_decodes(items@, rows_v(rows@), *ty),
        r matches Err(e) ==> e == Error::UnsupportedDecoding,
{
    let mut items: Vec<Value> = Vec::new();
    let mut k: usize = 0;
    while k < rows.len()
        invariant
            k <= rows@.len(),
            items@.len() == k,
            forall|j: int| 0 <= j < k ==> row_can_decode(#[trigger] rows_v(rows@)[j], *ty),
            forall|j: int|
                0 <= j < k ==> row_decodes_to(#[trigger] rows_v(rows@)[j], *ty, items@[j]),
        decreases rows@.len() - k,
    {
        match decode_row(&rows[k], ty) {
            Ok(v) => {
                items.push(v);
                k = k + 1;
            },
            Err(e) => {
                proof {
                    assert(!row_can_decode(rows_v(rows@)[k as int], *ty));
                }
                return Err(e);
            },
        }
    }
    Ok(items)
}

/// Round trip of the codec: the flat encoding of a value, decoded under
/// any shape the value conforms to, succeeds and yields the value itself.
pub proof fn lemma_round_trip(v: Value, ty: Type)
    requires
        ty_matches(v, ty),
    ensures
        flat_enc(v).len() == width(ty),
        can_decode(flat_enc(v), 0, ty),
        decodes_as(flat_enc(v), 0, ty, v),
{
    assert(flat_enc(v).subrange(0, flat_enc(v).len() as int) =~= flat_enc(v));
    lemma_enc_dec_at(v, ty, flat_enc(v), 0);
}

/// The flat encoding of a value, embedded anywhere in a larger row,
/// decodes back to the value.
pub proof fn lemma_enc_dec_at(v: Value, ty: Type, cells: Seq<Param>, i: int)
    requires
        ty_matches(v, ty),
        0 <= i,
        i + flat_enc(v).len() <= cells.len(),
        cells.subrange(i, i + flat_enc(v).len() as int) == flat_enc(v),
    ensures
        flat_enc(v).len() == width(ty),
        decodes_as(cells, i, ty, v),
        can_decode(cells, i, ty),
    decreases v, 0nat,
{
    match v {
        Value::Record(r) => {
            if let Type::Record(tys) = ty {
                lemma_enc_dec_list(r.fields@, tys@, cells, i);
            }
        },
        Value::Enum(e) => {
            assert(cells.subrange(i, i + 1)[0] == cells[i]);
            assert(cells[i] == Param::Int(e as i64));
            assert((e as i64) as u32 == e);
        },
        _ => {
            assert(cells.subrange(i, i + 1)[0] == cells[i]);
        },
    }
}

/// The concatenated flat encodings of a field list, embedded anywhere in a
/// larger row, decode back to the fields.
pub proof fn lemma_enc_dec_list(vs: Seq<Value>, tys: Seq<Type>, cells: Seq<Param>, i: int)
    requires
        vs.len() == tys.len(),
        forall|k: int| 0 <= k < vs.len() ==> ty_matches(#[trigger] vs[k], tys[k]),
        0 <= i,
        i + flat_enc_list(vs).len() <= cells.len(),
        cells.subrange(i, i + flat_enc_list(vs).len() as int) == flat_enc_list(vs),
    ensures
        flat_enc_list(vs).len() == width_list(tys),
        decodes_list(cells, i, tys, vs),
        can_decode_list(cells, i, tys),
    decreases vs, 1nat,
{
    if vs.len() == 0 {
    } else {
        let e0 = flat_enc(vs[0]);
        let er = flat_enc_list(vs.drop_first());
        assert(flat_enc_list(vs) == e0 + er);
        assert forall|j: int| 0 <= j < e0.len() implies cells[i + j] == e0[j] by {
            assert(cells.subrange(i, i + flat_enc_list(vs).len() as int)[j] == cells[i + j]);
            assert((e0 + er)[j] == e0[j]);
        }
        assert(cells.subrange(i, i + e0.len() as int) =~= e0);
        lemma_enc_dec_at(vs[0], tys[0], cells, i);
        assert forall|j: int| 0 <= j < er.len() implies cells[i + e0.len() + j] == er[j] by {
            assert(cells.subrange(i, i + flat_enc_list(vs).len() as int)[e0.len() + j] == cells[i
                + e0.len() + j]);
            assert((e0 + er)[e0.len() + j] == er[j]);
        }
        assert(cells.subrange(i + e0.len(), i + e0.len() + er.len() as int) =~= er);
        assert forall|k: int| 0 <= k < vs.drop_first().len() implies ty_matches(
            #[trigger] vs.drop_first()[k],
            tys.drop_first()[k],
        ) by {
            assert(vs.drop_first()[k] == vs[k + 1]);
            assert(tys.drop_first()[k] == tys[k + 1]);
        }
        lemma_enc_dec_list(vs.drop_first(), tys.drop_first(), cells, i + e0.len());
    }
}

/// Decoding is deterministic: the cells of a row decode to at most one
/// value (up to content equality) under a given shape.
pub proof fn lemma_decode_unique(cells: Seq<Param>, i: int, ty: Type, v1: Value, v2: Value)
    requires
        decodes_as(cells, i, ty, v1),
        decodes_as(cells, i, ty, v2),
    ensures
        v_eq(v1, v2),
    decreases ty, 0nat,
{
    match ty {
        Type::Record(tys) => {
            if let (Value::Record(r1), Value::Record(r2)) = (v1, v2) {
                lemma_decode_unique_list(cells, i, tys@, r1.fields@, r2.fields@);
                assert(rec_eq(r1, r2));
            }
        },
        _ => {
            crate::value::lemma_v_eq_refl(v1);
        },
    }
}

/// Field-list decoding is deterministic, field by field.
pub proof fn lemma_decode_unique_list(
    cells: Seq<Param>,
    i: int,
    tys: Seq<Type>,
    vs1: Seq<Value>,
    vs2: Seq<Value>,
)
    requires
        decodes_list(cells, i, tys, vs1),
        decodes_list(cells, i, tys, vs2),
    ensures
        vs1.len() == vs2.len(),
        forall|k: int| 0 <= k < vs1.len() ==> v_eq(#[trigger] vs1[k], vs2[k]),
    decreases tys, 1nat,
{
    if tys.len() == 0 {
    } else {
        lemma_decode_unique(cells, i, tys[0], vs1[0], vs2[0]);
        lemma_decode_unique_list(
            cells,
            i + width(tys[0]),
            tys.drop_first(),
            vs1.drop_first(),
            vs2.drop_first(),
        );
        assert forall|k: int| 0 <= k < vs1.len() implies v_eq(#[trigger] vs1[k], vs2[k]) by {
            if k > 0 {
                assert(vs1.drop_first()[k - 1] == vs1[k]);
                assert(vs2.drop_first()[k - 1] == vs2[k]);
            }
        }
    }
}

} // verus!
