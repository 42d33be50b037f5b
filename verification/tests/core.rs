use sqlcore::codec::{decode_row, decode_scalar, decode_value, encode_param};
use sqlcore::cursor::{Counted, Cursor, Entry, FromCursor};
use sqlcore::driver::{Capability, Mem};
use sqlcore::error::Error;
use sqlcore::schema::{Column, Schema, Table};
use sqlcore::sql::{to_sql, Operation, Statement};
use sqlcore::stream::ValueStream;
use sqlcore::value::{Param, Record, Type, Value};

fn entry_schema() -> Schema {
    Schema {
        tables: vec![Table {
            name: String::from("t0"),
            columns: vec![
                Column { name: String::from("a"), ty: Type::I64 },
                Column { name: String::from("b"), ty: Type::String },
            ],
        }],
    }
}

fn two_table_schema() -> Schema {
    let mut s = entry_schema();
    s.tables.push(Table { name: String::from("t1"), columns: vec![] });
    s
}

fn insert_entry(db: &mut Mem, schema: &Schema, k: i64, label: &str) {
    let op = Operation::Insert(Statement::Insert {
        table: 0,
        values: vec![Value::I64(k), Value::String(String::from(label))],
    });
    let mut s = db.exec(schema, op).expect("insert failed");
    assert!(s.next().is_none());
}

fn select_all(db: &mut Mem, schema: &Schema) -> Vec<Entry> {
    let op = Operation::QuerySql {
        stmt: Statement::Select { table: 0, filter: None },
        ty: Some(Type::Record(vec![Type::I64, Type::String])),
    };
    let stream = db.exec(schema, op).expect("select failed");
    let cursor: Cursor<Entry> = Cursor::new(schema, stream);
    cursor.collect().expect("collect failed")
}

#[test]
fn round_trip_id() {
    let v = Value::Id(String::from("user_7"));
    let p = encode_param(&v).unwrap();
    assert_eq!(p, Param::Text(String::from("user_7")));
    assert_eq!(decode_scalar(&p, &Type::Id).unwrap(), v);
}

#[test]
fn round_trip_i64() {
    let v = Value::I64(-42);
    let p = encode_param(&v).unwrap();
    assert_eq!(p, Param::Int(-42));
    assert_eq!(decode_scalar(&p, &Type::I64).unwrap(), v);
}

#[test]
fn round_trip_string() {
    let v = Value::String(String::from("hello"));
    let p = encode_param(&v).unwrap();
    assert_eq!(decode_scalar(&p, &Type::String).unwrap(), v);
}

#[test]
fn round_trip_bool() {
    let v = Value::Bool(true);
    let p = encode_param(&v).unwrap();
    assert_eq!(decode_scalar(&p, &Type::Bool).unwrap(), v);
}

#[test]
fn round_trip_null() {
    let v = Value::Null;
    let p = encode_param(&v).unwrap();
    assert_eq!(decode_scalar(&p, &Type::Null).unwrap(), v);
}

#[test]
fn round_trip_enum() {
    let v = Value::Enum(3);
    let p = encode_param(&v).unwrap();
    assert_eq!(p, Param::Int(3));
    assert_eq!(decode_scalar(&p, &Type::Enum).unwrap(), v);
}

#[test]
fn nested_record_decode_recurses() {
    // A record with a nested record consumes one contiguous run of cells.
    let cells = vec![
        Param::Int(1),
        Param::Text(String::from("x")),
        Param::Bool(true),
        Param::Int(9),
    ];
    let ty = Type::Record(vec![
        Type::I64,
        Type::Record(vec![Type::String, Type::Bool]),
        Type::I64,
    ]);
    let (v, next) = decode_value(&cells, 0, &ty).unwrap();
    assert_eq!(next, 4);
    let expected = Value::Record(Record {
        fields: vec![
            Value::I64(1),
            Value::Record(Record {
                fields: vec![Value::String(String::from("x")), Value::Bool(true)],
            }),
            Value::I64(9),
        ],
    });
    assert_eq!(v, expected);
}

#[test]
fn decode_unsupported_combinations() {
    assert_eq!(
        decode_scalar(&Param::Text(String::from("x")), &Type::Float),
        Err(Error::UnsupportedDecoding)
    );
    assert_eq!(
        decode_scalar(&Param::Int(1), &Type::Bytes),
        Err(Error::UnsupportedDecoding)
    );
    assert_eq!(
        decode_scalar(&Param::Bool(true), &Type::I64),
        Err(Error::UnsupportedDecoding)
    );
    // An out-of-range enum discriminant has no decoding.
    assert_eq!(
        decode_scalar(&Param::Int(-1), &Type::Enum),
        Err(Error::UnsupportedDecoding)
    );
    // Only the record and success-marker shapes decode whole rows.
    assert_eq!(
        decode_row(&vec![Param::Int(1)], &Type::I64),
        Err(Error::UnsupportedDecoding)
    );
}

#[test]
fn encode_record_is_unsupported() {
    let v = Value::Record(Record { fields: vec![] });
    assert_eq!(encode_param(&v), Err(Error::UnsupportedEncoding));
}

#[test]
fn placeholder_parity_insert() {
    let schema = entry_schema();
    let stmt = Statement::Insert {
        table: 0,
        values: vec![Value::I64(1), Value::String(String::from("x"))],
    };
    let mut params = Vec::new();
    let text = to_sql(&stmt, &schema, &mut params).unwrap();
    assert_eq!(text, "INSERT INTO t0 VALUES (?, ?)");
    assert_eq!(text.matches('?').count(), params.len());
    assert_eq!(params, vec![Param::Int(1), Param::Text(String::from("x"))]);
}

#[test]
fn placeholder_parity_update() {
    let schema = entry_schema();
    let stmt = Statement::Update {
        table: 0,
        assignments: vec![(1, Value::String(String::from("y")))],
        pre_condition: Some((0, Value::I64(5))),
        returning: Some(vec![0, 1]),
    };
    let mut params = Vec::new();
    let text = to_sql(&stmt, &schema, &mut params).unwrap();
    assert_eq!(text, "UPDATE t0 SET b = ? WHERE a = ? RETURNING a, b");
    assert_eq!(text.matches('?').count(), params.len());
    // Assignment parameters come first, the precondition value last.
    assert_eq!(params, vec![Param::Text(String::from("y")), Param::Int(5)]);
}

#[test]
fn placeholder_parity_select_and_create() {
    let schema = entry_schema();
    let mut params = Vec::new();
    let text = to_sql(
        &Statement::Select { table: 0, filter: Some((0, Value::I64(7))) },
        &schema,
        &mut params,
    )
    .unwrap();
    assert_eq!(text, "SELECT * FROM t0 WHERE a = ?");
    assert_eq!(text.matches('?').count(), params.len());

    let mut params2 = Vec::new();
    let text2 = to_sql(&Statement::CreateTable { table: 0 }, &schema, &mut params2).unwrap();
    assert_eq!(text2, "CREATE TABLE t0 (a BIGINT, b TEXT)");
    assert_eq!(params2.len(), 0);
}

#[test]
fn compile_failure_on_unknown_table() {
    let schema = entry_schema();
    let mut params = Vec::new();
    assert_eq!(
        to_sql(&Statement::CreateTable { table: 9 }, &schema, &mut params),
        Err(Error::CompileFailure)
    );
    let mut db = Mem::new();
    db.reset_db(&schema).unwrap();
    let op = Operation::Insert(Statement::Insert { table: 9, values: vec![] });
    assert!(matches!(db.exec(&schema, op), Err(Error::CompileFailure)));
}

#[test]
fn unsupported_operation_is_rejected() {
    let schema = entry_schema();
    let mut db = Mem::new();
    db.reset_db(&schema).unwrap();
    let op = Operation::FindPk { table: 0, key: Value::I64(1) };
    assert!(matches!(db.exec(&schema, op), Err(Error::UnsupportedOperation)));
}

#[test]
fn unsupported_encoding_surfaces_from_exec() {
    let schema = entry_schema();
    let mut db = Mem::new();
    db.reset_db(&schema).unwrap();
    let op = Operation::Insert(Statement::Insert {
        table: 0,
        values: vec![Value::Record(Record { fields: vec![] }), Value::Null],
    });
    assert!(matches!(db.exec(&schema, op), Err(Error::UnsupportedEncoding)));
    assert_eq!(select_all(&mut db, &schema).len(), 0);
}

#[test]
fn capability_is_sql() {
    let db = Mem::new();
    assert_eq!(db.capability(), Capability::Sql);
}

#[test]
fn insert_write_only_short_circuit() {
    // Insert with zero bound parameters: first pull is None, count rises by 1.
    let schema = two_table_schema();
    let mut db = Mem::new();
    db.reset_db(&schema).unwrap();
    let op = Operation::Insert(Statement::Insert { table: 1, values: vec![] });
    let mut s = db.exec(&schema, op).expect("insert failed");
    assert!(s.next().is_none());
    // Count the rows of the zero-column table through the success marker.
    let count_op = Operation::QuerySql {
        stmt: Statement::Select { table: 1, filter: None },
        ty: Some(Type::Record(vec![])),
    };
    let mut rows = db.exec(&schema, count_op).expect("count failed");
    let mut n = 0;
    while let Some(item) = rows.next() {
        item.expect("row error");
        n += 1;
    }
    assert_eq!(n, 1);
}

#[test]
fn query_three_rows_in_order() {
    let schema = entry_schema();
    let mut db = Mem::new();
    db.reset_db(&schema).unwrap();
    insert_entry(&mut db, &schema, 1, "one");
    insert_entry(&mut db, &schema, 2, "two");
    insert_entry(&mut db, &schema, 3, "three");
    let got = select_all(&mut db, &schema);
    assert_eq!(
        got,
        vec![
            Entry { key: 1, label: String::from("one") },
            Entry { key: 2, label: String::from("two") },
            Entry { key: 3, label: String::from("three") },
        ]
    );
}

#[test]
fn precondition_mismatch_fails_and_mutates_nothing() {
    // Stored version is 6; the update demands 5.
    let schema = entry_schema();
    let mut db = Mem::new();
    db.reset_db(&schema).unwrap();
    insert_entry(&mut db, &schema, 6, "row");
    let op = Operation::QuerySql {
        stmt: Statement::Update {
            table: 0,
            assignments: vec![(1, Value::String(String::from("changed")))],
            pre_condition: Some((0, Value::I64(5))),
            returning: None,
        },
        ty: None,
    };
    assert!(matches!(db.exec(&schema, op), Err(Error::PreconditionFailed)));
    let got = select_all(&mut db, &schema);
    assert_eq!(got, vec![Entry { key: 6, label: String::from("row") }]);
}

#[test]
fn update_with_returning_yields_one_record() {
    let schema = entry_schema();
    let mut db = Mem::new();
    db.reset_db(&schema).unwrap();
    insert_entry(&mut db, &schema, 5, "before");
    insert_entry(&mut db, &schema, 7, "other");
    let op = Operation::QuerySql {
        stmt: Statement::Update {
            table: 0,
            assignments: vec![(1, Value::String(String::from("after")))],
            pre_condition: Some((0, Value::I64(5))),
            returning: Some(vec![0, 1]),
        },
        ty: Some(Type::Record(vec![Type::I64, Type::String])),
    };
    let mut s = db.exec(&schema, op).expect("update failed");
    let first = s.next().expect("stream empty").expect("row error");
    let expected = Value::Record(Record {
        fields: vec![Value::I64(5), Value::String(String::from("after"))],
    });
    assert_eq!(first, expected);
    assert!(s.next().is_none());
}

#[test]
fn returning_suppression_yields_empty_stream() {
    let schema = entry_schema();
    let mut db = Mem::new();
    db.reset_db(&schema).unwrap();
    insert_entry(&mut db, &schema, 5, "before");
    let op = Operation::QuerySql {
        stmt: Statement::Update {
            table: 0,
            assignments: vec![(1, Value::String(String::from("after")))],
            pre_condition: Some((0, Value::I64(5))),
            returning: None,
        },
        ty: None,
    };
    let mut s = db.exec(&schema, op).expect("update failed");
    assert!(s.next().is_none());
    // The update itself committed even though nothing was surfaced.
    let got = select_all(&mut db, &schema);
    assert_eq!(got, vec![Entry { key: 5, label: String::from("after") }]);
}

#[test]
fn update_without_precondition_is_write_only() {
    let schema = entry_schema();
    let mut db = Mem::new();
    db.reset_db(&schema).unwrap();
    insert_entry(&mut db, &schema, 1, "a");
    insert_entry(&mut db, &schema, 2, "b");
    let op = Operation::QuerySql {
        stmt: Statement::Update {
            table: 0,
            assignments: vec![(1, Value::String(String::from("all")))],
            pre_condition: None,
            returning: None,
        },
        ty: None,
    };
    let mut s = db.exec(&schema, op).expect("update failed");
    assert!(s.next().is_none());
    let got = select_all(&mut db, &schema);
    assert_eq!(
        got,
        vec![
            Entry { key: 1, label: String::from("all") },
            Entry { key: 2, label: String::from("all") },
        ]
    );
}

#[test]
fn reset_db_leaves_every_table_empty() {
    let schema = two_table_schema();
    let mut db = Mem::new();
    db.reset_db(&schema).unwrap();
    insert_entry(&mut db, &schema, 1, "x");
    db.reset_db(&schema).unwrap();
    for table in 0..2 {
        let op = Operation::QuerySql {
            stmt: Statement::Select { table, filter: None },
            ty: None,
        };
        // No expected output: the write-only path returns an empty stream;
        // count through the success marker instead.
        let count_op = Operation::QuerySql {
            stmt: Statement::Select { table, filter: None },
            ty: Some(Type::Bool),
        };
        let mut s = db.exec(&schema, op).expect("select failed");
        assert!(s.next().is_none());
        let mut rows = db.exec(&schema, count_op).expect("count failed");
        assert!(rows.next().is_none());
    }
}

#[test]
fn collection_equivalence_across_accumulators() {
    let schema = entry_schema();
    let mut db = Mem::new();
    db.reset_db(&schema).unwrap();
    insert_entry(&mut db, &schema, 1, "one");
    insert_entry(&mut db, &schema, 2, "two");
    let op1 = Operation::QuerySql {
        stmt: Statement::Select { table: 0, filter: None },
        ty: Some(Type::Record(vec![Type::I64, Type::String])),
    };
    let op2 = Operation::QuerySql {
        stmt: Statement::Select { table: 0, filter: None },
        ty: Some(Type::Record(vec![Type::I64, Type::String])),
    };
    let s1 = db.exec(&schema, op1).expect("select failed");
    let s2 = db.exec(&schema, op2).expect("select failed");
    let c1: Cursor<Entry> = Cursor::new(&schema, s1);
    let c2: Cursor<Entry> = Cursor::new(&schema, s2);
    let as_vec: Vec<Entry> = c1.collect().expect("collect failed");
    let counted: Counted<Entry> = c2.collect().expect("collect failed");
    assert_eq!(as_vec.len(), counted.count);
    assert_eq!(as_vec, counted.rows);
}

#[test]
fn arity_mismatch_is_a_recoverable_error() {
    let schema = entry_schema();
    // One field where the schema declares two.
    let stream = ValueStream::from_vec(vec![Value::Record(Record {
        fields: vec![Value::I64(1)],
    })]);
    let mut cursor: Cursor<Entry> = Cursor::new(&schema, stream);
    assert_eq!(cursor.next(), Some(Err(Error::ArityMismatch)));
    assert_eq!(cursor.next(), None);
}

#[test]
fn non_record_item_is_a_model_decode_failure() {
    let schema = entry_schema();
    let stream = ValueStream::from_vec(vec![Value::I64(3)]);
    let mut cursor: Cursor<Entry> = Cursor::new(&schema, stream);
    assert_eq!(cursor.next(), Some(Err(Error::ModelDecodeFailure)));
}

#[test]
fn model_decode_failure_on_bad_field_types() {
    let schema = entry_schema();
    let stream = ValueStream::from_vec(vec![Value::Record(Record {
        fields: vec![Value::String(String::from("not-an-int")), Value::Null],
    })]);
    let mut cursor: Cursor<Entry> = Cursor::new(&schema, stream);
    assert_eq!(cursor.next(), Some(Err(Error::ModelDecodeFailure)));
}

#[test]
fn stream_is_single_pass() {
    let mut s = ValueStream::from_vec(vec![Value::I64(1), Value::I64(2)]);
    assert_eq!(s.next(), Some(Ok(Value::I64(1))));
    assert_eq!(s.next(), Some(Ok(Value::I64(2))));
    assert!(s.next().is_none());
    // Exhausted for good: a stream cannot be restarted.
    assert!(s.next().is_none());
}

#[test]
fn collect_stops_at_first_error() {
    let schema = entry_schema();
    let stream = ValueStream::from_vec(vec![
        Value::Record(Record {
            fields: vec![Value::I64(1), Value::String(String::from("ok"))],
        }),
        Value::I64(0),
        Value::Record(Record {
            fields: vec![Value::I64(2), Value::String(String::from("never"))],
        }),
    ]);
    let cursor: Cursor<Entry> = Cursor::new(&schema, stream);
    let got: Result<Vec<Entry>, Error> = cursor.collect();
    assert_eq!(got, Err(Error::ModelDecodeFailure));
}

#[test]
fn update_with_returning_keeps_table_order_across_matches() {
    let schema = entry_schema();
    let mut db = Mem::new();
    db.reset_db(&schema).unwrap();
    insert_entry(&mut db, &schema, 4, "first");
    insert_entry(&mut db, &schema, 9, "middle");
    insert_entry(&mut db, &schema, 4, "last");
    let op = Operation::QuerySql {
        stmt: Statement::Update {
            table: 0,
            assignments: vec![(1, Value::String(String::from("hit")))],
            pre_condition: Some((0, Value::I64(4))),
            returning: Some(vec![1]),
        },
        ty: Some(Type::Record(vec![Type::String])),
    };
    let mut s = db.exec(&schema, op).expect("update failed");
    let mut hits = 0;
    while let Some(item) = s.next() {
        let v = item.expect("row error");
        assert_eq!(
            v,
            Value::Record(Record { fields: vec![Value::String(String::from("hit"))] })
        );
        hits += 1;
    }
    assert_eq!(hits, 2);
    let got = select_all(&mut db, &schema);
    assert_eq!(
        got,
        vec![
            Entry { key: 4, label: String::from("hit") },
            Entry { key: 9, label: String::from("middle") },
            Entry { key: 4, label: String::from("hit") },
        ]
    );
}
