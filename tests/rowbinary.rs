use clickhouse::buflist::BufList;
use clickhouse::error::Error;
use clickhouse::rowbinary::{deserialize_row, serialize_row, ColumnType, Scalar, ScalarType, Value};

fn encode(schema: &Vec<ColumnType>, row: &Vec<Value>) -> Vec<u8> {
    let mut out = Vec::new();
    serialize_row(schema, row, &mut out).unwrap();
    out
}

fn decode_all(schema: &Vec<ColumnType>, bytes: Vec<u8>) -> (Vec<Vec<Value>>, Result<(), Error>, usize) {
    let mut chain = BufList::new();
    chain.push(bytes);
    let mut rows = Vec::new();
    loop {
        match deserialize_row(schema, &mut chain) {
            Ok(r) => rows.push(r),
            Err(e) => {
                let left = chain.remaining();
                return (rows, Err(e), left);
            }
        }
        if chain.remaining() == 0 {
            return (rows, Ok(()), 0);
        }
    }
}

fn all_types_schema() -> Vec<ColumnType> {
    vec![
        ColumnType::Plain(ScalarType::UInt8),
        ColumnType::Plain(ScalarType::UInt16),
        ColumnType::Plain(ScalarType::UInt32),
        ColumnType::Plain(ScalarType::UInt64),
        ColumnType::Plain(ScalarType::UInt128),
        ColumnType::Plain(ScalarType::Int8),
        ColumnType::Plain(ScalarType::Int16),
        ColumnType::Plain(ScalarType::Int32),
        ColumnType::Plain(ScalarType::Int64),
        ColumnType::Plain(ScalarType::Int128),
        ColumnType::Plain(ScalarType::Bool),
        ColumnType::Plain(ScalarType::String),
        ColumnType::Plain(ScalarType::FixedString(3)),
        ColumnType::Nullable(ScalarType::Int32),
        ColumnType::Nullable(ScalarType::String),
        ColumnType::Array(ScalarType::UInt16),
        ColumnType::Array(ScalarType::String),
    ]
}

fn all_types_row(big: bool) -> Vec<Value> {
    let p = |s: Scalar| Value::Plain(s);
    if big {
        vec![
            p(Scalar::UInt(u8::MAX as u128)),
            p(Scalar::UInt(u16::MAX as u128)),
            p(Scalar::UInt(u32::MAX as u128)),
            p(Scalar::UInt(u64::MAX as u128)),
            p(Scalar::UInt(u128::MAX)),
            p(Scalar::Int(i8::MIN as i128)),
            p(Scalar::Int(i16::MAX as i128)),
            p(Scalar::Int(i32::MIN as i128)),
            p(Scalar::Int(i64::MAX as i128)),
            p(Scalar::Int(i128::MIN)),
            p(Scalar::Bool(true)),
            p(Scalar::Bytes(b"hello".to_vec())),
            p(Scalar::Bytes(b"xyz".to_vec())),
            p(Scalar::Int(-7)),
            Value::Null,
            Value::Array(vec![Scalar::UInt(1), Scalar::UInt(65535)]),
            Value::Array(vec![Scalar::Bytes(vec![]), Scalar::Bytes(b"z".to_vec())]),
        ]
    } else {
        vec![
            p(Scalar::UInt(0)),
            p(Scalar::UInt(0)),
            p(Scalar::UInt(0)),
            p(Scalar::UInt(0)),
            p(Scalar::UInt(0)),
            p(Scalar::Int(i8::MAX as i128)),
            p(Scalar::Int(i16::MIN as i128)),
            p(Scalar::Int(i32::MAX as i128)),
            p(Scalar::Int(i64::MIN as i128)),
            p(Scalar::Int(i128::MAX)),
            p(Scalar::Bool(false)),
            p(Scalar::Bytes(vec![])),
            p(Scalar::Bytes(vec![0, 0, 0])),
            Value::Null,
            p(Scalar::Bytes(vec![])),
            Value::Array(vec![]),
            Value::Array(vec![]),
        ]
    }
}

#[test]
fn round_trip_every_column_kind() {
    let schema = all_types_schema();
    for big in [true, false] {
        let row = all_types_row(big);
        let bytes = encode(&schema, &row);
        let (rows, end, left) = decode_all(&schema, bytes);
        assert_eq!(end, Ok(()));
        assert_eq!(left, 0);
        assert_eq!(rows, vec![row]);
    }
}

#[test]
fn two_row_scenario_bytes() {
    let schema = vec![ColumnType::Plain(ScalarType::Int32), ColumnType::Plain(ScalarType::String)];
    let r1 = vec![Value::Plain(Scalar::Int(1)), Value::Plain(Scalar::Bytes(b"a".to_vec()))];
    let r2 = vec![Value::Plain(Scalar::Int(2)), Value::Plain(Scalar::Bytes(b"bb".to_vec()))];
    let mut bytes = encode(&schema, &r1);
    bytes.extend(encode(&schema, &r2));
    assert_eq!(bytes, vec![1, 0, 0, 0, 1, b'a', 2, 0, 0, 0, 2, b'b', b'b']);
    let (rows, end, _) = decode_all(&schema, bytes);
    assert_eq!(end, Ok(()));
    assert_eq!(rows, vec![r1, r2]);
}

#[test]
fn integers_are_little_endian_twos_complement() {
    let schema = vec![
        ColumnType::Plain(ScalarType::Int8),
        ColumnType::Plain(ScalarType::Int16),
        ColumnType::Plain(ScalarType::UInt32),
    ];
    let row = vec![
        Value::Plain(Scalar::Int(-1)),
        Value::Plain(Scalar::Int(-2)),
        Value::Plain(Scalar::UInt(0x0102_0304)),
    ];
    assert_eq!(encode(&schema, &row), vec![0xff, 0xfe, 0xff, 4, 3, 2, 1]);
}

#[test]
fn long_string_has_two_byte_length_prefix() {
    let schema = vec![ColumnType::Plain(ScalarType::String)];
    let row = vec![Value::Plain(Scalar::Bytes(vec![b'x'; 200]))];
    let bytes = encode(&schema, &row);
    assert_eq!(bytes.len(), 202);
    assert_eq!(&bytes[..2], &[0xc8, 0x01]);
}

#[test]
fn empty_values_encode_to_their_prefix_only() {
    let schema = vec![
        ColumnType::Plain(ScalarType::String),
        ColumnType::Array(ScalarType::Int64),
        ColumnType::Nullable(ScalarType::UInt64),
        ColumnType::Nullable(ScalarType::UInt8),
    ];
    let row = vec![
        Value::Plain(Scalar::Bytes(vec![])),
        Value::Array(vec![]),
        Value::Null,
        Value::Plain(Scalar::UInt(9)),
    ];
    assert_eq!(encode(&schema, &row), vec![0, 0, 1, 0, 9]);
}

#[test]
fn schema_mismatch_names_first_bad_column() {
    let schema = vec![ColumnType::Plain(ScalarType::UInt8), ColumnType::Plain(ScalarType::UInt8)];
    let mut out = vec![7u8];
    let too_big = vec![Value::Plain(Scalar::UInt(1)), Value::Plain(Scalar::UInt(256))];
    assert_eq!(serialize_row(&schema, &too_big, &mut out), Err(Error::SchemaMismatch(1)));
    let wrong_kind = vec![Value::Plain(Scalar::Int(1)), Value::Plain(Scalar::UInt(1))];
    assert_eq!(serialize_row(&schema, &wrong_kind, &mut out), Err(Error::SchemaMismatch(0)));
    let null_in_plain = vec![Value::Plain(Scalar::UInt(1)), Value::Null];
    assert_eq!(serialize_row(&schema, &null_in_plain, &mut out), Err(Error::SchemaMismatch(1)));
    let short = vec![Value::Plain(Scalar::UInt(1))];
    assert_eq!(serialize_row(&schema, &short, &mut out), Err(Error::SchemaMismatch(1)));
    assert_eq!(out, vec![7u8]);
}

#[test]
fn malformed_bytes_are_refused_without_consuming() {
    let schema = vec![ColumnType::Plain(ScalarType::Bool)];
    let (rows, end, left) = decode_all(&schema, vec![2]);
    assert!(rows.is_empty());
    assert_eq!(end, Err(Error::MalformedField(0, ColumnType::Plain(ScalarType::Bool))));
    assert_eq!(left, 1);

    let schema = vec![ColumnType::Plain(ScalarType::UInt8), ColumnType::Nullable(ScalarType::UInt8)];
    let (_, end, _) = decode_all(&schema, vec![1, 5, 0]);
    assert_eq!(end, Err(Error::MalformedField(1, ColumnType::Nullable(ScalarType::UInt8))));

    let schema = vec![ColumnType::Plain(ScalarType::String)];
    let (_, end, _) = decode_all(&schema, vec![0x80; 12]);
    assert_eq!(end, Err(Error::MalformedField(0, ColumnType::Plain(ScalarType::String))));
}

#[test]
fn short_input_asks_for_more() {
    let schema = vec![ColumnType::Plain(ScalarType::UInt64), ColumnType::Plain(ScalarType::String)];
    let (rows, end, left) = decode_all(&schema, vec![1, 2, 3, 4, 5, 6, 7, 8, 3, b'a']);
    assert!(rows.is_empty());
    assert_eq!(end, Err(Error::InsufficientData));
    assert_eq!(left, 10);
}

#[test]
fn strings_must_be_utf8() {
    let schema = vec![ColumnType::Plain(ScalarType::UInt8), ColumnType::Plain(ScalarType::String)];
    let bad = vec![Value::Plain(Scalar::UInt(1)), Value::Plain(Scalar::Bytes(vec![0xff, 0xfe]))];
    let mut out = Vec::new();
    assert_eq!(serialize_row(&schema, &bad, &mut out), Err(Error::SchemaMismatch(1)));
    let (rows, end, left) = decode_all(&schema, vec![1, 2, 0xff, 0xfe]);
    assert!(rows.is_empty());
    assert_eq!(end, Err(Error::MalformedField(1, ColumnType::Plain(ScalarType::String))));
    assert_eq!(left, 4);
    let good = vec![Value::Plain(Scalar::UInt(1)), Value::Plain(Scalar::Bytes("é".as_bytes().to_vec()))];
    let (rows, _, _) = decode_all(&schema, encode(&schema, &good));
    assert_eq!(rows, vec![good]);
}
