use clickhouse::buflist::BufList;
use clickhouse::cursor::{Cursor, CursorState, Step};
use clickhouse::error::Error;
use clickhouse::rowbinary::{serialize_row, ColumnType, Scalar, ScalarType, Value};

fn schema() -> Vec<ColumnType> {
    vec![
        ColumnType::Plain(ScalarType::Int32),
        ColumnType::Plain(ScalarType::String),
        ColumnType::Array(ScalarType::UInt16),
    ]
}

fn rows() -> Vec<Vec<Value>> {
    (0..5)
        .map(|i| {
            vec![
                Value::Plain(Scalar::Int(i - 2)),
                Value::Plain(Scalar::Bytes(vec![b'q'; i as usize])),
                Value::Array((0..i).map(|j| Scalar::UInt(j as u128 * 1000)).collect()),
            ]
        })
        .collect()
}

fn encoded() -> Vec<u8> {
    let mut out = Vec::new();
    for r in rows() {
        serialize_row(&schema(), &r, &mut out).unwrap();
    }
    out
}

fn run(chunks: Vec<Vec<u8>>) -> (Vec<Vec<Value>>, Step) {
    let mut cursor = Cursor::new(schema());
    let mut chunks = chunks.into_iter();
    let mut out = Vec::new();
    loop {
        match cursor.next() {
            Step::Row(r) => out.push(r),
            Step::NeedChunk => match chunks.next() {
                Some(c) => cursor.push_chunk(c),
                None => cursor.finish(),
            },
            last => return (out, last),
        }
    }
}

#[test]
fn any_chunking_yields_the_same_rows() {
    let bytes = encoded();
    let (whole, end) = run(vec![bytes.clone()]);
    assert_eq!(whole, rows());
    assert_eq!(end, Step::End);
    for size in 1..bytes.len() {
        let chunks: Vec<Vec<u8>> = bytes.chunks(size).map(|c| c.to_vec()).collect();
        let (got, end) = run(chunks);
        assert_eq!(got, whole, "chunk size {}", size);
        assert_eq!(end, Step::End);
    }
}

#[test]
fn truncated_stream_fails() {
    let bytes = encoded();
    let cut = bytes[..bytes.len() - 3].to_vec();
    let (got, end) = run(vec![cut]);
    assert_eq!(got.len(), 4);
    assert_eq!(end, Step::Failed(Error::TruncatedStream));
}

#[test]
fn empty_body_ends_cleanly() {
    let (got, end) = run(vec![]);
    assert!(got.is_empty());
    assert_eq!(end, Step::End);
}

#[test]
fn finished_and_failed_cursors_stay_so() {
    let mut c = Cursor::new(schema());
    c.finish();
    assert_eq!(c.next(), Step::End);
    assert_eq!(c.next(), Step::End);
    assert_eq!(c.state(), CursorState::Ended);

    let mut c = Cursor::new(vec![ColumnType::Plain(ScalarType::Bool)]);
    c.push_chunk(vec![9]);
    assert_eq!(c.next(), Step::Failed(Error::MalformedField(0, ColumnType::Plain(ScalarType::Bool))));
    assert_eq!(c.state(), CursorState::Failed);
    assert_eq!(c.next(), Step::Failed(Error::InvalidState));
}

#[test]
fn many_small_chunks_are_consumed_and_released() {
    let schema = vec![ColumnType::Plain(ScalarType::UInt8)];
    let mut chain = BufList::new();
    for i in 0..10_000u32 {
        chain.push(vec![(i % 256) as u8]);
    }
    assert_eq!(chain.remaining(), 10_000);
    for i in 0..10_000u32 {
        let row = clickhouse::rowbinary::deserialize_row(&schema, &mut chain).unwrap();
        assert_eq!(row, vec![Value::Plain(Scalar::UInt((i % 256) as u128))]);
    }
    assert_eq!(chain.remaining(), 0);
    assert_eq!(
        clickhouse::rowbinary::deserialize_row(&schema, &mut chain),
        Err(Error::InsufficientData)
    );
}

#[test]
fn reader_spans_chunks_and_commit_moves_front() {
    let mut chain = BufList::new();
    chain.push(vec![1, 2]);
    chain.push(vec![]);
    chain.push(vec![3]);
    let mut rd = chain.reader();
    assert_eq!(chain.read_byte(&mut rd), Some(1));
    assert_eq!(chain.read_byte(&mut rd), Some(2));
    assert_eq!(chain.read_byte(&mut rd), Some(3));
    assert_eq!(chain.read_byte(&mut rd), None);
    let mut rd = chain.reader();
    chain.read_byte(&mut rd);
    chain.commit(rd);
    assert_eq!(chain.remaining(), 2);
    let mut rd = chain.reader();
    assert_eq!(chain.read_byte(&mut rd), Some(2));
}

#[test]
fn pushing_chunks_together_or_apart_reads_alike() {
    let bytes = encoded();
    let chunks: Vec<Vec<u8>> = bytes.chunks(3).map(|c| c.to_vec()).collect();
    let mut a = Cursor::new(schema());
    a.push_chunks(&chunks);
    a.finish();
    assert_eq!(a.buffered(), bytes.len());
    let mut got = Vec::new();
    loop {
        match a.next() {
            Step::Row(r) => got.push(r),
            last => {
                assert_eq!(last, Step::End);
                break;
            }
        }
    }
    assert_eq!(got, rows());
}
