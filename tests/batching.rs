use clickhouse::client::Client;
use clickhouse::compression::Compression;
use clickhouse::error::Error;
use clickhouse::inserter::{Inserter, InserterConfig, Quantities};
use clickhouse::rowbinary::{ColumnType, Scalar, ScalarType, Value};

fn row(i: u128) -> Vec<Value> {
    vec![Value::Plain(Scalar::UInt(i))]
}

fn schema() -> Vec<ColumnType> {
    vec![ColumnType::Plain(ScalarType::UInt32)]
}

#[test]
fn max_rows_triggers_once_then_force_flush() {
    let cfg = InserterConfig { max_rows: Some(3), max_bytes: None, max_period_ms: None };
    let mut ins = Inserter::new(schema(), cfg, Compression::Disabled, 0);
    let mut commits = Vec::new();
    for i in 0..5 {
        ins.write(&row(i)).unwrap();
        if ins.commit_due(0) {
            commits.push(ins.committed(Ok(()), 0).unwrap());
        }
    }
    assert_eq!(commits, vec![Quantities { rows: 3, bytes: 12 }]);
    assert_eq!(ins.pending(), Quantities { rows: 2, bytes: 8 });
    assert_eq!(ins.body(), &[3, 0, 0, 0, 4, 0, 0, 0]);
    assert_eq!(ins.committed(Ok(()), 1), Ok(Quantities { rows: 2, bytes: 8 }));
    assert_eq!(ins.pending(), Quantities { rows: 0, bytes: 0 });
}

#[test]
fn no_limits_never_commit() {
    let cfg = InserterConfig { max_rows: None, max_bytes: None, max_period_ms: None };
    let mut ins = Inserter::new(schema(), cfg, Compression::Disabled, 0);
    for i in 0..100 {
        ins.write(&row(i)).unwrap();
        assert!(!ins.commit_due(u64::MAX));
    }
}

#[test]
fn byte_and_time_limits() {
    let cfg = InserterConfig { max_rows: None, max_bytes: Some(8), max_period_ms: None };
    let mut ins = Inserter::new(schema(), cfg, Compression::Disabled, 0);
    ins.write(&row(1)).unwrap();
    assert!(!ins.commit_due(0));
    ins.write(&row(2)).unwrap();
    assert!(ins.commit_due(0));

    let cfg = InserterConfig { max_rows: None, max_bytes: None, max_period_ms: Some(1000) };
    let mut ins = Inserter::new(schema(), cfg, Compression::Disabled, 500);
    assert!(!ins.commit_due(5000));
    ins.write(&row(1)).unwrap();
    assert!(!ins.commit_due(1499));
    assert!(ins.commit_due(1500));
    assert!(!ins.commit_due(10));
}

#[test]
fn failed_commit_keeps_the_batch() {
    let cfg = InserterConfig { max_rows: Some(1), max_bytes: None, max_period_ms: None };
    let mut ins = Inserter::new(schema(), cfg, Compression::Disabled, 0);
    ins.write(&row(7)).unwrap();
    assert_eq!(ins.committed(Err(Error::ChecksumMismatch), 5), Err(Error::ChecksumMismatch));
    assert_eq!(ins.pending(), Quantities { rows: 1, bytes: 4 });
    assert!(ins.commit_due(5));
}

#[test]
fn bad_row_leaves_batch_unchanged() {
    let cfg = InserterConfig { max_rows: None, max_bytes: None, max_period_ms: None };
    let mut ins = Inserter::new(schema(), cfg, Compression::Disabled, 0);
    ins.write(&row(1)).unwrap();
    assert_eq!(ins.write(&vec![Value::Null]), Err(Error::SchemaMismatch(0)));
    assert_eq!(ins.pending(), Quantities { rows: 1, bytes: 4 });
}

#[test]
fn client_settings() {
    let c = Client::default()
        .with_url("http://localhost:8123".to_string())
        .with_database("db".to_string())
        .with_user("u".to_string())
        .with_password("p".to_string())
        .with_compression(Compression::Lz4)
        .with_option("max_threads".to_string(), "1".to_string())
        .with_option("max_threads".to_string(), "4".to_string())
        .with_header("X-A".to_string(), "b".to_string());
    assert_eq!(c.option(&"max_threads".to_string()), Some(&"4".to_string()));
    assert_eq!(c.option(&"other".to_string()), None);
}

use clickhouse::buflist::BufList;
use clickhouse::compression::decode_block;
use clickhouse::insert::{Insert, InsertState, BLOCK_SIZE};

#[test]
fn insert_plain_body_is_the_rows() {
    let mut ins = Insert::new(schema(), Compression::Disabled);
    ins.write(&row(1)).unwrap();
    ins.write(&row(2)).unwrap();
    assert_eq!(ins.end(), Ok(vec![1, 0, 0, 0, 2, 0, 0, 0]));
    assert_eq!(ins.state(), InsertState::Ended);
    assert_eq!(ins.write(&row(3)), Err(Error::InvalidState));
    assert_eq!(ins.end(), Err(Error::InvalidState));
}

#[test]
fn insert_bad_row_aborts_transaction() {
    let mut ins = Insert::new(schema(), Compression::Disabled);
    ins.write(&row(1)).unwrap();
    assert_eq!(ins.write(&row(1 << 40)), Err(Error::SchemaMismatch(0)));
    assert_eq!(ins.state(), InsertState::Aborted);
    assert_eq!(ins.write(&row(2)), Err(Error::InvalidState));
    assert_eq!(ins.end(), Err(Error::InvalidState));
}

#[test]
fn insert_lz4_body_is_framed_blocks() {
    let n = BLOCK_SIZE / 4 + 10;
    let mut ins = Insert::new(schema(), Compression::Lz4);
    let mut expected = Vec::new();
    for i in 0..n {
        ins.write(&row((i % 1000) as u128)).unwrap();
        expected.extend_from_slice(&((i % 1000) as u32).to_le_bytes());
    }
    let body = ins.end().unwrap();
    assert!(body.len() < expected.len());
    let mut chain = BufList::new();
    chain.push(body);
    let first = decode_block(&mut chain).unwrap();
    assert_eq!(first.len(), BLOCK_SIZE);
    let second = decode_block(&mut chain).unwrap();
    assert_eq!(second.len(), 40);
    assert_eq!(chain.remaining(), 0);
    let mut all = first;
    all.extend(second);
    assert_eq!(all, expected);
}

#[test]
fn insert_empty_lz4_body_is_empty() {
    let mut ins = Insert::new(schema(), Compression::Lz4);
    assert_eq!(ins.end(), Ok(vec![]));
}

#[test]
fn inserter_body_follows_compression() {
    let cfg = InserterConfig { max_rows: Some(2), max_bytes: None, max_period_ms: None };
    let mut plain = Inserter::new(schema(), cfg, Compression::Disabled, 0);
    let mut packed = Inserter::new(schema(), cfg, Compression::Lz4, 0);
    for i in 0..2 {
        plain.write(&row(i)).unwrap();
        packed.write(&row(i)).unwrap();
    }
    assert_eq!(plain.request_body(), Ok(vec![0, 0, 0, 0, 1, 0, 0, 0]));
    let body = packed.request_body().unwrap();
    let mut chain = BufList::new();
    chain.push(body);
    assert_eq!(decode_block(&mut chain), Ok(vec![0, 0, 0, 0, 1, 0, 0, 0]));
}
