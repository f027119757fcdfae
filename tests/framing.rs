use clickhouse::buflist::BufList;
use clickhouse::compression::{decode_block, encode_block, Compression, HEADER_LEN, METHOD_LZ4, METHOD_NONE};
use clickhouse::error::Error;

fn decode(bytes: Vec<u8>) -> (Result<Vec<u8>, Error>, usize) {
    let mut chain = BufList::new();
    chain.push(bytes);
    let r = decode_block(&mut chain);
    (r, chain.remaining())
}

fn sample() -> Vec<u8> {
    b"abcabcabcabcabcabcabcabcabcabcabcabcabcabcabcabc-tail".to_vec()
}

#[test]
fn plain_block_layout_and_round_trip() {
    let data = b"hey".to_vec();
    let block = encode_block(&data, Compression::Disabled).unwrap();
    assert_eq!(block.len(), HEADER_LEN + 3);
    assert_eq!(block[0], METHOD_NONE);
    assert_eq!(&block[1..5], &crc32fast::hash(b"hey").to_le_bytes());
    assert_eq!(&block[5..9], &[3, 0, 0, 0]);
    assert_eq!(&block[9..13], &[3, 0, 0, 0]);
    assert_eq!(&block[13..], b"hey");
    assert_eq!(decode(block), (Ok(data), 0));
}

#[test]
fn lz4_block_round_trip() {
    let data = sample();
    let block = encode_block(&data, Compression::Lz4).unwrap();
    assert_eq!(block[0], METHOD_LZ4);
    assert!(block.len() - HEADER_LEN < data.len());
    assert_eq!(&block[9..13], &(data.len() as u32).to_le_bytes());
    assert_eq!(decode(block), (Ok(data), 0));
}

#[test]
fn corrupted_payload_fails_checksum() {
    for method in [Compression::Disabled, Compression::Lz4] {
        let mut block = encode_block(&sample(), method).unwrap();
        let i = HEADER_LEN + 2;
        block[i] ^= 0x40;
        let n = block.len();
        assert_eq!(decode(block), (Err(Error::ChecksumMismatch), n));
    }
}

#[test]
fn unknown_method_is_refused() {
    let mut block = encode_block(&sample(), Compression::Disabled).unwrap();
    block[0] = 0x90;
    assert_eq!(decode(block).0, Err(Error::UnsupportedCompressionMethod(0x90)));
}

#[test]
fn partial_block_waits_for_more() {
    let block = encode_block(&sample(), Compression::Lz4).unwrap();
    let mut chain = BufList::new();
    let split = block.len() / 2;
    chain.push(block[..5].to_vec());
    assert_eq!(decode_block(&mut chain), Err(Error::InsufficientData));
    chain.push(block[5..split].to_vec());
    assert_eq!(decode_block(&mut chain), Err(Error::InsufficientData));
    assert_eq!(chain.remaining(), split);
    chain.push(block[split..].to_vec());
    chain.push(vec![METHOD_NONE]);
    assert_eq!(decode_block(&mut chain), Ok(sample()));
    assert_eq!(chain.remaining(), 1);
}

#[test]
fn plain_length_disagreement_is_malformed() {
    let mut block = encode_block(b"abcd", Compression::Disabled).unwrap();
    block[9] = 5;
    assert_eq!(decode(block).0, Err(Error::MalformedData));
}

use clickhouse::cursor::{Cursor, Step};
use clickhouse::rowbinary::{serialize_row, ColumnType, Scalar, ScalarType, Value};

fn compressed_rows() -> (Vec<ColumnType>, Vec<Vec<Value>>, Vec<u8>) {
    let schema = vec![ColumnType::Plain(ScalarType::UInt16), ColumnType::Plain(ScalarType::String)];
    let rows: Vec<Vec<Value>> = (0..40u128)
        .map(|i| vec![Value::Plain(Scalar::UInt(i)), Value::Plain(Scalar::Bytes(b"same text".to_vec()))])
        .collect();
    let mut plain = Vec::new();
    for r in &rows {
        serialize_row(&schema, r, &mut plain).unwrap();
    }
    let mut body = encode_block(&plain[..200], Compression::Lz4).unwrap();
    body.extend(encode_block(&plain[200..], Compression::Disabled).unwrap());
    (schema, rows, body)
}

fn drain(schema: Vec<ColumnType>, body: Vec<u8>, chunk: usize) -> (Vec<Vec<Value>>, Step) {
    let mut cursor = Cursor::new(schema);
    let mut raw = BufList::new();
    let mut chunks = body.chunks(chunk).map(|c| c.to_vec()).collect::<Vec<_>>().into_iter();
    let mut out = Vec::new();
    loop {
        match cursor.next() {
            Step::Row(r) => out.push(r),
            Step::NeedChunk => match cursor.push_block(&mut raw) {
                Ok(true) => {}
                Ok(false) => match chunks.next() {
                    Some(c) => raw.push(c),
                    None => {
                        assert_eq!(raw.remaining(), 0);
                        cursor.finish();
                    }
                },
                Err(e) => return (out, Step::Failed(e)),
            },
            last => return (out, last),
        }
    }
}

#[test]
fn compressed_body_reads_the_same_at_any_chunk_size() {
    let (schema, rows, body) = compressed_rows();
    for size in [1, 2, 7, 64, body.len()] {
        let (got, end) = drain(schema.clone(), body.clone(), size);
        assert_eq!(got, rows);
        assert_eq!(end, Step::End);
    }
}

#[test]
fn corrupted_block_yields_no_rows_from_it() {
    let (schema, _, mut body) = compressed_rows();
    body[HEADER_LEN + 1] ^= 1;
    let (got, end) = drain(schema, body, 16);
    assert!(got.is_empty());
    assert_eq!(end, Step::Failed(Error::ChecksumMismatch));
}

#[test]
fn failed_block_fails_cursor_even_with_rows_held() {
    let schema = vec![ColumnType::Plain(ScalarType::UInt8)];
    let mut cursor = Cursor::new(schema);
    cursor.push_chunk(vec![1, 2]);
    let mut block = encode_block(&[3], Compression::Disabled).unwrap();
    block[HEADER_LEN] = 4;
    let mut raw = BufList::new();
    raw.push(block);
    assert_eq!(cursor.push_block(&mut raw), Err(Error::ChecksumMismatch));
    assert_eq!(cursor.state(), clickhouse::cursor::CursorState::Failed);
    assert_eq!(cursor.next(), Step::Failed(Error::InvalidState));
    assert_eq!(cursor.push_block(&mut raw), Err(Error::InvalidState));
}

#[test]
fn overlong_lz4_payload_is_malformed() {
    let payload = vec![0u8; clickhouse::compression::MAX_LZ4_PAYLOAD + 1];
    let mut block = vec![METHOD_LZ4];
    block.extend_from_slice(&crc32fast::hash(&payload).to_le_bytes());
    block.extend_from_slice(&(payload.len() as u32).to_le_bytes());
    block.extend_from_slice(&16u32.to_le_bytes());
    block.extend_from_slice(&payload);
    assert_eq!(decode(block).0, Err(Error::MalformedData));
}
