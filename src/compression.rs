use vstd::prelude::*;

use crate::buflist::BufList;
use crate::bytes::{le_bytes, le_value, lemma_le_round_trip, lemma_le_value_bound, pow256, read_le, write_le};
use crate::error::Error;
use crate::rowbinary::read_bytes;

verus! {

/// How request and response bodies are compressed.
#[derive(Clone, Copy, Debug, PartialEq, Eq, Structural)]
pub enum Compression {
    Disabled,
    Lz4,
}

impl Default for Compression {
    fn default() -> (r: Compression)
        ensures
            r == Compression::Disabled,
    {
        Compression::Disabled
    }
}

/// Method tag of a block stored as is.
pub const METHOD_NONE: u8 = 0x02;

/// Method tag of an LZ4 block.
pub const METHOD_LZ4: u8 = 0x82;

/// Tag, checksum, compressed length, uncompressed length.
pub const HEADER_LEN: usize = 13;

/// The largest uncompressed block this library accepts.
pub const MAX_BLOCK_SIZE: usize = 0x0800_0000;

/// The longest LZ4 payload this library decodes; the decoder sums run
/// lengths in 32 bits, which a longer payload could overflow.
pub const MAX_LZ4_PAYLOAD: usize = 0x100_0000;

/// The largest length a header field can state.
pub const MAX_FIELD: usize = 0xffff_ffff;

/// CRC-32 (IEEE) of a byte sequence.
pub uninterp spec fn crc32_of(s: Seq<u8>) -> u32;

/// The LZ4 block that compresses `s`.
pub uninterp spec fn lz4_encoded(s: Seq<u8>) -> Seq<u8>;

/// The bytes that an LZ4 block decodes to when at most `size` are allowed,
/// or none if it is not a valid block.
pub uninterp spec fn lz4_decoded(s: Seq<u8>, size: nat) -> Option<Seq<u8>>;

/// Relies on crc32fast::hash: the CRC-32 of the bytes given.
#[verifier::external_body]
fn crc32(b: &[u8]) -> (r: u32)
    ensures
        r == crc32_of(b@),
{
    crc32fast::hash(b)
}

/// Relies on lz4_flex::block::compress: one LZ4 block holding all the bytes,
/// which block::decompress turns back into them given their length.
#[verifier::external_body]
fn lz4_compress(b: &[u8]) -> (r: Vec<u8>)
    ensures
        r@ == lz4_encoded(b@),
        lz4_decoded(r@, b@.len()) == Some(b@),
{
    lz4_flex::block::compress(b)
}

/// lz4_flex's decompression error; it is only mapped to this crate's own.
#[verifier::external_type_specification]
#[verifier::external_body]
pub struct ExDecompressError(lz4_flex::block::DecompressError);

/// Relies on lz4_flex::block::decompress, which allocates `size` bytes up
/// front and fails on a block that is invalid or decodes to more.
#[verifier::external_body]
fn lz4_decompress(b: &[u8], size: usize) -> (r: Result<Vec<u8>, lz4_flex::block::DecompressError>)
    requires
        size <= MAX_BLOCK_SIZE,
        b@.len() <= MAX_LZ4_PAYLOAD,
    ensures
        match lz4_decoded(b@, size as nat) {
            Some(d) => r matches Ok(v) && v@ == d,
            None => r is Err,
        },
{
    lz4_flex::block::decompress(b, size)
}

pub open spec fn method_tag(m: Compression) -> u8 {
    match m {
        Compression::Disabled => METHOD_NONE,
        Compression::Lz4 => METHOD_LZ4,
    }
}

/// What a block of method `m` carries for the bytes `data`.
pub open spec fn payload_of(m: Compression, data: Seq<u8>) -> Seq<u8> {
    match m {
        Compression::Disabled => data,
        Compression::Lz4 => lz4_encoded(data),
    }
}

/// A block: tag, CRC-32 of the payload, payload length, length of the data
/// it stands for (all little-endian, four bytes each), then the payload.
pub open spec fn frame_bytes(tag: u8, payload: Seq<u8>, ulen: nat) -> Seq<u8> {
    seq![tag] + le_bytes(crc32_of(payload) as nat, 4) + le_bytes(payload.len(), 4) + le_bytes(
        ulen,
        4,
    ) + payload
}

/// The outcome of reading one block from the front of a byte sequence.
pub enum BlockModel {
    Done(Seq<u8>, nat),
    Short,
    Fail(Error),
}

pub open spec fn parse_block(s: Seq<u8>) -> BlockModel {
    if s.len() < HEADER_LEN {
        BlockModel::Short
    } else {
        let tag = s[0];
        let sum = le_value(s.subrange(1, 5));
        let clen = le_value(s.subrange(5, 9));
        let ulen = le_value(s.subrange(9, 13));
        if tag != METHOD_NONE && tag != METHOD_LZ4 {
            BlockModel::Fail(Error::UnsupportedCompressionMethod(tag))
        } else if s.len() < HEADER_LEN + clen {
            BlockModel::Short
        } else {
            let payload = s.subrange(HEADER_LEN as int, (HEADER_LEN + clen) as int);
            if crc32_of(payload) as nat != sum {
                BlockModel::Fail(Error::ChecksumMismatch)
            } else if tag == METHOD_NONE {
                if clen == ulen {
                    BlockModel::Done(payload, (HEADER_LEN + clen) as nat)
                } else {
                    BlockModel::Fail(Error::MalformedData)
                }
            } else if ulen > MAX_BLOCK_SIZE || clen > MAX_LZ4_PAYLOAD {
                BlockModel::Fail(Error::MalformedData)
            } else {
                match lz4_decoded(payload, ulen) {
                    Some(d) => if d.len() == ulen {
                        BlockModel::Done(d, (HEADER_LEN + clen) as nat)
                    } else {
                        BlockModel::Fail(Error::MalformedData)
                    },
                    None => BlockModel::Fail(Error::MalformedData),
                }
            }
        }
    }
}

fn copy_bytes(b: &[u8]) -> (r: Vec<u8>)
    ensures
        r@ == b@,
{
    let mut r: Vec<u8> = Vec::new();
    let mut i: usize = 0;
    while i < b.len()
        invariant
            i <= b@.len(),
            r@ == b@.take(i as int),
        decreases b@.len() - i,
    {
        r.push(b[i]);
        i = i + 1;
        assert(r@ =~= b@.take(i as int));
    }
    assert(b@.take(i as int) =~= b@);
    r
}

/// Frames `data` as one block of method `m`. Fails only where the payload
/// is too long for its length field.
pub fn encode_block(data: &[u8], m: Compression) -> (r: Result<Vec<u8>, Error>)
    requires
        data@.len() <= MAX_BLOCK_SIZE,
    ensures
        payload_of(m, data@).len() <= MAX_FIELD ==> (r matches Ok(v) && v@ == frame_bytes(
            method_tag(m),
            payload_of(m, data@),
            data@.len(),
        )),
        payload_of(m, data@).len() > MAX_FIELD ==> r == Err::<Vec<u8>, Error>(
            Error::BlockTooLarge,
        ),
        m == Compression::Lz4 ==> lz4_decoded(payload_of(m, data@), data@.len()) == Some(data@),
{
    let payload = match m {
        Compression::Disabled => copy_bytes(data),
        Compression::Lz4 => lz4_compress(data),
    };
    if payload.len() > MAX_FIELD {
        return Err(Error::BlockTooLarge);
    }
    let sum = crc32(payload.as_slice());
    let mut out: Vec<u8> = Vec::new();
    out.push(if m == Compression::Disabled { METHOD_NONE } else { METHOD_LZ4 });
    write_le(&mut out, sum as u128, 4);
    write_le(&mut out, payload.len() as u128, 4);
    write_le(&mut out, data.len() as u128, 4);
    let mut i: usize = 0;
    let ghost head = out@;
    while i < payload.len()
        invariant
            i <= payload@.len(),
            out@ == head + payload@.take(i as int),
        decreases payload@.len() - i,
    {
        out.push(payload[i]);
        i = i + 1;
        assert(out@ =~= head + payload@.take(i as int));
    }
    assert(payload@.take(i as int) =~= payload@);
    assert(out@ =~= frame_bytes(method_tag(m), payload_of(m, data@), data@.len()));
    Ok(out)
}

} // verus!

verus! {

/// Reads one block from the front of `raw` and returns the data it stands
/// for, consuming the block. While the block is incomplete, or when it
/// fails, nothing is consumed and no data is returned.
pub fn decode_block(raw: &mut BufList) -> (r: Result<Vec<u8>, Error>)
    requires
        old(raw).wf(),
    ensures
        final(raw).wf(),
        match parse_block(old(raw).view()) {
            BlockModel::Done(d, n) => (r matches Ok(v) && v@ == d) && final(raw).view() == old(raw).view().skip(n as int),
            BlockModel::Short => r == Err::<Vec<u8>, Error>(Error::InsufficientData) && final(raw).view() == old(raw).view(),
            BlockModel::Fail(e) => r == Err::<Vec<u8>, Error>(e) && final(raw).view() == old(raw).view(),
        },
{
    let ghost s = raw.view();
    if raw.remaining() < HEADER_LEN {
        return Err(Error::InsufficientData);
    }
    let mut rd = raw.reader();
    proof {
        assert(raw.rest(rd) =~= s);
        reveal_with_fuel(pow256, 5);
        reveal_with_fuel(le_value, 2);
        assert(s.take(1).drop_first() =~= Seq::<u8>::empty());
        assert(s.skip(1).take(4) =~= s.subrange(1, 5));
        assert(s.skip(5).take(4) =~= s.subrange(5, 9));
        assert(s.skip(9).take(4) =~= s.subrange(9, 13));
        lemma_le_value_bound(s.subrange(1, 5));
        lemma_le_value_bound(s.subrange(5, 9));
        lemma_le_value_bound(s.subrange(9, 13));
        raw.lemma_reader_pos(rd);
    }
    let tag = read_le(raw, &mut rd, 1).unwrap();
    proof {
        raw.lemma_reader_pos(rd);
        assert(raw.rest(rd) =~= s.skip(1));
    }
    let sum = read_le(raw, &mut rd, 4).unwrap();
    proof {
        raw.lemma_reader_pos(rd);
        assert(raw.rest(rd) =~= s.skip(5));
    }
    let clen = read_le(raw, &mut rd, 4).unwrap();
    proof {
        raw.lemma_reader_pos(rd);
        assert(raw.rest(rd) =~= s.skip(9));
    }
    let ulen = read_le(raw, &mut rd, 4).unwrap();
    proof {
        raw.lemma_reader_pos(rd);
        assert(raw.rest(rd) =~= s.skip(13));
    }
    if tag != METHOD_NONE as u128 && tag != METHOD_LZ4 as u128 {
        return Err(Error::UnsupportedCompressionMethod(tag as u8));
    }
    let clen = clen as usize;
    if raw.remaining() - HEADER_LEN < clen {
        return Err(Error::InsufficientData);
    }
    let payload = read_bytes(raw, &mut rd, clen as u64).unwrap();
    proof {
        assert(payload@ =~= s.subrange(HEADER_LEN as int, (HEADER_LEN + clen) as int));
    }
    if crc32(payload.as_slice()) as u128 != sum {
        return Err(Error::ChecksumMismatch);
    }
    if tag == METHOD_NONE as u128 {
        if clen as u128 != ulen {
            return Err(Error::MalformedData);
        }
        raw.commit(rd);
        return Ok(payload);
    }
    if ulen > MAX_BLOCK_SIZE as u128 || clen > MAX_LZ4_PAYLOAD {
        return Err(Error::MalformedData);
    }
    let ulen = ulen as usize;
    match lz4_decompress(payload.as_slice(), ulen) {
        Err(_) => Err(Error::MalformedData),
        Ok(d) => {
            if d.len() != ulen {
                return Err(Error::MalformedData);
            }
            raw.commit(rd);
            Ok(d)
        },
    }
}

/// A block stored as is reads back as the data it was made from, and ends
/// where its frame ends.
pub proof fn lemma_plain_block_round_trip(data: Seq<u8>, rest: Seq<u8>)
    requires
        data.len() <= MAX_BLOCK_SIZE,
    ensures
        parse_block(frame_bytes(METHOD_NONE, data, data.len()) + rest) == BlockModel::Done(
            data,
            (HEADER_LEN + data.len()) as nat,
        ),
{
    let f = frame_bytes(METHOD_NONE, data, data.len());
    let s = f + rest;
    reveal_with_fuel(pow256, 5);
    let c = crc32_of(data) as nat;
    lemma_le_round_trip(c, 4);
    lemma_le_round_trip(data.len(), 4);
    assert(s.subrange(1, 5) =~= le_bytes(c, 4));
    assert(s.subrange(5, 9) =~= le_bytes(data.len(), 4));
    assert(s.subrange(9, 13) =~= le_bytes(data.len(), 4));
    assert(s.subrange(HEADER_LEN as int, (HEADER_LEN + data.len()) as int) =~= data);
}

/// An LZ4 block reads back as the data it was made from, when its payload
/// decodes to that data and is short enough to be decoded at all.
pub proof fn lemma_lz4_block_round_trip(data: Seq<u8>, rest: Seq<u8>)
    requires
        data.len() <= MAX_BLOCK_SIZE,
        lz4_encoded(data).len() <= MAX_LZ4_PAYLOAD,
        lz4_decoded(lz4_encoded(data), data.len()) == Some(data),
    ensures
        parse_block(frame_bytes(METHOD_LZ4, lz4_encoded(data), data.len()) + rest)
            == BlockModel::Done(data, (HEADER_LEN + lz4_encoded(data).len()) as nat),
{
    let p = lz4_encoded(data);
    let f = frame_bytes(METHOD_LZ4, p, data.len());
    let s = f + rest;
    reveal_with_fuel(pow256, 5);
    let c = crc32_of(p) as nat;
    lemma_le_round_trip(c, 4);
    lemma_le_round_trip(p.len(), 4);
    lemma_le_round_trip(data.len(), 4);
    assert(s.subrange(1, 5) =~= le_bytes(c, 4));
    assert(s.subrange(5, 9) =~= le_bytes(p.len(), 4));
    assert(s.subrange(9, 13) =~= le_bytes(data.len(), 4));
    assert(s.subrange(HEADER_LEN as int, (HEADER_LEN + p.len()) as int) =~= p);
}

/// A block whose stored checksum is not the CRC-32 of its payload is
/// refused as soon as the payload is complete, and yields no data.
pub proof fn lemma_corrupt_block_refused(s: Seq<u8>)
    requires
        s.len() >= HEADER_LEN,
        s[0] == METHOD_NONE || s[0] == METHOD_LZ4,
        s.len() >= HEADER_LEN + le_value(s.subrange(5, 9)),
        crc32_of(s.subrange(HEADER_LEN as int, (HEADER_LEN + le_value(s.subrange(5, 9))) as int))
            as nat != le_value(s.subrange(1, 5)),
    ensures
        parse_block(s) == BlockModel::Fail(Error::ChecksumMismatch),
{
}

} // verus!
