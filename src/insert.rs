use vstd::prelude::*;

use crate::compression::{encode_block, frame_bytes, method_tag, payload_of, Compression, MAX_FIELD};
use crate::error::Error;
use crate::rowbinary::{mismatch_at, row_bytes, row_valid, row_view, serialize_row, ColumnType, Value};

verus! {

/// Uncompressed bytes per compressed block of a request body.
pub const BLOCK_SIZE: usize = 0x10_0000;

#[derive(Clone, Copy, Debug, PartialEq, Eq, Structural)]
pub enum InsertState {
    /// Rows may be written.
    Open,
    /// A row failed to encode; the transaction must not be sent.
    Aborted,
    /// The body was handed out for sending.
    Ended,
}

/// Start of block `j` of a body.
pub open spec fn block_start(j: nat) -> nat {
    j * BLOCK_SIZE as nat
}

/// Block `j` of `data`: up to `BLOCK_SIZE` bytes from its start.
pub open spec fn block_of(data: Seq<u8>, j: nat) -> Seq<u8> {
    let a = block_start(j) as int;
    let b = if a + BLOCK_SIZE <= data.len() {
        a + BLOCK_SIZE
    } else {
        data.len() as int
    };
    data.subrange(a, b)
}

/// Number of blocks that `n` bytes make.
pub open spec fn block_count(n: nat) -> nat {
    ((n + BLOCK_SIZE - 1) / BLOCK_SIZE as int) as nat
}

/// The frames of the first `k` blocks of `data`, in order.
pub open spec fn frames(m: Compression, data: Seq<u8>, k: nat) -> Seq<u8>
    decreases k,
{
    if k == 0 {
        Seq::empty()
    } else {
        let blk = block_of(data, (k - 1) as nat);
        frames(m, data, (k - 1) as nat) + frame_bytes(method_tag(m), payload_of(m, blk), blk.len())
    }
}

/// What is sent for the rows `data`: the rows themselves, or their blocks
/// framed one after another.
pub open spec fn request_body(m: Compression, data: Seq<u8>) -> Seq<u8> {
    match m {
        Compression::Disabled => data,
        Compression::Lz4 => frames(m, data, block_count(data.len())),
    }
}

pub open spec fn blocks_fit(m: Compression, data: Seq<u8>) -> bool {
    forall|j: nat| j < block_count(data.len()) ==> (#[trigger] payload_of(m, block_of(data, j))).len()
        <= MAX_FIELD
}

fn copy_range(data: &Vec<u8>, from: usize, to: usize) -> (r: Vec<u8>)
    requires
        from <= to <= data@.len(),
    ensures
        r@ == data@.subrange(from as int, to as int),
{
    let mut r: Vec<u8> = Vec::new();
    let mut i = from;
    while i < to
        invariant
            from <= i <= to,
            to <= data@.len(),
            r@ == data@.subrange(from as int, i as int),
        decreases to - i,
    {
        r.push(data[i]);
        i = i + 1;
        assert(r@ =~= data@.subrange(from as int, i as int));
    }
    r
}

/// The request body for the encoded rows `data`: fails only where a block's
/// payload is too long for its length field.
pub fn frame_body(data: &Vec<u8>, m: Compression) -> (r: Result<Vec<u8>, Error>)
    ensures
        blocks_fit(m, data@) ==> (r matches Ok(b) && b@ == request_body(m, data@)),
        !blocks_fit(m, data@) ==> r == Err::<Vec<u8>, Error>(Error::BlockTooLarge),
{
    let n = data.len();
    match m {
        Compression::Disabled => {
            let body = copy_range(data, 0, n);
            assert(body@ =~= data@);
            proof {
                assert forall|j: nat| j < block_count(data@.len()) implies (#[trigger] payload_of(
                    m,
                    block_of(data@, j),
                )).len() <= MAX_FIELD by {
                    let jn = j;
                    assert(jn * 0x10_0000 < n) by (nonlinear_arith)
                        requires
                            jn < (n + 0x10_0000 - 1) / 0x10_0000,
                    ;
                }
            }
            Ok(body)
        },
        Compression::Lz4 => {
            let ghost data_v = data@;
            let mut out: Vec<u8> = Vec::new();
            let mut start: usize = 0;
            let mut j: usize = 0;
            while start < n
                invariant
                    n == data_v.len(),
                    data_v == data@,
                    m == Compression::Lz4,
                    start <= n,
                    start == (if j * BLOCK_SIZE <= n { j * BLOCK_SIZE } else { n as int }),
                    j == 0 || (j - 1) * BLOCK_SIZE < n,
                    out@ == frames(m, data_v, j as nat),
                    forall|jj: nat| jj < j ==> (#[trigger] payload_of(m, block_of(data_v, jj))).len()
                        <= MAX_FIELD,
                decreases n - start,
            {
                let end = if n - start >= BLOCK_SIZE {
                    start + BLOCK_SIZE
                } else {
                    n
                };
                proof {
                    assert(j * BLOCK_SIZE <= n);
                    assert(start == block_start(j as nat));
                }
                let blk = copy_range(data, start, end);
                assert(blk@ == block_of(data_v, j as nat));
                match encode_block(blk.as_slice(), Compression::Lz4) {
                    Err(e) => {
                        proof {
                            let jn = j as nat;
                            assert(jn * BLOCK_SIZE < n);
                            assert(jn < block_count(n as nat)) by (nonlinear_arith)
                                requires
                                    jn * 0x10_0000 < n,
                            ;
                            assert(!blocks_fit(m, data_v));
                        }
                        return Err(e);
                    },
                    Ok(f) => {
                        let mut f = f;
                        out.append(&mut f);
                    },
                }
                start = end;
                j = j + 1;
                proof {
                    assert(j * BLOCK_SIZE == (j - 1) * BLOCK_SIZE + BLOCK_SIZE);
                }
            }
            proof {
                let jn = j as nat;
                let nn = n as nat;
                if jn * BLOCK_SIZE <= nn {
                    assert(jn * 0x10_0000 == nn);
                    assert(jn == block_count(nn)) by (nonlinear_arith)
                        requires
                            jn * 0x10_0000 == nn,
                    ;
                } else {
                    assert(jn >= 1);
                    assert(jn == block_count(nn)) by (nonlinear_arith)
                        requires
                            jn >= 1,
                            (jn - 1) * 0x10_0000 < nn,
                            nn < jn * 0x10_0000,
                    ;
                }
            }
            Ok(out)
        },
    }
}

/// One INSERT transaction: rows are encoded in the order written and sent as
/// one request body.
pub struct Insert {
    schema: Vec<ColumnType>,
    compression: Compression,
    rows: Vec<u8>,
    state: InsertState,
}

impl Insert {
    pub closed spec fn schema(&self) -> Seq<ColumnType> {
        self.schema@
    }

    pub closed spec fn compression(&self) -> Compression {
        self.compression
    }

    /// The encoded rows written so far.
    pub closed spec fn written(&self) -> Seq<u8> {
        self.rows@
    }

    pub closed spec fn spec_state(&self) -> InsertState {
        self.state
    }

    pub fn new(schema: Vec<ColumnType>, compression: Compression) -> (r: Insert)
        ensures
            r.schema() == schema@,
            r.compression() == compression,
            r.written() == Seq::<u8>::empty(),
            r.spec_state() == InsertState::Open,
    {
        Insert { schema, compression, rows: Vec::new(), state: InsertState::Open }
    }

    pub fn state(&self) -> (r: InsertState)
        ensures
            r == self.spec_state(),
    {
        self.state
    }

    /// Encodes a row into the body. A row that does not fit the schema
    /// aborts the transaction; after that, or after `end`, nothing more can
    /// be written.
    pub fn write(&mut self, row: &Vec<Value>) -> (r: Result<(), Error>)
        ensures
            final(self).schema() == old(self).schema(),
            final(self).compression() == old(self).compression(),
            old(self).spec_state() != InsertState::Open ==> r == Err::<(), Error>(
                Error::InvalidState,
            ) && final(self).written() == old(self).written() && final(self).spec_state() == old(self).spec_state(),
            old(self).spec_state() == InsertState::Open && row_valid(
                old(self).schema(),
                row_view(row@),
            ) ==> r is Ok && final(self).written() == old(self).written() + row_bytes(
                old(self).schema(),
                row_view(row@),
            ) && final(self).spec_state() == InsertState::Open,
            old(self).spec_state() == InsertState::Open && !row_valid(
                old(self).schema(),
                row_view(row@),
            ) ==> (r matches Err(e) && e matches Error::SchemaMismatch(i) && mismatch_at(
                old(self).schema(),
                row_view(row@),
                i as int,
            )) && final(self).spec_state() == InsertState::Aborted,
    {
        if self.state != InsertState::Open {
            return Err(Error::InvalidState);
        }
        let r = serialize_row(&self.schema, row, &mut self.rows);
        if r.is_err() {
            self.state = InsertState::Aborted;
        }
        r
    }

    /// Closes the transaction and hands out the request body. An aborted or
    /// already ended transaction has no body to send.
    pub fn end(&mut self) -> (r: Result<Vec<u8>, Error>)
        ensures
            old(self).spec_state() != InsertState::Open ==> r == Err::<Vec<u8>, Error>(
                Error::InvalidState,
            ) && final(self).spec_state() == old(self).spec_state(),
            old(self).spec_state() == InsertState::Open ==> final(self).spec_state()
                == InsertState::Ended,
            old(self).spec_state() == InsertState::Open && blocks_fit(
                old(self).compression(),
                old(self).written(),
            ) ==> (r matches Ok(b) && b@ == request_body(old(self).compression(), old(self).written())),
            old(self).spec_state() == InsertState::Open && !blocks_fit(
                old(self).compression(),
                old(self).written(),
            ) ==> r == Err::<Vec<u8>, Error>(Error::BlockTooLarge),
    {
        if self.state != InsertState::Open {
            return Err(Error::InvalidState);
        }
        self.state = InsertState::Ended;
        frame_body(&self.rows, self.compression)
    }
}

} // verus!
