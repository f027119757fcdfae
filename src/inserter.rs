use vstd::prelude::*;

use crate::compression::Compression;
use crate::error::Error;
use crate::insert::{blocks_fit, frame_body, request_body};
use crate::rowbinary::{mismatch_at, row_bytes, row_valid, row_view, serialize_row, ColumnType, Value};

verus! {

/// When an `Inserter` commits on its own; a limit left out never triggers.
#[derive(Clone, Copy, Debug, PartialEq, Eq, Structural)]
pub struct InserterConfig {
    pub max_rows: Option<u64>,
    pub max_bytes: Option<u64>,
    pub max_period_ms: Option<u64>,
}

/// Rows and serialized bytes of one batch.
#[derive(Clone, Copy, Debug, PartialEq, Eq, Structural)]
pub struct Quantities {
    pub rows: u64,
    pub bytes: u64,
}

/// A commit is due once the batch holds a row and any configured limit is
/// reached.
pub open spec fn commit_due_spec(cfg: InserterConfig, rows: nat, bytes: nat, elapsed: nat) -> bool {
    &&& rows > 0
    &&& {
        ||| (cfg.max_rows matches Some(m) && rows >= m)
        ||| (cfg.max_bytes matches Some(b) && bytes >= b)
        ||| (cfg.max_period_ms matches Some(p) && elapsed >= p)
    }
}

/// With only a row limit `m >= 1` set, a commit is due exactly when the batch
/// holds `m` rows or more, whatever its size and age.
pub proof fn lemma_row_limit_alone(m: u64, rows: nat, bytes: nat, elapsed: nat)
    requires
        m >= 1,
    ensures
        commit_due_spec(
            InserterConfig { max_rows: Some(m), max_bytes: None, max_period_ms: None },
            rows,
            bytes,
            elapsed,
        ) <==> rows >= m,
{
}

pub open spec fn elapsed_since(last: u64, now: u64) -> nat {
    if now >= last {
        (now - last) as nat
    } else {
        0
    }
}

/// Batches rows for a table and decides when a batch becomes one INSERT.
///
/// The caller sends `body()` as the request and reports the outcome with
/// `committed`; a failed commit leaves the batch as it was.
pub struct Inserter {
    schema: Vec<ColumnType>,
    config: InserterConfig,
    compression: Compression,
    body: Vec<u8>,
    rows: u64,
    last_commit_ms: u64,
}

impl Inserter {
    pub closed spec fn schema(&self) -> Seq<ColumnType> {
        self.schema@
    }

    pub closed spec fn config(&self) -> InserterConfig {
        self.config
    }

    pub closed spec fn compression(&self) -> Compression {
        self.compression
    }

    /// The encoded rows of the batch, in the order they were written.
    pub closed spec fn batch(&self) -> Seq<u8> {
        self.body@
    }

    pub closed spec fn rows(&self) -> nat {
        self.rows as nat
    }

    pub closed spec fn last_commit(&self) -> u64 {
        self.last_commit_ms
    }

    pub fn new(
        schema: Vec<ColumnType>,
        config: InserterConfig,
        compression: Compression,
        now_ms: u64,
    ) -> (r: Inserter)
        ensures
            r.schema() == schema@,
            r.config() == config,
            r.compression() == compression,
            r.batch() == Seq::<u8>::empty(),
            r.rows() == 0,
            r.last_commit() == now_ms,
    {
        Inserter { schema, config, compression, body: Vec::new(), rows: 0, last_commit_ms: now_ms }
    }

    /// Encodes a row into the batch. A row that does not fit the schema
    /// leaves the batch as it was.
    pub fn write(&mut self, row: &Vec<Value>) -> (r: Result<(), Error>)
        requires
            old(self).rows() < u64::MAX,
        ensures
            final(self).schema() == old(self).schema(),
            final(self).config() == old(self).config(),
            final(self).compression() == old(self).compression(),
            final(self).last_commit() == old(self).last_commit(),
            r is Ok <==> row_valid(old(self).schema(), row_view(row@)),
            r is Ok ==> final(self).batch() == old(self).batch() + row_bytes(
                old(self).schema(),
                row_view(row@),
            ) && final(self).rows() == old(self).rows() + 1,
            r is Err ==> final(self).batch() == old(self).batch() && final(self).rows() == old(self).rows(),
            r matches Err(e) ==> e matches Error::SchemaMismatch(i) && mismatch_at(
                old(self).schema(),
                row_view(row@),
                i as int,
            ),
    {
        let r = serialize_row(&self.schema, row, &mut self.body);
        if r.is_ok() {
            self.rows = self.rows + 1;
        }
        r
    }

    /// Rows and bytes waiting in the batch.
    pub fn pending(&self) -> (r: Quantities)
        ensures
            r.rows == self.rows(),
            r.bytes == self.batch().len(),
    {
        Quantities { rows: self.rows, bytes: self.body.len() as u64 }
    }

    /// Whether a limit asks for a commit at time `now_ms`.
    pub fn commit_due(&self, now_ms: u64) -> (r: bool)
        ensures
            r == commit_due_spec(
                self.config(),
                self.rows(),
                self.batch().len(),
                elapsed_since(self.last_commit(), now_ms),
            ),
    {
        if self.rows == 0 {
            return false;
        }
        let bytes = self.body.len() as u64;
        let elapsed = if now_ms >= self.last_commit_ms {
            now_ms - self.last_commit_ms
        } else {
            0
        };
        let by_rows = match self.config.max_rows {
            Some(m) => self.rows >= m,
            None => false,
        };
        let by_bytes = match self.config.max_bytes {
            Some(b) => bytes >= b,
            None => false,
        };
        let by_time = match self.config.max_period_ms {
            Some(p) => elapsed >= p,
            None => false,
        };
        by_rows || by_bytes || by_time
    }

    /// The request body for the batch.
    pub fn body(&self) -> (r: &[u8])
        ensures
            r@ == self.batch(),
    {
        self.body.as_slice()
    }

    /// The request body for the batch, framed as the compression setting
    /// asks.
    pub fn request_body(&self) -> (r: Result<Vec<u8>, Error>)
        ensures
            blocks_fit(self.compression(), self.batch()) ==> (r matches Ok(b) && b@ == request_body(
                self.compression(),
                self.batch(),
            )),
            !blocks_fit(self.compression(), self.batch()) ==> r == Err::<Vec<u8>, Error>(
                Error::BlockTooLarge,
            ),
    {
        frame_body(&self.body, self.compression)
    }

    /// Records the outcome of sending the batch. On success the batch is
    /// emptied and what it held is returned; on failure it stays as it was
    /// and the error is handed back.
    pub fn committed(&mut self, outcome: Result<(), Error>, now_ms: u64) -> (r: Result<
        Quantities,
        Error,
    >)
        ensures
            final(self).schema() == old(self).schema(),
            final(self).config() == old(self).config(),
            final(self).compression() == old(self).compression(),
            outcome is Ok ==> r == Ok::<Quantities, Error>(
                Quantities { rows: old(self).rows() as u64, bytes: old(self).batch().len() as u64 },
            ) && final(self).batch() == Seq::<u8>::empty() && final(self).rows() == 0 && final(self).last_commit() == now_ms,
            outcome matches Err(e) ==> r == Err::<Quantities, Error>(e) && final(self).batch()
                == old(self).batch() && final(self).rows() == old(self).rows() && final(self).last_commit() == old(self).last_commit(),
    {
        match outcome {
            Err(e) => Err(e),
            Ok(()) => {
                let q = Quantities { rows: self.rows, bytes: self.body.len() as u64 };
                self.body = Vec::new();
                self.rows = 0;
                self.last_commit_ms = now_ms;
                Ok(q)
            },
        }
    }
}

} // verus!
