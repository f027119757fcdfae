use vstd::prelude::*;

use crate::buflist::{flatten, BufList};
use crate::bytes::{lemma_le_value_bound, pow256, Parsed};
use crate::compression::{decode_block, parse_block, BlockModel, MAX_FIELD};
use crate::error::Error;
use crate::rowbinary::{
    deserialize_row, lemma_row_prefix_short, malformed_row, lemma_row_round_trip, parse_row, row_bytes, row_valid,
    row_view, ColumnType, Value, ValueModel,
};

verus! {

#[derive(Clone, Copy, Debug, PartialEq, Eq, Structural)]
pub enum CursorState {
    /// Rows may still come.
    Open,
    /// The stream ended cleanly; nothing more comes.
    Ended,
    /// A fatal error was reported; nothing more comes.
    Failed,
}

/// What one request for the next row produced.
#[derive(Debug, PartialEq, Eq)]
pub enum Step {
    Row(Vec<Value>),
    /// The bytes held end inside a row: hand over the next chunk.
    NeedChunk,
    End,
    Failed(Error),
}

/// What a `Step` stands for.
pub enum StepModel {
    Row(Seq<ValueModel>),
    NeedChunk,
    End,
    Failed(Error),
}

impl Step {
    pub open spec fn view(&self) -> StepModel {
        match self {
            Step::Row(r) => StepModel::Row(row_view(r@)),
            Step::NeedChunk => StepModel::NeedChunk,
            Step::End => StepModel::End,
            Step::Failed(e) => StepModel::Failed(*e),
        }
    }
}

/// The step an open cursor takes on the bytes `s` it holds, with the bytes
/// it holds afterwards and its next state.
pub open spec fn open_step(schema: Seq<ColumnType>, s: Seq<u8>, eof: bool) -> (
    StepModel,
    Seq<u8>,
    CursorState,
) {
    match parse_row(schema, s) {
        Parsed::Done(row, n) => (StepModel::Row(row), s.skip(n as int), CursorState::Open),
        Parsed::Short => if !eof {
            (StepModel::NeedChunk, s, CursorState::Open)
        } else if s.len() == 0 {
            (StepModel::End, s, CursorState::Ended)
        } else {
            (StepModel::Failed(Error::TruncatedStream), s, CursorState::Failed)
        },
        Parsed::Bad => (StepModel::Failed(malformed_row(schema, s)), s, CursorState::Failed),
    }
}

pub open spec fn chunks_view(cs: Seq<Vec<u8>>) -> Seq<Seq<u8>> {
    cs.map_values(|c: Vec<u8>| c@)
}

fn copy_chunk(c: &Vec<u8>) -> (r: Vec<u8>)
    ensures
        r@ == c@,
{
    let mut r: Vec<u8> = Vec::new();
    let mut i: usize = 0;
    while i < c.len()
        invariant
            i <= c@.len(),
            r@ == c@.take(i as int),
        decreases c@.len() - i,
    {
        r.push(c[i]);
        i = i + 1;
        assert(r@ =~= c@.take(i as int));
    }
    assert(c@.take(i as int) =~= c@);
    r
}

/// Reads rows of one schema out of a response body that arrives in chunks.
pub struct Cursor {
    schema: Vec<ColumnType>,
    buf: BufList,
    eof: bool,
    state: CursorState,
}

impl Cursor {
    pub closed spec fn wf(&self) -> bool {
        self.buf.wf()
    }

    pub closed spec fn schema(&self) -> Seq<ColumnType> {
        self.schema@
    }

    /// The bytes received and not yet decoded.
    pub closed spec fn pending(&self) -> Seq<u8> {
        self.buf.view()
    }

    /// Whether the transport has reported the end of the body.
    pub closed spec fn at_eof(&self) -> bool {
        self.eof
    }

    pub closed spec fn spec_state(&self) -> CursorState {
        self.state
    }

    pub fn new(schema: Vec<ColumnType>) -> (r: Cursor)
        ensures
            r.wf(),
            r.schema() == schema@,
            r.pending() == Seq::<u8>::empty(),
            !r.at_eof(),
            r.spec_state() == CursorState::Open,
    {
        Cursor { schema, buf: BufList::new(), eof: false, state: CursorState::Open }
    }

    pub fn state(&self) -> (r: CursorState)
        ensures
            r == self.spec_state(),
    {
        self.state
    }

    /// Number of received bytes not yet decoded.
    pub fn buffered(&self) -> (r: usize)
        requires
            self.wf(),
        ensures
            r == self.pending().len(),
    {
        self.buf.remaining()
    }

    /// Hands over the next chunk of the body.
    pub fn push_chunk(&mut self, chunk: Vec<u8>)
        requires
            old(self).wf(),
            old(self).pending().len() + chunk@.len() <= usize::MAX,
        ensures
            final(self).wf(),
            final(self).pending() == old(self).pending() + chunk@,
            final(self).schema() == old(self).schema(),
            final(self).at_eof() == old(self).at_eof(),
            final(self).spec_state() == old(self).spec_state(),
    {
        self.buf.push(chunk);
    }

    /// Moves one complete compressed block from `raw` into the cursor as
    /// the data it stands for. Returns whether a block was moved; an
    /// incomplete block stays in `raw`. A failing block fails the cursor at
    /// once, with nothing moved. A cursor that is not open takes no block.
    pub fn push_block(&mut self, raw: &mut BufList) -> (r: Result<bool, Error>)
        requires
            old(self).wf(),
            old(raw).wf(),
            old(self).pending().len() + MAX_FIELD <= usize::MAX,
        ensures
            final(self).wf(),
            final(raw).wf(),
            final(self).schema() == old(self).schema(),
            final(self).at_eof() == old(self).at_eof(),
            old(self).spec_state() != CursorState::Open ==> r == Err::<bool, Error>(
                Error::InvalidState,
            ) && final(self).spec_state() == old(self).spec_state() && final(self).pending()
                == old(self).pending() && final(raw).view() == old(raw).view(),
            old(self).spec_state() == CursorState::Open ==> match parse_block(old(raw).view()) {
                BlockModel::Done(d, n) => r == Ok::<bool, Error>(true) && final(self).pending()
                    == old(self).pending() + d && final(raw).view() == old(raw).view().skip(
                    n as int,
                ) && final(self).spec_state() == CursorState::Open,
                BlockModel::Short => r == Ok::<bool, Error>(false) && final(self).pending() == old(
                    self).pending() && final(raw).view() == old(raw).view() && final(self).spec_state()
                    == CursorState::Open,
                BlockModel::Fail(e) => r == Err::<bool, Error>(e) && final(self).pending() == old(
                    self).pending() && final(raw).view() == old(raw).view() && final(self).spec_state()
                    == CursorState::Failed,
            },
    {
        if self.state != CursorState::Open {
            return Err(Error::InvalidState);
        }
        let ghost s = raw.view();
        match decode_block(raw) {
            Ok(d) => {
                proof {
                    reveal_with_fuel(pow256, 5);
                    lemma_le_value_bound(s.subrange(5, 9));
                }
                self.buf.push(d);
                Ok(true)
            },
            Err(Error::InsufficientData) => Ok(false),
            Err(e) => {
                self.state = CursorState::Failed;
                Err(e)
            },
        }
    }

    /// Hands over several chunks, one after another, in order.
    pub fn push_chunks(&mut self, chunks: &Vec<Vec<u8>>)
        requires
            old(self).wf(),
            old(self).pending().len() + flatten(chunks_view(chunks@)).len() <= usize::MAX,
        ensures
            final(self).wf(),
            final(self).pending() == old(self).pending() + flatten(chunks_view(chunks@)),
            final(self).schema() == old(self).schema(),
            final(self).at_eof() == old(self).at_eof(),
            final(self).spec_state() == old(self).spec_state(),
    {
        let ghost cs = chunks_view(chunks@);
        proof {
            assert(cs.take(0) =~= Seq::<Seq<u8>>::empty());
            assert(flatten(cs.take(0)) =~= Seq::<u8>::empty());
            assert(self.pending() =~= old(self).pending() + flatten(cs.take(0)));
        }
        let mut i: usize = 0;
        while i < chunks.len()
            invariant
                self.wf(),
                i <= cs.len(),
                cs == chunks_view(chunks@),
                self.pending() == old(self).pending() + flatten(cs.take(i as int)),
                old(self).pending().len() + flatten(cs).len() <= usize::MAX,
                self.schema() == old(self).schema(),
                self.at_eof() == old(self).at_eof(),
                self.spec_state() == old(self).spec_state(),
            decreases cs.len() - i,
        {
            let c = copy_chunk(&chunks[i]);
            proof {
                crate::buflist::lemma_flatten_split(cs, i + 1);
                assert(cs.take(i + 1).drop_last() =~= cs.take(i as int));
                assert(cs.take(i + 1).last() == c@);
            }
            self.buf.push(c);
            i = i + 1;
            assert(self.pending() =~= old(self).pending() + flatten(cs.take(i as int)));
        }
        assert(cs.take(i as int) =~= cs);
    }

    /// Records that the transport reported the end of the body.
    pub fn finish(&mut self)
        ensures
            final(self).at_eof(),
            final(self).pending() == old(self).pending(),
            final(self).wf() == old(self).wf(),
            final(self).schema() == old(self).schema(),
            final(self).spec_state() == old(self).spec_state(),
    {
        self.eof = true;
    }

    /// Decodes the next row if the bytes held contain one; otherwise says
    /// whether more input is needed, the stream ended cleanly, or failed.
    /// Once ended or failed, a cursor stays so.
    pub fn next(&mut self) -> (r: Step)
        requires
            old(self).wf(),
        ensures
            final(self).wf(),
            final(self).schema() == old(self).schema(),
            final(self).at_eof() == old(self).at_eof(),
            old(self).spec_state() == CursorState::Open ==> ({
                let (step, rest, st) = open_step(
                    old(self).schema(),
                    old(self).pending(),
                    old(self).at_eof(),
                );
                r.view() == step && final(self).pending() == rest && final(self).spec_state()
                    == st
            }),
            old(self).spec_state() == CursorState::Ended ==> r is End && final(self).spec_state()
                == CursorState::Ended,
            old(self).spec_state() == CursorState::Failed ==> r == Step::Failed(
                Error::InvalidState,
            ) && final(self).spec_state() == CursorState::Failed,
    {
        match self.state {
            CursorState::Ended => {
                return Step::End;
            },
            CursorState::Failed => {
                return Step::Failed(Error::InvalidState);
            },
            CursorState::Open => {},
        }
        match deserialize_row(&self.schema, &mut self.buf) {
            Ok(row) => Step::Row(row),
            Err(Error::InsufficientData) => {
                if !self.eof {
                    Step::NeedChunk
                } else if self.buf.remaining() == 0 {
                    self.state = CursorState::Ended;
                    Step::End
                } else {
                    self.state = CursorState::Failed;
                    Step::Failed(Error::TruncatedStream)
                }
            },
            Err(e) => {
                self.state = CursorState::Failed;
                Step::Failed(e)
            },
        }
    }
}

/// How a body is cut into chunks does not change what a cursor yields:
/// bytes already held followed by the chunks `a`, fed one by one, give the
/// same next step as the same bytes followed by any other cut `b` of them,
/// one chunk of all of them among others.
pub proof fn lemma_chunking_irrelevant(
    schema: Seq<ColumnType>,
    held: Seq<u8>,
    a: Seq<Seq<u8>>,
    b: Seq<Seq<u8>>,
    eof: bool,
)
    requires
        flatten(a) == flatten(b),
    ensures
        open_step(schema, held + flatten(a), eof) == open_step(schema, held + flatten(b), eof),
        open_step(schema, held + flatten(a), eof) == open_step(
            schema,
            held + flatten(seq![flatten(a)]),
            eof,
        ),
{
    let one = seq![flatten(a)];
    assert(one.drop_last() =~= Seq::<Seq<u8>>::empty());
    assert(flatten(one) == flatten(one.drop_last()) + one.last());
    assert(flatten(Seq::<Seq<u8>>::empty()) == Seq::<u8>::empty());
    assert(flatten(one) =~= flatten(a));
}

/// An open cursor holding a whole row followed by other bytes yields that
/// row and keeps exactly the other bytes.
pub proof fn lemma_whole_row_yielded(
    schema: Seq<ColumnType>,
    row: Seq<ValueModel>,
    rest: Seq<u8>,
    eof: bool,
)
    requires
        row_valid(schema, row),
    ensures
        open_step(schema, row_bytes(schema, row) + rest, eof) == (
            StepModel::Row(row),
            rest,
            CursorState::Open,
        ),
{
    lemma_row_round_trip(schema, row, rest);
    let s = row_bytes(schema, row) + rest;
    assert(s.skip(row_bytes(schema, row).len() as int) =~= rest);
}

/// A body that ends inside a row makes the cursor fail with
/// `TruncatedStream` rather than end with the rows before it.
pub proof fn lemma_truncation_detected(schema: Seq<ColumnType>, row: Seq<ValueModel>, j: int)
    requires
        row_valid(schema, row),
        0 < j < row_bytes(schema, row).len(),
    ensures
        open_step(schema, row_bytes(schema, row).take(j), true) == (
            StepModel::Failed(Error::TruncatedStream),
            row_bytes(schema, row).take(j),
            CursorState::Failed,
        ),
{
    lemma_row_prefix_short(schema, row, j);
}

} // verus!
