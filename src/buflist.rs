use vstd::prelude::*;

verus! {

/// All bytes of a sequence of chunks, in order.
pub open spec fn flatten(cs: Seq<Seq<u8>>) -> Seq<u8>
    decreases cs.len(),
{
    if cs.len() == 0 {
        Seq::empty()
    } else {
        flatten(cs.drop_last()) + cs.last()
    }
}

pub proof fn lemma_flatten_push(cs: Seq<Seq<u8>>, c: Seq<u8>)
    ensures
        flatten(cs.push(c)) == flatten(cs) + c,
{
    assert(cs.push(c).drop_last() =~= cs);
}

pub proof fn lemma_flatten_split(cs: Seq<Seq<u8>>, k: int)
    requires
        0 <= k <= cs.len(),
    ensures
        flatten(cs) == flatten(cs.take(k)) + flatten(cs.skip(k)),
    decreases cs.len(),
{
    if k == cs.len() {
        assert(cs.take(k) =~= cs);
        assert(cs.skip(k) =~= Seq::<Seq<u8>>::empty());
        assert(flatten(cs) + Seq::<u8>::empty() =~= flatten(cs));
    } else {
        let dl = cs.drop_last();
        lemma_flatten_split(dl, k);
        assert(dl.take(k) =~= cs.take(k));
        assert(cs.skip(k).drop_last() =~= dl.skip(k));
        assert(cs.skip(k).last() == cs.last());
        assert(flatten(cs) =~= flatten(cs.take(k)) + flatten(cs.skip(k)));
    }
}

/// Where chunk `i` starts in the flattened sequence.
pub open spec fn start_of(cs: Seq<Seq<u8>>, i: int) -> int {
    flatten(cs.take(i)).len() as int
}

pub proof fn lemma_flatten_index(cs: Seq<Seq<u8>>, i: int, o: int)
    requires
        0 <= i < cs.len(),
        0 <= o < cs[i].len(),
    ensures
        start_of(cs, i) + o < flatten(cs).len(),
        flatten(cs)[start_of(cs, i) + o] == cs[i][o],
{
    lemma_flatten_split(cs, i + 1);
    assert(cs.take(i + 1).drop_last() =~= cs.take(i));
    assert(cs.take(i + 1).last() == cs[i]);
}

pub proof fn lemma_start_next(cs: Seq<Seq<u8>>, i: int)
    requires
        0 <= i < cs.len(),
    ensures
        start_of(cs, i + 1) == start_of(cs, i) + cs[i].len(),
{
    assert(cs.take(i + 1).drop_last() =~= cs.take(i));
}

pub proof fn lemma_start_end(cs: Seq<Seq<u8>>)
    ensures
        start_of(cs, cs.len() as int) == flatten(cs).len(),
{
    assert(cs.take(cs.len() as int) =~= cs);
}

proof fn lemma_offset_in(p: Seq<Seq<u8>>, offset: int)
    requires
        p.len() > 0 ==> 0 <= offset <= p[0].len(),
        p.len() == 0 ==> offset == 0,
    ensures
        offset <= flatten(p).len(),
{
    if p.len() > 0 {
        lemma_flatten_split(p, 1);
        let one = p.take(1);
        assert(one.drop_last() =~= Seq::<Seq<u8>>::empty());
        assert(one.last() == p[0]);
    }
}

/// A queue of received chunks with a read position in the oldest one.
///
/// Chunks before `head` have been consumed and are released; `offset` is the
/// read position inside `chunks[head]`.
pub struct BufList {
    chunks: Vec<Vec<u8>>,
    head: usize,
    offset: usize,
    remaining: usize,
}

/// A read position inside a `BufList` that moves forward without consuming.
pub struct Reader {
    idx: usize,
    off: usize,
    read: usize,
}

impl BufList {
    pub closed spec fn pending(&self) -> Seq<Seq<u8>> {
        self.chunks@.subrange(self.head as int, self.chunks@.len() as int).map_values(
            |c: Vec<u8>| c@,
        )
    }

    /// The bytes not yet consumed, as one continuous sequence.
    pub closed spec fn view(&self) -> Seq<u8> {
        flatten(self.pending()).skip(self.offset as int)
    }

    pub closed spec fn wf(&self) -> bool {
        &&& self.head <= self.chunks@.len()
        &&& self.head < self.chunks@.len() ==> self.offset <= self.chunks@[self.head as int]@.len()
        &&& self.head == self.chunks@.len() ==> self.offset == 0
        &&& self.remaining == self.view().len()
    }

    pub fn new() -> (r: BufList)
        ensures
            r.wf(),
            r.view() == Seq::<u8>::empty(),
    {
        let r = BufList { chunks: Vec::new(), head: 0, offset: 0, remaining: 0 };
        assert(r.pending() =~= Seq::<Seq<u8>>::empty());
        assert(r.view() =~= Seq::<u8>::empty());
        r
    }

    /// Number of bytes not yet consumed.
    pub fn remaining(&self) -> (r: usize)
        requires
            self.wf(),
        ensures
            r == self.view().len(),
    {
        self.remaining
    }

    /// Takes ownership of a chunk and puts its bytes after those already held.
    pub fn push(&mut self, chunk: Vec<u8>)
        requires
            old(self).wf(),
            old(self).view().len() + chunk@.len() <= usize::MAX,
        ensures
            final(self).wf(),
            final(self).view() == old(self).view() + chunk@,
    {
        let ghost old_pending = self.pending();
        let ghost c = chunk@;
        let n = chunk.len();
        if self.head == self.chunks.len() {
            self.chunks = Vec::new();
            self.head = 0;
            self.offset = 0;
            assert(self.pending() =~= Seq::<Seq<u8>>::empty());
        }
        let ghost mid_pending = self.pending();
        assert(flatten(mid_pending).skip(self.offset as int) =~= flatten(old_pending).skip(
            old(self).offset as int,
        )) by {
            if old(self).head == old(self).chunks@.len() {
                assert(old_pending =~= Seq::<Seq<u8>>::empty());
            } else {
                assert(mid_pending =~= old_pending);
            }
        }
        self.chunks.push(chunk);
        assert(self.pending() =~= mid_pending.push(c));
        proof { lemma_flatten_push(mid_pending, c); }
        proof {
            lemma_offset_in(mid_pending, self.offset as int);
        }
        assert(self.view() =~= old(self).view() + c);
        self.remaining = self.remaining + n;
    }

    pub closed spec fn reader_wf(&self, rd: Reader) -> bool {
        &&& self.head <= rd.idx <= self.chunks@.len()
        &&& rd.idx < self.chunks@.len() ==> rd.off <= self.chunks@[rd.idx as int]@.len()
        &&& rd.idx == self.chunks@.len() ==> rd.off == 0
        &&& rd.idx == self.head ==> self.offset <= rd.off
        &&& rd.read == self.reader_pos(rd)
    }

    /// Position of a reader, counted from the first unconsumed byte.
    pub closed spec fn reader_pos(&self, rd: Reader) -> int {
        start_of(self.pending(), rd.idx - self.head) + rd.off - self.offset
    }

    /// The bytes that a reader has not read yet.
    pub open spec fn rest(&self, rd: Reader) -> Seq<u8> {
        self.view().skip(self.reader_pos(rd))
    }

    pub proof fn lemma_reader_pos(&self, rd: Reader)
        requires
            self.wf(),
            self.reader_wf(rd),
        ensures
            0 <= self.reader_pos(rd) <= self.view().len(),
    {
        let p = self.pending();
        let k = rd.idx - self.head;
        lemma_start_end(p);
        lemma_flatten_split(p, k);
        if k < p.len() {
            lemma_start_next(p, k);
            lemma_flatten_split(p, k + 1);
        }
        if self.head < self.chunks@.len() {
            lemma_start_next(p, 0);
            assert(p.take(0) =~= Seq::<Seq<u8>>::empty());
            if k > 0 {
                lemma_flatten_split(p.take(k), 1);
                assert(p.take(k).take(1) =~= p.take(1));
            }
        }
    }

    /// A reader at the first unconsumed byte.
    pub fn reader(&self) -> (rd: Reader)
        requires
            self.wf(),
        ensures
            self.reader_wf(rd),
            self.reader_pos(rd) == 0,
    {
        proof {
            assert(self.pending().take(0) =~= Seq::<Seq<u8>>::empty());
        }
        Reader { idx: self.head, off: self.offset, read: 0 }
    }

    /// Reads the next byte at a reader's position, if there is one.
    pub fn read_byte(&self, rd: &mut Reader) -> (r: Option<u8>)
        requires
            self.wf(),
            self.reader_wf(*old(rd)),
        ensures
            self.reader_wf(*final(rd)),
            self.reader_pos(*old(rd)) < self.view().len() ==> r == Some(
                self.view()[self.reader_pos(*old(rd))],
            ) && self.reader_pos(*final(rd)) == self.reader_pos(*old(rd)) + 1,
            self.reader_pos(*old(rd)) == self.view().len() ==> r is None,
    {
        proof {
            self.lemma_reader_pos(*rd);
            lemma_offset_in(self.pending(), self.offset as int);
        }
        let ghost pos0 = self.reader_pos(*rd);
        let ghost pend = self.pending();
        while rd.idx < self.chunks.len()
            invariant
                self.wf(),
                self.reader_wf(*rd),
                self.reader_pos(*rd) == pos0,
                pos0 == self.reader_pos(*old(rd)),
                pend == self.pending(),
            decreases self.chunks@.len() - rd.idx,
        {
            let i = rd.idx;
            assert(pend[i - self.head] == self.chunks@[i as int]@);
            if rd.off < self.chunks[i].len() {
                let b = self.chunks[i][rd.off];
                proof {
                    lemma_flatten_index(pend, i - self.head, rd.off as int);
                    self.lemma_reader_pos(*rd);
                    assert(pos0 + self.offset == start_of(pend, i - self.head) + rd.off);
                    assert(self.view().len() == flatten(pend).len() - self.offset);
                    assert(self.view()[pos0] == flatten(pend)[pos0 + self.offset]);
                }
                rd.off = rd.off + 1;
                rd.read = rd.read + 1;
                return Some(b);
            }
            proof {
                lemma_start_next(pend, i - self.head);
            }
            rd.idx = rd.idx + 1;
            rd.off = 0;
        }
        proof {
            lemma_start_end(pend);
        }
        None
    }

    /// Consumes everything before a reader's position and releases the
    /// chunks that lie wholly behind it.
    pub fn commit(&mut self, rd: Reader)
        requires
            old(self).wf(),
            old(self).reader_wf(rd),
        ensures
            final(self).wf(),
            final(self).view() == old(self).view().skip(old(self).reader_pos(rd)),
    {
        proof {
            self.lemma_reader_pos(rd);
        }
        let ghost pos = self.reader_pos(rd);
        let ghost old_view = self.view();
        let ghost pend = self.pending();
        let k = rd.idx - self.head;
        let new_remaining = self.remaining - rd.read;
        proof {
            lemma_offset_in(pend, self.offset as int);
            lemma_flatten_split(pend, k as int);
            assert(pend.skip(k as int) =~= self.chunks@.subrange(rd.idx as int, self.chunks@.len() as int).map_values(|c: Vec<u8>| c@));
        }
        let mut j = self.head;
        while j < rd.idx
            invariant
                self.head <= j <= rd.idx <= self.chunks@.len(),
                forall|q: int| rd.idx <= q < self.chunks@.len() ==> self.chunks@[q] == old(self).chunks@[q],
                self.chunks@.len() == old(self).chunks@.len(),
                self.head == old(self).head,
                self.offset == old(self).offset,
            decreases rd.idx - j,
        {
            self.chunks.set(j, Vec::new());
            j = j + 1;
        }
        self.head = rd.idx;
        self.offset = rd.off;
        self.remaining = new_remaining;
        assert(self.pending() =~= pend.skip(k as int));
        proof {
            let f = flatten(pend);
            let sk = start_of(pend, k as int);
            assert(f =~= flatten(pend.take(k as int)) + flatten(pend.skip(k as int)));
            assert(old_view.skip(pos) =~= f.skip(sk + rd.off));
            assert(flatten(pend.skip(k as int)).skip(rd.off as int) =~= f.skip(sk + rd.off));
        }
        assert(self.view() =~= old_view.skip(pos));
        if self.head == self.chunks.len() {
            self.chunks = Vec::new();
            self.head = 0;
            self.offset = 0;
            assert(self.pending() =~= Seq::<Seq<u8>>::empty());
            assert(self.view() =~= old_view.skip(pos));
        }
    }
}

} // verus!
