//! The remote cursor: decides, on each pull, whether a row can be handed out
//! from the bytes received so far, whether the scratch buffer must grow, or
//! whether the next chunk must be fetched. Fetching itself is left to the
//! caller, who hands the outcome back through `feed`.

use vstd::prelude::*;
use crate::decode::{
    decode_row, lemma_fields_advance, lemma_need_bounds, lemma_need_persists, lemma_whole_after_frames, lemma_frames_agree, lemma_whole_rows_not_short, whole_rows, lemma_row_frame, lemma_rows_after_frames, parse_row,
    row_view, rows_of, schema_wf, FieldKind, Outcome, Parse,
};
use crate::pending::{chunk_contents, chunk_len, PendingBuffer};
use crate::scratch::{grow_scratch, is_pow2, lemma_pow2_gap, new_scratch};

verus! {

/// Why a cursor stopped for good.
#[derive(Debug, Clone, PartialEq, Eq)]
pub enum CursorError {
    /// The bytes do not form a row.
    Malformed,
    /// The transport ended in the middle of a row.
    Incomplete,
    /// The transport failed; its message.
    Transport(String),
    /// The scratch or pending buffer would outgrow the address space.
    OutOfMemory,
}

/// What a pull hands back.
#[derive(Debug)]
pub enum Pull {
    /// The next row, as the bytes of each field.
    Row(Vec<Vec<u8>>),
    /// No row can be decoded before the next chunk is fed.
    NeedChunk,
    /// The cursor stopped with an error; it yields nothing after this.
    Failed(CursorError),
    /// The sequence has ended.
    Finished,
}

/// A streaming row decoder over chunks of one query result.
pub struct RemoteCursor {
    schema: Vec<FieldKind>,
    pending: PendingBuffer,
    scratch: Vec<u8>,
    active: bool,
    /// The bytes of each row handed out, in order.
    frames: Ghost<Seq<Seq<u8>>>,
    /// The rows handed out, in order.
    rows: Ghost<Seq<Seq<Seq<u8>>>>,
    /// The largest growth that the decoder has asked of the scratch buffer.
    largest_request: Ghost<nat>,
}

/// Whether every field of the schema can frame a row of at least one byte.
pub fn schema_is_valid(schema: &Vec<FieldKind>) -> (r: bool)
    ensures
        r == schema_wf(schema@),
{
    if schema.len() == 0 {
        return false;
    }
    let mut i: usize = 0;
    while i < schema.len()
        invariant
            i <= schema@.len(),
            forall|j: int|
                0 <= j < i ==> (#[trigger] schema@[j] matches FieldKind::FixedText(n) ==> n > 0),
        decreases schema.len() - i,
    {
        if let FieldKind::FixedText(n) = schema[i] {
            if n == 0 {
                return false;
            }
        }
        i = i + 1;
    }
    true
}

impl RemoteCursor {
    pub closed spec fn schema(&self) -> Seq<FieldKind> {
        self.schema@
    }

    /// Every byte received so far.
    pub closed spec fn history(&self) -> Seq<u8> {
        self.pending.history()
    }

    /// The received bytes not yet consumed by a row.
    pub closed spec fn retained(&self) -> Seq<u8> {
        self.pending.bytes()
    }

    /// The bytes of the rows handed out so far, one row after another.
    pub closed spec fn consumed(&self) -> Seq<u8> {
        self.frames@.flatten()
    }

    /// The rows handed out so far, in order.
    pub closed spec fn rows(&self) -> Seq<Seq<Seq<u8>>> {
        self.rows@
    }

    /// The capacity of the scratch buffer.
    pub closed spec fn capacity(&self) -> nat {
        self.scratch@.len()
    }

    /// The bytes held in retained chunks, consumed or not.
    pub closed spec fn held(&self) -> nat {
        self.pending.held()
    }

    /// The pending buffer that holds the received chunks.
    pub closed spec fn buffer(&self) -> PendingBuffer {
        self.pending
    }

    /// The largest growth that the decoder has asked of the scratch buffer.
    pub closed spec fn largest_request(&self) -> nat {
        self.largest_request@
    }

    /// The cursor can still be pulled.
    pub closed spec fn is_active(&self) -> bool {
        self.active
    }

    pub closed spec fn wf(&self) -> bool {
        &&& schema_wf(self.schema@)
        &&& self.pending.wf()
        &&& self.pending.read_pos() == 0
        &&& is_pow2(self.scratch@.len())
        &&& self.scratch@.len() >= self.largest_request@
        &&& self.frames@.len() == self.rows@.len()
        &&& forall|i: int|
            0 <= i < self.frames@.len() ==> #[trigger] self.frames@[i].len() > 0 && parse_row(
                self.schema@,
                self.frames@[i],
                self.frames@[i].len(),
            ) == Parse::Done(self.rows@[i], self.frames@[i].len())
        &&& self.pending.history() == self.frames@.flatten() + self.pending.bytes()
    }

    /// A cursor over a result whose rows follow `schema`, with nothing
    /// received yet.
    pub fn new(schema: Vec<FieldKind>) -> (r: RemoteCursor)
        requires
            schema_wf(schema@),
        ensures
            r.wf(),
            r.is_active(),
            r.schema() == schema@,
            r.history() == Seq::<u8>::empty(),
            r.rows() == Seq::<Seq<Seq<u8>>>::empty(),
            r.capacity() == 1024,
    {
        let r = RemoteCursor {
            schema,
            pending: PendingBuffer::new(),
            scratch: new_scratch(),
            active: true,
            frames: Ghost(Seq::empty()),
            rows: Ghost(Seq::empty()),
            largest_request: Ghost(0),
        };
        assert(Seq::<Seq<u8>>::empty().flatten() + Seq::<u8>::empty() =~= Seq::<u8>::empty());
        r
    }

    /// Decodes the next row from the bytes received so far.
    ///
    /// The scratch buffer grows to the next power of two whenever the decoder
    /// reports it short, and the attempt is retried at once. A row is
    /// consumed; any other attempt is rolled back. A malformed row or a
    /// scratch buffer that cannot grow stops the cursor.
    pub fn pull(&mut self) -> (r: Pull)
        requires
            old(self).wf(),
        ensures
            final(self).wf(),
            final(self).schema() == old(self).schema(),
            final(self).history() == old(self).history(),
            final(self).capacity() >= old(self).capacity(),
            is_pow2(final(self).capacity()),
            final(self).largest_request() >= old(self).largest_request(),
            final(self).capacity() > old(self).capacity() ==> parse_row(
                old(self).schema(),
                old(self).retained(),
                final(self).capacity() / 2,
            ) is NeedScratch,
            old(self).is_active() ==> (parse_row(
                old(self).schema(),
                old(self).retained(),
                old(self).capacity(),
            ) matches Parse::NeedScratch(n) ==> r == Pull::Failed(CursorError::OutOfMemory) || (
            final(self).largest_request() >= n && final(self).capacity() >= old(self).capacity()
                + n)),
            !old(self).is_active() ==> r is Finished && final(self).rows() == old(self).rows()
                && !final(self).is_active() && final(self).retained() == old(self).retained(),
            old(self).is_active() ==> match parse_row(
                old(self).schema(),
                old(self).retained(),
                final(self).capacity(),
            ) {
                Parse::Done(v, n) => {
                    &&& r matches Pull::Row(row) && row_view(row) == v
                    &&& final(self).retained() == old(self).retained().skip(n as int)
                    &&& final(self).rows() == old(self).rows().push(v)
                    &&& final(self).is_active()
                },
                Parse::NeedData => {
                    &&& r is NeedChunk
                    &&& final(self).retained() == old(self).retained()
                    &&& final(self).rows() == old(self).rows()
                    &&& final(self).is_active()
                },
                Parse::NeedScratch(n) => {
                    &&& r == Pull::Failed(CursorError::OutOfMemory)
                    &&& final(self).capacity() + n > (usize::MAX as nat + 1) / 2
                    &&& final(self).retained() == old(self).retained()
                    &&& final(self).rows() == old(self).rows()
                    &&& !final(self).is_active()
                },
                Parse::Malformed => {
                    &&& r == Pull::Failed(CursorError::Malformed)
                    &&& final(self).retained() == old(self).retained()
                    &&& final(self).rows() == old(self).rows()
                    &&& !final(self).is_active()
                },
            },
    {
        if !self.active {
            return Pull::Finished;
        }
        loop
            invariant
                self.wf(),
                self.active,
                old(self).active,
                self.schema@ == old(self).schema@,
                self.pending.history() == old(self).pending.history(),
                self.pending.bytes() == old(self).pending.bytes(),
                self.rows@ == old(self).rows@,
                self.frames@ == old(self).frames@,
                self.scratch@.len() >= old(self).scratch@.len(),
                self.largest_request@ >= old(self).largest_request@,
                self.scratch@.len() > old(self).scratch@.len() ==> parse_row(
                    self.schema@,
                    self.pending.bytes(),
                    self.scratch@.len() / 2,
                ) is NeedScratch,
                self.scratch@.len() > old(self).scratch@.len() ==> (parse_row(
                    self.schema@,
                    self.pending.bytes(),
                    old(self).scratch@.len(),
                ) matches Parse::NeedScratch(n) ==> self.largest_request@ >= n
                    && self.scratch@.len() >= old(self).scratch@.len() + n),
            decreases usize::MAX - self.scratch.len(),
        {
            let ghost data = self.pending.bytes();
            let ghost cap = self.scratch@.len();
            proof {
                assert(self.pending.unread() =~= data);
                lemma_need_bounds(self.schema@, 0, data, 0, cap);
            }
            match decode_row(&self.schema, &mut self.pending, &mut self.scratch) {
                Outcome::Row(row) => {
                    proof {
                        lemma_row_frame(self.schema@, data, cap);
                        lemma_fields_advance(self.schema@, 0, data, 0, cap);
                    }
                    let ghost v = row_view(row);
                    let ghost n = match parse_row(self.schema@, data, cap) {
                        Parse::Done(_, n) => n,
                        _ => 0,
                    };
                    self.pending.commit();
                    proof {
                        let frame = data.take(n as int);
                        let f0 = self.frames@;
                        self.frames@ = f0.push(frame);
                        self.rows@ = self.rows@.push(v);
                        broadcast use Seq::lemma_flatten_push;

                        assert(data =~= frame + data.skip(n as int));
                        assert(self.pending.history() =~= self.frames@.flatten()
                            + self.pending.bytes());
                        assert forall|i: int| 0 <= i < self.frames@.len() implies #[trigger] self.frames@[i].len()
                            > 0 && parse_row(
                            self.schema@,
                            self.frames@[i],
                            self.frames@[i].len(),
                        ) == Parse::Done(self.rows@[i], self.frames@[i].len()) by {
                            if i < f0.len() {
                                assert(self.frames@[i] == f0[i]);
                            }
                        }
                    }
                    return Pull::Row(row);
                },
                Outcome::NeedScratch(need) => {
                    assert(need > 0);
                    if need > usize::MAX as u64 || !grow_scratch(&mut self.scratch, need as usize) {
                        self.pending.rollback();
                        self.active = false;
                        return Pull::Failed(CursorError::OutOfMemory);
                    }
                    assert(self.scratch@.len() > cap);
                    proof {
                        if need as nat > self.largest_request@ {
                            self.largest_request@ = need as nat;
                        }
                        let c2 = self.scratch@.len();
                        lemma_pow2_gap(c2, cap);
                        lemma_need_persists(self.schema@, 0, data, 0, cap, c2 / 2);
                    }
                    self.pending.rollback();
                },
                Outcome::NeedData => {
                    self.pending.rollback();
                    return Pull::NeedChunk;
                },
                Outcome::Malformed => {
                    self.pending.rollback();
                    self.active = false;
                    return Pull::Failed(CursorError::Malformed);
                },
            }
        }
    }

    /// Hands the cursor what the transport produced after a `NeedChunk`:
    /// a chunk, an error, or the end of input (`None`).
    ///
    /// A chunk is retained and `None` comes back: pull again. An error stops
    /// the cursor with that error. The end of input stops it cleanly where no
    /// byte is retained, and as incomplete where some are.
    pub fn feed(&mut self, next: Option<Result<bytes::Bytes, String>>) -> (r: Option<Pull>)
        requires
            old(self).wf(),
        ensures
            final(self).wf(),
            final(self).schema() == old(self).schema(),
            final(self).rows() == old(self).rows(),
            final(self).capacity() == old(self).capacity(),
            final(self).largest_request() == old(self).largest_request(),
            !old(self).is_active() ==> r == Some(Pull::Finished) && !final(self).is_active()
                && final(self).history() == old(self).history(),
            old(self).is_active() ==> match next {
                Some(Ok(chunk)) => if old(self).held() + chunk_contents(chunk).len() <= usize::MAX {
                    &&& r is None
                    &&& final(self).is_active()
                    &&& final(self).history() == old(self).history() + chunk_contents(chunk)
                    &&& final(self).retained() == old(self).retained() + chunk_contents(chunk)
                } else {
                    &&& r == Some(Pull::Failed(CursorError::OutOfMemory))
                    &&& !final(self).is_active()
                    &&& final(self).history() == old(self).history()
                },
                Some(Err(msg)) => r == Some(Pull::Failed(CursorError::Transport(msg)))
                    && !final(self).is_active() && final(self).history() == old(self).history(),
                None => !final(self).is_active() && final(self).history() == old(self).history()
                    && final(self).retained() == old(self).retained()
                    && (old(self).retained().len() == 0 ==> r == Some(Pull::Finished))
                    && (old(self).retained().len() > 0 ==> r == Some(
                    Pull::Failed(CursorError::Incomplete),
                )),
            },
    {
        if !self.active {
            return Some(Pull::Finished);
        }
        match next {
            Some(Ok(chunk)) => {
                if chunk_len(&chunk) > usize::MAX - self.pending.held_len() {
                    self.active = false;
                    return Some(Pull::Failed(CursorError::OutOfMemory));
                }
                self.pending.push(chunk);
                proof {
                    assert(self.pending.history() =~= self.frames@.flatten()
                        + self.pending.bytes());
                }
                None
            },
            Some(Err(msg)) => {
                self.active = false;
                Some(Pull::Failed(CursorError::Transport(msg)))
            },
            None => {
                self.active = false;
                if self.pending.has_retained() {
                    Some(Pull::Failed(CursorError::Incomplete))
                } else {
                    Some(Pull::Finished)
                }
            },
        }
    }

    /// The number of received bytes not yet consumed by a row.
    pub fn retained_len(&self) -> (r: usize)
        requires
            self.wf(),
        ensures
            r == self.retained().len(),
    {
        self.pending.remaining()
    }

    /// The capacity of the scratch buffer.
    pub fn scratch_capacity(&self) -> (r: usize)
        ensures
            r == self.capacity(),
    {
        self.scratch.len()
    }
}

/// Chunk boundaries do not matter: the rows handed out so far, followed by
/// the rows that the retained bytes hold, are the rows of all bytes received,
/// one after another, however the transport split them.
pub proof fn lemma_chunking_irrelevant(c: &RemoteCursor)
    requires
        c.wf(),
    ensures
        rows_of(c.schema(), c.history()) == c.rows() + rows_of(c.schema(), c.retained()),
{
    lemma_rows_after_frames(c.schema@, c.frames@, c.rows@, c.pending.bytes());
}

/// Once every byte has been consumed, the rows handed out are exactly the
/// rows of all bytes received.
pub proof fn lemma_clean_end_rows(c: &RemoteCursor)
    requires
        c.wf(),
        c.retained().len() == 0,
    ensures
        c.rows() == rows_of(c.schema(), c.history()),
{
    lemma_chunking_irrelevant(c);
    let e = c.retained();
    if let Parse::Done(r, n) = parse_row(c.schema(), e, e.len()) {
        assert(!(0 < n <= e.len()));
    }
    assert(rows_of(c.schema(), e) =~= Seq::<Seq<Seq<u8>>>::empty());
    assert(c.rows() + Seq::<Seq<Seq<u8>>>::empty() =~= c.rows());
}

/// Where every byte received so far forms whole rows, a cursor that asks for
/// the next chunk retains nothing: the end of input then finishes it
/// cleanly, and the rows handed out are all the rows received, whatever the
/// chunk boundaries were.
pub proof fn lemma_whole_rows_end_clean(c: &RemoteCursor)
    requires
        c.wf(),
        whole_rows(c.schema(), c.history()),
        parse_row(c.schema(), c.retained(), c.capacity()) is NeedData,
    ensures
        c.retained().len() == 0,
        c.rows() == rows_of(c.schema(), c.history()),
{
    lemma_whole_after_frames(c.schema@, c.frames@, c.rows@, c.pending.bytes());
    if c.retained().len() > 0 {
        lemma_whole_rows_not_short(c.schema(), c.retained(), c.capacity());
    }
    lemma_clean_end_rows(c);
}

/// Retries leave no trace: two cursors over the same schema that received the
/// same bytes (or the first a prefix of the second), however these were
/// split into chunks and so however many retries and growths each needed,
/// have handed out the same rows and consumed the same bytes once they have
/// handed out equally many rows.
pub proof fn lemma_retries_leave_no_trace(a: &RemoteCursor, b: &RemoteCursor)
    requires
        a.wf(),
        b.wf(),
        a.schema() == b.schema(),
        a.history().is_prefix_of(b.history()),
        a.rows().len() == b.rows().len(),
    ensures
        a.rows() == b.rows(),
        a.consumed() == b.consumed(),
{
    lemma_frames_agree(
        a.schema@,
        a.frames@,
        a.rows@,
        a.pending.bytes(),
        b.frames@,
        b.rows@,
        b.pending.bytes(),
    );
}

/// The cursor retains exactly the received bytes that no row handed out has
/// consumed, and holds no chunk that lies wholly before them.
pub proof fn lemma_retention(c: &RemoteCursor)
    requires
        c.wf(),
    ensures
        c.history() == c.consumed() + c.retained(),
        c.retained().len() == c.history().len() - c.consumed().len(),
        rows_of(c.schema(), c.consumed()) == c.rows(),
        c.buffer().bytes() == c.retained(),
        c.buffer().held() == c.held(),
        c.buffer().releases_consumed(),
{
    c.pending.lemma_releases_consumed();
    lemma_rows_after_frames(c.schema@, c.frames@, c.rows@, Seq::empty());
    assert(c.frames@.flatten() + Seq::<u8>::empty() =~= c.frames@.flatten());
    let e = Seq::<u8>::empty();
    if let Parse::Done(r, n) = parse_row(c.schema(), e, 0) {
        assert(!(0 < n <= e.len()));
    }
    assert(rows_of(c.schema(), e) =~= Seq::<Seq<Seq<u8>>>::empty());
    assert(c.rows() + Seq::<Seq<Seq<u8>>>::empty() =~= c.rows());
}

/// The scratch buffer's capacity is always a power of two, at least as
/// large as any growth the decoder has asked for.
pub proof fn lemma_scratch_capacity(c: &RemoteCursor)
    requires
        c.wf(),
    ensures
        is_pow2(c.capacity()),
        c.capacity() >= c.largest_request(),
{
}

} // verus!
