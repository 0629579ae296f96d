//! The pending buffer: received chunks kept as they arrived, with a
//! tentative read position and a commit position.

use vstd::prelude::*;

verus! {

#[verifier::external_type_specification]
#[verifier::external_body]
pub struct ExBytes(bytes::Bytes);

/// The bytes that a chunk holds.
pub uninterp spec fn chunk_contents(b: bytes::Bytes) -> Seq<u8>;

/// Relies on `bytes::Bytes::len`: the number of bytes the chunk holds.
#[verifier::external_body]
pub(crate) fn chunk_len(b: &bytes::Bytes) -> (r: usize)
    ensures
        r == chunk_contents(*b).len(),
{
    b.len()
}

/// Relies on `bytes::Bytes` dereferencing to the slice of its bytes: indexing
/// it reads the `i`-th byte.
#[verifier::external_body]
fn chunk_byte(b: &bytes::Bytes, i: usize) -> (r: u8)
    requires
        i < chunk_contents(*b).len(),
    ensures
        r == chunk_contents(*b)[i as int],
{
    b[i]
}

/// The contents of a list of chunks, one by one.
pub open spec fn chunk_views(chunks: Seq<bytes::Bytes>) -> Seq<Seq<u8>> {
    chunks.map_values(|c: bytes::Bytes| chunk_contents(c))
}

/// Flattening splits at any index into the part before and the part after.
pub proof fn lemma_flatten_split(s: Seq<Seq<u8>>, k: int)
    requires
        0 <= k <= s.len(),
    ensures
        s.flatten() == s.take(k).flatten() + s.skip(k).flatten(),
    decreases k,
{
    broadcast use Seq::lemma_flatten_push;

    if k == 0 {
        assert(s.take(0) =~= Seq::<Seq<u8>>::empty());
        assert(s.skip(0) =~= s);
        assert(s.flatten() =~= Seq::<Seq<u8>>::empty().flatten() + s.flatten());
    } else {
        lemma_flatten_split(s, k - 1);
        assert(s.take(k) =~= s.take(k - 1).push(s[k - 1]));
        assert(s.skip(k - 1).first() == s[k - 1]);
        assert(s.skip(k - 1).drop_first() =~= s.skip(k));
        assert(s.skip(k - 1).flatten() == s[k - 1] + s.skip(k).flatten());
        assert(s.flatten() =~= s.take(k).flatten() + s.skip(k).flatten());
    }
}

/// An accumulator of byte chunks that supports tentative reads.
///
/// Bytes before the commit position are consumed for good; a chunk that lies
/// wholly before it is released. Bytes between the commit position and the
/// read position have been read tentatively and come back on `rollback`.
pub struct PendingBuffer {
    /// Retained chunks, none of them empty.
    chunks: Vec<bytes::Bytes>,
    /// Committed bytes at the front of the first retained chunk.
    start: usize,
    /// The chunk that holds the next unread byte (`chunks.len()` at the end).
    read_chunk: usize,
    /// Offset of the next unread byte in that chunk.
    read_off: usize,
    /// Bytes read past the commit position.
    read: usize,
    /// Bytes held in retained chunks, consumed or not.
    total: usize,
    /// Every byte ever pushed, in order.
    history: Ghost<Seq<u8>>,
    /// How many of them have been committed.
    committed: Ghost<nat>,
}

impl PendingBuffer {
    /// The retained bytes from the commit position on.
    pub closed spec fn bytes(&self) -> Seq<u8> {
        chunk_views(self.chunks@).flatten().skip(self.start as int)
    }

    /// How far past the commit position the reads have gone.
    pub closed spec fn read_pos(&self) -> nat {
        self.read as nat
    }

    /// The bytes that the next read starts at.
    pub open spec fn unread(&self) -> Seq<u8> {
        self.bytes().skip(self.read_pos() as int)
    }

    /// Every byte ever pushed.
    pub closed spec fn history(&self) -> Seq<u8> {
        self.history@
    }

    /// How many bytes have been committed over the buffer's life.
    pub closed spec fn committed(&self) -> nat {
        self.committed@
    }

    /// The number of bytes held in retained chunks, consumed or not.
    pub closed spec fn held(&self) -> nat {
        chunk_views(self.chunks@).flatten().len()
    }

    /// The number of retained chunks.
    pub closed spec fn chunk_count(&self) -> nat {
        self.chunks@.len()
    }

    /// How many committed bytes the first retained chunk still holds.
    pub closed spec fn head_offset(&self) -> nat {
        self.start as nat
    }

    /// The length of the first retained chunk, or 0 when none is retained.
    pub closed spec fn first_chunk_len(&self) -> nat {
        if self.chunks@.len() > 0 {
            chunk_contents(self.chunks@[0]).len()
        } else {
            0
        }
    }

    /// No chunk that lies wholly before the commit position is held: the
    /// only committed bytes kept are a part of the first retained chunk.
    pub open spec fn releases_consumed(&self) -> bool {
        &&& self.chunk_count() == 0 ==> self.head_offset() == 0
        &&& self.chunk_count() > 0 ==> self.head_offset() < self.first_chunk_len()
        &&& self.held() == self.head_offset() + self.bytes().len()
    }

    /// A well-formed buffer keeps no chunk that lies wholly before the
    /// commit position.
    pub proof fn lemma_releases_consumed(&self)
        requires
            self.wf(),
        ensures
            self.releases_consumed(),
    {
        let v = chunk_views(self.chunks@);
        if v.len() > 0 {
            lemma_flatten_split(v, 1);
            assert(v.take(1) =~= seq![v[0]]);
            assert(seq![v[0]].flatten() =~= v[0]) by {
                broadcast use Seq::lemma_flatten_singleton;
            }
        } else {
            assert(v =~= Seq::<Seq<u8>>::empty());
        }
    }

    pub closed spec fn wf(&self) -> bool {
        let v = chunk_views(self.chunks@);
        &&& forall|i: int| 0 <= i < v.len() ==> #[trigger] v[i].len() > 0
        &&& v.len() == 0 ==> self.start == 0
        &&& v.len() > 0 ==> self.start < v[0].len()
        &&& self.read_chunk <= v.len()
        &&& self.read_chunk < v.len() ==> self.read_off < v[self.read_chunk as int].len()
        &&& self.read_chunk == v.len() ==> self.read_off == 0
        &&& self.start + self.read == v.take(self.read_chunk as int).flatten().len()
            + self.read_off
        &&& self.read <= self.bytes().len()
        &&& self.total == v.flatten().len()
        &&& self.committed@ <= self.history@.len()
        &&& self.history@.skip(self.committed@ as int) == self.bytes()
    }

    /// The read position lies within the retained bytes.
    pub proof fn lemma_read_within(&self)
        requires
            self.wf(),
        ensures
            self.read_pos() <= self.bytes().len(),
    {
    }

    /// An empty buffer.
    pub fn new() -> (r: PendingBuffer)
        ensures
            r.wf(),
            r.bytes() == Seq::<u8>::empty(),
            r.read_pos() == 0,
            r.history() == Seq::<u8>::empty(),
            r.committed() == 0,
            r.chunk_count() == 0,
    {
        let r = PendingBuffer {
            chunks: Vec::new(),
            start: 0,
            read_chunk: 0,
            read_off: 0,
            read: 0,
            total: 0,
            history: Ghost(Seq::empty()),
            committed: Ghost(0),
        };
        assert(chunk_views(r.chunks@) =~= Seq::<Seq<u8>>::empty());
        assert(chunk_views(r.chunks@).take(0) =~= Seq::<Seq<u8>>::empty());
        assert(r.bytes() =~= Seq::<u8>::empty());
        r
    }

    /// Appends a chunk. Neither position moves.
    pub fn push(&mut self, chunk: bytes::Bytes)
        requires
            old(self).wf(),
            old(self).held() + chunk_contents(chunk).len() <= usize::MAX,
        ensures
            final(self).wf(),
            final(self).bytes() == old(self).bytes() + chunk_contents(chunk),
            final(self).read_pos() == old(self).read_pos(),
            final(self).history() == old(self).history() + chunk_contents(chunk),
            final(self).committed() == old(self).committed(),
    {
        broadcast use Seq::lemma_flatten_push;

        let ghost v0 = chunk_views(self.chunks@);
        let ghost h0 = self.history@;
        let ghost c = chunk_contents(chunk);
        let n = chunk_len(&chunk);
        if n == 0 {
            assert(c =~= Seq::<u8>::empty());
            assert(self.bytes() + c =~= self.bytes());
            assert(h0 + c =~= h0);
            return;
        }
        self.total = self.total + n;
        self.chunks.push(chunk);
        self.history = Ghost(h0 + c);
        let ghost v1 = chunk_views(self.chunks@);
        assert(v1 =~= v0.push(c));
        assert(v1.take(self.read_chunk as int) =~= v0.take(self.read_chunk as int));
        assert(v1.flatten() =~= v0.flatten() + c);
        assert(self.bytes() =~= old(self).bytes() + c);
        assert((h0 + c).skip(self.committed@ as int) =~= h0.skip(self.committed@ as int) + c);
        assert forall|i: int| 0 <= i < v1.len() implies #[trigger] v1[i].len() > 0 by {
            if i < v0.len() {
                assert(v1[i] == v0[i]);
            }
        }
    }

    /// Reads the next byte, if any is left past the read position.
    pub fn next_byte(&mut self) -> (r: Option<u8>)
        requires
            old(self).wf(),
        ensures
            final(self).wf(),
            final(self).bytes() == old(self).bytes(),
            final(self).history() == old(self).history(),
            final(self).committed() == old(self).committed(),
            old(self).read_pos() < old(self).bytes().len() ==> r == Some(
                old(self).bytes()[old(self).read_pos() as int],
            ) && final(self).read_pos() == old(self).read_pos() + 1,
            old(self).read_pos() >= old(self).bytes().len() ==> r == None::<u8>
                && final(self).read_pos() == old(self).read_pos(),
    {
        let ghost v = chunk_views(self.chunks@);
        if self.read_chunk >= self.chunks.len() {
            proof {
                lemma_flatten_split(v, v.len() as int);
                assert(v.take(v.len() as int) =~= v);
            }
            return None;
        }
        proof {
            let k = self.read_chunk as int;
            lemma_flatten_split(v, k);
            lemma_flatten_split(v.skip(k), 1);
            assert(v.skip(k).take(1) =~= seq![v[k]]);
            assert(v.skip(k).skip(1) =~= v.skip(k + 1));
            assert(seq![v[k]].flatten() =~= v[k]) by {
                broadcast use Seq::lemma_flatten_singleton;
            }
            assert(v.take(k + 1) =~= v.take(k).push(v[k]));
            broadcast use Seq::lemma_flatten_push;
        }
        assert(v[self.read_chunk as int] == chunk_contents(self.chunks@[self.read_chunk as int]));
        let b = chunk_byte(&self.chunks[self.read_chunk], self.read_off);
        assert(b == v.flatten()[self.start + self.read]);
        self.read = self.read + 1;
        if self.read_off + 1 == chunk_len(&self.chunks[self.read_chunk]) {
            self.read_chunk = self.read_chunk + 1;
            self.read_off = 0;
        } else {
            self.read_off = self.read_off + 1;
        }
        Some(b)
    }

    /// The number of bytes left past the read position.
    pub fn remaining(&self) -> (r: usize)
        requires
            self.wf(),
        ensures
            r == self.unread().len(),
    {
        self.total - self.start - self.read
    }

    /// The number of bytes held in retained chunks, consumed or not.
    pub fn held_len(&self) -> (r: usize)
        requires
            self.wf(),
        ensures
            r == self.held(),
    {
        self.total
    }

    /// Whether any chunk is still retained.
    pub fn has_retained(&self) -> (r: bool)
        requires
            self.wf(),
        ensures
            r == (self.chunk_count() > 0),
            r == (self.bytes().len() > 0),
    {
        proof {
            let v = chunk_views(self.chunks@);
            if v.len() > 0 {
                lemma_flatten_split(v, 1);
                assert(v.take(1) =~= seq![v[0]]);
                assert(seq![v[0]].flatten() =~= v[0]) by {
                    broadcast use Seq::lemma_flatten_singleton;
                }
            } else {
                assert(v =~= Seq::<Seq<u8>>::empty());
            }
        }
        self.chunks.len() > 0
    }

    /// Moves the read position back to the commit position.
    pub fn rollback(&mut self)
        requires
            old(self).wf(),
        ensures
            final(self).wf(),
            final(self).bytes() == old(self).bytes(),
            final(self).read_pos() == 0,
            final(self).history() == old(self).history(),
            final(self).committed() == old(self).committed(),
            final(self).chunk_count() == old(self).chunk_count(),
    {
        self.read = 0;
        self.read_chunk = 0;
        self.read_off = self.start;
        proof {
            let v = chunk_views(self.chunks@);
            assert(v.take(0) =~= Seq::<Seq<u8>>::empty());
        }
    }

    /// Makes every byte read so far consumed for good, and releases the
    /// chunks that lie wholly before the new commit position.
    pub fn commit(&mut self)
        requires
            old(self).wf(),
        ensures
            final(self).wf(),
            final(self).bytes() == old(self).bytes().skip(old(self).read_pos() as int),
            final(self).read_pos() == 0,
            final(self).history() == old(self).history(),
            final(self).committed() == old(self).committed() + old(self).read_pos(),
            final(self).releases_consumed(),
    {
        let ghost v = chunk_views(self.chunks@);
        let ghost k = self.read_chunk as int;
        proof {
            lemma_flatten_split(v, k);
        }
        let dropped = self.start + self.read - self.read_off;
        let tail = self.chunks.split_off(self.read_chunk);
        self.total = self.total - dropped;
        self.chunks = tail;
        self.start = self.read_off;
        self.committed = Ghost(self.committed@ + self.read as nat);
        self.read = 0;
        self.read_chunk = 0;
        proof {
            let v1 = chunk_views(self.chunks@);
            assert(v1 =~= v.skip(k));
            assert(v1.take(0) =~= Seq::<Seq<u8>>::empty());
            assert(self.bytes() =~= old(self).bytes().skip(old(self).read_pos() as int));
            assert(self.history@.skip(self.committed@ as int) =~= old(self).history@.skip(
                old(self).committed@ as int,
            ).skip(old(self).read as int));
            assert forall|i: int| 0 <= i < v1.len() implies #[trigger] v1[i].len() > 0 by {
                assert(v1[i] == v[i + k]);
            }
            self.lemma_releases_consumed();
        }
    }
}

/// The bytes that the buffer retains from the commit position on are exactly
/// the bytes pushed and not yet committed, and of the committed bytes only a
/// part of the first retained chunk is still held.
pub proof fn lemma_bounded_retention(b: &PendingBuffer)
    requires
        b.wf(),
    ensures
        b.bytes() == b.history().skip(b.committed() as int),
        b.bytes().len() == b.history().len() - b.committed(),
        b.releases_consumed(),
{
    b.lemma_releases_consumed();
}

} // verus!
