//! The row decoder: one attempt at decoding one row from the unread bytes of
//! the pending buffer, using the scratch buffer as working memory.
//!
//! A row is a sequence of text fields laid out one after another. A
//! variable-length field carries its length as an unsigned LEB128 prefix of
//! at most five bytes; a fixed-width field is exactly as long as the schema
//! says. Either field's bytes pass through the scratch buffer, which must be
//! at least as long as the field.

use vstd::prelude::*;
use crate::pending::PendingBuffer;

verus! {

/// Longest length prefix accepted, in bytes.
pub const MAX_PREFIX: usize = 5;

/// How one field of a row is laid out on the wire.
#[derive(Clone, Copy, Debug, PartialEq, Eq, Structural)]
pub enum FieldKind {
    /// Length-prefixed text.
    Text,
    /// Text of exactly this many bytes, with no prefix.
    FixedText(usize),
}

/// A schema frames every row in at least one byte: it has a field, and no
/// fixed-width field is empty.
pub open spec fn schema_wf(schema: Seq<FieldKind>) -> bool {
    &&& schema.len() > 0
    &&& forall|i: int|
        0 <= i < schema.len() ==> (#[trigger] schema[i] matches FieldKind::FixedText(n) ==> n
            > 0)
}

/// What one decode attempt finds, as a mathematical value.
pub enum Parse {
    /// The row's field values, and the number of bytes that it spans.
    Done(Seq<Seq<u8>>, nat),
    /// The row does not end within the bytes given.
    NeedData,
    /// The scratch buffer is short by this many bytes.
    NeedScratch(nat),
    /// The bytes cannot start a row.
    Malformed,
}

/// What reading a length prefix finds.
pub enum Prefix {
    /// The value, and the position just past the prefix.
    Value(nat, nat),
    Incomplete,
    Overlong,
}

/// The length prefix at `pos`, from its `k`-th byte on.
pub open spec fn prefix_at(s: Seq<u8>, pos: nat, k: nat) -> Prefix
    decreases MAX_PREFIX - k,
{
    if k >= MAX_PREFIX {
        Prefix::Overlong
    } else if pos + k >= s.len() {
        Prefix::Incomplete
    } else if s[(pos + k) as int] < 128 {
        Prefix::Value(s[(pos + k) as int] as nat, pos + k + 1)
    } else {
        match prefix_at(s, pos, k + 1) {
            Prefix::Value(v, e) => Prefix::Value(((s[(pos + k) as int] - 128) + 128 * v) as nat, e),
            other => other,
        }
    }
}

/// The bound on a prefix value read from its `k`-th byte on.
pub open spec fn prefix_bound(k: nat) -> nat
    decreases MAX_PREFIX - k,
{
    if k + 1 >= MAX_PREFIX {
        128
    } else {
        128 * prefix_bound(k + 1)
    }
}

/// A field of `len` bytes starting at `p`.
pub open spec fn body(s: Seq<u8>, p: nat, len: nat, cap: nat) -> Parse {
    if len > cap {
        Parse::NeedScratch((len - cap) as nat)
    } else if p + len > s.len() {
        Parse::NeedData
    } else {
        Parse::Done(seq![s.subrange(p as int, (p + len) as int)], p + len)
    }
}

/// One field of the given kind, starting at `p`.
pub open spec fn field(kind: FieldKind, s: Seq<u8>, p: nat, cap: nat) -> Parse {
    match kind {
        FieldKind::FixedText(n) => body(s, p, n as nat, cap),
        FieldKind::Text => match prefix_at(s, p, 0) {
            Prefix::Value(len, e) => body(s, e, len, cap),
            Prefix::Incomplete => Parse::NeedData,
            Prefix::Overlong => Parse::Malformed,
        },
    }
}

/// Puts `vals` in front of the fields of a finished parse.
pub open spec fn prepend(vals: Seq<Seq<u8>>, r: Parse) -> Parse {
    match r {
        Parse::Done(v, e) => Parse::Done(vals + v, e),
        other => other,
    }
}

/// The fields from the `i`-th on, starting at `p`.
pub open spec fn fields_from(schema: Seq<FieldKind>, i: nat, s: Seq<u8>, p: nat, cap: nat) -> Parse
    decreases schema.len() - i,
{
    if i >= schema.len() {
        Parse::Done(Seq::empty(), p)
    } else {
        match field(schema[i as int], s, p, cap) {
            Parse::Done(v, e) => prepend(v, fields_from(schema, i + 1, s, e, cap)),
            other => other,
        }
    }
}

/// One decode attempt on `s` with a scratch buffer of `cap` bytes.
pub open spec fn parse_row(schema: Seq<FieldKind>, s: Seq<u8>, cap: nat) -> Parse {
    fields_from(schema, 0, s, 0, cap)
}

/// The rows that `s` holds one after another, up to the first that is not
/// complete in it. The scratch buffer is taken as large as needed.
pub open spec fn rows_of(schema: Seq<FieldKind>, s: Seq<u8>) -> Seq<Seq<Seq<u8>>>
    decreases s.len(),
{
    match parse_row(schema, s, s.len()) {
        Parse::Done(r, n) => if 0 < n <= s.len() {
            seq![r] + rows_of(schema, s.skip(n as int))
        } else {
            Seq::empty()
        },
        _ => Seq::empty(),
    }
}

/// The value of a row as field contents.
pub open spec fn row_view(row: Vec<Vec<u8>>) -> Seq<Seq<u8>> {
    row@.map_values(|f: Vec<u8>| f@)
}

/// The result of one decode attempt.
#[derive(Debug)]
pub enum Outcome {
    /// A whole row; the read position has moved past it.
    Row(Vec<Vec<u8>>),
    /// More bytes are needed before the row can be decoded.
    NeedData,
    /// The scratch buffer must grow by at least this many bytes.
    NeedScratch(u64),
    /// The bytes do not form a row.
    Malformed,
}

/// What reading a length prefix found.
enum PrefixRead {
    Value(u64),
    Incomplete,
    Overlong,
}

proof fn lemma_prefix_bound(s: Seq<u8>, pos: nat, k: nat)
    requires
        k < MAX_PREFIX,
        prefix_at(s, pos, k) matches Prefix::Value(v, e),
    ensures
        prefix_at(s, pos, k) matches Prefix::Value(v, e) ==> v < prefix_bound(k) && pos + k < e
            <= s.len(),
    decreases MAX_PREFIX - k,
{
    lemma_prefix_bound_min(k);
    if s[(pos + k) as int] >= 128 {
        lemma_prefix_bound(s, pos, k + 1);
        if let Prefix::Value(v, e) = prefix_at(s, pos, k + 1) {
            let b = (s[(pos + k) as int] - 128) as nat;
            assert(b < 128);
            assert(b + 128 * v < 128 * prefix_bound(k + 1)) by (nonlinear_arith)
                requires
                    b < 128,
                    v < prefix_bound(k + 1),
            ;
        }
    }
}

proof fn lemma_prefix_bound_min(k: nat)
    ensures
        prefix_bound(k) >= 128,
    decreases MAX_PREFIX - k,
{
    if k + 1 < MAX_PREFIX {
        lemma_prefix_bound_min(k + 1);
    }
}

/// Reads a length prefix from its `k`-th byte on; `base` is where the row
/// started and `s` the unread bytes there.
fn read_prefix(
    buf: &mut PendingBuffer,
    k: usize,
    Ghost(s): Ghost<Seq<u8>>,
    Ghost(base): Ghost<nat>,
    Ghost(pos): Ghost<nat>,
) -> (r: PrefixRead)
    requires
        old(buf).wf(),
        k <= MAX_PREFIX,
        s == old(buf).bytes().skip(base as int),
        base <= old(buf).bytes().len(),
        old(buf).read_pos() == base + pos + k,
    ensures
        final(buf).wf(),
        final(buf).bytes() == old(buf).bytes(),
        final(buf).history() == old(buf).history(),
        final(buf).committed() == old(buf).committed(),
        match prefix_at(s, pos, k as nat) {
            Prefix::Value(v, e) => r == PrefixRead::Value(v as u64) && final(buf).read_pos()
                == base + e,
            Prefix::Incomplete => r is Incomplete,
            Prefix::Overlong => r is Overlong,
        },
    decreases MAX_PREFIX - k,
{
    if k >= MAX_PREFIX {
        return PrefixRead::Overlong;
    }
    let b = match buf.next_byte() {
        Some(b) => b,
        None => {
            return PrefixRead::Incomplete;
        },
    };
    assert(b == s[(pos + k) as int]);
    if b < 128 {
        return PrefixRead::Value(b as u64);
    }
    let rest = read_prefix(buf, k + 1, Ghost(s), Ghost(base), Ghost(pos));
    match rest {
        PrefixRead::Value(v) => {
            proof {
                lemma_prefix_bound(s, pos, k as nat);
                lemma_prefix_bound(s, pos, (k + 1) as nat);
                assert(prefix_bound(0) == 34359738368) by {
                    reveal_with_fuel(prefix_bound, 6);
                }
                lemma_prefix_bound_mono(k as nat);
            }
            PrefixRead::Value((b - 128) as u64 + 128 * v)
        },
        PrefixRead::Incomplete => PrefixRead::Incomplete,
        PrefixRead::Overlong => PrefixRead::Overlong,
    }
}

proof fn lemma_prefix_bound_mono(k: nat)
    requires
        k < MAX_PREFIX,
    ensures
        prefix_bound(k) <= prefix_bound(0),
        prefix_bound(0) == 34359738368,
    decreases k,
{
    reveal_with_fuel(prefix_bound, 6);
    if k > 0 {
        lemma_prefix_bound_mono((k - 1) as nat);
    }
}

/// What reading a field's bytes found.
enum BodyRead {
    Value(Vec<u8>),
    NeedData,
    NeedScratch(u64),
}

/// Reads a field of `len` bytes through the scratch buffer.
fn read_body(
    buf: &mut PendingBuffer,
    scratch: &mut Vec<u8>,
    len: u64,
    Ghost(s): Ghost<Seq<u8>>,
    Ghost(base): Ghost<nat>,
    Ghost(p): Ghost<nat>,
) -> (r: BodyRead)
    requires
        old(buf).wf(),
        s == old(buf).bytes().skip(base as int),
        base <= old(buf).bytes().len(),
        old(buf).read_pos() == base + p,
        p <= s.len(),
    ensures
        final(buf).wf(),
        final(buf).bytes() == old(buf).bytes(),
        final(buf).history() == old(buf).history(),
        final(buf).committed() == old(buf).committed(),
        final(scratch)@.len() == old(scratch)@.len(),
        match body(s, p, len as nat, old(scratch)@.len()) {
            Parse::Done(v, e) => r matches BodyRead::Value(f) && v == seq![f@]
                && final(buf).read_pos() == base + e,
            Parse::NeedData => r is NeedData,
            Parse::NeedScratch(n) => r == BodyRead::NeedScratch(n as u64),
            Parse::Malformed => false,
        },
{
    let cap = scratch.len();
    if len > cap as u64 {
        return BodyRead::NeedScratch(len - cap as u64);
    }
    let n = len as usize;
    if n > buf.remaining() {
        return BodyRead::NeedData;
    }
    let mut j: usize = 0;
    while j < n
        invariant
            buf.wf(),
            buf.bytes() == old(buf).bytes(),
            buf.history() == old(buf).history(),
            buf.committed() == old(buf).committed(),
            buf.read_pos() == base + p + j,
            s == buf.bytes().skip(base as int),
            base <= buf.bytes().len(),
            p + n <= s.len(),
            n <= scratch@.len(),
            scratch@.len() == old(scratch)@.len(),
            j <= n,
            forall|i: int| 0 <= i < j ==> scratch@[i] == s[p + i],
        decreases n - j,
    {
        let b = match buf.next_byte() {
            Some(b) => b,
            None => {
                assert(false);
                return BodyRead::NeedData;
            },
        };
        scratch.set(j, b);
        j = j + 1;
    }
    let mut value: Vec<u8> = Vec::new();
    let mut i: usize = 0;
    while i < n
        invariant
            i <= n,
            n <= scratch@.len(),
            value@ =~= scratch@.take(i as int),
        decreases n - i,
    {
        value.push(scratch[i]);
        i = i + 1;
    }
    assert(value@ =~= s.subrange(p as int, (p + n) as int));
    BodyRead::Value(value)
}

/// Reads one field of the given kind.
fn read_field(
    kind: FieldKind,
    buf: &mut PendingBuffer,
    scratch: &mut Vec<u8>,
    Ghost(s): Ghost<Seq<u8>>,
    Ghost(base): Ghost<nat>,
    Ghost(p): Ghost<nat>,
) -> (r: Outcome)
    requires
        old(buf).wf(),
        s == old(buf).bytes().skip(base as int),
        base <= old(buf).bytes().len(),
        old(buf).read_pos() == base + p,
        p <= s.len(),
    ensures
        final(buf).wf(),
        final(buf).bytes() == old(buf).bytes(),
        final(buf).history() == old(buf).history(),
        final(buf).committed() == old(buf).committed(),
        final(scratch)@.len() == old(scratch)@.len(),
        match field(kind, s, p, old(scratch)@.len()) {
            Parse::Done(v, e) => {
                &&& r matches Outcome::Row(f) && v == row_view(f)
                &&& final(buf).read_pos() == base + e
                &&& e <= s.len()
            },
            Parse::NeedData => r is NeedData,
            Parse::NeedScratch(n) => r == Outcome::NeedScratch(n as u64),
            Parse::Malformed => r is Malformed,
        },
{
    let len: u64 = match kind {
        FieldKind::FixedText(n) => n as u64,
        FieldKind::Text => match read_prefix(buf, 0, Ghost(s), Ghost(base), Ghost(p)) {
            PrefixRead::Value(v) => {
                proof {
                    lemma_prefix_bound(s, p, 0);
                    lemma_prefix_bound_mono(0);
                }
                v
            },
            PrefixRead::Incomplete => {
                return Outcome::NeedData;
            },
            PrefixRead::Overlong => {
                return Outcome::Malformed;
            },
        },
    };
    let ghost start: nat = (buf.read_pos() - base) as nat;
    match read_body(buf, scratch, len, Ghost(s), Ghost(base), Ghost(start)) {
        BodyRead::Value(f) => {
            let mut row: Vec<Vec<u8>> = Vec::new();
            row.push(f);
            assert(row_view(row) =~= seq![f@]);
            Outcome::Row(row)
        },
        BodyRead::NeedData => Outcome::NeedData,
        BodyRead::NeedScratch(n) => Outcome::NeedScratch(n),
    }
}

/// One attempt at decoding a row from the unread bytes of `buf`, with
/// `scratch` as working memory.
///
/// On a row the read position has moved past it; on any other outcome it
/// may have moved, and the caller rolls it back. The scratch buffer keeps its
/// length.
pub fn decode_row(schema: &Vec<FieldKind>, buf: &mut PendingBuffer, scratch: &mut Vec<u8>) -> (r:
    Outcome)
    requires
        old(buf).wf(),
    ensures
        final(buf).wf(),
        final(buf).bytes() == old(buf).bytes(),
        final(buf).history() == old(buf).history(),
        final(buf).committed() == old(buf).committed(),
        final(scratch)@.len() == old(scratch)@.len(),
        match parse_row(schema@, old(buf).unread(), old(scratch)@.len()) {
            Parse::Done(v, n) => {
                &&& r matches Outcome::Row(row) && v == row_view(row)
                &&& final(buf).read_pos() == old(buf).read_pos() + n
            },
            Parse::NeedData => r is NeedData,
            Parse::NeedScratch(n) => r == Outcome::NeedScratch(n as u64),
            Parse::Malformed => r is Malformed,
        },
{
    let ghost base: nat = buf.read_pos();
    let ghost s: Seq<u8> = buf.unread();
    let ghost cap: nat = scratch@.len();
    let mut row: Vec<Vec<u8>> = Vec::new();
    let mut i: usize = 0;
    proof {
        buf.lemma_read_within();
    }
    assert(prepend(Seq::empty(), fields_from(schema@, 0, s, 0, cap)) == fields_from(
        schema@,
        0,
        s,
        0,
        cap,
    )) by {
        if let Parse::Done(v, e) = fields_from(schema@, 0, s, 0, cap) {
            assert(Seq::<Seq<u8>>::empty() + v =~= v);
        }
    }
    assert(row_view(row) =~= Seq::<Seq<u8>>::empty());
    while i < schema.len()
        invariant
            buf.wf(),
            buf.bytes() == old(buf).bytes(),
            buf.history() == old(buf).history(),
            buf.committed() == old(buf).committed(),
            base == old(buf).read_pos(),
            s == buf.bytes().skip(base as int),
            base <= buf.bytes().len(),
            base <= buf.read_pos() <= buf.bytes().len(),
            scratch@.len() == cap,
            cap == old(scratch)@.len(),
            i <= schema@.len(),
            parse_row(schema@, s, cap) == prepend(
                row_view(row),
                fields_from(schema@, i as nat, s, (buf.read_pos() - base) as nat, cap),
            ),
        decreases schema.len() - i,
    {
        let ghost p: nat = (buf.read_pos() - base) as nat;
        let kind = schema[i];
        match read_field(kind, buf, scratch, Ghost(s), Ghost(base), Ghost(p)) {
            Outcome::Row(mut f) => {
                let ghost fv = row_view(f);
                let ghost rv = row_view(row);
                proof {
                    let e = (buf.read_pos() - base) as nat;
                    let rest = fields_from(schema@, (i + 1) as nat, s, e, cap);
                    assert(fields_from(schema@, i as nat, s, p, cap) == prepend(fv, rest));
                    if let Parse::Done(w, e2) = rest {
                        assert(rv + (fv + w) =~= (rv + fv) + w);
                    }
                }
                row.append(&mut f);
                assert(row_view(row) =~= rv + fv);
                i = i + 1;
            },
            Outcome::NeedData => {
                return Outcome::NeedData;
            },
            Outcome::NeedScratch(n) => {
                return Outcome::NeedScratch(n);
            },
            Outcome::Malformed => {
                return Outcome::Malformed;
            },
        }
    }
    proof {
        let e = (buf.read_pos() - base) as nat;
        assert(fields_from(schema@, i as nat, s, e, cap) == Parse::Done(Seq::empty(), e));
        assert(row_view(row) + Seq::<Seq<u8>>::empty() =~= row_view(row));
    }
    Outcome::Row(row)
}

/// A finished parse ends within the bytes, no earlier than it started.
proof fn lemma_fields_end(schema: Seq<FieldKind>, i: nat, s: Seq<u8>, p: nat, cap: nat)
    requires
        p <= s.len(),
    ensures
        fields_from(schema, i, s, p, cap) matches Parse::Done(v, e) ==> p <= e <= s.len(),
    decreases schema.len() - i,
{
    if i < schema.len() {
        if let Parse::Done(v, e) = field(schema[i as int], s, p, cap) {
            if schema[i as int] is Text {
                if prefix_at(s, p, 0) is Value {
                    lemma_prefix_bound(s, p, 0);
                }
            }
            lemma_fields_end(schema, i + 1, s, e, cap);
        }
    }
}

/// A shortfall of scratch capacity is never zero, and fits in a `u64`.
pub proof fn lemma_need_bounds(schema: Seq<FieldKind>, i: nat, s: Seq<u8>, p: nat, cap: nat)
    requires
        p <= s.len(),
    ensures
        fields_from(schema, i, s, p, cap) matches Parse::NeedScratch(n) ==> 0 < n <= u64::MAX,
    decreases schema.len() - i,
{
    if i < schema.len() {
        if schema[i as int] is Text {
            if prefix_at(s, p, 0) is Value {
                lemma_prefix_bound(s, p, 0);
                lemma_prefix_bound_mono(0);
            }
        }
        if let Parse::Done(v, e) = field(schema[i as int], s, p, cap) {
            lemma_fields_end(schema, i + 1, s, e, cap);
            lemma_need_bounds(schema, i + 1, s, e, cap);
        }
    }
}

/// A scratch buffer still short of what a shortfall asked for is still
/// short: the decoder reports a shortfall again at any capacity from `c` up
/// to, but not including, `c + n`.
pub proof fn lemma_need_persists(
    schema: Seq<FieldKind>,
    i: nat,
    s: Seq<u8>,
    p: nat,
    c: nat,
    c2: nat,
)
    requires
        fields_from(schema, i, s, p, c) matches Parse::NeedScratch(n) && c <= c2 < c + n,
    ensures
        fields_from(schema, i, s, p, c2) is NeedScratch,
    decreases schema.len() - i,
{
    if i < schema.len() {
        if let Parse::Done(v, e) = field(schema[i as int], s, p, c) {
            assert(field(schema[i as int], s, p, c2) == field(schema[i as int], s, p, c));
            lemma_need_persists(schema, i + 1, s, e, c, c2);
        }
    }
}

/// Under a well-formed schema a finished parse consumes at least one byte.
pub proof fn lemma_fields_advance(schema: Seq<FieldKind>, i: nat, s: Seq<u8>, p: nat, cap: nat)
    requires
        p <= s.len(),
        i < schema.len(),
        schema_wf(schema),
    ensures
        fields_from(schema, i, s, p, cap) matches Parse::Done(v, e) ==> p < e,
{
    if let Parse::Done(v, e) = field(schema[i as int], s, p, cap) {
        if schema[i as int] is Text {
            if prefix_at(s, p, 0) is Value {
                lemma_prefix_bound(s, p, 0);
            }
        }
        lemma_fields_end(schema, i + 1, s, e, cap);
    }
}

/// A length prefix reads the same from other bytes that agree up to `e`.
proof fn lemma_prefix_transfer(s: Seq<u8>, t: Seq<u8>, pos: nat, k: nat, e: nat)
    requires
        e <= s.len(),
        e <= t.len(),
        s.take(e as int) == t.take(e as int),
        prefix_at(s, pos, k) matches Prefix::Value(v, pe) && pe <= e,
    ensures
        prefix_at(t, pos, k) == prefix_at(s, pos, k),
    decreases MAX_PREFIX - k,
{
    lemma_prefix_bound(s, pos, k);
    assert(s[(pos + k) as int] == s.take(e as int)[(pos + k) as int]);
    assert(t[(pos + k) as int] == t.take(e as int)[(pos + k) as int]);
    if s[(pos + k) as int] >= 128 {
        lemma_prefix_transfer(s, t, pos, k + 1, e);
    }
}

/// A field that decodes from `s` decodes alike from `t` where the two agree
/// up to `e`, past the field's end, and the capacity allows it.
proof fn lemma_field_transfer(
    kind: FieldKind,
    s: Seq<u8>,
    t: Seq<u8>,
    p: nat,
    c: nat,
    c2: nat,
    e: nat,
)
    requires
        e <= s.len(),
        e <= t.len(),
        s.take(e as int) == t.take(e as int),
        c2 >= c || c2 >= e,
        field(kind, s, p, c) matches Parse::Done(v, e1) && e1 <= e,
    ensures
        field(kind, t, p, c2) == field(kind, s, p, c),
{
    match kind {
        FieldKind::FixedText(n) => {
            lemma_span_agrees(s, t, p, n as nat, e);
        },
        FieldKind::Text => {
            lemma_prefix_bound(s, p, 0);
            lemma_prefix_transfer(s, t, p, 0, e);
            if let Prefix::Value(len, pe) = prefix_at(s, p, 0) {
                lemma_span_agrees(s, t, pe, len, e);
            }
        },
    }
}

/// Two byte sequences that agree up to `e` agree on any span that ends there.
proof fn lemma_span_agrees(s: Seq<u8>, t: Seq<u8>, fs: nat, len: nat, e: nat)
    requires
        e <= s.len(),
        e <= t.len(),
        s.take(e as int) == t.take(e as int),
    ensures
        fs + len <= e ==> s.subrange(fs as int, (fs + len) as int) == t.subrange(
            fs as int,
            (fs + len) as int,
        ),
{
    if fs + len <= e {
        assert forall|j: int| fs <= j < fs + len implies #[trigger] s[j] == t[j] by {
            assert(s[j] == s.take(e as int)[j]);
            assert(t[j] == t.take(e as int)[j]);
        }
        assert(s.subrange(fs as int, (fs + len) as int) =~= t.subrange(
            fs as int,
            (fs + len) as int,
        ));
    }
}

/// Fields that decode from `s` decode alike from `t` where the two agree up
/// to the end of the fields, and the capacity allows it.
proof fn lemma_fields_transfer(
    schema: Seq<FieldKind>,
    i: nat,
    s: Seq<u8>,
    t: Seq<u8>,
    p: nat,
    c: nat,
    c2: nat,
    e: nat,
)
    requires
        p <= s.len(),
        fields_from(schema, i, s, p, c) matches Parse::Done(v, end) && end == e,
        e <= t.len(),
        s.take(e as int) == t.take(e as int),
        c2 >= c || c2 >= e,
    ensures
        fields_from(schema, i, t, p, c2) == fields_from(schema, i, s, p, c),
    decreases schema.len() - i,
{
    lemma_fields_end(schema, i, s, p, c);
    if i < schema.len() {
        if let Parse::Done(v, e1) = field(schema[i as int], s, p, c) {
            if schema[i as int] is Text {
                if prefix_at(s, p, 0) is Value {
                    lemma_prefix_bound(s, p, 0);
                }
            }
            lemma_fields_end(schema, i + 1, s, e1, c);
            lemma_field_transfer(schema[i as int], s, t, p, c, c2, e);
            lemma_fields_transfer(schema, i + 1, s, t, e1, c, c2, e);
        }
    }
}

/// A row that decodes from `s` decodes alike, spanning the same bytes, from
/// the bytes it spans alone, with any scratch capacity that holds them.
pub proof fn lemma_row_frame(schema: Seq<FieldKind>, s: Seq<u8>, c: nat)
    requires
        parse_row(schema, s, c) is Done,
    ensures
        parse_row(schema, s, c) matches Parse::Done(v, n) ==> n <= s.len() && parse_row(
            schema,
            s.take(n as int),
            n,
        ) == parse_row(schema, s, c),
{
    lemma_fields_end(schema, 0, s, 0, c);
    if let Parse::Done(v, n) = parse_row(schema, s, c) {
        assert(s.take(n as int).take(n as int) =~= s.take(n as int));
        lemma_fields_transfer(schema, 0, s, s.take(n as int), 0, c, n, n);
    }
}

/// Retrying cannot change a row: where a row decodes from some received
/// bytes with some scratch capacity, and also from those bytes followed by
/// more with another capacity, both attempts give the same field values and
/// consume the same number of bytes.
pub proof fn lemma_retry_stable(schema: Seq<FieldKind>, s: Seq<u8>, t: Seq<u8>, c1: nat, c2: nat)
    requires
        s.is_prefix_of(t),
        parse_row(schema, s, c1) is Done,
        parse_row(schema, t, c2) is Done,
    ensures
        parse_row(schema, s, c1) == parse_row(schema, t, c2),
{
    lemma_fields_end(schema, 0, s, 0, c1);
    lemma_fields_end(schema, 0, t, 0, c2);
    if let Parse::Done(v1, n1) = parse_row(schema, s, c1) {
        assert(s.take(n1 as int) =~= t.take(n1 as int));
        lemma_fields_transfer(schema, 0, s, t, 0, c1, t.len(), n1);
    }
    if let Parse::Done(v2, n2) = parse_row(schema, t, c2) {
        lemma_fields_transfer(schema, 0, t, t, 0, c2, t.len(), n2);
    }
}

/// Rows framed one after another are read back in order ahead of whatever
/// follows them.
pub proof fn lemma_rows_after_frames(
    schema: Seq<FieldKind>,
    frames: Seq<Seq<u8>>,
    rows: Seq<Seq<Seq<u8>>>,
    y: Seq<u8>,
)
    requires
        frames.len() == rows.len(),
        forall|i: int|
            0 <= i < frames.len() ==> #[trigger] frames[i].len() > 0 && parse_row(
                schema,
                frames[i],
                frames[i].len(),
            ) == Parse::Done(rows[i], frames[i].len()),
    ensures
        rows_of(schema, frames.flatten() + y) == rows + rows_of(schema, y),
    decreases frames.len(),
{
    if frames.len() == 0 {
        assert(frames.flatten() + y =~= y);
        assert(rows + rows_of(schema, y) =~= rows_of(schema, y));
    } else {
        let f0 = frames[0];
        let rest = frames.drop_first();
        assert forall|i: int| 0 <= i < rest.len() implies #[trigger] rest[i].len() > 0
            && parse_row(schema, rest[i], rest[i].len()) == Parse::Done(
            rows.drop_first()[i],
            rest[i].len(),
        ) by {
            assert(rest[i] == frames[i + 1]);
        }
        lemma_rows_after_frames(schema, rest, rows.drop_first(), y);
        let x = f0 + (rest.flatten() + y);
        assert(frames.flatten() + y =~= x);
        assert(x.take(f0.len() as int) =~= f0.take(f0.len() as int));
        assert(f0.take(f0.len() as int) =~= f0);
        lemma_fields_transfer(schema, 0, f0, x, 0, f0.len(), x.len(), f0.len());
        assert(x.skip(f0.len() as int) =~= rest.flatten() + y);
        assert(rows =~= seq![rows[0]] + rows.drop_first());
    }
}

/// `s` is a sequence of whole rows, one after another, with nothing left over.
pub open spec fn whole_rows(schema: Seq<FieldKind>, s: Seq<u8>) -> bool
    decreases s.len(),
{
    if s.len() == 0 {
        true
    } else {
        match parse_row(schema, s, s.len()) {
            Parse::Done(r, n) => if 0 < n <= s.len() {
                whole_rows(schema, s.skip(n as int))
            } else {
                false
            },
            _ => false,
        }
    }
}

/// Fields that decode with some capacity never ask for more bytes with
/// another: at worst they ask for more scratch.
proof fn lemma_done_never_needs_data(
    schema: Seq<FieldKind>,
    i: nat,
    s: Seq<u8>,
    p: nat,
    c1: nat,
    c2: nat,
)
    requires
        fields_from(schema, i, s, p, c1) is Done,
    ensures
        !(fields_from(schema, i, s, p, c2) is NeedData),
    decreases schema.len() - i,
{
    if i < schema.len() {
        if let Parse::Done(v, e) = field(schema[i as int], s, p, c1) {
            if field(schema[i as int], s, p, c2) is Done {
                assert(field(schema[i as int], s, p, c2) == field(schema[i as int], s, p, c1));
                lemma_done_never_needs_data(schema, i + 1, s, e, c1, c2);
            }
        }
    }
}

/// A sequence of whole rows that is not empty holds a row that no scratch
/// capacity turns into a request for more bytes.
pub proof fn lemma_whole_rows_not_short(schema: Seq<FieldKind>, s: Seq<u8>, c: nat)
    requires
        whole_rows(schema, s),
        s.len() > 0,
    ensures
        !(parse_row(schema, s, c) is NeedData),
{
    lemma_done_never_needs_data(schema, 0, s, 0, s.len(), c);
}

/// Whole rows that follow framed rows are whole rows on their own.
pub proof fn lemma_whole_after_frames(
    schema: Seq<FieldKind>,
    frames: Seq<Seq<u8>>,
    rows: Seq<Seq<Seq<u8>>>,
    y: Seq<u8>,
)
    requires
        frames.len() == rows.len(),
        forall|i: int|
            0 <= i < frames.len() ==> #[trigger] frames[i].len() > 0 && parse_row(
                schema,
                frames[i],
                frames[i].len(),
            ) == Parse::Done(rows[i], frames[i].len()),
        whole_rows(schema, frames.flatten() + y),
    ensures
        whole_rows(schema, y),
    decreases frames.len(),
{
    if frames.len() == 0 {
        assert(frames.flatten() + y =~= y);
    } else {
        let f0 = frames[0];
        let rest = frames.drop_first();
        assert forall|i: int| 0 <= i < rest.len() implies #[trigger] rest[i].len() > 0
            && parse_row(schema, rest[i], rest[i].len()) == Parse::Done(
            rows.drop_first()[i],
            rest[i].len(),
        ) by {
            assert(rest[i] == frames[i + 1]);
        }
        let x = f0 + (rest.flatten() + y);
        assert(frames.flatten() + y =~= x);
        assert(x.take(f0.len() as int) =~= f0.take(f0.len() as int));
        assert(f0.take(f0.len() as int) =~= f0);
        lemma_fields_transfer(schema, 0, f0, x, 0, f0.len(), x.len(), f0.len());
        assert(x.skip(f0.len() as int) =~= rest.flatten() + y);
        lemma_whole_after_frames(schema, rest, rows.drop_first(), y);
    }
}

/// Two framings of the same leading bytes into equally many rows agree:
/// same frames, same rows.
pub proof fn lemma_frames_agree(
    schema: Seq<FieldKind>,
    fa: Seq<Seq<u8>>,
    ra: Seq<Seq<Seq<u8>>>,
    ya: Seq<u8>,
    fb: Seq<Seq<u8>>,
    rb: Seq<Seq<Seq<u8>>>,
    yb: Seq<u8>,
)
    requires
        fa.len() == ra.len(),
        fb.len() == rb.len(),
        fa.len() == fb.len(),
        forall|i: int|
            0 <= i < fa.len() ==> #[trigger] fa[i].len() > 0 && parse_row(
                schema,
                fa[i],
                fa[i].len(),
            ) == Parse::Done(ra[i], fa[i].len()),
        forall|i: int|
            0 <= i < fb.len() ==> #[trigger] fb[i].len() > 0 && parse_row(
                schema,
                fb[i],
                fb[i].len(),
            ) == Parse::Done(rb[i], fb[i].len()),
        (fa.flatten() + ya).is_prefix_of(fb.flatten() + yb),
    ensures
        fa == fb,
        ra == rb,
    decreases fa.len(),
{
    if fa.len() == 0 {
        assert(fa =~= fb);
        assert(ra =~= rb);
    } else {
        let (a0, b0) = (fa[0], fb[0]);
        let (resta, restb) = (fa.drop_first(), fb.drop_first());
        let xa = a0 + (resta.flatten() + ya);
        let xb = b0 + (restb.flatten() + yb);
        assert(fa.flatten() + ya =~= xa);
        assert(fb.flatten() + yb =~= xb);
        assert(xa.take(a0.len() as int) =~= a0);
        assert(a0.take(a0.len() as int) =~= a0);
        assert(xb.take(b0.len() as int) =~= b0);
        assert(b0.take(b0.len() as int) =~= b0);
        lemma_fields_transfer(schema, 0, a0, xa, 0, a0.len(), xa.len(), a0.len());
        lemma_fields_transfer(schema, 0, b0, xb, 0, b0.len(), xb.len(), b0.len());
        lemma_retry_stable(schema, xa, xb, xa.len(), xb.len());
        let n = a0.len();
        assert(a0 =~= xb.take(n as int));
        assert(xa.skip(n as int) =~= resta.flatten() + ya);
        assert(xb.skip(n as int) =~= restb.flatten() + yb);
        assert((resta.flatten() + ya).is_prefix_of(restb.flatten() + yb)) by {
            assert forall|j: int| 0 <= j < (resta.flatten() + ya).len() implies (resta.flatten()
                + ya)[j] == #[trigger] (restb.flatten() + yb)[j] by {
                assert(xa[j + n] == xb[j + n]);
            }
            assert((resta.flatten() + ya) =~= (restb.flatten() + yb).subrange(
                0,
                (resta.flatten() + ya).len() as int,
            ));
        }
        assert forall|i: int| 0 <= i < resta.len() implies #[trigger] resta[i].len() > 0
            && parse_row(schema, resta[i], resta[i].len()) == Parse::Done(
            ra.drop_first()[i],
            resta[i].len(),
        ) by {
            assert(resta[i] == fa[i + 1]);
        }
        assert forall|i: int| 0 <= i < restb.len() implies #[trigger] restb[i].len() > 0
            && parse_row(schema, restb[i], restb[i].len()) == Parse::Done(
            rb.drop_first()[i],
            restb[i].len(),
        ) by {
            assert(restb[i] == fb[i + 1]);
        }
        lemma_frames_agree(schema, resta, ra.drop_first(), ya, restb, rb.drop_first(), yb);
        assert(fa =~= seq![a0] + resta);
        assert(fb =~= seq![b0] + restb);
        assert(ra =~= seq![ra[0]] + ra.drop_first());
        assert(rb =~= seq![rb[0]] + rb.drop_first());
    }
}

} // verus!
