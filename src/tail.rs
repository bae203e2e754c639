//! Incremental tailing of a growing file: bytes arrive in chunks, complete lines
//! (each ending with a line feed) are handed out, and the unterminated rest is
//! carried over to the next chunk. A file that shrinks is read again from its new
//! length, with nothing carried over.
use vstd::prelude::*;
use vstd::utf8::{valid_utf8, decode_utf8};

verus! {

pub const LINE_FEED: u8 = 10;

/// The text that `String::from_utf8_lossy` makes of `b`: invalid sequences become U+FFFD.
pub uninterp spec fn lossy_text(b: Seq<u8>) -> Seq<char>;

/// Relies on `String::from_utf8_lossy`: it decodes valid UTF-8 as it is and never fails.
#[verifier::external_body]
fn decode_lossy(b: &[u8]) -> (r: String)
    ensures
        r@ == lossy_text(b@),
        valid_utf8(b@) ==> r@ == decode_utf8(b@),
{
    String::from_utf8_lossy(b).into_owned()
}

/// Splits `b`, read after the unterminated `rest`, into the complete lines it finishes
/// (each ending with its line feed) and the new unterminated rest.
pub open spec fn split_with(rest: Seq<u8>, b: Seq<u8>) -> (Seq<Seq<u8>>, Seq<u8>)
    decreases b.len(),
{
    if b.len() == 0 {
        (Seq::empty(), rest)
    } else {
        let prev = split_with(rest, b.drop_last());
        let cur = prev.1.push(b.last());
        if b.last() == LINE_FEED {
            (prev.0.push(cur), Seq::empty())
        } else {
            (prev.0, cur)
        }
    }
}

/// All lines laid end to end.
pub open spec fn concat_lines(ls: Seq<Seq<u8>>) -> Seq<u8>
    decreases ls.len(),
{
    if ls.len() == 0 {
        Seq::empty()
    } else {
        concat_lines(ls.drop_last()) + ls.last()
    }
}

pub open spec fn has_no_feed(b: Seq<u8>) -> bool {
    forall|i: int| 0 <= i < b.len() ==> #[trigger] b[i] != LINE_FEED
}

/// A complete line: it ends with a line feed and holds no other.
pub open spec fn is_complete_line(l: Seq<u8>) -> bool {
    l.len() > 0 && l.last() == LINE_FEED && has_no_feed(l.drop_last())
}

/// The model of a tailer: the unterminated rest and the file length last recorded.
pub struct TailModel {
    pub rest: Seq<u8>,
    pub recorded_len: nat,
}

/// What the tailer does on a new length of the file: a shorter file means it was
/// truncated, so the rest is dropped and reading resumes at the new length (`true`).
pub open spec fn observe_model(m: TailModel, len: nat) -> (TailModel, bool) {
    if len < m.recorded_len {
        (TailModel { rest: Seq::empty(), recorded_len: len }, true)
    } else {
        (TailModel { rest: m.rest, recorded_len: len }, false)
    }
}

/// What the tailer hands out for a chunk, and its next state.
pub open spec fn feed_model(m: TailModel, chunk: Seq<u8>) -> (Seq<Seq<u8>>, TailModel) {
    let (ls, rest) = split_with(m.rest, chunk);
    (ls, TailModel { rest, recorded_len: m.recorded_len })
}

/// Lines handed out over a sequence of chunks, and the rest left at the end.
pub open spec fn split_all(rest: Seq<u8>, chunks: Seq<Seq<u8>>) -> (Seq<Seq<u8>>, Seq<u8>)
    decreases chunks.len(),
{
    if chunks.len() == 0 {
        (Seq::empty(), rest)
    } else {
        let prev = split_all(rest, chunks.drop_last());
        let next = split_with(prev.1, chunks.last());
        (prev.0 + next.0, next.1)
    }
}

/// All chunks laid end to end.
pub open spec fn concat_chunks(cs: Seq<Seq<u8>>) -> Seq<u8>
    decreases cs.len(),
{
    if cs.len() == 0 {
        Seq::empty()
    } else {
        concat_chunks(cs.drop_last()) + cs.last()
    }
}

proof fn lemma_concat_lines_append(a: Seq<Seq<u8>>, b: Seq<Seq<u8>>)
    ensures
        concat_lines(a + b) == concat_lines(a) + concat_lines(b),
    decreases b.len(),
{
    if b.len() == 0 {
        assert(a + b =~= a);
        assert(concat_lines(a) + concat_lines(b) =~= concat_lines(a));
    } else {
        assert((a + b).drop_last() =~= a + b.drop_last());
        lemma_concat_lines_append(a, b.drop_last());
        assert(concat_lines(a) + concat_lines(b) =~= concat_lines(a) + concat_lines(b.drop_last())
            + b.last());
    }
}

/// Nothing is lost or added: the lines handed out, followed by the new rest, are the old
/// rest followed by the chunk. Every line handed out is complete, and a rest without a
/// line feed stays without one.
pub proof fn lemma_split_with(rest: Seq<u8>, b: Seq<u8>)
    ensures
        concat_lines(split_with(rest, b).0) + split_with(rest, b).1 == rest + b,
        has_no_feed(rest) ==> has_no_feed(split_with(rest, b).1),
        has_no_feed(rest) ==> forall|i: int|
            0 <= i < split_with(rest, b).0.len() ==> is_complete_line(
                #[trigger] split_with(rest, b).0[i],
            ),
    decreases b.len(),
{
    if b.len() > 0 {
        lemma_split_with(rest, b.drop_last());
        let prev = split_with(rest, b.drop_last());
        let cur = prev.1.push(b.last());
        assert(rest + b =~= (rest + b.drop_last()).push(b.last()));
        if b.last() == LINE_FEED {
            assert(concat_lines(prev.0.push(cur)) == concat_lines(prev.0) + cur) by {
                assert(prev.0.push(cur).drop_last() =~= prev.0);
            }
            assert(concat_lines(prev.0.push(cur)) + Seq::<u8>::empty() =~= concat_lines(prev.0)
                + prev.1 + seq![b.last()]);
            if has_no_feed(rest) {
                assert(cur.drop_last() =~= prev.1);
                assert(is_complete_line(cur));
                assert forall|i: int| 0 <= i < prev.0.push(cur).len() implies is_complete_line(
                    #[trigger] prev.0.push(cur)[i],
                ) by {
                    if i < prev.0.len() {
                        assert(prev.0.push(cur)[i] == prev.0[i]);
                    }
                }
            }
        } else {
            assert(concat_lines(prev.0) + cur =~= concat_lines(prev.0) + prev.1 + seq![b.last()]);
            if has_no_feed(rest) {
                assert forall|i: int| 0 <= i < cur.len() implies #[trigger] cur[i] != LINE_FEED by {
                    if i < prev.1.len() {
                        assert(cur[i] == prev.1[i]);
                    }
                }
            }
        }
    } else {
        assert(rest + b =~= rest);
    }
}

/// Splitting does not depend on where the chunks end: reading `a` and then `b` hands out
/// the same lines, and leaves the same rest, as reading `a + b` at once.
pub proof fn lemma_split_chunk_boundary(rest: Seq<u8>, a: Seq<u8>, b: Seq<u8>)
    ensures
        split_with(rest, a + b).0 == split_with(rest, a).0 + split_with(split_with(rest, a).1, b).0,
        split_with(rest, a + b).1 == split_with(split_with(rest, a).1, b).1,
    decreases b.len(),
{
    let first = split_with(rest, a);
    if b.len() == 0 {
        assert(a + b =~= a);
        assert(first.0 + Seq::<Seq<u8>>::empty() =~= first.0);
    } else {
        assert((a + b).drop_last() =~= a + b.drop_last());
        assert((a + b).last() == b.last());
        lemma_split_chunk_boundary(rest, a, b.drop_last());
        let second = split_with(first.1, b.drop_last());
        let cur = second.1.push(b.last());
        if b.last() == LINE_FEED {
            assert((first.0 + second.0).push(cur) =~= first.0 + second.0.push(cur));
        }
    }
}

/// Tailer round trip: whatever the chunk boundaries, the lines handed out over a sequence
/// of chunks, followed by the rest still withheld, are exactly the input; every line
/// handed out is complete, and the withheld rest holds no line feed.
pub proof fn lemma_split_all_round_trip(chunks: Seq<Seq<u8>>)
    ensures
        concat_lines(split_all(Seq::empty(), chunks).0) + split_all(Seq::empty(), chunks).1
            == concat_chunks(chunks),
        has_no_feed(split_all(Seq::empty(), chunks).1),
        forall|i: int|
            0 <= i < split_all(Seq::empty(), chunks).0.len() ==> is_complete_line(
                #[trigger] split_all(Seq::empty(), chunks).0[i],
            ),
        split_all(Seq::empty(), chunks) == split_with(Seq::empty(), concat_chunks(chunks)),
    decreases chunks.len(),
{
    if chunks.len() == 0 {
        assert(concat_lines(Seq::<Seq<u8>>::empty()) + Seq::<u8>::empty() =~= Seq::<u8>::empty());
    } else {
        let init = chunks.drop_last();
        lemma_split_all_round_trip(init);
        let prev = split_all(Seq::empty(), init);
        let next = split_with(prev.1, chunks.last());
        lemma_split_with(prev.1, chunks.last());
        lemma_concat_lines_append(prev.0, next.0);
        lemma_split_chunk_boundary(Seq::empty(), concat_chunks(init), chunks.last());
        let a = concat_lines(prev.0);
        let b = concat_lines(next.0);
        assert(b + next.1 == prev.1 + chunks.last());
        assert((a + b) + next.1 =~= a + (b + next.1));
        assert(a + (prev.1 + chunks.last()) =~= (a + prev.1) + chunks.last());
        assert forall|i: int| 0 <= i < (prev.0 + next.0).len() implies is_complete_line(
            #[trigger] (prev.0 + next.0)[i],
        ) by {
            if i < prev.0.len() {
                assert((prev.0 + next.0)[i] == prev.0[i]);
            } else {
                assert((prev.0 + next.0)[i] == next.0[i - prev.0.len()]);
            }
        }
    }
}

/// Truncation: once the tailer sees the file shorter than recorded, it asks for the
/// file to be reopened and read on from the new length, and what it hands out afterwards
/// comes from the chunk read after the shrink point alone, nothing from before it.
pub proof fn lemma_truncation_recovers(m: TailModel, len: nat, chunk: Seq<u8>)
    requires
        len < m.recorded_len,
    ensures
        observe_model(m, len).1,
        observe_model(m, len).0.recorded_len == len,
        feed_model(observe_model(m, len).0, chunk).0 == split_with(Seq::empty(), chunk).0,
        concat_lines(feed_model(observe_model(m, len).0, chunk).0) + feed_model(
            observe_model(m, len).0,
            chunk,
        ).1.rest == chunk,
{
    lemma_split_with(Seq::empty(), chunk);
    assert(Seq::<u8>::empty() + chunk =~= chunk);
}

/// Appends the complete lines that `chunk` finishes after `rest` to `lines`, and leaves the
/// unterminated remainder in `rest`.
fn split_into(rest: &mut Vec<u8>, chunk: &[u8], lines: &mut Vec<Vec<u8>>)
    ensures
        final(lines)@.map_values(|l: Vec<u8>| l@) == old(lines)@.map_values(|l: Vec<u8>| l@)
            + split_with(old(rest)@, chunk@).0,
        final(rest)@ == split_with(old(rest)@, chunk@).1,
{
    let ghost rest0 = rest@;
    let ghost lines0 = lines@.map_values(|l: Vec<u8>| l@);
    let mut i: usize = 0;
    while i < chunk.len()
        invariant
            i <= chunk@.len(),
            lines@.map_values(|l: Vec<u8>| l@) == lines0 + split_with(
                rest0,
                chunk@.take(i as int),
            ).0,
            rest@ == split_with(rest0, chunk@.take(i as int)).1,
        decreases chunk.len() - i,
    {
        let c = chunk[i];
        proof {
            assert(chunk@.take(i + 1).drop_last() =~= chunk@.take(i as int));
            assert(chunk@.take(i + 1).last() == c);
        }
        rest.push(c);
        if c == LINE_FEED {
            let mut line: Vec<u8> = Vec::new();
            std::mem::swap(&mut line, rest);
            proof {
                assert(lines@.push(line).map_values(|l: Vec<u8>| l@) =~= lines@.map_values(
                    |l: Vec<u8>| l@,
                ).push(line@));
            }
            lines.push(line);
        }
        i = i + 1;
    }
    proof {
        assert(chunk@.take(i as int) =~= chunk@);
    }
}

/// The state carried between reads of a tailed file: the unterminated rest of the last
/// line, and the file length last recorded.
pub struct Tailer {
    rest: Vec<u8>,
    recorded_len: u64,
}

impl Tailer {
    pub closed spec fn model(&self) -> TailModel {
        TailModel { rest: self.rest@, recorded_len: self.recorded_len as nat }
    }

    /// The withheld rest holds no line feed.
    pub closed spec fn wf(&self) -> bool {
        has_no_feed(self.rest@)
    }

    /// A tailer that has seen no bytes, with `start_len` as the recorded length (the
    /// length at which reading starts, or 0 to read from the beginning).
    pub fn new(start_len: u64) -> (r: Tailer)
        ensures
            r.wf(),
            r.model() == (TailModel { rest: Seq::empty(), recorded_len: start_len as nat }),
    {
        Tailer { rest: Vec::new(), recorded_len: start_len }
    }

    /// The bytes withheld so far: the start of a line whose end has not arrived.
    pub fn pending(&self) -> (r: &Vec<u8>)
        ensures
            r@ == self.model().rest,
    {
        &self.rest
    }

    pub fn recorded_len(&self) -> (r: u64)
        ensures
            r == self.model().recorded_len,
    {
        self.recorded_len
    }

    /// Takes the next chunk read from the file and returns the lines it completes, as bytes
    /// with their line feeds.
    pub fn feed_bytes(&mut self, chunk: &[u8]) -> (r: Vec<Vec<u8>>)
        ensures
            r@.map_values(|l: Vec<u8>| l@) == feed_model(old(self).model(), chunk@).0,
            final(self).model() == feed_model(old(self).model(), chunk@).1,
    {
        let mut lines: Vec<Vec<u8>> = Vec::new();
        split_into(&mut self.rest, chunk, &mut lines);
        proof {
            assert(Seq::<Seq<u8>>::empty() + split_with(old(self).rest@, chunk@).0 =~= split_with(
                old(self).rest@,
                chunk@,
            ).0);
        }
        lines
    }

    /// Takes the next chunk read from the file and returns the lines it completes, decoded
    /// with invalid UTF-8 replaced (a line of valid UTF-8 is its own text). An empty chunk
    /// yields no line.
    pub fn feed(&mut self, chunk: &[u8]) -> (r: Vec<String>)
        requires
            old(self).wf(),
        ensures
            final(self).wf(),
            r.len() == feed_model(old(self).model(), chunk@).0.len(),
            forall|i: int|
                0 <= i < r.len() ==> #[trigger] r[i]@ == lossy_text(
                    feed_model(old(self).model(), chunk@).0[i],
                ),
            forall|i: int|
                0 <= i < r.len() && valid_utf8(feed_model(old(self).model(), chunk@).0[i])
                    ==> #[trigger] r[i]@ == decode_utf8(feed_model(old(self).model(), chunk@).0[i]),
            forall|i: int|
                0 <= i < r.len() ==> is_complete_line(
                    #[trigger] feed_model(old(self).model(), chunk@).0[i],
                ),
            final(self).model() == feed_model(old(self).model(), chunk@).1,
    {
        proof {
            lemma_split_with(self.rest@, chunk@);
        }
        let raw = self.feed_bytes(chunk);
        let mut out: Vec<String> = Vec::new();
        let mut i: usize = 0;
        while i < raw.len()
            invariant
                i <= raw.len(),
                out.len() == i,
                forall|j: int| 0 <= j < i ==> #[trigger] out[j]@ == lossy_text(raw[j]@),
                forall|j: int|
                    0 <= j < i && valid_utf8(raw[j]@) ==> #[trigger] out[j]@ == decode_utf8(
                        raw[j]@,
                    ),
            decreases raw.len() - i,
        {
            out.push(decode_lossy(raw[i].as_slice()));
            i = i + 1;
        }
        proof {
            assert forall|j: int| 0 <= j < out.len() implies #[trigger] out[j]@ == lossy_text(
                feed_model(old(self).model(), chunk@).0[j],
            ) && (valid_utf8(feed_model(old(self).model(), chunk@).0[j]) ==> out[j]@
                == decode_utf8(feed_model(old(self).model(), chunk@).0[j])) by {
                assert(raw@.map_values(|l: Vec<u8>| l@)[j] == raw[j]@);
            }
        }
        out
    }

    /// Records the file's current length. A length below the recorded one means the file
    /// was truncated: the withheld rest is dropped and the result is `true`, asking the
    /// caller to reopen the file and read on from the new length, `len`.
    pub fn observe_len(&mut self, len: u64) -> (reopen: bool)
        requires
            old(self).wf(),
        ensures
            final(self).wf(),
            final(self).model() == observe_model(old(self).model(), len as nat).0,
            reopen == observe_model(old(self).model(), len as nat).1,
    {
        let truncated = len < self.recorded_len;
        if truncated {
            self.rest.clear();
        }
        self.recorded_len = len;
        truncated
    }
}

/// Takes the next chunk read from a file after the carried-over `remainder`: the bytes
/// of both, laid end to end, are split into the complete lines they hold (each ending with
/// its line feed), which are returned decoded with invalid UTF-8 replaced (a line of valid
/// UTF-8 is its own text); the bytes after the last line feed are left in `remainder`. An
/// empty chunk yields nothing and changes nothing.
pub fn incremental_read_line(remainder: &mut Vec<u8>, chunk: &[u8]) -> (r: Vec<String>)
    ensures
        chunk@.len() == 0 ==> r.len() == 0 && final(remainder)@ == old(remainder)@,
        chunk@.len() > 0 ==> {
            let split = split_with(Seq::empty(), old(remainder)@ + chunk@);
            &&& r.len() == split.0.len()
            &&& forall|i: int| 0 <= i < r.len() ==> #[trigger] r[i]@ == lossy_text(split.0[i])
            &&& forall|i: int|
                0 <= i < r.len() && valid_utf8(split.0[i]) ==> #[trigger] r[i]@ == decode_utf8(
                    split.0[i],
                )
            &&& forall|i: int| 0 <= i < r.len() ==> is_complete_line(#[trigger] split.0[i])
            &&& concat_lines(split.0) + final(remainder)@ == old(remainder)@ + chunk@
            &&& has_no_feed(final(remainder)@)
            &&& final(remainder)@ == split.1
        },
{
    if chunk.len() == 0 {
        return Vec::new();
    }
    let mut all: Vec<u8> = Vec::new();
    std::mem::swap(&mut all, remainder);
    all.extend_from_slice(chunk);
    proof {
        assert(all@ =~= old(remainder)@ + chunk@);
    }
    let mut t = Tailer::new(0);
    let ghost m0 = t.model();
    let r = t.feed(all.as_slice());
    std::mem::swap(&mut t.rest, remainder);
    proof {
        assert(m0.rest == Seq::<u8>::empty());
        lemma_split_with(Seq::empty(), all@);
        assert(Seq::<u8>::empty() + all@ =~= all@);
        assert(has_no_feed(Seq::<u8>::empty()));
    }
    r
}

} // verus!
