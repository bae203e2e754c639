//! Per-consumer delivery: each consumer has a cursor, the largest block timestamp it
//! was handed, and each poll hands it the retained blocks newer than that, oldest first.
use vstd::prelude::*;
use crate::logrecord::{ParsedBlock, BlockView, block_views, views, find_name};
use crate::retention::{RetentionBuffer, newer_than};
use crate::text::{
    all_distinct, first_index_from, lemma_first_index_bounds,
    lemma_first_index_distinct, lemma_first_index_push,
};

verus! {

/// The largest timestamp in `s`, or `init` when larger.
pub open spec fn max_ts_from(s: Seq<BlockView>, init: int) -> int
    decreases s.len(),
{
    if s.len() == 0 {
        init
    } else {
        let m = max_ts_from(s.drop_last(), init);
        if s.last().ts > m {
            s.last().ts
        } else {
            m
        }
    }
}

/// Timestamps strictly decrease from the newest block (first) to the oldest.
pub open spec fn newest_first(s: Seq<BlockView>) -> bool {
    forall|i: int, j: int| 0 <= i < j < s.len() ==> s[i].ts > s[j].ts
}

proof fn lemma_max_ts_at_least_init(s: Seq<BlockView>, init: int)
    ensures
        init <= max_ts_from(s, init),
    decreases s.len(),
{
    if s.len() > 0 {
        lemma_max_ts_at_least_init(s.drop_last(), init);
    }
}

/// Every block of `buf` is at or below the cursor that delivering it leaves behind.
proof fn lemma_cursor_covers(buf: Seq<BlockView>, c: int)
    ensures
        forall|j: int|
            0 <= j < buf.len() ==> #[trigger] buf[j].ts <= max_ts_from(newer_than(buf, c), c),
    decreases buf.len(),
{
    if buf.len() > 0 {
        let rest = buf.drop_first();
        lemma_cursor_covers(rest, c);
        let r = newer_than(rest, c);
        lemma_max_ts_at_least_init(r, c);
        if buf[0].ts > c {
            assert(r.push(buf[0]).drop_last() =~= r);
        }
        assert forall|j: int| 0 <= j < buf.len() implies #[trigger] buf[j].ts <= max_ts_from(
            newer_than(buf, c),
            c,
        ) by {
            if j > 0 {
                assert(buf[j] == rest[j - 1]);
            }
        }
    }
}

/// The cursor left by a delivery is the old one, or the timestamp of a block newer than it.
proof fn lemma_cursor_source(buf: Seq<BlockView>, c: int)
    ensures
        max_ts_from(newer_than(buf, c), c) == c || exists|j: int|
            0 <= j < buf.len() && #[trigger] buf[j].ts == max_ts_from(newer_than(buf, c), c)
                && buf[j].ts > c,
    decreases buf.len(),
{
    if buf.len() > 0 {
        let rest = buf.drop_first();
        lemma_cursor_source(rest, c);
        let r = newer_than(rest, c);
        if buf[0].ts > c {
            assert(r.push(buf[0]).drop_last() =~= r);
        }
        if max_ts_from(newer_than(buf, c), c) != c {
            if max_ts_from(newer_than(buf, c), c) == max_ts_from(r, c) {
                let j = choose|j: int|
                    0 <= j < rest.len() && #[trigger] rest[j].ts == max_ts_from(r, c) && rest[j].ts
                        > c;
                assert(buf[j + 1] == rest[j]);
            } else {
                assert(buf[0].ts == max_ts_from(newer_than(buf, c), c));
            }
        }
    }
}

proof fn lemma_nothing_newer(buf: Seq<BlockView>, c: int)
    requires
        forall|j: int| 0 <= j < buf.len() ==> #[trigger] buf[j].ts <= c,
    ensures
        newer_than(buf, c) == Seq::<BlockView>::empty(),
    decreases buf.len(),
{
    if buf.len() > 0 {
        let rest = buf.drop_first();
        assert forall|j: int| 0 <= j < rest.len() implies #[trigger] rest[j].ts <= c by {
            assert(rest[j] == buf[j + 1]);
        }
        lemma_nothing_newer(rest, c);
    }
}

proof fn lemma_newer_than_same_cut(s: Seq<BlockView>, c1: int, c2: int)
    requires
        forall|j: int| 0 <= j < s.len() ==> (#[trigger] s[j].ts > c1) == (s[j].ts > c2),
    ensures
        newer_than(s, c1) == newer_than(s, c2),
    decreases s.len(),
{
    if s.len() > 0 {
        let rest = s.drop_first();
        assert forall|j: int| 0 <= j < rest.len() implies (#[trigger] rest[j].ts > c1) == (
        rest[j].ts > c2) by {
            assert(rest[j] == s[j + 1]);
        }
        lemma_newer_than_same_cut(rest, c1, c2);
        assert((s[0].ts > c1) == (s[0].ts > c2));
    }
}

/// Newer blocks in front of older ones: the older ones are handed out first.
proof fn lemma_newer_than_append(a: Seq<BlockView>, b: Seq<BlockView>, c: int)
    ensures
        newer_than(a + b, c) == newer_than(b, c) + newer_than(a, c),
    decreases a.len(),
{
    if a.len() == 0 {
        assert(a + b =~= b);
        assert(newer_than(b, c) + Seq::<BlockView>::empty() =~= newer_than(b, c));
    } else {
        assert((a + b).drop_first() =~= a.drop_first() + b);
        assert((a + b)[0] == a[0]);
        lemma_newer_than_append(a.drop_first(), b, c);
        if a[0].ts > c {
            assert((newer_than(b, c) + newer_than(a.drop_first(), c)).push(a[0]) =~= newer_than(
                b,
                c,
            ) + newer_than(a.drop_first(), c).push(a[0]));
        }
    }
}

proof fn lemma_max_ts_append(a: Seq<BlockView>, b: Seq<BlockView>, init: int)
    ensures
        max_ts_from(a + b, init) == max_ts_from(b, max_ts_from(a, init)),
    decreases b.len(),
{
    if b.len() == 0 {
        assert(a + b =~= a);
    } else {
        assert((a + b).drop_last() =~= a + b.drop_last());
        lemma_max_ts_append(a, b.drop_last(), init);
    }
}

/// Polling again with nothing appended in between hands out nothing and leaves the cursor
/// where it was.
pub proof fn lemma_deliver_idempotent(buf: Seq<BlockView>, c: int)
    ensures
        newer_than(buf, max_ts_from(newer_than(buf, c), c)) == Seq::<BlockView>::empty(),
        max_ts_from(
            newer_than(buf, max_ts_from(newer_than(buf, c), c)),
            max_ts_from(newer_than(buf, c), c),
        ) == max_ts_from(newer_than(buf, c), c),
{
    lemma_cursor_covers(buf, c);
    lemma_nothing_newer(buf, max_ts_from(newer_than(buf, c), c));
}

/// Two polls with blocks appended in between and none evicted hand out, together, exactly
/// what one poll over all the blocks would, each block once, oldest first; the cursor ends
/// at the same place.
pub proof fn lemma_two_polls(buf: Seq<BlockView>, added: Seq<BlockView>, c: int)
    requires
        newest_first(added + buf),
    ensures
        newer_than(buf, c) + newer_than(added + buf, max_ts_from(newer_than(buf, c), c))
            == newer_than(added + buf, c),
        max_ts_from(
            newer_than(added + buf, max_ts_from(newer_than(buf, c), c)),
            max_ts_from(newer_than(buf, c), c),
        ) == max_ts_from(newer_than(added + buf, c), c),
{
    let c1 = max_ts_from(newer_than(buf, c), c);
    lemma_cursor_covers(buf, c);
    lemma_cursor_source(buf, c);
    lemma_max_ts_at_least_init(newer_than(buf, c), c);
    lemma_newer_than_append(added, buf, c1);
    lemma_newer_than_append(added, buf, c);
    lemma_nothing_newer(buf, c1);
    assert forall|j: int| 0 <= j < added.len() implies (#[trigger] added[j].ts > c1) == (
    added[j].ts > c) by {
        if c1 != c {
            let k = choose|k: int| 0 <= k < buf.len() && #[trigger] buf[k].ts == c1 && buf[k].ts > c;
            assert((added + buf)[j] == added[j]);
            assert((added + buf)[added.len() + k] == buf[k]);
        }
    }
    lemma_newer_than_same_cut(added, c1, c);
    assert(Seq::<BlockView>::empty() + newer_than(added, c) =~= newer_than(added, c));
    lemma_max_ts_append(newer_than(buf, c), newer_than(added, c), c);
}

/// The buffer after `batches` were appended, each newest first, in front of `buf`.
pub open spec fn stacked(buf: Seq<BlockView>, batches: Seq<Seq<BlockView>>) -> Seq<BlockView>
    decreases batches.len(),
{
    if batches.len() == 0 {
        buf
    } else {
        batches.last() + stacked(buf, batches.drop_last())
    }
}

/// A consumer at cursor `c` polls `buf`, then polls again after each batch is appended:
/// everything handed out, in order, and the final cursor.
pub open spec fn polls(buf: Seq<BlockView>, c: int, batches: Seq<Seq<BlockView>>) -> (
    Seq<BlockView>,
    int,
)
    decreases batches.len(),
{
    if batches.len() == 0 {
        (newer_than(buf, c), max_ts_from(newer_than(buf, c), c))
    } else {
        let prev = polls(buf, c, batches.drop_last());
        let d = newer_than(stacked(buf, batches), prev.1);
        (prev.0 + d, max_ts_from(d, prev.1))
    }
}

/// A consumer polling after every batch, with nothing evicted, receives over all its polls
/// exactly the blocks newer than its starting cursor, each once, oldest first.
pub proof fn lemma_polls_exactly_once(buf: Seq<BlockView>, c: int, batches: Seq<Seq<BlockView>>)
    requires
        newest_first(stacked(buf, batches)),
    ensures
        polls(buf, c, batches).0 == newer_than(stacked(buf, batches), c),
        polls(buf, c, batches).1 == max_ts_from(newer_than(stacked(buf, batches), c), c),
    decreases batches.len(),
{
    if batches.len() > 0 {
        let init = batches.drop_last();
        let below = stacked(buf, init);
        let all = stacked(buf, batches);
        assert(all == batches.last() + below);
        assert(newest_first(below)) by {
            assert forall|i: int, j: int| 0 <= i < j < below.len() implies below[i].ts
                > below[j].ts by {
                assert(all[batches.last().len() + i] == below[i]);
                assert(all[batches.last().len() + j] == below[j]);
            }
        }
        lemma_polls_exactly_once(buf, c, init);
        lemma_two_polls(below, batches.last(), c);
    }
}

/// Every block handed out is a block of the buffer, newer than the cursor.
proof fn lemma_newer_than_members(s: Seq<BlockView>, c: int)
    ensures
        forall|i: int|
            0 <= i < newer_than(s, c).len() ==> exists|j: int|
                0 <= j < s.len() && s[j] == #[trigger] newer_than(s, c)[i] && s[j].ts > c,
    decreases s.len(),
{
    if s.len() > 0 {
        let rest = s.drop_first();
        lemma_newer_than_members(rest, c);
        let r = newer_than(rest, c);
        assert forall|i: int| 0 <= i < newer_than(s, c).len() implies exists|j: int|
            0 <= j < s.len() && s[j] == #[trigger] newer_than(s, c)[i] && s[j].ts > c by {
            if i < r.len() {
                let j = choose|j: int| 0 <= j < rest.len() && rest[j] == #[trigger] r[i] && rest[j].ts > c;
                assert(s[j + 1] == rest[j]);
                assert(newer_than(s, c)[i] == r[i]);
            } else {
                assert(newer_than(s, c)[i] == s[0]);
            }
        }
    }
}

/// From a buffer whose timestamps strictly decrease from the newest, blocks are handed out
/// with strictly increasing timestamps: none twice.
pub proof fn lemma_newer_than_increasing(s: Seq<BlockView>, c: int)
    requires
        newest_first(s),
    ensures
        forall|i: int, j: int|
            0 <= i < j < newer_than(s, c).len() ==> newer_than(s, c)[i].ts < newer_than(s, c)[j].ts,
    decreases s.len(),
{
    if s.len() > 0 {
        let rest = s.drop_first();
        assert(newest_first(rest)) by {
            assert forall|a: int, b: int| 0 <= a < b < rest.len() implies rest[a].ts > rest[b].ts by {
                assert(rest[a] == s[a + 1]);
                assert(rest[b] == s[b + 1]);
            }
        }
        lemma_newer_than_increasing(rest, c);
        lemma_newer_than_members(rest, c);
        let r = newer_than(rest, c);
        if s[0].ts > c {
            assert forall|i: int, j: int|
                0 <= i < j < r.push(s[0]).len() implies r.push(s[0])[i].ts < r.push(s[0])[j].ts by {
                if j == r.len() {
                    let k = choose|k: int| 0 <= k < rest.len() && rest[k] == #[trigger] r[i] && rest[k].ts > c;
                    assert(rest[k] == s[k + 1]);
                } else {
                    assert(r.push(s[0])[i] == r[i]);
                    assert(r.push(s[0])[j] == r[j]);
                }
            }
        }
    }
}

/// Blocks handed out over several polls, laid end to end.
pub open spec fn concat_blocks(ds: Seq<Seq<BlockView>>) -> Seq<BlockView>
    decreases ds.len(),
{
    if ds.len() == 0 {
        Seq::empty()
    } else {
        concat_blocks(ds.drop_last()) + ds.last()
    }
}

/// Consecutive polls of one consumer, as `deliver` states each of them: poll `k` sees the
/// buffer `bufs[k]` and the cursor `cursors[k]`, hands out `delivered[k]` and leaves
/// `cursors[k + 1]`.
pub open spec fn observed_polls(
    bufs: Seq<Seq<BlockView>>,
    delivered: Seq<Seq<BlockView>>,
    cursors: Seq<int>,
) -> bool {
    &&& delivered.len() == bufs.len()
    &&& cursors.len() == bufs.len() + 1
    &&& forall|k: int|
        0 <= k < bufs.len() ==> #[trigger] delivered[k] == newer_than(bufs[k], cursors[k])
            && cursors[k + 1] == max_ts_from(delivered[k], cursors[k])
}

/// Between polls blocks are only put in front, with strictly increasing timestamps, and
/// none is evicted.
pub open spec fn only_appended(bufs: Seq<Seq<BlockView>>) -> bool {
    &&& forall|k: int| 0 <= k < bufs.len() ==> newest_first(#[trigger] bufs[k])
    &&& forall|k: int|
        0 <= k && k + 1 < bufs.len() ==> #[trigger] bufs[k].len() <= bufs[k + 1].len()
            && bufs[k + 1].subrange(bufs[k + 1].len() - bufs[k].len(), bufs[k + 1].len() as int)
            == bufs[k]
}

/// A consumer polling through `deliver` N times, with blocks only appended in between
/// (strictly increasing timestamps, nothing evicted), receives over all its polls exactly
/// the blocks of the last buffer newer than its starting cursor: each once, oldest first,
/// none omitted; its cursor ends at the newest of them.
pub proof fn lemma_deliver_polls(
    bufs: Seq<Seq<BlockView>>,
    delivered: Seq<Seq<BlockView>>,
    cursors: Seq<int>,
)
    requires
        bufs.len() > 0,
        observed_polls(bufs, delivered, cursors),
        only_appended(bufs),
    ensures
        concat_blocks(delivered) == newer_than(bufs.last(), cursors[0]),
        cursors.last() == max_ts_from(newer_than(bufs.last(), cursors[0]), cursors[0]),
        forall|i: int, j: int|
            0 <= i < j < concat_blocks(delivered).len() ==> concat_blocks(delivered)[i].ts
                < concat_blocks(delivered)[j].ts,
    decreases bufs.len(),
{
    let n = bufs.len() as int;
    assert(delivered[n - 1] == newer_than(bufs[n - 1], cursors[n - 1]));
    if n == 1 {
        assert(concat_blocks(delivered) =~= concat_blocks(delivered.drop_last()) + delivered[0]);
        assert(concat_blocks(delivered.drop_last()) =~= Seq::<BlockView>::empty());
        assert(concat_blocks(delivered) =~= delivered[0]);
    } else {
        let b0 = bufs.drop_last();
        let d0 = delivered.drop_last();
        let c0 = cursors.drop_last();
        assert(observed_polls(b0, d0, c0)) by {
            assert forall|k: int| 0 <= k < b0.len() implies #[trigger] d0[k] == newer_than(
                b0[k],
                c0[k],
            ) && c0[k + 1] == max_ts_from(d0[k], c0[k]) by {
                assert(delivered[k] == newer_than(bufs[k], cursors[k]));
            }
        }
        assert(only_appended(b0)) by {
            assert forall|k: int| 0 <= k < b0.len() implies newest_first(#[trigger] b0[k]) by {
                assert(newest_first(bufs[k]));
            }
            assert forall|k: int| 0 <= k && k + 1 < b0.len() implies #[trigger] b0[k].len()
                <= b0[k + 1].len() && b0[k + 1].subrange(
                b0[k + 1].len() - b0[k].len(),
                b0[k + 1].len() as int,
            ) == b0[k] by {
                assert(bufs[k].len() <= bufs[k + 1].len());
            }
        }
        lemma_deliver_polls(b0, d0, c0);
        let below = bufs[n - 2];
        let top = bufs[n - 1];
        assert(below.len() <= top.len());
        let added = top.subrange(0, top.len() - below.len());
        assert(top.subrange(top.len() - below.len(), top.len() as int) == below);
        assert(added + below =~= top);
        assert(newest_first(top));
        lemma_two_polls(below, added, cursors[0]);
        assert(concat_blocks(delivered) == concat_blocks(d0) + delivered[n - 1]);
        assert(c0.last() == cursors[n - 1]);
    }
    lemma_newer_than_increasing(bufs.last(), cursors[0]);
}

/// After pruning, `id` is present exactly when it was present with a cursor of at least
/// `keep_from`, and then with the same cursor.
spec fn kept_entry(
    new_ids: Seq<Seq<char>>,
    old_ids: Seq<Seq<char>>,
    old_cursors: Seq<i64>,
    new_cursors: Seq<i64>,
    id: Seq<char>,
    keep_from: i64,
) -> bool {
    let ko = first_index_from(old_ids, id, 0);
    let kn = first_index_from(new_ids, id, 0);
    &&& (kn < new_ids.len()) == (ko < old_ids.len() && old_cursors[ko] >= keep_from)
    &&& kn < new_ids.len() ==> new_cursors[kn] == old_cursors[ko]
}

/// Cursors of the consumers seen so far, by identity. A consumer not seen yet is at 0.
pub struct ClientTracker {
    ids: Vec<String>,
    cursors: Vec<i64>,
}

impl ClientTracker {
    pub closed spec fn wf(&self) -> bool {
        &&& self.ids@.len() == self.cursors@.len()
        &&& all_distinct(views(self.ids@))
    }

    pub closed spec fn known(&self, id: Seq<char>) -> bool {
        first_index_from(views(self.ids@), id, 0) < self.ids@.len()
    }

    /// The cursor of consumer `id`: the largest block timestamp it was handed, 0 at first.
    pub closed spec fn cursor_of(&self, id: Seq<char>) -> int {
        let k = first_index_from(views(self.ids@), id, 0);
        if k < self.ids@.len() {
            self.cursors@[k] as int
        } else {
            0
        }
    }

    pub fn new() -> (r: ClientTracker)
        ensures
            r.wf(),
            forall|id: Seq<char>| !r.known(id) && r.cursor_of(id) == 0,
    {
        let r = ClientTracker { ids: Vec::new(), cursors: Vec::new() };
        proof {
            assert(views(r.ids@) =~= Seq::<Seq<char>>::empty());
        }
        r
    }

    /// Forgets the consumers whose cursor is below `keep_from`, when `keep_from` is
    /// positive; the others keep theirs. A consumer forgotten starts again at 0 on its next
    /// poll, which, with every retained block at or above `keep_from`, hands it the same
    /// blocks as its old cursor would. With `keep_from` at 0 or below nothing changes.
    pub fn prune(&mut self, keep_from: i64)
        requires
            old(self).wf(),
        ensures
            final(self).wf(),
            keep_from <= 0 ==> *final(self) == *old(self),
            keep_from > 0 ==> forall|id: Seq<char>|
                #[trigger] final(self).known(id) == (old(self).known(id) && old(self).cursor_of(id)
                    >= keep_from),
            keep_from > 0 ==> forall|id: Seq<char>|
                #[trigger] final(self).cursor_of(id) == if old(self).cursor_of(id) >= keep_from {
                    old(self).cursor_of(id)
                } else {
                    0
                },
    {
        if keep_from <= 0 {
            return;
        }
        let ghost old_ids = views(self.ids@);
        let ghost old_cursors = self.cursors@;
        let mut ids: Vec<String> = Vec::new();
        let mut cursors: Vec<i64> = Vec::new();
        let ghost mut origin: Seq<int> = Seq::empty();
        let mut i: usize = 0;
        proof {
            assert(views(ids@) =~= Seq::<Seq<char>>::empty());
        }
        while i < self.ids.len()
            invariant
                i <= self.ids@.len(),
                self.ids@.len() == self.cursors@.len(),
                old_ids == views(self.ids@),
                old_cursors == self.cursors@,
                all_distinct(old_ids),
                ids@.len() == cursors@.len(),
                origin.len() == ids@.len(),
                all_distinct(views(ids@)),
                forall|j: int|
                    0 <= j < ids@.len() ==> 0 <= #[trigger] origin[j] < i && views(ids@)[j]
                        == old_ids[origin[j]] && cursors@[j] == old_cursors[origin[j]]
                        && cursors@[j] >= keep_from,
                forall|k: int|
                    0 <= k < i && old_cursors[k] >= keep_from ==> exists|j: int|
                        0 <= j < ids@.len() && #[trigger] origin[j] == k,
            decreases self.ids.len() - i,
        {
            if self.cursors[i] >= keep_from {
                let ghost before = views(ids@);
                ids.push(self.ids[i].clone());
                cursors.push(self.cursors[i]);
                proof {
                    let origin0 = origin;
                    origin = origin.push(i as int);
                    assert(views(ids@) =~= before.push(old_ids[i as int]));
                    assert forall|a: int, b: int|
                        0 <= a < b < views(ids@).len() implies views(ids@)[a] != views(
                        ids@,
                    )[b] by {
                        if b == before.len() {
                            assert(views(ids@)[a] == old_ids[origin[a]]);
                            assert(origin[a] < i);
                        } else {
                            assert(views(ids@)[a] == before[a]);
                            assert(views(ids@)[b] == before[b]);
                        }
                    }
                    assert forall|k: int|
                        0 <= k < i + 1 && old_cursors[k] >= keep_from implies exists|j: int|
                        0 <= j < ids@.len() && #[trigger] origin[j] == k by {
                        if k == i {
                            assert(origin[ids@.len() - 1] == k);
                        } else {
                            let j = choose|j: int| 0 <= j < origin0.len() && #[trigger] origin0[j] == k;
                            assert(origin[j] == origin0[j]);
                        }
                    }
                }
            }
            i = i + 1;
        }
        proof {
            let new_ids = views(ids@);
            assert forall|id: Seq<char>|
                #[trigger] kept_entry(new_ids, old_ids, old_cursors, cursors@, id, keep_from) by {
                lemma_first_index_bounds(old_ids, id, 0);
                lemma_first_index_bounds(new_ids, id, 0);
                let ko = first_index_from(old_ids, id, 0);
                let kn = first_index_from(new_ids, id, 0);
                if kn < new_ids.len() {
                    lemma_first_index_distinct(old_ids, origin[kn]);
                }
                if ko < old_ids.len() && old_cursors[ko] >= keep_from {
                    let j = choose|j: int| 0 <= j < ids@.len() && #[trigger] origin[j] == ko;
                    lemma_first_index_distinct(new_ids, j);
                }
                if kn == new_ids.len() && ko < old_ids.len() && old_cursors[ko] >= keep_from {
                    let j = choose|j: int| 0 <= j < ids@.len() && #[trigger] origin[j] == ko;
                    assert(new_ids[j] == id);
                }
            }
        }
        let ghost new_cursors = cursors@;
        self.ids = ids;
        self.cursors = cursors;
        proof {
            assert forall|id: Seq<char>| #[trigger] self.known(id) == (old(self).known(id)
                && old(self).cursor_of(id) >= keep_from) by {
                assert(kept_entry(views(self.ids@), old_ids, old_cursors, new_cursors, id, keep_from));
            }
            assert forall|id: Seq<char>| #[trigger] self.cursor_of(id) == if old(
                self,
            ).cursor_of(id) >= keep_from {
                old(self).cursor_of(id)
            } else {
                0
            } by {
                assert(kept_entry(views(self.ids@), old_ids, old_cursors, new_cursors, id, keep_from));
            }
        }
    }

    pub fn cursor(&self, id: &str) -> (r: i64)
        requires
            self.wf(),
        ensures
            r == self.cursor_of(id@),
    {
        let key = id.to_string();
        let k = find_name(&self.ids, &key);
        if k < self.ids.len() {
            self.cursors[k]
        } else {
            0
        }
    }

    /// Hands consumer `client_id` every block of `buffer` whose timestamp exceeds its
    /// cursor, oldest first, and moves its cursor to the largest timestamp handed out
    /// (unchanged when nothing is). The consumer is registered on its first poll; other
    /// consumers' cursors are untouched.
    pub fn deliver(&mut self, client_id: &str, buffer: &RetentionBuffer) -> (r: Vec<ParsedBlock>)
        requires
            old(self).wf(),
        ensures
            final(self).wf(),
            block_views(r@) == newer_than(buffer.blocks_view(), old(self).cursor_of(client_id@)),
            final(self).cursor_of(client_id@) == max_ts_from(
                block_views(r@),
                old(self).cursor_of(client_id@),
            ),
            final(self).known(client_id@),
            forall|o: Seq<char>|
                o != client_id@ ==> #[trigger] final(self).cursor_of(o) == old(self).cursor_of(o)
                    && final(self).known(o) == old(self).known(o),
    {
        let key = client_id.to_string();
        let ghost id = client_id@;
        let mut k = find_name(&self.ids, &key);
        proof {
            lemma_first_index_bounds(views(self.ids@), id, 0);
        }
        if k == self.ids.len() {
            let ghost old_ids = views(self.ids@);
            self.ids.push(key);
            self.cursors.push(0);
            proof {
                assert(views(self.ids@) =~= old_ids.push(id));
                assert forall|o: Seq<char>| #[trigger] first_index_from(views(self.ids@), o, 0)
                    == if first_index_from(old_ids, o, 0) < old_ids.len() {
                    first_index_from(old_ids, o, 0)
                } else if id == o {
                    old_ids.len() as int
                } else {
                    old_ids.len() + 1int
                } by {
                    lemma_first_index_push(old_ids, id, o, 0);
                }
                assert forall|o: Seq<char>| o != id implies #[trigger] self.cursor_of(o)
                    == old(self).cursor_of(o) && self.known(o) == old(self).known(o) by {
                    lemma_first_index_bounds(old_ids, o, 0);
                    if first_index_from(old_ids, o, 0) < old_ids.len() {
                        assert(self.cursors@[first_index_from(old_ids, o, 0)]
                            == old(self).cursors@[first_index_from(old_ids, o, 0)]);
                    }
                }
            }
        }
        let ghost mid = *self;
        let last = self.cursors[k];
        proof {
            assert(self.cursor_of(id) == last);
            assert(last == old(self).cursor_of(id));
        }
        let out = buffer.snapshot_since(last);
        let mut newest = last;
        let mut j: usize = 0;
        while j < out.len()
            invariant
                j <= out@.len(),
                newest == max_ts_from(block_views(out@).take(j as int), last as int),
            decreases out.len() - j,
        {
            proof {
                assert(block_views(out@).take(j + 1).drop_last() =~= block_views(out@).take(
                    j as int,
                ));
                assert(block_views(out@).take(j + 1).last() == out@[j as int]@);
            }
            let t = out[j].get_ts();
            if t > newest {
                newest = t;
            }
            j = j + 1;
        }
        proof {
            assert(block_views(out@).take(j as int) =~= block_views(out@));
        }
        self.cursors.set(k, newest);
        proof {
            assert(views(self.ids@) == views(mid.ids@));
            assert forall|o: Seq<char>| o != id implies #[trigger] self.cursor_of(o)
                == mid.cursor_of(o) && self.known(o) == mid.known(o) by {
                let ko = first_index_from(views(self.ids@), o, 0);
                if ko < self.ids@.len() {
                    lemma_first_index_bounds(views(self.ids@), o, 0);
                    assert(views(self.ids@)[ko] == o);
                    assert(ko != k);
                }
            }
        }
        out
    }
}

} // verus!
