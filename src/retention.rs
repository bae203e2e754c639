//! The retention buffer: blocks newest first, the oldest evicted once the span of
//! timestamps exceeds the configured duration.
use vstd::prelude::*;
use std::collections::VecDeque;
use crate::logrecord::{ParsedBlock, BlockView, block_views};

verus! {

/// Span of timestamps from the newest block (first) to the oldest (last).
pub open spec fn span(s: Seq<BlockView>) -> int {
    s[0].ts - s.last().ts
}

/// Drops the oldest blocks of `s` (newest first) while the span exceeds `max`.
pub open spec fn evict_spec(s: Seq<BlockView>, max: Option<int>) -> Seq<BlockView>
    decreases s.len(),
{
    match max {
        Some(m) => if s.len() > 0 && span(s) > m {
            evict_spec(s.drop_last(), max)
        } else {
            s
        },
        None => s,
    }
}

/// Eviction keeps a prefix of the blocks, newest first, in their order, and leaves a span
/// within the configured duration; with no duration configured nothing is dropped.
pub proof fn lemma_evict_keeps_order_and_bound(s: Seq<BlockView>, max: Option<int>)
    ensures
        evict_spec(s, max).len() <= s.len(),
        evict_spec(s, max) == s.take(evict_spec(s, max).len() as int),
        max is Some && evict_spec(s, max).len() > 0 ==> span(evict_spec(s, max)) <= max->0,
        max is None ==> evict_spec(s, max) == s,
    decreases s.len(),
{
    if let Some(m) = max {
        if s.len() > 0 && span(s) > m {
            lemma_evict_keeps_order_and_bound(s.drop_last(), max);
            let r = evict_spec(s.drop_last(), max);
            assert(s.drop_last().take(r.len() as int) =~= s.take(r.len() as int));
        } else {
            assert(s.take(s.len() as int) =~= s);
        }
    } else {
        assert(s.take(s.len() as int) =~= s);
    }
}

/// The blocks of `s` (newest first) whose timestamp exceeds `last`, oldest first.
pub open spec fn newer_than(s: Seq<BlockView>, last: int) -> Seq<BlockView>
    decreases s.len(),
{
    if s.len() == 0 {
        Seq::empty()
    } else {
        let rest = newer_than(s.drop_first(), last);
        if s[0].ts > last {
            rest.push(s[0])
        } else {
            rest
        }
    }
}

/// The buffer after appending each of `bs` in turn, evicting after each.
pub open spec fn append_all(s: Seq<BlockView>, bs: Seq<BlockView>, max: Option<int>) -> Seq<BlockView>
    decreases bs.len(),
{
    if bs.len() == 0 {
        s
    } else {
        evict_spec(seq![bs.last()] + append_all(s, bs.drop_last(), max), max)
    }
}

/// `bs` newest first: the last appended comes first.
pub open spec fn newest_of(bs: Seq<BlockView>) -> Seq<BlockView> {
    bs.reverse()
}

/// Over any sequence of appends, each followed by eviction, the buffer always holds the
/// newest blocks in the order they were appended, newest first (no block is reordered),
/// and their span stays within the configured duration.
pub proof fn lemma_appends_keep_order_and_bound(
    s: Seq<BlockView>,
    bs: Seq<BlockView>,
    max: Option<int>,
)
    requires
        max is Some && s.len() > 0 ==> span(s) <= max->0,
    ensures
        append_all(s, bs, max).len() <= bs.len() + s.len(),
        append_all(s, bs, max) == (newest_of(bs) + s).take(append_all(s, bs, max).len() as int),
        max is Some && append_all(s, bs, max).len() > 0 ==> span(append_all(s, bs, max)) <= max->0,
    decreases bs.len(),
{
    if bs.len() == 0 {
        assert(newest_of(bs) + s =~= s);
        assert(s.take(s.len() as int) =~= s);
    } else {
        let init = bs.drop_last();
        lemma_appends_keep_order_and_bound(s, init, max);
        let prev = append_all(s, init, max);
        let whole = seq![bs.last()] + prev;
        lemma_evict_keeps_order_and_bound(whole, max);
        let kept = evict_spec(whole, max);
        assert(newest_of(bs) =~= seq![bs.last()] + newest_of(init));
        let all = newest_of(bs) + s;
        assert(all =~= seq![bs.last()] + (newest_of(init) + s));
        assert forall|i: int| 0 <= i < kept.len() implies #[trigger] kept[i] == all[i] by {
            assert(kept[i] == whole[i]);
            if i > 0 {
                assert(whole[i] == prev[i - 1]);
                assert(prev[i - 1] == (newest_of(init) + s)[i - 1]);
            }
        }
        assert(kept =~= all.take(kept.len() as int));
    }
}

/// Blocks, newest first, bounded by the span of their timestamps.
pub struct RetentionBuffer {
    blocks: VecDeque<ParsedBlock>,
    max_duration: Option<i64>,
}

impl RetentionBuffer {
    pub closed spec fn blocks_view(&self) -> Seq<BlockView> {
        block_views(self.blocks@)
    }

    pub closed spec fn max_view(&self) -> Option<int> {
        match self.max_duration {
            Some(m) => Some(m as int),
            None => None,
        }
    }

    /// An empty buffer; `max_duration` (fixed-point seconds) bounds the span it keeps,
    /// `None` keeps everything.
    pub fn new(max_duration: Option<i64>) -> (r: RetentionBuffer)
        ensures
            r.blocks_view() == Seq::<BlockView>::empty(),
            r.max_view() == match max_duration {
                Some(m) => Some(m as int),
                None => None::<int>,
            },
    {
        let r = RetentionBuffer { blocks: VecDeque::new(), max_duration };
        proof {
            assert(block_views(r.blocks@) =~= Seq::<BlockView>::empty());
        }
        r
    }

    pub fn len(&self) -> (r: usize)
        ensures
            r == self.blocks_view().len(),
    {
        self.blocks.len()
    }

    /// The timestamp of the oldest retained block, if any.
    pub fn oldest_ts(&self) -> (r: Option<i64>)
        ensures
            r is None <==> self.blocks_view().len() == 0,
            r matches Some(t) ==> t == self.blocks_view().last().ts,
    {
        let n = self.blocks.len();
        if n == 0 {
            None
        } else {
            Some(self.blocks[n - 1].get_ts())
        }
    }

    /// The block at `i`, counting from the newest.
    pub fn get(&self, i: usize) -> (r: &ParsedBlock)
        requires
            i < self.blocks_view().len(),
        ensures
            r@ == self.blocks_view()[i as int],
    {
        &self.blocks[i]
    }

    /// The retained blocks whose timestamp exceeds `min_ts`, oldest first, as copies.
    pub fn snapshot_since(&self, min_ts: i64) -> (r: Vec<ParsedBlock>)
        ensures
            block_views(r@) == newer_than(self.blocks_view(), min_ts as int),
    {
        let ghost bv = self.blocks_view();
        let n = self.blocks.len();
        let mut out: Vec<ParsedBlock> = Vec::new();
        let mut j = n;
        proof {
            assert(bv.subrange(n as int, n as int) =~= Seq::<BlockView>::empty());
            assert(block_views(out@) =~= Seq::<BlockView>::empty());
        }
        while j > 0
            invariant
                j <= n,
                n == bv.len(),
                bv == self.blocks_view(),
                block_views(out@) == newer_than(bv.subrange(j as int, n as int), min_ts as int),
            decreases j,
        {
            j = j - 1;
            let b = &self.blocks[j];
            let t = b.get_ts();
            proof {
                assert(bv.subrange(j as int, n as int).drop_first() =~= bv.subrange(
                    j + 1,
                    n as int,
                ));
                assert(bv.subrange(j as int, n as int)[0] == b@);
            }
            if t > min_ts {
                let ghost prev = block_views(out@);
                out.push(b.duplicate());
                proof {
                    assert(block_views(out@) =~= prev.push(b@));
                }
            }
        }
        proof {
            assert(bv.subrange(0, n as int) =~= bv);
        }
        out
    }

    /// Inserts `block` as the newest, then evicts the oldest blocks while the span exceeds
    /// the configured duration.
    pub fn append(&mut self, block: ParsedBlock)
        ensures
            final(self).max_view() == old(self).max_view(),
            final(self).blocks_view() == evict_spec(
                seq![block@] + old(self).blocks_view(),
                old(self).max_view(),
            ),
    {
        let ghost b = block@;
        self.blocks.push_front(block);
        proof {
            assert(block_views(self.blocks@) =~= seq![b] + block_views(old(self).blocks@));
        }
        self.evict();
    }

    /// Drops the oldest blocks while the span between newest and oldest exceeds the
    /// configured duration.
    pub fn evict(&mut self)
        ensures
            final(self).max_view() == old(self).max_view(),
            final(self).blocks_view() == evict_spec(old(self).blocks_view(), old(self).max_view()),
    {
        let max = match self.max_duration {
            Some(m) => m,
            None => {
                proof {
                    assert(old(self).max_view() is None);
                }
                return;
            },
        };
        loop
            invariant
                self.max_duration == Some(max),
                evict_spec(self.blocks_view(), self.max_view()) == evict_spec(
                    old(self).blocks_view(),
                    old(self).max_view(),
                ),
            ensures
                self.max_duration == Some(max),
                self.blocks_view() == evict_spec(old(self).blocks_view(), old(self).max_view()),
            decreases self.blocks@.len(),
        {
            let n = self.blocks.len();
            if n == 0 {
                proof {
                    assert(evict_spec(self.blocks_view(), self.max_view()) == self.blocks_view());
                }
                break;
            }
            let newest = self.blocks[0].get_ts();
            let oldest = self.blocks[n - 1].get_ts();
            if (newest as i128) - (oldest as i128) <= max as i128 {
                proof {
                    let v = self.blocks_view();
                    assert(v[0].ts == newest);
                    assert(v.last().ts == oldest);
                    assert(evict_spec(v, self.max_view()) == v);
                }
                break;
            }
            proof {
                let v = self.blocks_view();
                assert(v[0].ts == newest);
                assert(v.last().ts == oldest);
            }
            let ghost before = self.blocks@;
            self.blocks.pop_back();
            proof {
                assert(block_views(self.blocks@) =~= block_views(before).drop_last());
            }
        }
    }
}

} // verus!
