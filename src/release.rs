use vstd::prelude::*;

use crate::order::{lemma_lt_transitive, pos_lt, position_eq, position_lt};
use crate::tracker::{advance, levels_wf, SortedResultsQueueNextMatcher};

verus! {

/// One node reported by a producer.
pub struct Entry<P> {
    /// Sibling index at each depth, from the root down.
    pub position: Vec<usize>,
    /// How many direct children of this node will be reported too.
    pub branch_count: usize,
    /// Data of the producer's own, carried along untouched.
    pub payload: P,
}

/// What ordering depends on: an entry's position and branch count.
pub open spec fn key<P>(e: Entry<P>) -> (Seq<usize>, usize) {
    (e.position@, e.branch_count)
}

/// Index of the first entry whose position no other entry precedes.
pub open spec fn min_index<P>(s: Seq<Entry<P>>) -> int
    decreases s.len(),
{
    if s.len() <= 1 {
        0
    } else {
        let m = min_index(s.drop_last());
        if pos_lt(s.last().position@, s[m].position@) {
            s.len() - 1
        } else {
            m
        }
    }
}

/// No buffered entry comes before the one at `min_index`.
pub proof fn lemma_min_index_is_least<P>(s: Seq<Entry<P>>)
    requires
        s.len() > 0,
    ensures
        0 <= min_index(s) < s.len(),
        forall|j: int|
            0 <= j < s.len() ==> !pos_lt(#[trigger] s[j].position@, s[min_index(s)].position@),
    decreases s.len(),
{
    if s.len() > 1 {
        let t = s.drop_last();
        lemma_min_index_is_least(t);
        let m = min_index(t);
        assert forall|j: int| 0 <= j < s.len() implies !pos_lt(
            #[trigger] s[j].position@,
            s[min_index(s)].position@,
        ) by {
            if j < s.len() - 1 {
                assert(t[j] == s[j]);
                if pos_lt(s.last().position@, s[m].position@) && pos_lt(
                    s[j].position@,
                    s.last().position@,
                ) {
                    lemma_lt_transitive(s[j].position@, s.last().position@, s[m].position@, 0);
                }
            } else if pos_lt(s.last().position@, s[m].position@) {
                crate::order::lemma_lt_irreflexive(s.last().position@, 0);
            }
        }
    } else {
        crate::order::lemma_lt_irreflexive(s[0].position@, 0);
    }
}

/// The buffer's least entry is the one the tracker expects.
pub open spec fn is_ready<P>(buf: Seq<Entry<P>>, lv: (Seq<usize>, Seq<usize>)) -> bool {
    &&& lv.0.len() > 0
    &&& buf.len() > 0
    &&& buf[min_index(buf)].position@ == lv.0
}

/// Hands out the buffer's least entry and moves the tracker past it.
pub open spec fn release<P>(buf: Seq<Entry<P>>, lv: (Seq<usize>, Seq<usize>)) -> (
    Seq<Entry<P>>,
    (Seq<usize>, Seq<usize>),
) {
    let m = min_index(buf);
    (buf.remove(m), advance(lv, buf[m].branch_count))
}

/// What the consumer is handed when entries arrive in the order `rest`, the
/// producers finish after the last of them, and it starts from buffer `buf`
/// and tracker levels `lv`: a due entry goes out as soon as it is the least
/// buffered one, arrivals are taken only while nothing is due, and once none
/// are left the buffer is drained least first.
pub open spec fn sorted_output<P>(
    buf: Seq<Entry<P>>,
    lv: (Seq<usize>, Seq<usize>),
    rest: Seq<Entry<P>>,
) -> Seq<Entry<P>>
    decreases 2 * rest.len() + buf.len()
    via sorted_output_decreases::<P>
{
    if lv.0.len() == 0 {
        seq![]
    } else if is_ready(buf, lv) || (rest.len() == 0 && buf.len() > 0) {
        let (b2, l2) = release(buf, lv);
        seq![buf[min_index(buf)]] + sorted_output(b2, l2, rest)
    } else if rest.len() > 0 {
        sorted_output(buf.push(rest[0]), lv, rest.drop_first())
    } else {
        seq![]
    }
}

#[via_fn]
proof fn sorted_output_decreases<P>(
    buf: Seq<Entry<P>>,
    lv: (Seq<usize>, Seq<usize>),
    rest: Seq<Entry<P>>,
) {
    if buf.len() > 0 {
        lemma_min_index_is_least(buf);
    }
}

/// The consumer-side state of the sorted order: the entries that arrived
/// early, and the tracker of the position due next.
pub struct SortedReleaser<P> {
    receive_buffer: Vec<Entry<P>>,
    next_matcher: SortedResultsQueueNextMatcher,
}

impl<P> SortedReleaser<P> {
    /// The buffered entries, in the order they arrived.
    pub closed spec fn buffer(&self) -> Seq<Entry<P>> {
        self.receive_buffer@
    }

    /// The tracker's levels.
    pub closed spec fn levels(&self) -> (Seq<usize>, Seq<usize>) {
        self.next_matcher.view()
    }

    pub open spec fn wf(&self) -> bool {
        levels_wf(self.levels())
    }

    /// An empty buffer, expecting the root.
    pub fn new() -> (r: Self)
        ensures
            r.wf(),
            r.buffer() == Seq::<Entry<P>>::empty(),
            r.levels() == crate::tracker::initial_levels(),
    {
        SortedReleaser { receive_buffer: Vec::new(), next_matcher: SortedResultsQueueNextMatcher::new() }
    }

    /// Tells whether no entry is expected any more; never so while the
    /// releaser is well formed.
    pub fn is_finished(&self) -> (r: bool)
        ensures
            r == (self.levels().0.len() == 0),
    {
        self.next_matcher.is_none()
    }

    /// Buffers an entry that arrived.
    pub fn insert(&mut self, entry: Entry<P>)
        ensures
            final(self).buffer() == old(self).buffer().push(entry),
            final(self).levels() == old(self).levels(),
    {
        self.receive_buffer.push(entry);
    }

    fn least_index(&self) -> (r: usize)
        requires
            self.buffer().len() > 0,
        ensures
            r as int == min_index(self.buffer()),
            r < self.buffer().len(),
    {
        let mut m: usize = 0;
        let mut i: usize = 1;
        while i < self.receive_buffer.len()
            invariant
                1 <= i <= self.receive_buffer@.len(),
                m < i,
                m as int == min_index(self.receive_buffer@.subrange(0, i as int)),
            decreases self.receive_buffer.len() - i,
        {
            let ghost s = self.receive_buffer@.subrange(0, i as int + 1);
            assert(s.drop_last() =~= self.receive_buffer@.subrange(0, i as int));
            assert(s.last() == self.receive_buffer@[i as int]);
            assert(s[m as int] == self.receive_buffer@[m as int]);
            if position_lt(&self.receive_buffer[i].position, &self.receive_buffer[m].position) {
                m = i;
            }
            i = i + 1;
        }
        assert(self.receive_buffer@.subrange(0, i as int) =~= self.receive_buffer@);
        proof {
            lemma_min_index_is_least(self.receive_buffer@);
        }
        m
    }

    fn take_least(&mut self) -> (r: Entry<P>)
        requires
            old(self).wf(),
            old(self).buffer().len() > 0,
            old(self).levels().0.len() > 0,
        ensures
            r == old(self).buffer()[min_index(old(self).buffer())],
            (final(self).buffer(), final(self).levels()) == release(
                old(self).buffer(),
                old(self).levels(),
            ),
            final(self).wf(),
    {
        let m = self.least_index();
        let item = self.receive_buffer.remove(m);
        self.next_matcher.increment_past(item.branch_count);
        item
    }

    /// Hands out the expected entry if it is the least one buffered.
    pub fn release_ready(&mut self) -> (r: Option<Entry<P>>)
        requires
            old(self).wf(),
        ensures
            final(self).wf(),
            r is Some == is_ready(old(self).buffer(), old(self).levels()),
            r is Some ==> r->0 == old(self).buffer()[min_index(old(self).buffer())] && (
            final(self).buffer(), final(self).levels()) == release(
                old(self).buffer(),
                old(self).levels(),
            ),
            r is None ==> final(self).buffer() == old(self).buffer() && final(self).levels()
                == old(self).levels(),
    {
        if self.next_matcher.is_none() || self.receive_buffer.len() == 0 {
            return None;
        }
        let m = self.least_index();
        if position_eq(&self.receive_buffer[m].position, self.next_matcher.current_position()) {
            Some(self.take_least())
        } else {
            None
        }
    }

    /// Hands out the least buffered entry, due or not, unless the tracker
    /// expects nothing or nothing is buffered.
    pub fn release_least(&mut self) -> (r: Option<Entry<P>>)
        requires
            old(self).wf(),
        ensures
            final(self).wf(),
            r is Some == (old(self).levels().0.len() > 0 && old(self).buffer().len() > 0),
            r is Some ==> r->0 == old(self).buffer()[min_index(old(self).buffer())] && (
            final(self).buffer(), final(self).levels()) == release(
                old(self).buffer(),
                old(self).levels(),
            ),
            r is None ==> final(self).buffer() == old(self).buffer() && final(self).levels()
                == old(self).levels(),
    {
        if self.next_matcher.is_none() || self.receive_buffer.len() == 0 {
            return None;
        }
        Some(self.take_least())
    }
}

} // verus!
