use vstd::prelude::*;

verus! {

/// `x + 1`, staying at `usize::MAX`; only the outermost index, which counts
/// top-level nodes, can ever be that large.
pub open spec fn inc(x: usize) -> usize {
    if x < usize::MAX {
        (x + 1) as usize
    } else {
        x
    }
}

/// `x - 1`, staying at 0; only the outermost count, whose one root owed is
/// followed by any number of top-level siblings, can be 0 when decremented.
pub open spec fn dec(x: usize) -> usize {
    if x > 0 {
        (x - 1) as usize
    } else {
        0
    }
}

/// The last index of `s`, moved on by one.
pub open spec fn bump_last(s: Seq<usize>) -> Seq<usize> {
    s.update(s.len() - 1, inc(s.last()))
}

/// While more than one level is open, closes the innermost level if it owes
/// no more siblings; the level under it moves on to its next sibling. The
/// outermost level is never closed.
pub open spec fn unwind(idx: Seq<usize>, rem: Seq<usize>) -> (Seq<usize>, Seq<usize>)
    decreases rem.len(),
{
    if rem.len() > 1 && rem.last() == 0 {
        unwind(bump_last(idx.drop_last()), rem.drop_last())
    } else {
        (idx, rem)
    }
}

/// The tracker's levels once the expected entry, with `bc` children to come,
/// has been released: its slot is used up, then either its first child is
/// due, or its next sibling, after closing the levels that are done.
pub open spec fn advance(st: (Seq<usize>, Seq<usize>), bc: usize) -> (Seq<usize>, Seq<usize>) {
    let (idx, rem) = st;
    let rem1 = rem.update(rem.len() - 1, dec(rem.last()));
    if bc > 0 {
        (idx.push(0), rem1.push(bc))
    } else {
        unwind(bump_last(idx), rem1)
    }
}

/// The levels before anything was released: one level expecting the root.
pub open spec fn initial_levels() -> (Seq<usize>, Seq<usize>) {
    (seq![0usize], seq![1usize])
}

/// The levels are well formed: at least one level is open, and each has a
/// sibling index and a remaining count.
pub open spec fn levels_wf(st: (Seq<usize>, Seq<usize>)) -> bool {
    st.0.len() == st.1.len() && st.0.len() >= 1
}

/// Predicts, one release at a time, the position due next in pre-order: a
/// stack of levels, each with the sibling index expected there and the number
/// of siblings still owed at that level.
pub struct SortedResultsQueueNextMatcher {
    index_path: Vec<usize>,
    remaining_siblings: Vec<usize>,
}

impl SortedResultsQueueNextMatcher {
    /// The sibling indices and remaining counts, innermost level last.
    pub closed spec fn view(&self) -> (Seq<usize>, Seq<usize>) {
        (self.index_path@, self.remaining_siblings@)
    }

    pub open spec fn wf(&self) -> bool {
        levels_wf(self.view())
    }

    /// The position expected next.
    pub open spec fn expected(&self) -> Seq<usize> {
        self.view().0
    }

    /// A tracker that expects the root at position `[0]`.
    pub fn new() -> (r: Self)
        ensures
            r.view() == initial_levels(),
            r.wf(),
    {
        let r = SortedResultsQueueNextMatcher { index_path: vec![0], remaining_siblings: vec![1] };
        assert(r.view().0 =~= seq![0usize]);
        assert(r.view().1 =~= seq![1usize]);
        r
    }

    /// Tells whether no entry is expected any more. The outermost level
    /// stays open, so a tracker that is well formed always expects one.
    pub fn is_none(&self) -> (r: bool)
        ensures
            r == (self.expected().len() == 0),
    {
        self.index_path.len() == 0
    }

    /// The position expected next.
    pub fn current_position(&self) -> (r: &Vec<usize>)
        ensures
            r@ == self.expected(),
    {
        &self.index_path
    }

    /// Moves past the expected entry, which announced `branch_count` children.
    pub fn increment_past(&mut self, branch_count: usize)
        requires
            old(self).wf(),
        ensures
            final(self).view() == advance(old(self).view(), branch_count),
            final(self).wf(),
    {
        let ghost st = self.view();
        let n = self.remaining_siblings.len();
        let last = self.remaining_siblings[n - 1];
        self.remaining_siblings.set(n - 1, if last > 0 { last - 1 } else { 0 });
        if branch_count > 0 {
            self.index_path.push(0);
            self.remaining_siblings.push(branch_count);
            assert(self.view().0 =~= advance(st, branch_count).0);
            assert(self.view().1 =~= advance(st, branch_count).1);
        } else {
            let k = self.index_path.len();
            let top = self.index_path[k - 1];
            self.index_path.set(k - 1, if top < usize::MAX { top + 1 } else { top });
            assert(self.index_path@ =~= bump_last(st.0));
            while self.remaining_siblings.len() > 1
                && self.remaining_siblings[self.remaining_siblings.len() - 1] == 0
                invariant
                    self.index_path@.len() == self.remaining_siblings@.len(),
                    self.index_path@.len() >= 1,
                    unwind(self.index_path@, self.remaining_siblings@) == advance(
                        st,
                        branch_count,
                    ),
                decreases self.remaining_siblings.len(),
            {
                let ghost before = self.view();
                self.index_path.pop();
                self.remaining_siblings.pop();
                let m = self.index_path.len();
                let t = self.index_path[m - 1];
                self.index_path.set(m - 1, if t < usize::MAX { t + 1 } else { t });
                assert(self.index_path@ =~= bump_last(before.0.drop_last()));
                assert(self.remaining_siblings@ =~= before.1.drop_last());
            }
        }
    }
}

impl Default for SortedResultsQueueNextMatcher {
    /// A tracker that expects the root at position `[0]`.
    fn default() -> (r: Self)
        ensures
            r.view() == initial_levels(),
            r.wf(),
    {
        SortedResultsQueueNextMatcher::new()
    }
}

} // verus!
