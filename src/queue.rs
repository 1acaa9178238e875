use vstd::prelude::*;

use std::sync::mpsc::{Receiver, SendError, Sender};

use crate::release::{is_ready, min_index, release, sorted_output, Entry, SortedReleaser};
use crate::tracker::initial_levels;

verus! {

#[verifier::external_type_specification]
#[verifier::external_body]
#[verifier::reject_recursive_types(T)]
pub struct ExSender<T>(Sender<T>);

#[verifier::external_type_specification]
#[verifier::external_body]
#[verifier::reject_recursive_types(T)]
pub struct ExReceiver<T>(Receiver<T>);

#[verifier::external_type_specification]
#[verifier::reject_recursive_types(T)]
pub struct ExSendError<T>(SendError<T>);

/// Relies on std::sync::mpsc::channel: a new unbounded channel, as a sending
/// and a receiving end. Nothing is stated of it.
#[verifier::external_body]
fn open_channel<T>() -> (Sender<T>, Receiver<T>) {
    std::sync::mpsc::channel()
}

/// Relies on Sender::clone: another sending end of the same channel.
#[verifier::external_body]
fn clone_sender<T>(s: &Sender<T>) -> Sender<T> {
    s.clone()
}

/// Relies on Sender::send: it never blocks, and fails only once the receiving
/// end is gone, handing the value back in the error. Which of the two happens
/// depends on the consumer.
#[verifier::external_body]
fn send_value<T>(s: &Sender<T>, value: T) -> (r: Result<(), SendError<T>>)
    ensures
        r is Err ==> r->Err_0.0 == value,
{
    s.send(value)
}

/// Relies on Receiver::recv: blocks until a value arrives, and gives `None`
/// once every sending end is gone and nothing is left. What arrives depends
/// on the producers, so nothing is stated.
#[verifier::external_body]
fn receive_value<T>(r: &Receiver<T>) -> Option<T> {
    r.recv().ok()
}

/// The producers' handle. Every clone sends into the same channel; the
/// channel closes once all of them are dropped.
#[verifier::reject_recursive_types(P)]
pub struct ResultsQueue<P> {
    sender: Sender<Entry<P>>,
}

/// Hands out entries in the order they arrived.
#[verifier::reject_recursive_types(P)]
pub struct ResultsQueueIterator<P> {
    receiver: Receiver<Entry<P>>,
    /// Set once the channel reported that every producer is gone.
    closed: bool,
    arrived: Ghost<Seq<Entry<P>>>,
}

/// Hands out entries in pre-order, whatever the order they arrived in.
#[verifier::reject_recursive_types(P)]
pub struct SortedResultsQueueIterator<P> {
    receiver: Receiver<Entry<P>>,
    releaser: SortedReleaser<P>,
    /// Set once the channel reported that every producer is gone.
    closed: bool,
    arrived: Ghost<Seq<Entry<P>>>,
    released: Ghost<Seq<Entry<P>>>,
}

/// What one step of the sorted iterator came to.
pub enum SortedPoll<P> {
    /// This entry is the next one in order.
    Released(Entry<P>),
    /// An entry arrived and was buffered; nothing is due yet.
    Waiting,
    /// The sequence has ended.
    Finished,
}

/// A producer handle and an iterator that hands out entries as they arrive.
pub fn new_results_queue<P>() -> (r: (ResultsQueue<P>, ResultsQueueIterator<P>))
    ensures
        !r.1.is_closed(),
        r.1.arrived() == Seq::<Entry<P>>::empty(),
{
    let (sender, receiver) = open_channel();
    (
        ResultsQueue { sender },
        ResultsQueueIterator { receiver, closed: false, arrived: Ghost(Seq::empty()) },
    )
}

/// A producer handle and an iterator that hands out entries in pre-order,
/// expecting the root at position `[0]` first.
pub fn new_sorted_results_queue<P>() -> (r: (ResultsQueue<P>, SortedResultsQueueIterator<P>))
    ensures
        r.1.wf(),
        !r.1.is_closed(),
        r.1.buffer() == Seq::<Entry<P>>::empty(),
        r.1.levels() == initial_levels(),
        r.1.arrived() == Seq::<Entry<P>>::empty(),
        r.1.released() == Seq::<Entry<P>>::empty(),
{
    let (sender, receiver) = open_channel();
    let it = SortedResultsQueueIterator {
        receiver,
        releaser: SortedReleaser::new(),
        closed: false,
        arrived: Ghost(Seq::empty()),
        released: Ghost(Seq::empty()),
    };
    assert forall|rest: Seq<Entry<P>>|
        it.released() + #[trigger] sorted_output(it.buffer(), it.levels(), rest) == sorted_output(
            Seq::<Entry<P>>::empty(),
            initial_levels(),
            it.arrived() + rest,
        ) by {
        assert(it.arrived() + rest =~= rest);
        assert(it.released() + sorted_output(it.buffer(), it.levels(), rest) =~= sorted_output(
            it.buffer(),
            it.levels(),
            rest,
        ));
    }
    (ResultsQueue { sender }, it)
}

impl<P> Clone for ResultsQueue<P> {
    /// Another handle on the same channel.
    fn clone(&self) -> Self {
        ResultsQueue { sender: clone_sender(&self.sender) }
    }
}

impl<P> ResultsQueue<P> {
    /// Sends an entry to the consumer. Fails, handing the entry back, once the
    /// consumer's end has been dropped.
    pub fn push(&self, dent: Entry<P>) -> (r: Result<(), SendError<Entry<P>>>)
        ensures
            r is Err ==> r->Err_0.0 == dent,
    {
        send_value(&self.sender, dent)
    }
}

impl<P> ResultsQueueIterator<P> {
    /// Every entry handed out so far, in the order of arrival.
    pub closed spec fn arrived(&self) -> Seq<Entry<P>> {
        self.arrived@
    }

    /// The channel reported that every producer is gone.
    pub closed spec fn is_closed(&self) -> bool {
        self.closed
    }

    /// The next entry to arrive, waiting for one if need be; `None` once every
    /// producer handle is dropped and nothing is left, and from then on.
    pub fn next(&mut self) -> (r: Option<Entry<P>>)
        ensures
            r is Some ==> final(self).arrived() == old(self).arrived().push(r->0)
                && !final(self).is_closed(),
            r is None ==> final(self).is_closed() && final(self).arrived() == old(
                self,
            ).arrived(),
            old(self).is_closed() ==> r is None,
    {
        if self.closed {
            return None;
        }
        match receive_value(&self.receiver) {
            Some(e) => {
                proof {
                    self.arrived@ = self.arrived@.push(e);
                }
                Some(e)
            },
            None => {
                self.closed = true;
                None
            },
        }
    }
}

impl<P> SortedResultsQueueIterator<P> {
    /// The tracker's levels are well formed, and what was handed out so far,
    /// followed by what the buffer and tracker will hand out if `rest`
    /// arrives next, is what the iterator hands out from the start on
    /// everything that arrived and `rest`; after closing, nothing more arrives.
    pub closed spec fn wf(&self) -> bool {
        &&& self.releaser.wf()
        &&& forall|rest: Seq<Entry<P>>|
            (self.closed ==> rest.len() == 0) ==> self.released@ + #[trigger] sorted_output(
                self.buffer(),
                self.levels(),
                rest,
            ) == sorted_output(Seq::<Entry<P>>::empty(), initial_levels(), self.arrived@ + rest)
    }

    /// The entries that arrived and are not handed out yet.
    pub closed spec fn buffer(&self) -> Seq<Entry<P>> {
        self.releaser.buffer()
    }

    /// The levels of the position tracker.
    pub closed spec fn levels(&self) -> (Seq<usize>, Seq<usize>) {
        self.releaser.levels()
    }

    /// Every entry that arrived so far, in the order of arrival.
    pub closed spec fn arrived(&self) -> Seq<Entry<P>> {
        self.arrived@
    }

    /// Every entry handed out so far, in the order handed out.
    pub closed spec fn released(&self) -> Seq<Entry<P>> {
        self.released@
    }

    /// The channel reported that every producer is gone.
    pub closed spec fn is_closed(&self) -> bool {
        self.closed
    }

    /// What was handed out so far, followed by what will be handed out if
    /// `rest` arrives next and then the producers finish, is what the
    /// iterator hands out from the start on everything that arrives.
    pub proof fn lemma_released_then_rest(&self, rest: Seq<Entry<P>>)
        requires
            self.wf(),
            self.is_closed() ==> rest.len() == 0,
        ensures
            self.released() + sorted_output(self.buffer(), self.levels(), rest) == sorted_output(
                Seq::<Entry<P>>::empty(),
                initial_levels(),
                self.arrived() + rest,
            ),
    {
        assert(self.released@ + sorted_output(self.buffer(), self.levels(), rest) == sorted_output(
            Seq::<Entry<P>>::empty(),
            initial_levels(),
            self.arrived@ + rest,
        ));
    }

    /// One step towards the next entry in pre-order. If the tracker expects
    /// nothing (which its well-formedness rules out) the sequence has ended.
    /// Else, if the least buffered entry is
    /// the one due, it is handed out. Else, while producers remain, the step
    /// waits for an arrival and buffers it; once they are all gone, the least
    /// buffered entry is handed out although it is not due, and with nothing
    /// buffered the sequence has ended.
    pub fn poll_next(&mut self) -> (r: SortedPoll<P>)
        requires
            old(self).wf(),
        ensures
            final(self).wf(),
            old(self).is_closed() ==> final(self).is_closed(),
            match r {
                SortedPoll::Released(e) => final(self).released() == old(self).released().push(e)
                    && final(self).arrived() == old(self).arrived(),
                SortedPoll::Waiting => final(self).released() == old(self).released()
                    && final(self).arrived() == old(self).arrived().push(
                    final(self).buffer().last(),
                ),
                SortedPoll::Finished => final(self).released() == old(self).released()
                    && final(self).arrived() == old(self).arrived(),
            },
            old(self).levels().0.len() == 0 ==> r is Finished && final(self).buffer() == old(
                self,
            ).buffer() && final(self).levels() == old(self).levels(),
            old(self).levels().0.len() > 0 && is_ready(old(self).buffer(), old(self).levels())
                ==> r == SortedPoll::Released(old(self).buffer()[min_index(old(self).buffer())])
                && (final(self).buffer(), final(self).levels()) == release(
                old(self).buffer(),
                old(self).levels(),
            ),
            old(self).levels().0.len() > 0 && !is_ready(old(self).buffer(), old(self).levels())
                ==> match r {
                SortedPoll::Waiting => !old(self).is_closed() && final(self).levels() == old(
                    self,
                ).levels() && final(self).buffer().drop_last() == old(self).buffer(),
                SortedPoll::Released(e) => final(self).is_closed() && old(self).buffer().len() > 0
                    && e == old(self).buffer()[min_index(old(self).buffer())] && (
                final(self).buffer(), final(self).levels()) == release(
                    old(self).buffer(),
                    old(self).levels(),
                ),
                SortedPoll::Finished => final(self).is_closed() && old(self).buffer().len() == 0
                    && final(self).buffer() == old(self).buffer() && final(self).levels() == old(
                    self,
                ).levels(),
            },
    {
        let ghost pre = *self;
        if self.releaser.is_finished() {
            return SortedPoll::Finished;
        }
        if let Some(e) = self.releaser.release_ready() {
            proof {
                self.released@ = self.released@.push(e);
                Self::lemma_step_keeps_wf(&pre, &*self);
            }
            return SortedPoll::Released(e);
        }
        if !self.closed {
            match receive_value(&self.receiver) {
                Some(e) => {
                    self.releaser.insert(e);
                    proof {
                        self.arrived@ = self.arrived@.push(e);
                        Self::lemma_step_keeps_wf(&pre, &*self);
                    }
                    return SortedPoll::Waiting;
                },
                None => {
                    self.closed = true;
                },
            }
        }
        match self.releaser.release_least() {
            Some(e) => {
                proof {
                    self.released@ = self.released@.push(e);
                    Self::lemma_step_keeps_wf(&pre, &*self);
                }
                SortedPoll::Released(e)
            },
            None => {
                proof {
                    Self::lemma_step_keeps_wf(&pre, &*self);
                }
                SortedPoll::Finished
            },
        }
    }

    /// `post` follows `pre` by handing out the least buffered entry, which is
    /// due, or which goes out anyway once the producers are gone.
    spec fn is_release_step(pre: &Self, post: &Self) -> bool {
        let (b, l) = (pre.buffer(), pre.levels());
        &&& l.0.len() > 0
        &&& is_ready(b, l) || (post.closed && b.len() > 0)
        &&& (post.buffer(), post.levels()) == release(b, l)
        &&& post.released@ == pre.released@.push(b[min_index(b)])
        &&& post.arrived@ == pre.arrived@
    }

    /// `post` follows `pre` by buffering an entry that arrived while nothing
    /// was due.
    spec fn is_arrival_step(pre: &Self, post: &Self) -> bool {
        let (b, l) = (pre.buffer(), pre.levels());
        &&& !post.closed
        &&& l.0.len() > 0
        &&& !is_ready(b, l)
        &&& post.levels() == l
        &&& post.buffer() == b.push(post.buffer().last())
        &&& post.arrived@ == pre.arrived@.push(post.buffer().last())
        &&& post.released@ == pre.released@
    }

    /// `post` is `pre`, but for having learnt that the producers are gone.
    spec fn is_still(pre: &Self, post: &Self) -> bool {
        &&& post.buffer() == pre.buffer()
        &&& post.levels() == pre.levels()
        &&& post.released@ == pre.released@
        &&& post.arrived@ == pre.arrived@
    }

    /// Each kind of step of `poll_next` keeps the iterator well formed.
    proof fn lemma_step_keeps_wf(pre: &Self, post: &Self)
        requires
            pre.wf(),
            post.releaser.wf(),
            pre.closed ==> post.closed,
            Self::is_release_step(pre, post) || Self::is_arrival_step(pre, post)
                || Self::is_still(pre, post),
        ensures
            post.wf(),
    {
        let (b, l) = (pre.buffer(), pre.levels());
        let init = Seq::<Entry<P>>::empty();
        assert forall|rest: Seq<Entry<P>>|
            (post.closed ==> rest.len() == 0) implies post.released@ + #[trigger] sorted_output(
            post.buffer(),
            post.levels(),
            rest,
        ) == sorted_output(init, initial_levels(), post.arrived@ + rest) by {
            if Self::is_release_step(pre, post) {
                let m = b[min_index(b)];
                assert(sorted_output(b, l, rest) == seq![m] + sorted_output(
                    post.buffer(),
                    post.levels(),
                    rest,
                ));
                assert(post.released@ + sorted_output(post.buffer(), post.levels(), rest)
                    =~= pre.released@ + sorted_output(b, l, rest));
            } else if Self::is_arrival_step(pre, post) {
                let e = post.buffer().last();
                let r2 = seq![e] + rest;
                assert(r2[0] == e);
                assert(r2.drop_first() =~= rest);
                assert(sorted_output(b, l, r2) == sorted_output(post.buffer(), post.levels(), rest));
                assert(pre.arrived@ + r2 =~= post.arrived@ + rest);
            } else {
                assert(sorted_output(b, l, rest) == sorted_output(
                    post.buffer(),
                    post.levels(),
                    rest,
                ));
            }
        }
    }
}

} // verus!
