//! The life of a request: it waits, it is prefilled, it decodes, it ends, in
//! that order and each at most once.

use vstd::prelude::*;
use crate::model::{
    lemma_promoted_ids, lemma_promoted_n_sound, lemma_survivor_origin, BackendView, Pending,
};
use crate::request::{Request, SlotReply};

verus! {

/// Where a request is in its life.
pub enum Stage {
    /// No request has been given this id yet.
    NotSubmitted,
    /// The request waits in the queue.
    Queued,
    /// The request holds its blocks and its prefill call is in flight.
    Prefilling,
    /// The request holds its blocks and its prefill has returned: it takes
    /// part in every decode step from now on.
    Decoding,
    /// The request has finished or failed: it holds no block, and its id
    /// names nothing any more.
    Ended,
}

impl BackendView {
    /// Whether a request with `id` waits in the queue.
    pub open spec fn waits(self, id: u64) -> bool {
        exists|j: int| 0 <= j < self.queue.waiting.len() && (#[trigger] self.queue.waiting[j]).id == id
    }

    /// Whether a request with `id` is in the running batch.
    pub open spec fn runs(self, id: u64) -> bool {
        exists|i: int| 0 <= i < self.running.len() && (#[trigger] self.running[i]).id == id
    }

    /// Whether a request with `id` is part of a prefill call in flight.
    pub open spec fn prefills(self, id: u64) -> bool {
        exists|i: int|
            0 <= i < self.running.len() && (#[trigger] self.running[i]).id == id && (
            self.pending matches Pending::Prefill { first } && first <= i)
    }

    /// The stage of the request with `id`.
    pub open spec fn stage(self, id: u64) -> Stage {
        if id >= self.queue.next_id {
            Stage::NotSubmitted
        } else if self.waits(id) {
            Stage::Queued
        } else if self.prefills(id) {
            Stage::Prefilling
        } else if self.runs(id) {
            Stage::Decoding
        } else {
            Stage::Ended
        }
    }
}

/// The steps that a request can take between two states of the scheduler. It
/// can stay where it is or move forward, never back, and once it has ended it
/// stays ended.
pub open spec fn may_follow(before: Stage, after: Stage) -> bool {
    match before {
        Stage::NotSubmitted => after is NotSubmitted || after is Queued,
        Stage::Queued => after is Queued || after is Prefilling || after is Ended,
        Stage::Prefilling => after is Prefilling || after is Decoding || after is Ended,
        Stage::Decoding => after is Decoding || after is Ended,
        Stage::Ended => after is Ended,
    }
}

/// A submission gives the new request the next id and puts it in the queue;
/// every other request stays where it is.
pub proof fn lemma_enqueue_follows(state: BackendView, request: Request, id: u64)
    requires
        state.wf(),
    ensures
        may_follow(state.stage(id), state.enqueued(request).stage(id)),
        id != state.queue.next_id ==> state.enqueued(request).stage(id) == state.stage(id),
        id == state.queue.next_id && id < u64::MAX ==> state.enqueued(request).stage(id)
            is Queued,
{
    let next = state.enqueued(request);
    if state.queue.next_id < u64::MAX {
        let last = state.queue.waiting.len() as int;
        assert(next.queue.waiting[last].id == state.queue.next_id);
        assert(next.running == state.running);
        assert(next.pending == state.pending);
        assert(next.runs(id) == state.runs(id));
        assert(next.prefills(id) == state.prefills(id));
        if state.waits(id) {
            let j = choose|j: int|
                0 <= j < state.queue.waiting.len() && (#[trigger] state.queue.waiting[j]).id == id;
            assert(next.queue.waiting[j].id == id);
            assert(state.queue.waiting[j].id < state.queue.next_id);
        }
        if next.waits(id) {
            let j = choose|j: int|
                0 <= j < next.queue.waiting.len() && (#[trigger] next.queue.waiting[j]).id == id;
            if j < last {
                assert(state.queue.waiting[j].id == id);
            }
        }
        if state.runs(id) {
            let i = choose|i: int|
                0 <= i < state.running.len() && (#[trigger] state.running[i]).id == id;
            assert(state.running[i].id < state.queue.next_id);
        }
    }
}

/// The first half of a tick moves requests from the queue into a prefill and
/// does nothing else to any request.
pub proof fn lemma_schedule_follows(state: BackendView, id: u64)
    requires
        state.wf(),
    ensures
        may_follow(state.stage(id), state.scheduled().stage(id)),
        state.stage(id) !is Queued ==> state.scheduled().stage(id) == state.stage(id),
        state.stage(id) is Queued ==> state.scheduled().stage(id) is Queued
            || state.scheduled().stage(id) is Prefilling,
{
    let next = state.scheduled();
    let count = state.admitted();
    let len = state.running.len() as int;
    if state.pending is Nothing && count == 0 {
        assert(next.running == state.running);
        assert(next.queue == state.queue);
        assert(next.runs(id) == state.runs(id));
        assert(next.waits(id) == state.waits(id));
        assert(!next.prefills(id));
        assert(!state.prefills(id));
    }
    if state.pending is Nothing && count > 0 {
        lemma_promoted_n_sound(state, state.forced(), count);
        crate::queue::lemma_admitted_is_bounded(
            state.policy(),
            state.queue.waiting,
            state.room(0),
            state.forced(),
        );
        assert(next.queue.waiting.len() == state.queue.waiting.len() - count);
        assert(next.running.len() == len + count);
        assert forall|w: int| 0 <= w < next.queue.waiting.len() implies (
        #[trigger] next.queue.waiting[w]) == state.queue.waiting[w + count] by {}
        assert forall|i: int| 0 <= i < len implies next.running[i] == state.running[i] by {
            assert(next.running.take(len)[i] == state.running[i]);
        }
        assert forall|k: int| 0 <= k < count implies next.running[len + k].id
            == state.queue.waiting[k].id by {
            lemma_promoted_ids(state, state.forced(), count, k);
        }
        if state.waits(id) {
            let j = choose|j: int|
                0 <= j < state.queue.waiting.len() && (#[trigger] state.queue.waiting[j]).id == id;
            if j < count {
                assert(next.running[len + j].id == id);
                if next.waits(id) {
                    let w = choose|w: int|
                        0 <= w < next.queue.waiting.len() && (#[trigger] next.queue.waiting[w]).id
                            == id;
                    assert(state.queue.waiting[w + count].id == id);
                }
            } else {
                assert(next.queue.waiting[j - count].id == id);
            }
        } else {
            if next.waits(id) {
                let w = choose|w: int|
                    0 <= w < next.queue.waiting.len() && (#[trigger] next.queue.waiting[w]).id
                        == id;
                assert(state.queue.waiting[w + count].id == id);
            }
            if state.runs(id) {
                let i = choose|i: int|
                    0 <= i < state.running.len() && (#[trigger] state.running[i]).id == id;
                assert(next.running[i].id == id);
            }
            if next.runs(id) {
                let i = choose|i: int|
                    0 <= i < next.running.len() && (#[trigger] next.running[i]).id == id;
                if i >= len {
                    assert(state.queue.waiting[i - len].id == id);
                } else {
                    assert(state.running[i].id == id);
                }
            }
            if next.prefills(id) {
                let i = choose|i: int|
                    0 <= i < next.running.len() && (#[trigger] next.running[i]).id == id && len
                        <= i;
                assert(state.queue.waiting[i - len].id == id);
            }
        }
    }
}

/// The second half of a tick lets every request of the batch run on as a
/// decoding request or ends it, and does nothing to the queue.
pub proof fn lemma_complete_follows(state: BackendView, replies: Seq<SlotReply>, id: u64)
    requires
        state.wf(),
    ensures
        may_follow(state.stage(id), state.completed(replies).stage(id)),
        state.completed(replies).stage(id) !is Prefilling,
        state.stage(id) is Queued ==> state.completed(replies).stage(id) is Queued,
{
    let next = state.completed(replies);
    if state.pending !is Nothing {
        if next.runs(id) {
            let place = choose|place: int|
                0 <= place < next.running.len() && (#[trigger] next.running[place]).id == id;
            let from = lemma_survivor_origin(state.running, state.updates(replies), place);
            assert(state.running[from].id == id);
        }
    }
}

/// A cancellation with no call in flight ends the request that it names and
/// no other.
pub proof fn lemma_retire_follows(state: BackendView, at: int, id: u64)
    requires
        state.wf(),
        state.pending is Nothing,
        0 <= at < state.running.len(),
    ensures
        may_follow(state.stage(id), state.retired(at).stage(id)),
        state.retired(at).stage(state.running[at].id) is Ended,
        id != state.running[at].id ==> state.retired(at).stage(id) == state.stage(id),
{
    let next = state.retired(at);
    let gone = state.running[at].id;
    assert(state.running[at].id < state.queue.next_id);
    if next.runs(gone) {
        let i = choose|i: int| 0 <= i < next.running.len() && (#[trigger] next.running[i]).id == gone;
        if i < at {
            assert(state.running[i].id < state.running[at].id);
        } else {
            assert(state.running[at].id < state.running[i + 1].id);
        }
    }
    if state.waits(gone) {
        let j = choose|j: int|
            0 <= j < state.queue.waiting.len() && (#[trigger] state.queue.waiting[j]).id == gone;
        assert(state.running[at].id < state.queue.waiting[j].id);
    }
    if next.runs(id) {
        let i = choose|i: int| 0 <= i < next.running.len() && (#[trigger] next.running[i]).id == id;
        let m = if i < at {
            i
        } else {
            i + 1
        };
        assert(state.running[m].id == id);
    }
    if state.runs(id) && id != gone {
        let i = choose|i: int| 0 <= i < state.running.len() && (#[trigger] state.running[i]).id == id;
        let m = if i < at {
            i
        } else {
            i - 1
        };
        assert(next.running[m].id == id);
    }
}

/// A cancellation with a call in flight moves no request.
pub proof fn lemma_mark_follows(state: BackendView, at: int, id: u64)
    requires
        state.wf(),
        0 <= at < state.running.len(),
    ensures
        state.marked(at).stage(id) == state.stage(id),
{
    let next = state.marked(at);
    assert forall|i: int| 0 <= i < state.running.len() implies (#[trigger] next.running[i]).id
        == state.running[i].id by {}
    if state.runs(id) {
        let i = choose|i: int| 0 <= i < state.running.len() && (#[trigger] state.running[i]).id == id;
        assert(next.running[i].id == id);
    }
    if next.runs(id) {
        let i = choose|i: int| 0 <= i < next.running.len() && (#[trigger] next.running[i]).id == id;
        assert(state.running[i].id == id);
    }
    if state.prefills(id) {
        let i = choose|i: int|
            0 <= i < state.running.len() && (#[trigger] state.running[i]).id == id && (
            state.pending matches Pending::Prefill { first } && first <= i);
        assert(next.running[i].id == id);
    }
    if next.prefills(id) {
        let i = choose|i: int|
            0 <= i < next.running.len() && (#[trigger] next.running[i]).id == id && (
            next.pending matches Pending::Prefill { first } && first <= i);
        assert(state.running[i].id == id);
    }
}

/// The cancellation of a waiting request ends it and moves no other.
pub proof fn lemma_dequeue_follows(state: BackendView, at: int, id: u64)
    requires
        state.wf(),
        0 <= at < state.queue.waiting.len(),
    ensures
        may_follow(state.stage(id), state.dequeued(at).stage(id)),
        state.dequeued(at).stage(state.queue.waiting[at].id) is Ended,
        id != state.queue.waiting[at].id ==> state.dequeued(at).stage(id) == state.stage(id),
{
    let next = state.dequeued(at);
    let gone = state.queue.waiting[at].id;
    assert(state.queue.waiting[at].id < state.queue.next_id);
    assert(next.queue.waiting.len() == state.queue.waiting.len() - 1);
    assert forall|j: int| 0 <= j < next.queue.waiting.len() implies (
    #[trigger] next.queue.waiting[j]) == state.queue.waiting[if j < at {
        j
    } else {
        j + 1
    }] by {}
    assert(next.running == state.running);
    assert(next.pending == state.pending);
    assert(next.runs(id) == state.runs(id));
    assert(next.prefills(id) == state.prefills(id));
    if state.runs(id) {
        let i = choose|i: int| 0 <= i < state.running.len() && (#[trigger] state.running[i]).id == id;
        assert(state.running[i].id < state.queue.next_id);
    }
    if state.waits(id) {
        let j = choose|j: int|
            0 <= j < state.queue.waiting.len() && (#[trigger] state.queue.waiting[j]).id == id;
        assert(state.queue.waiting[j].id < state.queue.next_id);
    }
    if next.waits(gone) {
        let j = choose|j: int|
            0 <= j < next.queue.waiting.len() && (#[trigger] next.queue.waiting[j]).id == gone;
        if j < at {
            assert(state.queue.waiting[j].id < state.queue.waiting[at].id);
        } else {
            assert(state.queue.waiting[at].id < state.queue.waiting[j + 1].id);
        }
    }
    if state.runs(gone) {
        let i = choose|i: int| 0 <= i < state.running.len() && (#[trigger] state.running[i]).id == gone;
        assert(state.running[i].id < state.queue.waiting[at].id);
    }
    if next.waits(id) {
        let j = choose|j: int|
            0 <= j < next.queue.waiting.len() && (#[trigger] next.queue.waiting[j]).id == id;
        let m = if j < at {
            j
        } else {
            j + 1
        };
        assert(state.queue.waiting[m].id == id);
    }
    if state.waits(id) && id != gone {
        let j = choose|j: int|
            0 <= j < state.queue.waiting.len() && (#[trigger] state.queue.waiting[j]).id == id;
        let m = if j < at {
            j
        } else {
            j - 1
        };
        assert(next.queue.waiting[m].id == id);
    }
}

} // verus!
