//! The scheduler as a state machine over mathematical values.
//!
//! A [`BackendView`] is everything the scheduler knows: the block pool, the
//! queue, the running batch and what it is waiting for. Each operation of the
//! scheduler is a function from one such state to the next, and the invariant
//! of the scheduler is proved here to survive each of them.

use vstd::prelude::*;
use crate::block_allocator::{lemma_release_keeps_pool, lemma_reserve_keeps_pool, PoolView};
use crate::config::BackendConfig;
use crate::error::ShardErrorKind;
use crate::queue::{lemma_admitted_step, AdmissionPolicy, BatchState, Headroom, QueueView};
use crate::request::{
    spec_accepted, spec_stopped, Entry, Failure, Outcome, Request, RunningRequest, SlotReply,
    SlotUpdate,
};

verus! {

/// A running request, as mathematics.
pub struct Slot {
    pub id: u64,
    pub request: Request,
    /// The blocks that the request holds.
    pub blocks: Seq<u64>,
    /// Tokens delivered so far.
    pub generated: u32,
    /// The caller went away while a shard call was in flight.
    pub cancelled: bool,
}

impl View for RunningRequest {
    type V = Slot;

    open spec fn view(&self) -> Slot {
        Slot {
            id: self.id,
            request: self.request,
            blocks: self.blocks@,
            generated: self.generated,
            cancelled: self.cancelled,
        }
    }
}

/// The shard call whose answer the scheduler is waiting for.
#[derive(Debug, Clone, Copy, PartialEq, Eq)]
pub enum Pending {
    Nothing,
    /// A prefill of the requests from position `first` of the batch on.
    Prefill { first: usize },
    /// A decode step of the whole batch.
    Decode,
}

/// Sum of the footprints of `running`.
pub open spec fn committed_tokens(running: Seq<Slot>) -> nat
    decreases running.len(),
{
    if running.len() == 0 {
        0
    } else {
        committed_tokens(running.drop_last()) + running.last().request.footprint()
    }
}

/// Number of blocks that the requests of `running` hold between them.
pub open spec fn held_blocks(running: Seq<Slot>) -> nat
    decreases running.len(),
{
    if running.len() == 0 {
        0
    } else {
        held_blocks(running.drop_last()) + running.last().blocks.len()
    }
}

/// The state of the scheduler.
pub struct BackendView {
    pub config: BackendConfig,
    pub pool: PoolView,
    pub queue: QueueView,
    /// The running batch, in the order of admission.
    pub running: Seq<Slot>,
    /// Decode steps since a request was last admitted.
    pub idle_steps: usize,
    pub pending: Pending,
}

impl BackendView {
    pub open spec fn policy(self) -> AdmissionPolicy {
        self.queue.policy
    }

    /// Ids grow along the batch and on into the queue: a request keeps the
    /// place that its arrival gave it, and no id is used twice.
    pub open spec fn ids_in_order(self) -> bool {
        &&& forall|i: int, j: int|
            0 <= i < j < self.running.len() ==> self.running[i].id < self.running[j].id
        &&& forall|i: int, j: int|
            0 <= i < self.running.len() && 0 <= j < self.queue.waiting.len()
                ==> self.running[i].id < self.queue.waiting[j].id
        &&& forall|i: int|
            0 <= i < self.running.len() ==> (#[trigger] self.running[i]).id < self.queue.next_id
    }

    /// Every block that a request holds is out of the free pool, and no block
    /// is held twice, by one request or by two.
    pub open spec fn blocks_owned_once(self) -> bool {
        &&& forall|i: int|
            0 <= i < self.running.len() ==> self.pool.can_release(
                (#[trigger] self.running[i]).blocks,
            )
        &&& forall|i: int, j: int, block: u64|
            0 <= i < j < self.running.len() && #[trigger] self.running[i].blocks.contains(block)
                ==> !#[trigger] self.running[j].blocks.contains(block)
    }

    /// Every running request holds the blocks of its footprint and has
    /// generated no more than it may.
    pub open spec fn slots_valid(self) -> bool {
        forall|i: int|
            0 <= i < self.running.len() ==> {
                let slot = #[trigger] self.running[i];
                &&& slot.generated <= slot.request.max_new_tokens
                &&& slot.blocks.len() == self.policy().blocks_needed(slot.request)
            }
    }

    /// The accounting invariant: it holds between any two steps.
    pub open spec fn sound(self) -> bool {
        &&& self.pool.wf()
        &&& self.queue.wf()
        &&& self.policy() == AdmissionPolicy::spec_of(self.config, self.policy().block_span)
        &&& self.policy().block_span == self.pool.block_span
        &&& self.running.len() <= usize::MAX
        &&& self.ids_in_order()
        &&& self.blocks_owned_once()
        &&& self.slots_valid()
        &&& self.pool.free.len() + held_blocks(self.running) == self.pool.total
        &&& committed_tokens(self.running) <= self.config.max_batch_total_tokens
        &&& self.config.max_batch_size matches Some(cap) ==> self.running.len() <= cap
    }

    /// What is awaited is there: a prefill has requests to prefill, a decode
    /// has a batch, and a request is only ever marked as cancelled while a
    /// call is in flight.
    pub open spec fn pending_wf(self) -> bool {
        match self.pending {
            Pending::Nothing => forall|i: int|
                0 <= i < self.running.len() ==> !(#[trigger] self.running[i]).cancelled,
            Pending::Prefill { first } => first < self.running.len(),
            Pending::Decode => self.running.len() > 0,
        }
    }

    /// The invariant of the scheduler between two calls.
    pub open spec fn wf(self) -> bool {
        self.sound() && self.pending_wf()
    }

    /// What the queue is told of the running batch.
    pub open spec fn batch_state(self) -> BatchState {
        BatchState {
            size: self.running.len() as usize,
            committed_tokens: committed_tokens(self.running) as u64,
            idle_steps: self.idle_steps,
        }
    }

    /// The headroom of a pass that has taken `prefill_tokens` prefill tokens
    /// so far.
    pub open spec fn room(self, prefill_tokens: u64) -> Headroom {
        Headroom {
            running: self.running.len() as usize,
            prefill_tokens,
            total_tokens: committed_tokens(self.running) as u64,
            free_blocks: self.pool.free.len() as usize,
        }
    }

    /// Whether the starvation guard is due.
    pub open spec fn forced(self) -> bool {
        self.policy().is_forced(self.idle_steps)
    }

    /// How many requests the next pass admits.
    pub open spec fn admitted(self) -> nat {
        self.policy().admitted(self.queue.waiting, self.room(0), self.forced())
    }

    /// The state with one more request waiting.
    pub open spec fn enqueued(self, request: Request) -> BackendView {
        if self.queue.next_id == u64::MAX {
            self
        } else {
            BackendView {
                queue: QueueView {
                    waiting: self.queue.waiting.push(Entry { id: self.queue.next_id, request }),
                    next_id: (self.queue.next_id + 1) as u64,
                    ..self.queue
                },
                ..self
            }
        }
    }

    /// The request at the front of the queue starts running: it takes the
    /// blocks of its footprint from the tail of the free list and joins the
    /// batch at its end.
    pub open spec fn promoted(self) -> BackendView
        recommends
            self.queue.waiting.len() > 0,
    {
        let entry = self.queue.waiting[0];
        let need = self.policy().blocks_needed(entry.request);
        BackendView {
            pool: self.pool.after_reserve(need),
            queue: QueueView { waiting: self.queue.waiting.drop_first(), ..self.queue },
            running: self.running.push(
                Slot {
                    id: entry.id,
                    request: entry.request,
                    blocks: self.pool.granted(need),
                    generated: 0,
                    cancelled: false,
                },
            ),
            ..self
        }
    }

    /// The first `count` requests of the queue start running, one after the
    /// other.
    pub open spec fn promoted_n(self, count: nat) -> BackendView
        decreases count,
    {
        if count == 0 {
            self
        } else {
            self.promoted_n((count - 1) as nat).promoted()
        }
    }

    /// The request at position `at` of the batch ends: it leaves the batch,
    /// and its blocks go back to the tail of the free list.
    pub open spec fn retired(self, at: int) -> BackendView
        recommends
            0 <= at < self.running.len(),
    {
        BackendView {
            pool: self.pool.after_release(self.running[at].blocks),
            running: self.running.remove(at),
            ..self
        }
    }

    /// The request at position `at` delivers `delivered` tokens and runs on.
    pub open spec fn advanced_at(self, at: int, delivered: usize) -> BackendView
        recommends
            0 <= at < self.running.len(),
    {
        BackendView { running: self.running.update(at, advanced(self.running[at], delivered)), ..self }
    }

    /// The request at position `at` is marked as cancelled.
    pub open spec fn marked(self, at: int) -> BackendView
        recommends
            0 <= at < self.running.len(),
    {
        BackendView {
            running: self.running.update(at, Slot { cancelled: true, ..self.running[at] }),
            ..self
        }
    }

    /// The request at position `at` of the queue leaves it.
    pub open spec fn dequeued(self, at: int) -> BackendView
        recommends
            0 <= at < self.queue.waiting.len(),
    {
        BackendView {
            queue: QueueView { waiting: self.queue.waiting.remove(at), ..self.queue },
            ..self
        }
    }

    /// Where the shards' result for the request at position `i` stands among
    /// the results: they come in the order of the call's batch. Nothing for a
    /// request that is not part of the call in flight.
    pub open spec fn reply_place(self, i: int) -> Option<int> {
        match self.pending {
            Pending::Nothing => None,
            Pending::Prefill { first } => if first <= i {
                Some(i - first)
            } else {
                None
            },
            Pending::Decode => Some(i),
        }
    }

    /// What the tick does to the request at position `i`.
    pub open spec fn update_at(self, i: int, replies: Seq<SlotReply>) -> SlotUpdate {
        slot_update(self.running[i], self.reply_place(i), replies)
    }

    /// What the tick does to each request of the batch, in batch order.
    pub open spec fn updates(self, replies: Seq<SlotReply>) -> Seq<SlotUpdate> {
        Seq::new(self.running.len(), |i: int| self.update_at(i, replies))
    }

    /// The state with the first `count` requests of the batch settled
    /// according to `updates`.
    pub open spec fn settled(self, updates: Seq<SlotUpdate>, count: int) -> BackendView
        recommends
            0 <= count <= self.running.len(),
            updates.len() == self.running.len(),
    {
        BackendView {
            pool: self.pool.after_release(
                released(self.running.take(count), updates.take(count)),
            ),
            running: survivors(self.running.take(count), updates.take(count)) + self.running.skip(
                count,
            ),
            ..self
        }
    }

    /// The decode steps without admission, once the awaited call has
    /// returned: a decode step counts, a prefill does not.
    pub open spec fn idle_steps_after(self) -> usize {
        if self.pending is Decode && self.idle_steps < usize::MAX {
            (self.idle_steps + 1) as usize
        } else {
            self.idle_steps
        }
    }

    /// The second half of a tick: the shards' results are applied. Every
    /// request that ended leaves the batch and gives its blocks back; the
    /// others run on, in their order. Without a call in flight nothing
    /// changes.
    pub open spec fn completed(self, replies: Seq<SlotReply>) -> BackendView {
        if self.pending is Nothing {
            self
        } else {
            BackendView {
                pool: self.pool.after_release(released(self.running, self.updates(replies))),
                running: survivors(self.running, self.updates(replies)),
                idle_steps: self.idle_steps_after(),
                pending: Pending::Nothing,
                ..self
            }
        }
    }

    /// The first half of a tick: the queue is polled, the admitted requests
    /// get their blocks, and a call is chosen. New requests are prefilled;
    /// without new requests the batch decodes; without a batch nothing is
    /// called. While a call is in flight nothing changes.
    pub open spec fn scheduled(self) -> BackendView {
        if self.pending !is Nothing {
            self
        } else if self.admitted() > 0 {
            BackendView {
                pending: Pending::Prefill { first: self.running.len() as usize },
                idle_steps: 0,
                ..self.promoted_n(self.admitted())
            }
        } else if self.running.len() > 0 {
            BackendView { pending: Pending::Decode, ..self }
        } else {
            self
        }
    }
}

/// What a tick does to one running request, whose result is at position
/// `place` of the shards' results if the request was part of the call.
///
/// A request that was cancelled ends as cancelled, whatever the shards
/// returned. A request that was not part of the call is left alone. A request
/// with an error fails with it, and one without a result fails as by an error
/// of the shards. Otherwise the request takes tokens up to its first stop
/// token or to its limit: a stop token finishes it, the limit without a stop
/// token fails it, and short of both it runs on.
pub open spec fn slot_update(slot: Slot, place: Option<int>, replies: Seq<SlotReply>) -> SlotUpdate {
    if slot.cancelled {
        SlotUpdate {
            id: slot.id,
            reply: None,
            delivered: 0,
            outcome: Some(Outcome::Failed(Failure::Cancelled)),
        }
    } else {
        match place {
            None => SlotUpdate { id: slot.id, reply: None, delivered: 0, outcome: None },
            Some(k) => if 0 <= k < replies.len() {
                match replies[k] {
                    SlotReply::Tokens(tokens) => {
                        let allowance = (slot.request.max_new_tokens - slot.generated) as nat;
                        let taken = spec_accepted(tokens@, slot.request.stop_tokens@, allowance);
                        SlotUpdate {
                            id: slot.id,
                            reply: Some(k as usize),
                            delivered: taken as usize,
                            outcome: if spec_stopped(
                                tokens@,
                                slot.request.stop_tokens@,
                                allowance,
                            ) {
                                Some(Outcome::Finished)
                            } else if taken == allowance {
                                Some(Outcome::Failed(Failure::LimitExceeded))
                            } else {
                                None
                            },
                        }
                    },
                    SlotReply::Failed(kind) => SlotUpdate {
                        id: slot.id,
                        reply: Some(k as usize),
                        delivered: 0,
                        outcome: Some(Outcome::Failed(Failure::Shard(kind))),
                    },
                }
            } else {
                SlotUpdate {
                    id: slot.id,
                    reply: None,
                    delivered: 0,
                    outcome: Some(Outcome::Failed(Failure::Shard(ShardErrorKind::Application))),
                }
            },
        }
    }
}

/// The request after `delivered` more tokens went to its caller.
pub open spec fn advanced(slot: Slot, delivered: usize) -> Slot {
    Slot { generated: (slot.generated + delivered) as u32, ..slot }
}

/// The requests that run on after a tick, in their order, each advanced by
/// what it delivered.
pub open spec fn survivors(running: Seq<Slot>, updates: Seq<SlotUpdate>) -> Seq<Slot>
    recommends
        running.len() == updates.len(),
    decreases running.len(),
{
    if running.len() == 0 {
        Seq::empty()
    } else {
        let before = survivors(running.drop_last(), updates.drop_last());
        if updates.last().outcome is None {
            before.push(advanced(running.last(), updates.last().delivered))
        } else {
            before
        }
    }
}

/// The blocks of the requests that a tick ended, request after request in the
/// order of the batch.
pub open spec fn released(running: Seq<Slot>, updates: Seq<SlotUpdate>) -> Seq<u64>
    recommends
        running.len() == updates.len(),
    decreases running.len(),
{
    if running.len() == 0 {
        Seq::empty()
    } else {
        let before = released(running.drop_last(), updates.drop_last());
        if updates.last().outcome is None {
            before
        } else {
            before + running.last().blocks
        }
    }
}

/// No update lets a request that runs on pass its limit.
pub open spec fn updates_fit(running: Seq<Slot>, updates: Seq<SlotUpdate>) -> bool {
    &&& updates.len() == running.len()
    &&& forall|i: int|
        0 <= i < running.len() && (#[trigger] updates[i]).outcome is None ==> running[i].generated
            + updates[i].delivered <= running[i].request.max_new_tokens
}

/// Appending a request adds its footprint and its blocks to the sums.
pub proof fn lemma_sums_push(running: Seq<Slot>, slot: Slot)
    ensures
        committed_tokens(running.push(slot)) == committed_tokens(running)
            + slot.request.footprint(),
        held_blocks(running.push(slot)) == held_blocks(running) + slot.blocks.len(),
{
    assert(running.push(slot).drop_last() == running);
}

/// A request that fits can start: the invariant survives, and the headroom
/// shrinks by what the request takes.
pub proof fn lemma_promoted_sound(state: BackendView, prefill_tokens: u64)
    requires
        state.sound(),
        state.queue.waiting.len() > 0,
        state.policy().fits(state.queue.waiting[0].request, state.room(prefill_tokens)),
    ensures
        state.promoted().sound(),
        state.promoted().room(
            (prefill_tokens + state.queue.waiting[0].request.prefill_tokens()) as u64,
        ) == state.policy().after(state.queue.waiting[0].request, state.room(prefill_tokens)),
        state.promoted().pending == state.pending,
        state.promoted().idle_steps == state.idle_steps,
        state.promoted().config == state.config,
        state.promoted().pool.total == state.pool.total,
{
    let entry = state.queue.waiting[0];
    let need = state.policy().blocks_needed(entry.request);
    let next = state.promoted();
    let granted = state.pool.granted(need);
    let slot = next.running.last();
    lemma_reserve_keeps_pool(state.pool, need);
    lemma_sums_push(state.running, slot);
    assert(next.running.drop_last() == state.running);
    assert forall|block: u64| next.pool.free.contains(block) implies state.pool.free.contains(
        block,
    ) by {
        let i = choose|i: int| 0 <= i < next.pool.free.len() && next.pool.free[i] == block;
        assert(state.pool.free[i] == block);
    }
    assert forall|block: u64| granted.contains(block) implies state.pool.free.contains(block) by {
        let i = choose|i: int| 0 <= i < granted.len() && granted[i] == block;
        assert(state.pool.free[state.pool.free.len() - need + i] == block);
    }
    assert(next.ids_in_order()) by {
        assert forall|i: int, j: int| 0 <= i < j < next.running.len() implies next.running[i].id
            < next.running[j].id by {
            if j == state.running.len() {
                assert(state.running[i].id < state.queue.waiting[0].id);
            }
        }
        assert forall|i: int, j: int|
            0 <= i < next.running.len() && 0 <= j < next.queue.waiting.len() implies next.running[i].id
            < next.queue.waiting[j].id by {
            assert(next.queue.waiting[j] == state.queue.waiting[j + 1]);
            if i == state.running.len() {
                assert(state.queue.waiting[0].id < state.queue.waiting[j + 1].id);
            } else {
                assert(state.running[i].id < state.queue.waiting[j + 1].id);
            }
        }
        assert forall|i: int| 0 <= i < next.running.len() implies (#[trigger] next.running[i]).id
            < next.queue.next_id by {
            if i == state.running.len() {
                assert(state.queue.waiting[0].id < state.queue.next_id);
            }
        }
    }
    assert(next.queue.wf()) by {
        assert forall|i: int| 0 <= i < next.queue.waiting.len() implies (
        #[trigger] next.queue.waiting[i]).id < next.queue.next_id by {
            assert(next.queue.waiting[i] == state.queue.waiting[i + 1]);
        }
        assert forall|i: int, j: int| 0 <= i < j < next.queue.waiting.len() implies next.queue.waiting[i].id
            < next.queue.waiting[j].id by {
            assert(next.queue.waiting[i] == state.queue.waiting[i + 1]);
            assert(next.queue.waiting[j] == state.queue.waiting[j + 1]);
        }
    }
    assert(next.blocks_owned_once()) by {
        assert forall|i: int| 0 <= i < next.running.len() implies next.pool.can_release(
            (#[trigger] next.running[i]).blocks,
        ) by {
            if i < state.running.len() {
                let blocks = state.running[i].blocks;
                assert(state.pool.can_release(blocks));
                assert forall|k: int| 0 <= k < blocks.len() implies next.pool.is_held(
                    #[trigger] blocks[k],
                ) by {
                    assert(state.pool.is_held(blocks[k]));
                }
            }
        }
        assert forall|i: int, j: int, block: u64|
            0 <= i < j < next.running.len() && #[trigger] next.running[i].blocks.contains(
                block,
            ) implies !#[trigger] next.running[j].blocks.contains(block) by {
            if j == state.running.len() {
                let blocks = state.running[i].blocks;
                assert(state.pool.can_release(blocks));
                let k = choose|k: int| 0 <= k < blocks.len() && blocks[k] == block;
                assert(state.pool.is_held(blocks[k]));
            } else {
                assert(state.running[i].blocks.contains(block));
                assert(!state.running[j].blocks.contains(block));
            }
        }
    }
    assert(next.slots_valid()) by {
        assert forall|i: int| 0 <= i < next.running.len() implies {
            let slot = #[trigger] next.running[i];
            &&& slot.generated <= slot.request.max_new_tokens
            &&& slot.blocks.len() == next.policy().blocks_needed(slot.request)
        } by {
            if i < state.running.len() {
                assert(next.running[i] == state.running[i]);
            }
        }
    }
}

/// The requests that a pass admits can all start, in their order: the
/// invariant survives, the batch grows at its end by exactly those requests,
/// and the rest of the queue stays as it was.
pub proof fn lemma_promoted_n_sound(state: BackendView, forced: bool, count: nat)
    requires
        state.sound(),
        count <= state.policy().admitted(state.queue.waiting, state.room(0), forced),
    ensures
        state.promoted_n(count).sound(),
        state.promoted_n(count).queue.waiting == state.queue.waiting.skip(count as int),
        state.promoted_n(count).queue.next_id == state.queue.next_id,
        state.promoted_n(count).queue.policy == state.queue.policy,
        state.promoted_n(count).running.len() == state.running.len() + count,
        state.promoted_n(count).running.take(state.running.len() as int) == state.running,
        state.promoted_n(count).pending == state.pending,
        state.promoted_n(count).idle_steps == state.idle_steps,
        state.promoted_n(count).config == state.config,
        state.promoted_n(count).pool.total == state.pool.total,
        state.promoted_n(count).room(
            state.policy().room_after(state.queue.waiting, state.room(0), count).prefill_tokens,
        ) == state.policy().room_after(state.queue.waiting, state.room(0), count),
    decreases count,
{
    let waiting = state.queue.waiting;
    if count == 0 {
        assert(waiting.skip(0) == waiting);
        assert(state.running.take(state.running.len() as int) == state.running);
    } else {
        let before = (count - 1) as nat;
        let prev = state.promoted_n(before);
        let room = state.policy().room_after(waiting, state.room(0), before);
        lemma_promoted_n_sound(state, forced, before);
        lemma_admitted_step(state.policy(), waiting, state.room(0), forced, before);
        assert(prev.queue.waiting[0] == waiting[before as int]);
        lemma_promoted_sound(prev, room.prefill_tokens);
        assert(waiting.skip(before as int).drop_first() == waiting.skip(count as int));
        assert(prev.promoted().running.take(state.running.len() as int) == prev.running.take(
            state.running.len() as int,
        ));
    }
}

/// The first half of a tick keeps the invariant.
pub proof fn lemma_scheduled_wf(state: BackendView)
    requires
        state.wf(),
    ensures
        state.scheduled().wf(),
{
    if state.pending is Nothing && state.admitted() > 0 {
        lemma_promoted_n_sound(state, state.forced(), state.admitted());
    }
}

/// The requests that start in a pass keep their ids and their order.
pub proof fn lemma_promoted_ids(state: BackendView, forced: bool, count: nat, k: int)
    requires
        state.sound(),
        count <= state.policy().admitted(state.queue.waiting, state.room(0), forced),
        0 <= k < count,
    ensures
        state.promoted_n(count).running.len() == state.running.len() + count,
        k < state.queue.waiting.len(),
        state.promoted_n(count).running[state.running.len() + k].id == state.queue.waiting[k].id,
        state.promoted_n(count).running[state.running.len() + k].request
            == state.queue.waiting[k].request,
        state.promoted_n(count).running[state.running.len() + k].generated == 0,
        !state.promoted_n(count).running[state.running.len() + k].cancelled,
    decreases count,
{
    let before = (count - 1) as nat;
    lemma_promoted_n_sound(state, forced, before);
    lemma_promoted_n_sound(state, forced, count);
    lemma_admitted_step(state.policy(), state.queue.waiting, state.room(0), forced, before);
    if k < before {
        lemma_promoted_ids(state, forced, before, k);
    } else {
        assert(state.promoted_n(before).queue.waiting[0] == state.queue.waiting[before as int]);
    }
}

/// Taking a request out of the batch takes its footprint and its blocks out
/// of the sums.
pub proof fn lemma_sums_remove(running: Seq<Slot>, at: int)
    requires
        0 <= at < running.len(),
    ensures
        committed_tokens(running.remove(at)) + running[at].request.footprint()
            == committed_tokens(running),
        held_blocks(running.remove(at)) + running[at].blocks.len() == held_blocks(running),
    decreases running.len(),
{
    if at == running.len() - 1 {
        assert(running.remove(at) == running.drop_last());
    } else {
        lemma_sums_remove(running.drop_last(), at);
        assert(running.remove(at).drop_last() == running.drop_last().remove(at));
        assert(running.remove(at).last() == running.last());
    }
}

/// Replacing a request by one with the same footprint and as many blocks
/// leaves the sums as they were.
pub proof fn lemma_sums_update(running: Seq<Slot>, at: int, slot: Slot)
    requires
        0 <= at < running.len(),
        slot.request.footprint() == running[at].request.footprint(),
        slot.blocks.len() == running[at].blocks.len(),
    ensures
        committed_tokens(running.update(at, slot)) == committed_tokens(running),
        held_blocks(running.update(at, slot)) == held_blocks(running),
    decreases running.len(),
{
    if at == running.len() - 1 {
        assert(running.update(at, slot).drop_last() == running.drop_last());
    } else {
        lemma_sums_update(running.drop_last(), at, slot);
        assert(running.update(at, slot).drop_last() == running.drop_last().update(at, slot));
        assert(running.update(at, slot).last() == running.last());
    }
}

/// A request can end at any time: the invariant survives, and its blocks are
/// free again.
pub proof fn lemma_retired_sound(state: BackendView, at: int)
    requires
        state.sound(),
        0 <= at < state.running.len(),
    ensures
        state.retired(at).sound(),
{
    let next = state.retired(at);
    let gone = state.running[at].blocks;
    assert(state.pool.can_release(gone));
    lemma_release_keeps_pool(state.pool, gone);
    lemma_sums_remove(state.running, at);
    assert(next.blocks_owned_once()) by {
        assert forall|i: int| 0 <= i < next.running.len() implies next.pool.can_release(
            (#[trigger] next.running[i]).blocks,
        ) by {
            let m = if i < at {
                i
            } else {
                i + 1
            };
            let blocks = state.running[m].blocks;
            assert(next.running[i] == state.running[m]);
            assert(state.pool.can_release(blocks));
            assert forall|k: int| 0 <= k < blocks.len() implies next.pool.is_held(
                #[trigger] blocks[k],
            ) by {
                let block = blocks[k];
                assert(state.pool.is_held(block));
                assert(state.running[m].blocks.contains(block));
                if gone.contains(block) {
                    assert(state.running[at].blocks.contains(block));
                }
                if next.pool.free.contains(block) {
                    let w = choose|w: int| 0 <= w < next.pool.free.len() && next.pool.free[w] == block;
                    if w < state.pool.free.len() {
                        assert(state.pool.free[w] == block);
                    } else {
                        assert(gone[w - state.pool.free.len()] == block);
                    }
                }
            }
        }
        assert forall|i: int, j: int, block: u64|
            0 <= i < j < next.running.len() && #[trigger] next.running[i].blocks.contains(
                block,
            ) implies !#[trigger] next.running[j].blocks.contains(block) by {
            let mi = if i < at {
                i
            } else {
                i + 1
            };
            let mj = if j < at {
                j
            } else {
                j + 1
            };
            assert(state.running[mi].blocks.contains(block));
            assert(!state.running[mj].blocks.contains(block));
        }
    }
    assert(next.slots_valid()) by {
        assert forall|i: int| 0 <= i < next.running.len() implies {
            let slot = #[trigger] next.running[i];
            &&& slot.generated <= slot.request.max_new_tokens
            &&& slot.blocks.len() == next.policy().blocks_needed(slot.request)
        } by {
            let m = if i < at {
                i
            } else {
                i + 1
            };
            assert(next.running[i] == state.running[m]);
        }
    }
    assert(next.ids_in_order()) by {
        assert forall|i: int, j: int| 0 <= i < j < next.running.len() implies next.running[i].id
            < next.running[j].id by {
            let mi = if i < at {
                i
            } else {
                i + 1
            };
            let mj = if j < at {
                j
            } else {
                j + 1
            };
            assert(state.running[mi].id < state.running[mj].id);
        }
        assert forall|i: int, j: int|
            0 <= i < next.running.len() && 0 <= j < next.queue.waiting.len() implies next.running[i].id
            < next.queue.waiting[j].id by {
            let mi = if i < at {
                i
            } else {
                i + 1
            };
            assert(state.running[mi].id < state.queue.waiting[j].id);
        }
        assert forall|i: int| 0 <= i < next.running.len() implies (#[trigger] next.running[i]).id
            < next.queue.next_id by {
            let mi = if i < at {
                i
            } else {
                i + 1
            };
            assert(state.running[mi].id < state.queue.next_id);
        }
    }
}

/// Replacing a running request by one that differs only in what it has
/// generated, within its limit, or in its cancellation mark, keeps the
/// invariant.
pub proof fn lemma_replaced_sound(state: BackendView, at: int, slot: Slot)
    requires
        state.sound(),
        0 <= at < state.running.len(),
        slot.id == state.running[at].id,
        slot.request == state.running[at].request,
        slot.blocks == state.running[at].blocks,
        slot.generated <= slot.request.max_new_tokens,
    ensures
        (BackendView { running: state.running.update(at, slot), ..state }).sound(),
{
    let next = BackendView { running: state.running.update(at, slot), ..state };
    lemma_sums_update(state.running, at, slot);
    assert(next.blocks_owned_once()) by {
        assert forall|i: int| 0 <= i < next.running.len() implies next.pool.can_release(
            (#[trigger] next.running[i]).blocks,
        ) by {
            assert(next.running[i].blocks == state.running[i].blocks);
        }
        assert forall|i: int, j: int, block: u64|
            0 <= i < j < next.running.len() && #[trigger] next.running[i].blocks.contains(
                block,
            ) implies !#[trigger] next.running[j].blocks.contains(block) by {
            assert(state.running[i].blocks.contains(block));
            assert(!state.running[j].blocks.contains(block));
        }
    }
    assert(next.slots_valid()) by {
        assert forall|i: int| 0 <= i < next.running.len() implies {
            let slot = #[trigger] next.running[i];
            &&& slot.generated <= slot.request.max_new_tokens
            &&& slot.blocks.len() == next.policy().blocks_needed(slot.request)
        } by {
            assert(next.running[i].request == state.running[i].request);
            assert(next.running[i].blocks == state.running[i].blocks);
            if i != at {
                assert(next.running[i] == state.running[i]);
            }
        }
    }
    assert(next.ids_in_order()) by {
        assert forall|i: int, j: int| 0 <= i < j < next.running.len() implies next.running[i].id
            < next.running[j].id by {
            assert(state.running[i].id < state.running[j].id);
        }
        assert forall|i: int, j: int|
            0 <= i < next.running.len() && 0 <= j < next.queue.waiting.len() implies next.running[i].id
            < next.queue.waiting[j].id by {
            assert(state.running[i].id < state.queue.waiting[j].id);
        }
        assert forall|i: int| 0 <= i < next.running.len() implies (#[trigger] next.running[i]).id
            < next.queue.next_id by {
            assert(state.running[i].id < state.queue.next_id);
        }
    }
}

/// A waiting request can leave the queue at any time.
pub proof fn lemma_dequeued_sound(state: BackendView, at: int)
    requires
        state.sound(),
        0 <= at < state.queue.waiting.len(),
    ensures
        state.dequeued(at).sound(),
{
    let next = state.dequeued(at);
    assert forall|j: int| 0 <= j < next.queue.waiting.len() implies next.queue.waiting[j] == (if j
        < at {
        state.queue.waiting[j]
    } else {
        state.queue.waiting[j + 1]
    }) by {}
    assert(next.queue.wf()) by {
        assert forall|i: int| 0 <= i < next.queue.waiting.len() implies (
        #[trigger] next.queue.waiting[i]).id < next.queue.next_id by {
            let m = if i < at {
                i
            } else {
                i + 1
            };
            assert(state.queue.waiting[m].id < state.queue.next_id);
        }
    }
    assert(next.ids_in_order()) by {
        assert forall|i: int, j: int|
            0 <= i < next.running.len() && 0 <= j < next.queue.waiting.len() implies next.running[i].id
            < next.queue.waiting[j].id by {
            let m = if j < at {
                j
            } else {
                j + 1
            };
            assert(state.running[i].id < state.queue.waiting[m].id);
        }
    }
}

/// A request can join the queue at any time.
pub proof fn lemma_enqueued_sound(state: BackendView, request: Request)
    requires
        state.sound(),
    ensures
        state.enqueued(request).sound(),
        state.wf() ==> state.enqueued(request).wf(),
{
    let next = state.enqueued(request);
    if state.queue.next_id < u64::MAX {
        assert(next.queue.wf()) by {
            assert forall|i: int| 0 <= i < next.queue.waiting.len() implies (
            #[trigger] next.queue.waiting[i]).id < next.queue.next_id by {
                if i < state.queue.waiting.len() {
                    assert(state.queue.waiting[i].id < state.queue.next_id);
                }
            }
            assert forall|i: int, j: int| 0 <= i < j < next.queue.waiting.len() implies next.queue.waiting[i].id
                < next.queue.waiting[j].id by {
                assert(state.queue.waiting[i].id < state.queue.next_id);
                if j < state.queue.waiting.len() {
                    assert(state.queue.waiting[i].id < state.queue.waiting[j].id);
                }
            }
        }
        assert(next.ids_in_order()) by {
            assert forall|i: int, j: int|
                0 <= i < next.running.len() && 0 <= j < next.queue.waiting.len() implies next.running[i].id
                < next.queue.waiting[j].id by {
                assert(state.running[i].id < state.queue.next_id);
                if j < state.queue.waiting.len() {
                    assert(state.running[i].id < state.queue.waiting[j].id);
                }
            }
            assert forall|i: int| 0 <= i < next.running.len() implies (#[trigger] next.running[i]).id
                < next.queue.next_id by {
                assert(state.running[i].id < state.queue.next_id);
            }
        }
    }
}

/// Settling a batch in two parts, one after the other, is settling it whole.
pub proof fn lemma_settle_splits(
    front: Seq<Slot>,
    front_updates: Seq<SlotUpdate>,
    back: Seq<Slot>,
    back_updates: Seq<SlotUpdate>,
)
    requires
        front.len() == front_updates.len(),
        back.len() == back_updates.len(),
    ensures
        survivors(front + back, front_updates + back_updates) == survivors(front, front_updates)
            + survivors(back, back_updates),
        released(front + back, front_updates + back_updates) == released(front, front_updates)
            + released(back, back_updates),
    decreases back.len(),
{
    if back.len() == 0 {
        assert(front + back == front);
        assert(front_updates + back_updates == front_updates);
    } else {
        lemma_settle_splits(front, front_updates, back.drop_last(), back_updates.drop_last());
        assert((front + back).drop_last() == front + back.drop_last());
        assert((front_updates + back_updates).drop_last() == front_updates
            + back_updates.drop_last());
        assert((front + back).last() == back.last());
        assert((front_updates + back_updates).last() == back_updates.last());
    }
}

/// Settling one request.
pub proof fn lemma_settle_one(slot: Slot, update: SlotUpdate)
    ensures
        survivors(seq![slot], seq![update]) == (if update.outcome is None {
            seq![advanced(slot, update.delivered)]
        } else {
            Seq::<Slot>::empty()
        }),
        released(seq![slot], seq![update]) == (if update.outcome is None {
            Seq::<u64>::empty()
        } else {
            slot.blocks
        }),
{
    assert(seq![slot].drop_last() == Seq::<Slot>::empty());
    assert(seq![update].drop_last() == Seq::<SlotUpdate>::empty());
    assert(survivors(Seq::<Slot>::empty(), Seq::<SlotUpdate>::empty()) == Seq::<Slot>::empty());
    assert(released(Seq::<Slot>::empty(), Seq::<SlotUpdate>::empty()) == Seq::<u64>::empty());
    if update.outcome is None {
        assert(Seq::<Slot>::empty().push(advanced(slot, update.delivered)) == seq![
            advanced(slot, update.delivered),
        ]);
    } else {
        assert(Seq::<u64>::empty() + slot.blocks == slot.blocks);
    }
}

/// Settling the next request of the batch is one step: it runs on in its
/// place, or it ends and the requests behind it move up.
pub proof fn lemma_settled_step(state: BackendView, updates: Seq<SlotUpdate>, count: int)
    requires
        0 <= count < state.running.len(),
        updates.len() == state.running.len(),
    ensures
        state.settled(updates, count).running.len() == survivors(
            state.running.take(count),
            updates.take(count),
        ).len() + state.running.len() - count,
        state.settled(updates, count).running[survivors(
            state.running.take(count),
            updates.take(count),
        ).len() as int] == state.running[count],
        state.settled(updates, count + 1) == (if updates[count].outcome is None {
            state.settled(updates, count).advanced_at(
                survivors(state.running.take(count), updates.take(count)).len() as int,
                updates[count].delivered,
            )
        } else {
            state.settled(updates, count).retired(
                survivors(state.running.take(count), updates.take(count)).len() as int,
            )
        }),
{
    let running = state.running;
    let done = survivors(running.take(count), updates.take(count));
    let freed = released(running.take(count), updates.take(count));
    let mid = state.settled(updates, count);
    let next = state.settled(updates, count + 1);
    let at = done.len() as int;
    lemma_settle_splits(
        running.take(count),
        updates.take(count),
        seq![running[count]],
        seq![updates[count]],
    );
    lemma_settle_one(running[count], updates[count]);
    assert(running.take(count + 1) == running.take(count) + seq![running[count]]);
    assert(updates.take(count + 1) == updates.take(count) + seq![updates[count]]);
    assert(mid.running[at] == running[count]);
    if updates[count].outcome is None {
        let step = mid.advanced_at(at, updates[count].delivered);
        assert(next.running =~= step.running);
        assert(next.pool.free =~= step.pool.free);
    } else {
        let step = mid.retired(at);
        assert(next.running =~= step.running);
        assert(next.pool.free =~= step.pool.free);
    }
}

/// The invariant holds all the way through a settlement.
pub proof fn lemma_settled_sound(state: BackendView, updates: Seq<SlotUpdate>, count: int)
    requires
        state.sound(),
        updates_fit(state.running, updates),
        0 <= count <= state.running.len(),
    ensures
        state.settled(updates, count).sound(),
    decreases count,
{
    if count == 0 {
        let start = state.settled(updates, 0);
        assert(state.running.take(0) == Seq::<Slot>::empty());
        assert(start.running =~= state.running);
        assert(start.pool.free =~= state.pool.free);
        assert(start == state);
    } else {
        let mid = state.settled(updates, count - 1);
        let at = survivors(state.running.take(count - 1), updates.take(count - 1)).len() as int;
        lemma_settled_sound(state, updates, count - 1);
        lemma_settled_step(state, updates, count - 1);
        if updates[count - 1].outcome is None {
            lemma_replaced_sound(mid, at, advanced(mid.running[at], updates[count - 1].delivered));
        } else {
            lemma_retired_sound(mid, at);
        }
    }
}

/// Each request that runs on after a tick is one of the batch that the tick
/// did not end, advanced by what it delivered; and the requests that run on
/// keep the order that they had.
pub proof fn lemma_survivor_origin(running: Seq<Slot>, updates: Seq<SlotUpdate>, place: int) -> (from:
    int)
    requires
        running.len() == updates.len(),
        0 <= place < survivors(running, updates).len(),
    ensures
        0 <= from < running.len(),
        updates[from].outcome is None,
        survivors(running, updates)[place] == advanced(running[from], updates[from].delivered),
        place == survivors(running.take(from), updates.take(from)).len(),
    decreases running.len(),
{
    let before = survivors(running.drop_last(), updates.drop_last());
    let last = running.len() - 1;
    assert(running.drop_last() == running.take(last));
    assert(updates.drop_last() == updates.take(last));
    if updates.last().outcome is None && place == before.len() {
        last
    } else {
        let from = lemma_survivor_origin(running.drop_last(), updates.drop_last(), place);
        assert(running.drop_last().take(from) == running.take(from));
        assert(updates.drop_last().take(from) == updates.take(from));
        from
    }
}

/// A request that a tick does not end runs on, at the place that the
/// requests before it leave it.
pub proof fn lemma_survivor_place(running: Seq<Slot>, updates: Seq<SlotUpdate>, from: int)
    requires
        running.len() == updates.len(),
        0 <= from < running.len(),
        updates[from].outcome is None,
    ensures
        survivors(running.take(from), updates.take(from)).len() < survivors(running, updates).len(),
        survivors(running, updates)[survivors(running.take(from), updates.take(from)).len() as int]
            == advanced(running[from], updates[from].delivered),
{
    let rest = running.skip(from + 1);
    let rest_updates = updates.skip(from + 1);
    lemma_settle_splits(
        running.take(from),
        updates.take(from),
        seq![running[from]],
        seq![updates[from]],
    );
    lemma_settle_one(running[from], updates[from]);
    lemma_settle_splits(
        running.take(from) + seq![running[from]],
        updates.take(from) + seq![updates[from]],
        rest,
        rest_updates,
    );
    assert(running == running.take(from) + seq![running[from]] + rest);
    assert(updates == updates.take(from) + seq![updates[from]] + rest_updates);
}

/// The blocks of a request that a tick ends are among the released ones.
pub proof fn lemma_released_contains(
    running: Seq<Slot>,
    updates: Seq<SlotUpdate>,
    from: int,
    block: u64,
)
    requires
        running.len() == updates.len(),
        0 <= from < running.len(),
        updates[from].outcome is Some,
        running[from].blocks.contains(block),
    ensures
        released(running, updates).contains(block),
    decreases running.len(),
{
    let before = released(running.drop_last(), updates.drop_last());
    if from == running.len() - 1 {
        let k = choose|k: int| 0 <= k < running[from].blocks.len() && running[from].blocks[k] == block;
        assert((before + running.last().blocks)[before.len() + k] == block);
    } else {
        lemma_released_contains(running.drop_last(), updates.drop_last(), from, block);
        let k = choose|k: int| 0 <= k < before.len() && before[k] == block;
        if updates.last().outcome is Some {
            assert((before + running.last().blocks)[k] == block);
        }
    }
}

/// What a tick decides for a request is within the request's limit.
pub proof fn lemma_updates_fit(state: BackendView, replies: Seq<SlotReply>)
    requires
        state.sound(),
    ensures
        updates_fit(state.running, state.updates(replies)),
{
    let updates = state.updates(replies);
    assert forall|i: int|
        0 <= i < state.running.len() && (#[trigger] updates[i]).outcome is None implies state.running[i].generated
        + updates[i].delivered <= state.running[i].request.max_new_tokens by {
        let slot = state.running[i];
        assert(slot.generated <= slot.request.max_new_tokens);
        if !slot.cancelled {
            match state.reply_place(i) {
                Some(k) => {
                    if 0 <= k < replies.len() {
                        match replies[k] {
                            SlotReply::Tokens(tokens) => {
                                crate::request::lemma_accepted_is_bounded(
                                    tokens@,
                                    slot.request.stop_tokens@,
                                    (slot.request.max_new_tokens - slot.generated) as nat,
                                );
                            },
                            _ => {},
                        }
                    }
                },
                None => {},
            }
        }
    }
}

/// The second half of a tick keeps the invariant.
pub proof fn lemma_completed_wf(state: BackendView, replies: Seq<SlotReply>)
    requires
        state.wf(),
    ensures
        state.completed(replies).wf(),
{
    if state.pending !is Nothing {
        let updates = state.updates(replies);
        let count = state.running.len() as int;
        let next = state.completed(replies);
        let last = state.settled(updates, count);
        lemma_updates_fit(state, replies);
        lemma_settled_sound(state, updates, count);
        assert(state.running.take(count) == state.running);
        assert(updates.take(count) == updates);
        assert(state.running.skip(count) == Seq::<Slot>::empty());
        assert(last.running =~= next.running);
        assert(next == BackendView {
            idle_steps: state.idle_steps_after(),
            pending: Pending::Nothing,
            ..last
        });
        assert forall|place: int| 0 <= place < next.running.len() implies !(
        #[trigger] next.running[place]).cancelled by {
            let from = lemma_survivor_origin(state.running, updates, place);
        }
    }
}

/// The footprints of the first requests of a batch are no more than the
/// footprints of them all.
pub proof fn lemma_committed_prefix(running: Seq<Slot>, count: int)
    requires
        0 <= count <= running.len(),
    ensures
        committed_tokens(running.take(count)) <= committed_tokens(running),
    decreases running.len() - count,
{
    if count == running.len() {
        assert(running.take(count) == running);
    } else {
        lemma_committed_prefix(running, count + 1);
        assert(running.take(count + 1).drop_last() == running.take(count));
    }
}

/// Settling one more request lets one more request run on, or none.
pub proof fn lemma_settle_grows(running: Seq<Slot>, updates: Seq<SlotUpdate>, count: int)
    requires
        running.len() == updates.len(),
        0 <= count < running.len(),
    ensures
        survivors(running.take(count + 1), updates.take(count + 1)).len() == survivors(
            running.take(count),
            updates.take(count),
        ).len() + (if updates[count].outcome is None {
            1int
        } else {
            0int
        }),
{
    assert(running.take(count + 1).drop_last() == running.take(count));
    assert(updates.take(count + 1).drop_last() == updates.take(count));
}

/// The first requests of a batch hold no more blocks than the whole batch.
pub proof fn lemma_held_blocks_prefix(running: Seq<Slot>, count: int)
    requires
        0 <= count <= running.len(),
    ensures
        held_blocks(running.take(count)) <= held_blocks(running),
    decreases running.len() - count,
{
    if count == running.len() {
        assert(running.take(count) == running);
    } else {
        lemma_held_blocks_prefix(running, count + 1);
        assert(running.take(count + 1).drop_last() == running.take(count));
    }
}

} // verus!
