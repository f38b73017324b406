//! The continuous-batching driver.
//!
//! [`BackendV3`] owns the block pool, the queue and the running batch. A tick
//! has two halves with a shard call between them: [`BackendV3::schedule`]
//! admits requests and says what to call, and [`BackendV3::complete`] applies
//! what the shards returned. The program around the scheduler makes the call.

use vstd::prelude::*;
use crate::block_allocator::{blocks_for, BlockAllocator, PoolView};
use crate::config::{BackendConfig, BackendInfo};
use crate::error::ShardErrorKind;
use crate::model::{
    committed_tokens, lemma_committed_prefix, lemma_completed_wf, lemma_dequeued_sound, lemma_enqueued_sound,
    lemma_promoted_n_sound, lemma_replaced_sound, lemma_retired_sound, lemma_scheduled_wf,
    lemma_settle_grows, lemma_settled_sound, lemma_settled_step, lemma_updates_fit, survivors,
    BackendView, Pending, Slot,
};
use crate::queue::{
    lemma_admitted_step, AdmissionPolicy, BatchState, QueueView, RequestQueue,
};
use crate::request::{
    accept_tokens, Entry, Failure, Outcome, Request, RunningRequest, SlotReply, SlotUpdate,
};

verus! {

/// The shard call that a tick asks for. The ids name the requests of the
/// call's batch, in batch order; results come back in the same order.
#[derive(Debug)]
pub enum Dispatch {
    /// Nothing to call: no request runs and none could be admitted, or a
    /// call is still in flight.
    Idle,
    /// Prefill the requests that were just admitted.
    Prefill(Vec<u64>),
    /// Decode one step of the whole batch.
    Decode(Vec<u64>),
}

/// What a cancellation did.
#[derive(Debug, Clone, Copy, PartialEq, Eq)]
pub enum CancelEffect {
    /// No request has this id: it has ended, or never was.
    Unknown,
    /// The request waited, and has left the queue.
    Dequeued,
    /// The request ran, and no call was in flight: it has left the batch and
    /// its blocks are free.
    Released,
    /// The request is part of a batch whose call is in flight: it leaves the
    /// batch when the call returns.
    Marked,
}

/// The ids of the requests from position `first` of the batch on.
pub open spec fn batch_ids(running: Seq<Slot>, first: int) -> Seq<u64> {
    Seq::new((running.len() - first) as nat, |k: int| running[first + k].id)
}

/// The state that a scheduler starts in: every block free, nobody waiting,
/// nobody running.
pub open spec fn initial_view(config: BackendConfig, block_span: u64) -> BackendView {
    let total = (config.max_batch_total_tokens / block_span) as nat;
    BackendView {
        config,
        pool: PoolView {
            free: Seq::new(total, |i: int| i as u64),
            total,
            block_span: block_span as nat,
        },
        queue: QueueView {
            waiting: Seq::empty(),
            next_id: 0,
            policy: AdmissionPolicy::spec_of(config, block_span),
        },
        running: Seq::empty(),
        idle_steps: 0,
        pending: Pending::Nothing,
    }
}

/// The scheduler.
#[derive(Debug)]
pub struct BackendV3 {
    config: BackendConfig,
    allocator: BlockAllocator,
    queue: RequestQueue,
    running: Vec<RunningRequest>,
    idle_steps: usize,
    pending: Pending,
}

impl View for BackendV3 {
    type V = BackendView;

    closed spec fn view(&self) -> BackendView {
        BackendView {
            config: self.config,
            pool: self.allocator@,
            queue: self.queue@,
            running: self.running@.map_values(|request: RunningRequest| request@),
            idle_steps: self.idle_steps,
            pending: self.pending,
        }
    }
}

impl BackendV3 {
    /// The scheduler's invariant.
    pub open spec fn wf(&self) -> bool {
        self@.wf()
    }

    /// A scheduler for `config`, with blocks of `block_span` tokens.
    pub fn new(config: BackendConfig, block_span: u64) -> (backend: Self)
        requires
            block_span > 0,
        ensures
            backend.wf(),
            backend@ == initial_view(config, block_span),
    {
        let allocator = BlockAllocator::new(config.max_batch_total_tokens, block_span);
        let queue = RequestQueue::new(AdmissionPolicy::of(&config, block_span));
        let backend = BackendV3 {
            config,
            allocator,
            queue,
            running: Vec::new(),
            idle_steps: 0,
            pending: Pending::Nothing,
        };
        proof {
            assert(backend@.running =~= Seq::<Slot>::empty());
            assert(backend@.queue.waiting =~= Seq::<Entry>::empty());
        }
        backend
    }

    /// The configuration that the scheduler runs with.
    pub fn config(&self) -> (config: &BackendConfig)
        ensures
            *config == self@.config,
    {
        &self.config
    }

    /// The record for the API layer.
    pub fn info(&self) -> (info: BackendInfo)
        ensures
            info == self@.config.spec_info(),
    {
        self.config.info()
    }

    /// Number of free blocks.
    pub fn free_count(&self) -> (n: usize)
        ensures
            n == self@.pool.free.len(),
    {
        self.allocator.free_count()
    }

    /// Size of the block inventory.
    pub fn total_blocks(&self) -> (n: u64)
        ensures
            n == self@.pool.total,
    {
        self.allocator.total_blocks()
    }

    /// Number of waiting requests.
    pub fn waiting_len(&self) -> (n: usize)
        ensures
            n == self@.queue.waiting.len(),
    {
        self.queue.len()
    }

    /// Where the request with `id` waits in the queue, if it waits.
    pub fn waiting_position(&self, id: u64) -> (at: Option<usize>)
        ensures
            match at {
                Some(i) => i < self@.queue.waiting.len() && self@.queue.waiting[i as int].id
                    == id,
                None => forall|i: int|
                    0 <= i < self@.queue.waiting.len() ==> (#[trigger] self@.queue.waiting[i]).id
                        != id,
            },
    {
        self.queue.position(id)
    }

    /// Number of running requests.
    pub fn running_len(&self) -> (n: usize)
        ensures
            n == self@.running.len(),
    {
        self.running.len()
    }

    /// The running request at position `at` of the batch.
    pub fn running(&self, at: usize) -> (request: Option<&RunningRequest>)
        ensures
            at >= self@.running.len() ==> request is None,
            at < self@.running.len() ==> (request matches Some(found) && found@
                == self@.running[at as int]),
    {
        if at < self.running.len() {
            Some(&self.running[at])
        } else {
            None
        }
    }

    /// Decode steps since a request was last admitted.
    pub fn idle_steps(&self) -> (steps: usize)
        ensures
            steps == self@.idle_steps,
    {
        self.idle_steps
    }

    /// The call whose answer is awaited.
    pub fn pending(&self) -> (pending: Pending)
        ensures
            pending == self@.pending,
    {
        self.pending
    }

    /// Puts `request` into the queue and returns the id that names it from
    /// now on. Only a scheduler that has given out every id refuses.
    pub fn enqueue(&mut self, request: Request) -> (id: Option<u64>)
        requires
            old(self).wf(),
        ensures
            final(self).wf(),
            final(self)@ == old(self)@.enqueued(request),
            id == (if old(self)@.queue.next_id == u64::MAX {
                None
            } else {
                Some(old(self)@.queue.next_id)
            }),
    {
        proof {
            lemma_enqueued_sound(self@, request);
        }
        self.queue.enqueue(request)
    }

    /// Sum of the footprints of the running requests.
    pub fn committed_tokens(&self) -> (total: u64)
        requires
            self.wf(),
        ensures
            total == committed_tokens(self@.running),
    {
        let mut total: u64 = 0;
        let mut i: usize = 0;
        while i < self.running.len()
            invariant
                self.wf(),
                i <= self.running@.len(),
                total == committed_tokens(self@.running.take(i as int)),
            decreases self.running@.len() - i,
        {
            proof {
                lemma_committed_prefix(self@.running, i + 1);
                assert(self@.running.take(i + 1).drop_last() == self@.running.take(i as int));
            }
            let request = &self.running[i].request;
            let footprint: u128 = request.input_ids.len() as u128 + request.max_new_tokens as u128;
            total = (total as u128 + footprint) as u64;
            i = i + 1;
        }
        assert(self@.running.take(i as int) == self@.running);
        total
    }

    /// What the queue is told of the running batch.
    pub fn batch_state(&self) -> (state: BatchState)
        requires
            self.wf(),
        ensures
            state == self@.batch_state(),
    {
        BatchState {
            size: self.running.len(),
            committed_tokens: self.committed_tokens(),
            idle_steps: self.idle_steps,
        }
    }

    /// The ids of the running requests from position `first` on.
    fn running_ids(&self, first: usize) -> (ids: Vec<u64>)
        requires
            first <= self@.running.len(),
        ensures
            ids@ == batch_ids(self@.running, first as int),
    {
        let mut ids: Vec<u64> = Vec::new();
        let mut i: usize = first;
        while i < self.running.len()
            invariant
                first <= i <= self.running@.len(),
                ids@ == Seq::new((i - first) as nat, |k: int| self@.running[first + k].id),
            decreases self.running@.len() - i,
        {
            ids.push(self.running[i].id);
            i = i + 1;
        }
        ids
    }

    /// The first half of a tick. Polls the queue with the current free block
    /// count, reserves the blocks of every admitted request, and chooses the
    /// call: a prefill of the requests that were admitted, else a decode step
    /// of the running batch, else nothing.
    ///
    /// Every reservation goes through `try_reserve`. The queue admits against
    /// the free count of this very moment, so none is rejected here; a
    /// request whose reservation were rejected would return to the front of
    /// the queue and wait for the next tick.
    pub fn schedule(&mut self) -> (dispatch: Dispatch)
        requires
            old(self).wf(),
        ensures
            final(self).wf(),
            final(self)@ == old(self)@.scheduled(),
            match dispatch {
                Dispatch::Idle => old(self)@.pending !is Nothing || final(self)@.pending
                    is Nothing,
                Dispatch::Prefill(ids) => old(self)@.pending is Nothing && final(self)@.pending
                    == (Pending::Prefill { first: old(self)@.running.len() as usize }) && ids@
                    == batch_ids(final(self)@.running, old(self)@.running.len() as int),
                Dispatch::Decode(ids) => old(self)@.pending is Nothing && final(self)@.pending
                    is Decode && ids@ == batch_ids(final(self)@.running, 0),
            },
    {
        proof {
            lemma_scheduled_wf(self@);
        }
        match self.pending {
            Pending::Nothing => {},
            _ => {
                return Dispatch::Idle;
            },
        }
        let state = self.batch_state();
        let free: usize = self.allocator.free_count();
        let first: usize = self.running.len();
        let span: u64 = self.allocator.block_span();
        let ghost before = self@;
        let ghost forced = before.forced();
        let ghost goal = before.admitted();
        let batch = self.queue.next_batch(free, &state);
        let ghost taken = batch@;
        if batch.len() == 0 {
            proof {
                assert(self@.queue.waiting =~= before.queue.waiting);
                assert(self@ == before);
            }
            if first > 0 {
                self.pending = Pending::Decode;
                return Dispatch::Decode(self.running_ids(0));
            }
            return Dispatch::Idle;
        }
        let mut deferred: Vec<Entry> = Vec::new();
        for entry in it: batch
            invariant
                before.sound(),
                before.pending is Nothing,
                forced == before.forced(),
                goal == before.admitted(),
                it.seq() == taken,
                taken == before.queue.waiting.take(goal as int),
                goal <= before.queue.waiting.len(),
                span == before.pool.block_span,
                deferred@.len() == 0,
                self.queue@.waiting == before.queue.waiting.skip(goal as int),
                self.queue@.next_id == before.queue.next_id,
                self.queue@.policy == before.queue.policy,
                self.config == before.config,
                self.idle_steps == before.idle_steps,
                self.pending == before.pending,
                self.allocator@ == before.promoted_n(it.index() as nat).pool,
                self@.running == before.promoted_n(it.index() as nat).running,
        {
            let ghost k = it.index() as nat;
            let ghost mid = before.promoted_n(k);
            proof {
                lemma_promoted_n_sound(before, forced, k);
                lemma_admitted_step(
                    before.policy(),
                    before.queue.waiting,
                    before.room(0),
                    forced,
                    k,
                );
                assert(mid.queue.waiting[0] == before.queue.waiting[k as int]);
                assert(entry == before.queue.waiting[k as int]);
            }
            let footprint: u128 = entry.request.input_ids.len() as u128
                + entry.request.max_new_tokens as u128;
            let need: u64 = blocks_for(footprint as u64, span);
            match self.allocator.try_reserve(need as usize) {
                Some(blocks) => {
                    self.running.push(
                        RunningRequest {
                            id: entry.id,
                            request: entry.request,
                            blocks,
                            generated: 0,
                            cancelled: false,
                        },
                    );
                    assert(self@.running =~= mid.promoted().running);
                },
                None => {
                    deferred.push(entry);
                },
            }
        }
        proof {
            lemma_promoted_n_sound(before, forced, goal);
            assert(deferred@ + self.queue@.waiting =~= self.queue@.waiting);
        }
        self.queue.defer(deferred);
        self.idle_steps = 0;
        self.pending = Pending::Prefill { first };
        proof {
            assert(self@.queue.waiting =~= before.promoted_n(goal).queue.waiting);
            assert(self@ == before.scheduled());
        }
        Dispatch::Prefill(self.running_ids(first))
    }

    /// Ends the request at position `at`: takes it out of the batch and gives
    /// its blocks back. This is the one place where a request leaves the
    /// batch, and the one place where the scheduler releases blocks.
    fn retire(&mut self, at: usize)
        requires
            old(self)@.sound(),
            at < old(self)@.running.len(),
        ensures
            final(self)@ == old(self)@.retired(at as int),
            final(self)@.sound(),
    {
        proof {
            lemma_retired_sound(self@, at as int);
            assert(self@.pool.can_release(self@.running[at as int].blocks));
        }
        let gone = self.running.remove(at);
        self.allocator.release(gone.blocks);
        proof {
            assert(self@.running =~= old(self)@.running.remove(at as int));
        }
    }

    /// Decides what the tick does to the request at position `at`, given the
    /// shards' results for the call in flight.
    fn update_for(&self, at: usize, replies: &Vec<SlotReply>) -> (update: SlotUpdate)
        requires
            self@.sound(),
            at < self@.running.len(),
        ensures
            update == self@.update_at(at as int, replies@),
    {
        let slot = &self.running[at];
        if slot.cancelled {
            return SlotUpdate {
                id: slot.id,
                reply: None,
                delivered: 0,
                outcome: Some(Outcome::Failed(Failure::Cancelled)),
            };
        }
        let k: usize = match self.pending {
            Pending::Nothing => {
                return SlotUpdate { id: slot.id, reply: None, delivered: 0, outcome: None };
            },
            Pending::Prefill { first } => {
                if at < first {
                    return SlotUpdate { id: slot.id, reply: None, delivered: 0, outcome: None };
                }
                at - first
            },
            Pending::Decode => at,
        };
        if k >= replies.len() {
            return SlotUpdate {
                id: slot.id,
                reply: None,
                delivered: 0,
                outcome: Some(Outcome::Failed(Failure::Shard(ShardErrorKind::Application))),
            };
        }
        match &replies[k] {
            SlotReply::Failed(kind) => SlotUpdate {
                id: slot.id,
                reply: Some(k),
                delivered: 0,
                outcome: Some(Outcome::Failed(Failure::Shard(*kind))),
            },
            SlotReply::Tokens(tokens) => {
                let allowance: u32 = slot.request.max_new_tokens - slot.generated;
                let (taken, stopped) = accept_tokens(tokens, &slot.request.stop_tokens, allowance);
                let outcome = if stopped {
                    Some(Outcome::Finished)
                } else if taken as u64 == allowance as u64 {
                    Some(Outcome::Failed(Failure::LimitExceeded))
                } else {
                    None
                };
                SlotUpdate { id: slot.id, reply: Some(k), delivered: taken, outcome }
            },
        }
    }

    /// The second half of a tick. Applies the shards' results, which come in
    /// the order of the batch that was dispatched, and returns one update per
    /// running request, in batch order: how many of its tokens go to its
    /// caller, and how it ended if it did. Every request that ended has left
    /// the batch and its blocks are free. Without a call in flight nothing
    /// happens and nothing is returned.
    pub fn complete(&mut self, replies: &Vec<SlotReply>) -> (updates: Vec<SlotUpdate>)
        requires
            old(self).wf(),
        ensures
            final(self).wf(),
            final(self)@ == old(self)@.completed(replies@),
            updates@ == (if old(self)@.pending is Nothing {
                Seq::<SlotUpdate>::empty()
            } else {
                old(self)@.updates(replies@)
            }),
    {
        proof {
            lemma_completed_wf(self@, replies@);
        }
        let mut updates: Vec<SlotUpdate> = Vec::new();
        match self.pending {
            Pending::Nothing => {
                return updates;
            },
            _ => {},
        }
        let ghost before = self@;
        let ghost goal = before.updates(replies@);
        let count: usize = self.running.len();
        let mut i: usize = 0;
        while i < count
            invariant
                self@ == before,
                before.sound(),
                count == before.running.len(),
                i <= count,
                updates@ == goal.take(i as int),
                goal == before.updates(replies@),
            decreases count - i,
        {
            let update = self.update_for(i, replies);
            updates.push(update);
            proof {
                assert(goal.take(i + 1) == goal.take(i as int).push(goal[i as int]));
            }
            i = i + 1;
        }
        proof {
            assert(goal.take(count as int) == goal);
            lemma_updates_fit(before, replies@);
            lemma_settled_sound(before, goal, 0);
            assert(before.running.take(0) == Seq::<Slot>::empty());
            assert(before.settled(goal, 0).running =~= before.running);
            assert(before.settled(goal, 0).pool.free =~= before.pool.free);
        }
        let mut done: usize = 0;
        let mut at: usize = 0;
        while done < count
            invariant
                before.sound(),
                before.pending !is Nothing,
                crate::model::updates_fit(before.running, goal),
                updates@ == goal,
                count == before.running.len(),
                done <= count,
                self@ == before.settled(goal, done as int),
                at == survivors(before.running.take(done as int), goal.take(done as int)).len(),
            decreases count - done,
        {
            proof {
                lemma_settled_sound(before, goal, done as int);
                lemma_settled_step(before, goal, done as int);
                lemma_settle_grows(before.running, goal, done as int);
            }
            let update = updates[done];
            if update.outcome.is_none() {
                let generated: u32 = self.running[at].generated;
                self.running[at].generated = generated + update.delivered as u32;
                proof {
                    assert(self@.running =~= before.settled(goal, done as int).advanced_at(
                        at as int,
                        update.delivered,
                    ).running);
                }
                at = at + 1;
            } else {
                self.retire(at);
            }
            done = done + 1;
        }
        if let Pending::Decode = self.pending {
            if self.idle_steps < usize::MAX {
                self.idle_steps = self.idle_steps + 1;
            }
        }
        self.pending = Pending::Nothing;
        proof {
            assert(before.running.take(count as int) == before.running);
            assert(goal.take(count as int) == goal);
            assert(before.running.skip(count as int) == Seq::<Slot>::empty());
            assert(self@.running =~= before.completed(replies@).running);
            assert(self@ == before.completed(replies@));
        }
        updates
    }

    /// Takes note that the caller of request `id` has gone away. A waiting
    /// request leaves the queue. A running request leaves the batch and gives
    /// its blocks back: at once if no call is in flight, else when the call
    /// returns, and until then it is only marked.
    pub fn cancel(&mut self, id: u64) -> (effect: CancelEffect)
        requires
            old(self).wf(),
        ensures
            final(self).wf(),
            match effect {
                CancelEffect::Unknown => final(self)@ == old(self)@ && (forall|i: int|
                    0 <= i < old(self)@.running.len() ==> (#[trigger] old(self)@.running[i]).id
                        != id) && (forall|j: int|
                    0 <= j < old(self)@.queue.waiting.len() ==> (
                    #[trigger] old(self)@.queue.waiting[j]).id != id),
                CancelEffect::Dequeued => exists|j: int|
                    0 <= j < old(self)@.queue.waiting.len() && (
                    #[trigger] old(self)@.queue.waiting[j]).id == id && final(self)@ == old(
                        self,
                    )@.dequeued(j),
                CancelEffect::Released => old(self)@.pending is Nothing && exists|i: int|
                    0 <= i < old(self)@.running.len() && (#[trigger] old(self)@.running[i]).id
                        == id && final(self)@ == old(self)@.retired(i),
                CancelEffect::Marked => old(self)@.pending !is Nothing && exists|i: int|
                    0 <= i < old(self)@.running.len() && (#[trigger] old(self)@.running[i]).id
                        == id && final(self)@ == old(self)@.marked(i),
            },
    {
        let ghost before = self@;
        match self.queue.remove(id) {
            Some(_) => {
                proof {
                    let j = choose|j: int|
                        0 <= j < before.queue.waiting.len() && before.queue.waiting[j].id == id
                            && self.queue@.waiting == before.queue.waiting.remove(j);
                    lemma_dequeued_sound(before, j);
                    assert(self@ == before.dequeued(j));
                }
                return CancelEffect::Dequeued;
            },
            None => {},
        }
        let mut at: usize = 0;
        while at < self.running.len() && self.running[at].id != id
            invariant
                self@ == before,
                at <= before.running.len(),
                forall|i: int| 0 <= i < at ==> (#[trigger] before.running[i]).id != id,
            decreases before.running.len() - at,
        {
            at = at + 1;
        }
        if at == self.running.len() {
            return CancelEffect::Unknown;
        }
        match self.pending {
            Pending::Nothing => {
                self.retire(at);
                proof {
                    assert forall|i: int| 0 <= i < self@.running.len() implies !(
                    #[trigger] self@.running[i]).cancelled by {
                        let m = if i < at {
                            i
                        } else {
                            i + 1
                        };
                        assert(self@.running[i] == before.running[m]);
                    }
                }
                CancelEffect::Released
            },
            _ => {
                self.running[at].cancelled = true;
                proof {
                    let slot = Slot { cancelled: true, ..before.running[at as int] };
                    lemma_replaced_sound(before, at as int, slot);
                    assert(self@.running =~= before.marked(at as int).running);
                    assert(self@ == before.marked(at as int));
                }
                CancelEffect::Marked
            },
        }
    }
}

} // verus!
