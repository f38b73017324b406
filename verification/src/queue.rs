//! The waiting requests and the admission policy.
//!
//! Requests wait in arrival order. On each tick the queue admits requests from
//! its front, one after the other, for as long as the next one fits into what
//! the tick may still take and the ratio of waiting to running requests does
//! not hold admissions back. The first request that cannot be admitted ends
//! the pass: nothing behind it overtakes it.

use std::collections::VecDeque;
use vstd::prelude::*;
use crate::block_allocator::{blocks_for, spec_blocks_for};
use crate::config::{BackendConfig, ServedRatio};
use crate::request::{Entry, Request};

verus! {

/// The running batch, as far as admission depends on it.
#[derive(Debug, Clone, Copy, PartialEq, Eq)]
pub struct BatchState {
    /// Number of running requests.
    pub size: usize,
    /// Sum of the footprints of the running requests.
    pub committed_tokens: u64,
    /// Decode steps since a request was last admitted.
    pub idle_steps: usize,
}

/// What an admission pass may still take.
#[derive(Debug, Clone, Copy, PartialEq, Eq)]
pub struct Headroom {
    /// Requests running, those admitted in this pass included.
    pub running: usize,
    /// Prefill tokens of the requests admitted in this pass.
    pub prefill_tokens: u64,
    /// Footprints of all running requests, those admitted in this pass
    /// included.
    pub total_tokens: u64,
    /// Blocks that are still free.
    pub free_blocks: usize,
}

impl Headroom {
    /// The headroom at the start of a pass.
    pub open spec fn spec_initial(available_blocks: usize, running: BatchState) -> Headroom {
        Headroom {
            running: running.size,
            prefill_tokens: 0,
            total_tokens: running.committed_tokens,
            free_blocks: available_blocks,
        }
    }
}

/// The limits that admission works under.
#[derive(Debug, Clone, Copy, PartialEq, Eq)]
pub struct AdmissionPolicy {
    pub max_batch_prefill_tokens: u32,
    pub max_batch_total_tokens: u64,
    pub max_batch_size: Option<usize>,
    pub waiting_served_ratio: ServedRatio,
    pub max_waiting_tokens: usize,
    /// Tokens that one cache block holds.
    pub block_span: u64,
}

impl AdmissionPolicy {
    /// The policy that a configuration asks for.
    pub open spec fn spec_of(config: BackendConfig, block_span: u64) -> AdmissionPolicy {
        AdmissionPolicy {
            max_batch_prefill_tokens: config.max_batch_prefill_tokens,
            max_batch_total_tokens: config.max_batch_total_tokens,
            max_batch_size: config.max_batch_size,
            waiting_served_ratio: config.waiting_served_ratio,
            max_waiting_tokens: config.max_waiting_tokens,
            block_span,
        }
    }

    /// Blocks have a size.
    pub open spec fn wf(&self) -> bool {
        self.block_span > 0
    }

    /// Blocks that `request` needs: enough for its whole footprint.
    pub open spec fn blocks_needed(&self, request: Request) -> nat {
        spec_blocks_for(request.footprint(), self.block_span as nat)
    }

    /// Whether `request` fits into `room`: the batch may grow by one, the
    /// prefill budget of the tick and the total budget hold its tokens, and
    /// the free blocks cover its footprint.
    pub open spec fn fits(&self, request: Request, room: Headroom) -> bool {
        &&& room.running < usize::MAX
        &&& self.max_batch_size matches Some(cap) ==> room.running < cap
        &&& room.prefill_tokens + request.prefill_tokens() <= self.max_batch_prefill_tokens
        &&& room.total_tokens + request.footprint() <= self.max_batch_total_tokens
        &&& self.blocks_needed(request) <= room.free_blocks
    }

    /// The headroom that is left once `request` is admitted.
    pub open spec fn after(&self, request: Request, room: Headroom) -> Headroom {
        Headroom {
            running: (room.running + 1) as usize,
            prefill_tokens: (room.prefill_tokens + request.prefill_tokens()) as u64,
            total_tokens: (room.total_tokens + request.footprint()) as u64,
            free_blocks: (room.free_blocks - self.blocks_needed(request)) as usize,
        }
    }

    /// The starvation guard: the batch has decoded `max_waiting_tokens` times
    /// or more without a new request.
    pub open spec fn is_forced(&self, idle_steps: usize) -> bool {
        idle_steps >= self.max_waiting_tokens
    }

    /// Whether the ratio holds admissions back. The starvation guard
    /// overrides it.
    pub open spec fn holds_back(&self, waiting: nat, room: Headroom, forced: bool) -> bool {
        !forced && self.waiting_served_ratio.throttles(waiting, room.running as nat)
    }

    /// How many requests, from the front of `waiting`, one pass admits.
    pub open spec fn admitted(&self, waiting: Seq<Entry>, room: Headroom, forced: bool) -> nat
        decreases waiting.len(),
    {
        if waiting.len() == 0 || self.holds_back(waiting.len(), room, forced) || !self.fits(
            waiting[0].request,
            room,
        ) {
            0
        } else {
            1 + self.admitted(waiting.drop_first(), self.after(waiting[0].request, room), forced)
        }
    }

    /// The headroom that is left once the first `count` requests of `waiting`
    /// are admitted.
    pub open spec fn room_after(&self, waiting: Seq<Entry>, room: Headroom, count: nat) -> Headroom
        decreases count,
    {
        if count == 0 {
            room
        } else {
            self.after(
                waiting[count - 1].request,
                self.room_after(waiting, room, (count - 1) as nat),
            )
        }
    }

    /// Takes the limits out of a configuration.
    pub fn of(config: &BackendConfig, block_span: u64) -> (policy: Self)
        ensures
            policy == Self::spec_of(*config, block_span),
    {
        AdmissionPolicy {
            max_batch_prefill_tokens: config.max_batch_prefill_tokens,
            max_batch_total_tokens: config.max_batch_total_tokens,
            max_batch_size: config.max_batch_size,
            waiting_served_ratio: config.waiting_served_ratio,
            max_waiting_tokens: config.max_waiting_tokens,
            block_span,
        }
    }

    /// Tries `request` against `room`: the headroom that its admission
    /// leaves, or nothing if it does not fit.
    pub fn try_fit(&self, request: &Request, room: &Headroom) -> (left: Option<Headroom>)
        requires
            self.wf(),
        ensures
            left is Some <==> self.fits(*request, *room),
            left matches Some(rest) ==> rest == self.after(*request, *room),
    {
        if room.running == usize::MAX {
            return None;
        }
        if let Some(cap) = self.max_batch_size {
            if room.running >= cap {
                return None;
            }
        }
        let input: u128 = request.input_ids.len() as u128;
        let footprint: u128 = input + request.max_new_tokens as u128;
        let prefill: u128 = room.prefill_tokens as u128 + input;
        if prefill > self.max_batch_prefill_tokens as u128 {
            return None;
        }
        let total: u128 = room.total_tokens as u128 + footprint;
        if total > self.max_batch_total_tokens as u128 {
            return None;
        }
        let needed: u64 = blocks_for(footprint as u64, self.block_span);
        if needed > room.free_blocks as u64 {
            return None;
        }
        Some(
            Headroom {
                running: room.running + 1,
                prefill_tokens: prefill as u64,
                total_tokens: total as u64,
                free_blocks: room.free_blocks - needed as usize,
            },
        )
    }
}

/// What the queue is, as mathematics.
pub struct QueueView {
    /// The waiting requests, oldest first.
    pub waiting: Seq<Entry>,
    /// The id that the next request gets.
    pub next_id: u64,
    pub policy: AdmissionPolicy,
}

/// The ids of `entries` grow from front to back.
pub open spec fn ids_increase(entries: Seq<Entry>) -> bool {
    forall|i: int, j: int| 0 <= i < j < entries.len() ==> entries[i].id < entries[j].id
}

impl QueueView {
    /// The ids in the queue grow from front to back and are all below the
    /// next id, so no two requests share one.
    pub open spec fn wf(self) -> bool {
        &&& self.policy.wf()
        &&& ids_increase(self.waiting)
        &&& forall|i: int| 0 <= i < self.waiting.len() ==> (#[trigger] self.waiting[i]).id
            < self.next_id
    }

    /// How many requests the next pass admits.
    pub open spec fn admitted(self, available_blocks: usize, running: BatchState) -> nat {
        self.policy.admitted(
            self.waiting,
            Headroom::spec_initial(available_blocks, running),
            self.policy.is_forced(running.idle_steps),
        )
    }
}

/// The queue of admitted requests that no batch has taken yet.
#[derive(Debug)]
pub struct RequestQueue {
    waiting: VecDeque<Entry>,
    next_id: u64,
    policy: AdmissionPolicy,
}

impl View for RequestQueue {
    type V = QueueView;

    closed spec fn view(&self) -> QueueView {
        QueueView { waiting: self.waiting@, next_id: self.next_id, policy: self.policy }
    }
}

impl RequestQueue {
    /// The queue's invariant.
    pub open spec fn wf(&self) -> bool {
        self@.wf()
    }

    /// An empty queue that admits under `policy`.
    pub fn new(policy: AdmissionPolicy) -> (queue: Self)
        requires
            policy.wf(),
        ensures
            queue.wf(),
            queue@.waiting == Seq::<Entry>::empty(),
            queue@.next_id == 0,
            queue@.policy == policy,
    {
        RequestQueue { waiting: VecDeque::new(), next_id: 0, policy }
    }

    /// Number of waiting requests.
    pub fn len(&self) -> (n: usize)
        ensures
            n == self@.waiting.len(),
    {
        self.waiting.len()
    }

    /// The policy that the queue admits under.
    pub fn policy(&self) -> (policy: AdmissionPolicy)
        ensures
            policy == self@.policy,
    {
        self.policy
    }

    /// Appends `request` and returns the id it waits under. Only a queue that
    /// has given out every id refuses, and stays as it was.
    pub fn enqueue(&mut self, request: Request) -> (id: Option<u64>)
        requires
            old(self).wf(),
        ensures
            final(self).wf(),
            final(self)@.policy == old(self)@.policy,
            old(self)@.next_id == u64::MAX ==> id is None && final(self)@ == old(self)@,
            old(self)@.next_id < u64::MAX ==> id == Some(old(self)@.next_id)
                && final(self)@.next_id == old(self)@.next_id + 1
                && final(self)@.waiting == old(self)@.waiting.push(
                Entry { id: old(self)@.next_id, request },
            ),
    {
        if self.next_id == u64::MAX {
            return None;
        }
        let id: u64 = self.next_id;
        self.waiting.push_back(Entry { id, request });
        self.next_id = id + 1;
        Some(id)
    }

    /// Takes the next batch out of the queue: the longest run of requests
    /// from the front that the policy admits, given the free blocks and the
    /// running batch. The requests behind it stay, in their order.
    pub fn next_batch(&mut self, available_blocks: usize, running: &BatchState) -> (batch: Vec<
        Entry,
    >)
        requires
            old(self).wf(),
        ensures
            final(self).wf(),
            final(self)@.policy == old(self)@.policy,
            final(self)@.next_id == old(self)@.next_id,
            batch@ == old(self)@.waiting.take(
                old(self)@.admitted(available_blocks, *running) as int,
            ),
            final(self)@.waiting == old(self)@.waiting.skip(
                old(self)@.admitted(available_blocks, *running) as int,
            ),
            old(self)@.admitted(available_blocks, *running) <= old(self)@.waiting.len(),
    {
        let forced: bool = running.idle_steps >= self.policy.max_waiting_tokens;
        let mut room = Headroom {
            running: running.size,
            prefill_tokens: 0,
            total_tokens: running.committed_tokens,
            free_blocks: available_blocks,
        };
        let mut batch: Vec<Entry> = Vec::new();
        let mut open: bool = true;
        let ghost before = self@;
        let ghost goal = before.admitted(available_blocks, *running);
        while open && self.waiting.len() > 0
            invariant
                self@.policy == before.policy,
                self@.next_id == before.next_id,
                before.wf(),
                before.waiting == batch@ + self@.waiting,
                goal == batch@.len() + before.policy.admitted(self@.waiting, room, forced),
                !open ==> before.policy.admitted(self@.waiting, room, forced) == 0,
            decreases self@.waiting.len() + (if open { 1nat } else { 0nat }),
        {
            let ghost rest = self@.waiting;
            if !forced && self.policy.waiting_served_ratio.is_throttled(
                self.waiting.len(),
                room.running,
            ) {
                open = false;
            } else {
                match self.policy.try_fit(&self.waiting[0].request, &room) {
                    None => {
                        open = false;
                    },
                    Some(left) => {
                        let entry = self.waiting.pop_front().unwrap();
                        room = left;
                        batch.push(entry);
                        assert(self@.waiting == rest.drop_first());
                        assert(before.waiting == batch@ + self@.waiting);
                    },
                }
            }
        }
        proof {
            assert(before.waiting.take(batch@.len() as int) == batch@);
            assert(before.waiting.skip(batch@.len() as int) == self@.waiting);
        }
        batch
    }

    /// Puts deferred requests back at the front of the queue, in their order.
    pub fn defer(&mut self, entries: Vec<Entry>)
        requires
            old(self).wf(),
            ids_increase(entries@ + old(self)@.waiting),
            forall|i: int| 0 <= i < entries@.len() ==> (#[trigger] entries@[i]).id < old(
                self,
            )@.next_id,
        ensures
            final(self).wf(),
            final(self)@.policy == old(self)@.policy,
            final(self)@.next_id == old(self)@.next_id,
            final(self)@.waiting == entries@ + old(self)@.waiting,
    {
        let mut entries = entries;
        let ghost all = entries@;
        let ghost before = self@;
        while entries.len() > 0
            invariant
                self@.policy == before.policy,
                self@.next_id == before.next_id,
                entries@.len() <= all.len(),
                entries@ == all.take(entries@.len() as int),
                self@.waiting == all.skip(entries@.len() as int) + before.waiting,
            decreases entries@.len(),
        {
            let ghost kept = entries@.len() - 1;
            let entry = entries.pop().unwrap();
            self.waiting.push_front(entry);
            assert(entries@ == all.take(kept));
            assert(self@.waiting == all.skip(kept) + before.waiting);
        }
        assert(self@.waiting == all + before.waiting);
        assert forall|i: int| 0 <= i < self@.waiting.len() implies (#[trigger] self@.waiting[i]).id
            < self@.next_id by {
            if i < all.len() {
                assert(all[i].id < before.next_id);
            } else {
                assert(before.waiting[i - all.len()].id < before.next_id);
            }
        }
    }

    /// Where the request with `id` waits, if it does.
    pub fn position(&self, id: u64) -> (at: Option<usize>)
        ensures
            match at {
                Some(i) => i < self@.waiting.len() && self@.waiting[i as int].id == id,
                None => forall|i: int| 0 <= i < self@.waiting.len() ==> (
                #[trigger] self@.waiting[i]).id != id,
            },
    {
        let mut i: usize = 0;
        while i < self.waiting.len()
            invariant
                i <= self@.waiting.len(),
                forall|k: int| 0 <= k < i ==> (#[trigger] self@.waiting[k]).id != id,
            decreases self@.waiting.len() - i,
        {
            if self.waiting[i].id == id {
                return Some(i);
            }
            i = i + 1;
        }
        None
    }

    /// Takes the request with `id` out of the queue, if it waits there. The
    /// others keep their order.
    pub fn remove(&mut self, id: u64) -> (removed: Option<Entry>)
        requires
            old(self).wf(),
        ensures
            final(self).wf(),
            final(self)@.policy == old(self)@.policy,
            final(self)@.next_id == old(self)@.next_id,
            match removed {
                Some(entry) => exists|i: int|
                    0 <= i < old(self)@.waiting.len() && old(self)@.waiting[i] == entry
                        && entry.id == id && final(self)@.waiting == old(self)@.waiting.remove(i),
                None => final(self)@ == old(self)@ && forall|i: int|
                    0 <= i < old(self)@.waiting.len() ==> (#[trigger] old(self)@.waiting[i]).id
                        != id,
            },
    {
        match self.position(id) {
            None => None,
            Some(at) => {
                let removed = self.waiting.remove(at);
                assert(self@.waiting == old(self)@.waiting.remove(at as int));
                removed
            },
        }
    }
}

/// While the ratio holds admissions back and the starvation guard is not due,
/// a pass admits nothing, however many blocks are free.
pub proof fn lemma_ratio_pauses_admission(
    policy: AdmissionPolicy,
    waiting: Seq<Entry>,
    room: Headroom,
)
    requires
        policy.waiting_served_ratio.throttles(waiting.len(), room.running as nat),
    ensures
        policy.admitted(waiting, room, false) == 0,
{
}

/// Once the starvation guard is due, a pass admits the request at the front
/// of the queue if it fits, whatever the ratio says.
pub proof fn lemma_starvation_guard_admits(
    policy: AdmissionPolicy,
    waiting: Seq<Entry>,
    room: Headroom,
)
    requires
        waiting.len() > 0,
        policy.fits(waiting[0].request, room),
    ensures
        policy.admitted(waiting, room, true) >= 1,
{
}

/// A pass never admits more requests than wait.
pub proof fn lemma_admitted_is_bounded(
    policy: AdmissionPolicy,
    waiting: Seq<Entry>,
    room: Headroom,
    forced: bool,
)
    ensures
        policy.admitted(waiting, room, forced) <= waiting.len(),
    decreases waiting.len(),
{
    if policy.admitted(waiting, room, forced) > 0 {
        lemma_admitted_is_bounded(
            policy,
            waiting.drop_first(),
            policy.after(waiting[0].request, room),
            forced,
        );
    }
}

/// Part of the way through a pass, the rest of the pass is the pass that
/// starts there: with `count` requests admitted, the requests that follow are
/// judged against the headroom that those left. In particular each admitted
/// request fitted when its turn came.
pub proof fn lemma_admitted_step(
    policy: AdmissionPolicy,
    waiting: Seq<Entry>,
    room: Headroom,
    forced: bool,
    count: nat,
)
    requires
        count <= policy.admitted(waiting, room, forced),
    ensures
        count <= waiting.len(),
        policy.admitted(waiting.skip(count as int), policy.room_after(waiting, room, count), forced)
            + count == policy.admitted(waiting, room, forced),
        count < policy.admitted(waiting, room, forced) ==> policy.fits(
            waiting[count as int].request,
            policy.room_after(waiting, room, count),
        ) && !policy.holds_back(
            (waiting.len() - count) as nat,
            policy.room_after(waiting, room, count),
            forced,
        ),
    decreases count,
{
    lemma_admitted_is_bounded(policy, waiting, room, forced);
    if count == 0 {
        assert(waiting.skip(0) == waiting);
    } else {
        let before = (count - 1) as nat;
        lemma_admitted_step(policy, waiting, room, forced, before);
        assert(waiting.skip(before as int).drop_first() == waiting.skip(count as int));
        assert(waiting.skip(before as int)[0] == waiting[before as int]);
    }
    if count < policy.admitted(waiting, room, forced) {
        assert(waiting.skip(count as int)[0] == waiting[count as int]);
    }
}

} // verus!
