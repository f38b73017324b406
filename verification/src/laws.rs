//! What holds of the scheduler in every state and through every tick.

use vstd::prelude::*;
use crate::backend::initial_view;
use crate::config::BackendConfig;
use crate::model::{
    advanced, held_blocks, lemma_completed_wf, lemma_promoted_ids, lemma_promoted_n_sound, lemma_dequeued_sound, lemma_released_contains,
    lemma_replaced_sound, lemma_retired_sound, lemma_settle_one, lemma_settle_splits,
    lemma_survivor_origin, lemma_survivor_place, released, survivors, BackendView, Pending, Slot,
};
use crate::block_allocator::spec_blocks_for;
use crate::model::committed_tokens;
use crate::request::{Failure, Outcome, SlotReply, SlotUpdate};

verus! {

/// A fresh scheduler is well formed: every block is free and nobody runs.
pub proof fn lemma_initial_wf(config: BackendConfig, block_span: u64)
    requires
        block_span > 0,
        config.max_batch_total_tokens / block_span <= usize::MAX,
    ensures
        initial_view(config, block_span).wf(),
        initial_view(config, block_span).pool.free.len() == initial_view(
            config,
            block_span,
        ).pool.total,
{
    let start = initial_view(config, block_span);
    assert(held_blocks(start.running) == 0);
}

/// Conservation of blocks. In every state that the scheduler can reach, the
/// blocks that the running requests hold and the blocks in the free pool add
/// up to the inventory, no request holds a block that is free, and no two
/// requests hold the same block.
pub proof fn lemma_holdings_and_pool_add_up(state: BackendView)
    requires
        state.wf(),
    ensures
        state.pool.free.len() + held_blocks(state.running) == state.pool.total,
        state.pool.free.no_duplicates(),
        state.blocks_owned_once(),
{
}

/// A cancellation with no call in flight keeps the invariant.
pub proof fn lemma_retired_wf(state: BackendView, at: int)
    requires
        state.wf(),
        state.pending is Nothing,
        0 <= at < state.running.len(),
    ensures
        state.retired(at).wf(),
{
    lemma_retired_sound(state, at);
    let next = state.retired(at);
    assert forall|i: int| 0 <= i < next.running.len() implies !(
    #[trigger] next.running[i]).cancelled by {
        let m = if i < at {
            i
        } else {
            i + 1
        };
        assert(next.running[i] == state.running[m]);
    }
}

/// A cancellation with a call in flight keeps the invariant.
pub proof fn lemma_marked_wf(state: BackendView, at: int)
    requires
        state.wf(),
        state.pending !is Nothing,
        0 <= at < state.running.len(),
    ensures
        state.marked(at).wf(),
{
    lemma_replaced_sound(state, at, Slot { cancelled: true, ..state.running[at] });
}

/// The cancellation of a waiting request keeps the invariant.
pub proof fn lemma_dequeued_wf(state: BackendView, at: int)
    requires
        state.wf(),
        0 <= at < state.queue.waiting.len(),
    ensures
        state.dequeued(at).wf(),
{
    lemma_dequeued_sound(state, at);
}

/// A request that a tick ends is gone from the batch when the tick is over,
/// and each of its blocks is in the free pool, once.
pub proof fn lemma_ended_request_releases_once(
    state: BackendView,
    replies: Seq<SlotReply>,
    from: int,
    block: u64,
)
    requires
        state.wf(),
        state.pending !is Nothing,
        0 <= from < state.running.len(),
        state.updates(replies)[from].outcome is Some,
        state.running[from].blocks.contains(block),
    ensures
        state.completed(replies).wf(),
        state.completed(replies).pool.free.no_duplicates(),
        state.completed(replies).pool.free.contains(block),
        forall|place: int|
            0 <= place < state.completed(replies).running.len() ==> (
            #[trigger] state.completed(replies).running[place]).id != state.running[from].id,
{
    let updates = state.updates(replies);
    let next = state.completed(replies);
    lemma_completed_wf(state, replies);
    lemma_released_contains(state.running, updates, from, block);
    let freed = released(state.running, updates);
    let k = choose|k: int| 0 <= k < freed.len() && freed[k] == block;
    assert(next.pool.free[state.pool.free.len() + k] == block);
    assert forall|place: int| 0 <= place < next.running.len() implies (
    #[trigger] next.running[place]).id != state.running[from].id by {
        let origin = lemma_survivor_origin(state.running, updates, place);
        if origin < from {
            assert(state.running[origin].id < state.running[from].id);
        } else {
            assert(state.running[from].id < state.running[origin].id);
        }
    }
}

/// A request that a tick does not end runs on with the blocks that it had,
/// none of which is free.
pub proof fn lemma_running_request_keeps_blocks(
    state: BackendView,
    replies: Seq<SlotReply>,
    from: int,
) -> (place: int)
    requires
        state.wf(),
        state.pending !is Nothing,
        0 <= from < state.running.len(),
        state.updates(replies)[from].outcome is None,
    ensures
        0 <= place < state.completed(replies).running.len(),
        state.completed(replies).running[place] == advanced(
            state.running[from],
            state.updates(replies)[from].delivered,
        ),
        state.completed(replies).pool.can_release(state.running[from].blocks),
{
    let updates = state.updates(replies);
    lemma_completed_wf(state, replies);
    lemma_survivor_place(state.running, updates, from);
    let place = survivors(state.running.take(from), updates.take(from)).len() as int;
    assert(state.completed(replies).pool.can_release(
        state.completed(replies).running[place].blocks,
    ));
    place
}

/// A request whose caller disconnects while a call is in flight is ended by
/// the tick that the call belongs to: it delivers nothing more, it ends as
/// cancelled, it is gone from the batch, and its blocks are free.
pub proof fn lemma_cancelled_request_leaves(
    state: BackendView,
    replies: Seq<SlotReply>,
    at: int,
    block: u64,
)
    requires
        state.wf(),
        state.pending !is Nothing,
        0 <= at < state.running.len(),
        state.running[at].blocks.contains(block),
    ensures
        state.marked(at).updates(replies)[at] == (SlotUpdate {
            id: state.running[at].id,
            reply: None,
            delivered: 0,
            outcome: Some(Outcome::Failed(Failure::Cancelled)),
        }),
        state.marked(at).completed(replies).wf(),
        state.marked(at).completed(replies).pool.free.contains(block),
        forall|place: int|
            0 <= place < state.marked(at).completed(replies).running.len() ==> (
            #[trigger] state.marked(at).completed(replies).running[place]).id
                != state.running[at].id,
{
    let marked = state.marked(at);
    lemma_marked_wf(state, at);
    lemma_ended_request_releases_once(marked, replies, at, block);
}

/// The cancellation of one request changes nothing for the others: each
/// gets the update that it would have got, and those that run on do so in
/// the order that they would have had.
pub proof fn lemma_cancellation_spares_others(
    state: BackendView,
    replies: Seq<SlotReply>,
    at: int,
)
    requires
        state.wf(),
        state.pending !is Nothing,
        0 <= at < state.running.len(),
    ensures
        forall|other: int|
            0 <= other < state.running.len() && other != at ==> (#[trigger] state.marked(
                at,
            ).updates(replies)[other]) == state.updates(replies)[other],
        state.marked(at).completed(replies).running == (if state.updates(replies)[at].outcome
            is None {
            state.completed(replies).running.remove(
                survivors(state.running.take(at), state.updates(replies).take(at)).len() as int,
            )
        } else {
            state.completed(replies).running
        }),
{
    let marked = state.marked(at);
    let plain = state.updates(replies);
    let spared = marked.updates(replies);
    let front = state.running.take(at);
    let back = state.running.skip(at + 1);
    assert forall|other: int| 0 <= other < state.running.len() && other != at implies (
    #[trigger] spared[other]) == plain[other] by {
        assert(marked.running[other] == state.running[other]);
    }
    assert(state.running == front + seq![state.running[at]] + back);
    assert(plain == plain.take(at) + seq![plain[at]] + plain.skip(at + 1));
    assert(marked.running == front + seq![marked.running[at]] + back);
    assert(spared == plain.take(at) + seq![spared[at]] + plain.skip(at + 1));
    lemma_settle_one(state.running[at], plain[at]);
    lemma_settle_one(marked.running[at], spared[at]);
    lemma_settle_splits(front, plain.take(at), seq![state.running[at]], seq![plain[at]]);
    lemma_settle_splits(front, plain.take(at), seq![marked.running[at]], seq![spared[at]]);
    lemma_settle_splits(
        front + seq![state.running[at]],
        plain.take(at) + seq![plain[at]],
        back,
        plain.skip(at + 1),
    );
    lemma_settle_splits(
        front + seq![marked.running[at]],
        plain.take(at) + seq![spared[at]],
        back,
        plain.skip(at + 1),
    );
    let kept = survivors(front, plain.take(at));
    let rest = survivors(back, plain.skip(at + 1));
    assert(marked.completed(replies).running =~= kept + rest);
    if plain[at].outcome is None {
        let through = advanced(state.running[at], plain[at].delivered);
        assert(state.completed(replies).running =~= kept + seq![through] + rest);
        assert((kept + seq![through] + rest).remove(kept.len() as int) =~= kept + rest);
    } else {
        assert(state.completed(replies).running =~= kept + rest);
    }
}

/// Admission never evicts. The first half of a tick leaves every running
/// request where it is and as it is: new requests join behind them, and the
/// blocks they get come out of the free pool.
pub proof fn lemma_admission_never_evicts(state: BackendView)
    requires
        state.wf(),
    ensures
        state.scheduled().running.len() >= state.running.len(),
        state.scheduled().running.take(state.running.len() as int) == state.running,
        state.scheduled().pool.free.len() <= state.pool.free.len(),
{
    if state.pending is Nothing && state.admitted() > 0 {
        lemma_promoted_n_sound(state, state.forced(), state.admitted());
        crate::model::lemma_held_blocks_prefix(
            state.promoted_n(state.admitted()).running,
            state.running.len() as int,
        );
    } else {
        assert(state.running.take(state.running.len() as int) == state.running);
    }
}

/// While the ratio of waiting to running requests is at or below the
/// configured ratio, and the batch has decoded fewer than `max_waiting_tokens`
/// times since its last admission, a tick admits nobody, however many blocks
/// are free: the batch and the queue stay as they are.
pub proof fn lemma_ratio_defers_admission(state: BackendView)
    requires
        state.wf(),
        state.pending is Nothing,
        state.idle_steps < state.config.max_waiting_tokens,
        state.config.waiting_served_ratio.throttles(
            state.queue.waiting.len(),
            state.running.len(),
        ),
    ensures
        state.admitted() == 0,
        state.scheduled().running == state.running,
        state.scheduled().queue == state.queue,
        state.scheduled().pool == state.pool,
{
}

/// Once the batch has decoded `max_waiting_tokens` times without an
/// admission, the next tick admits the request at the front of the queue,
/// whatever the ratio says, provided that it fits into the budgets and the
/// free blocks.
pub proof fn lemma_starvation_guard_forces_admission(state: BackendView)
    requires
        state.wf(),
        state.pending is Nothing,
        state.idle_steps >= state.config.max_waiting_tokens,
        state.queue.waiting.len() > 0,
        state.policy().fits(state.queue.waiting[0].request, state.room(0)),
    ensures
        state.admitted() >= 1,
        state.scheduled().running.len() == state.running.len() + state.admitted(),
        state.scheduled().running[state.running.len() as int].id == state.queue.waiting[0].id,
        state.scheduled().pending == (Pending::Prefill { first: state.running.len() as usize }),
        state.scheduled().idle_steps == 0,
{
    lemma_promoted_n_sound(state, state.forced(), state.admitted());
    lemma_promoted_n_sound(state, state.forced(), 1);
    lemma_promoted_ids(state, state.forced(), state.admitted(), 0);
}

/// The blocks that the requests of `running` hold, request after request.
pub open spec fn holdings(running: Seq<Slot>) -> Seq<u64>
    decreases running.len(),
{
    if running.len() == 0 {
        Seq::empty()
    } else {
        holdings(running.drop_last()) + running.last().blocks
    }
}

/// Whether some request of `running` holds `block`.
pub open spec fn is_held_by_some(running: Seq<Slot>, block: u64) -> bool {
    exists|i: int| 0 <= i < running.len() && (#[trigger] running[i]).blocks.contains(block)
}

/// The holdings list each held block, and where no block is held twice they
/// list it once.
pub proof fn lemma_holdings_list_each_block_once(running: Seq<Slot>)
    requires
        forall|i: int| 0 <= i < running.len() ==> (#[trigger] running[i]).blocks.no_duplicates(),
        forall|i: int, j: int, block: u64|
            0 <= i < j < running.len() && #[trigger] running[i].blocks.contains(block)
                ==> !#[trigger] running[j].blocks.contains(block),
    ensures
        holdings(running).len() == held_blocks(running),
        holdings(running).no_duplicates(),
        forall|block: u64|
            holdings(running).contains(block) <==> #[trigger] is_held_by_some(running, block),
    decreases running.len(),
{
    if running.len() > 0 {
        let front = running.drop_last();
        let last = running.last();
        let before = holdings(front);
        lemma_holdings_list_each_block_once(front);
        assert forall|a: int, b: int| 0 <= a < before.len() && 0 <= b < last.blocks.len() implies before[a]
            != last.blocks[b] by {
            assert(before.contains(before[a]));
            assert(is_held_by_some(front, before[a]));
            let i = choose|i: int|
                0 <= i < front.len() && (#[trigger] front[i]).blocks.contains(before[a]);
            assert(running[i].blocks.contains(before[a]));
            if before[a] == last.blocks[b] {
                assert(running[running.len() - 1].blocks.contains(before[a]));
            }
        }
        vstd::seq_lib::lemma_no_dup_in_concat(before, last.blocks);
        assert forall|block: u64|
            holdings(running).contains(block) <==> #[trigger] is_held_by_some(
                running,
                block,
            ) by {
            if holdings(running).contains(block) {
                let k = choose|k: int| 0 <= k < holdings(running).len() && holdings(running)[k] == block;
                if k < before.len() {
                    assert(before.contains(before[k]));
                    assert(is_held_by_some(front, block));
                    let i = choose|i: int|
                        0 <= i < front.len() && (#[trigger] front[i]).blocks.contains(block);
                    assert(running[i].blocks.contains(block));
                } else {
                    assert(last.blocks[k - before.len()] == block);
                    assert(running[running.len() - 1].blocks.contains(block));
                }
            }
            if is_held_by_some(running, block) {
                let i = choose|i: int|
                    0 <= i < running.len() && (#[trigger] running[i]).blocks.contains(block);
                if i < front.len() {
                    assert(front[i].blocks.contains(block));
                    assert(is_held_by_some(front, block));
                    let k = choose|k: int| 0 <= k < before.len() && before[k] == block;
                    assert(holdings(running)[k] == block);
                } else {
                    let k = choose|k: int| 0 <= k < last.blocks.len() && last.blocks[k] == block;
                    assert(holdings(running)[before.len() + k] == block);
                }
            }
        }
    }
}

/// Every block has one place. In every state that the scheduler can reach,
/// each block of the inventory is in the free pool or is held by a running
/// request, never both: no block is lost, and none is shared.
pub proof fn lemma_every_block_has_one_place(state: BackendView, block: u64)
    requires
        state.wf(),
        block < state.pool.total,
    ensures
        state.pool.free.contains(block) != is_held_by_some(state.running, block),
{
    let held = holdings(state.running);
    let all = state.pool.free + held;
    let inventory = Set::<u64>::range(0, state.pool.total as u64);
    assert forall|i: int| 0 <= i < state.running.len() implies (
    #[trigger] state.running[i]).blocks.no_duplicates() by {
        assert(state.pool.can_release(state.running[i].blocks));
    }
    lemma_holdings_list_each_block_once(state.running);
    assert forall|a: int, b: int| 0 <= a < state.pool.free.len() && 0 <= b < held.len() implies state.pool.free[a]
        != held[b] by {
        assert(held.contains(held[b]));
        assert(is_held_by_some(state.running, held[b]));
        let i = choose|i: int|
            0 <= i < state.running.len() && (#[trigger] state.running[i]).blocks.contains(held[b]);
        let k = choose|k: int|
            0 <= k < state.running[i].blocks.len() && state.running[i].blocks[k] == held[b];
        assert(state.pool.can_release(state.running[i].blocks));
        assert(state.pool.is_held(state.running[i].blocks[k]));
        assert(state.pool.free.contains(state.pool.free[a]));
    }
    vstd::seq_lib::lemma_no_dup_in_concat(state.pool.free, held);
    all.unique_seq_to_set();
    vstd::seq_lib::seq_to_set_is_finite(all);
    vstd::set_lib::range_set_properties::<u64>(0, state.pool.total as u64);
    assert(all.to_set().subset_of(inventory)) by {
        assert forall|b: u64| all.to_set().contains(b) implies inventory.contains(b) by {
            let k = choose|k: int| 0 <= k < all.len() && all[k] == b;
            if k < state.pool.free.len() {
                assert(state.pool.free[k] < state.pool.total);
            } else {
                let h = k - state.pool.free.len();
                assert(held.contains(held[h]));
                assert(is_held_by_some(state.running, held[h]));
                let i = choose|i: int|
                    0 <= i < state.running.len() && (#[trigger] state.running[i]).blocks.contains(
                        held[h],
                    );
                let w = choose|w: int|
                    0 <= w < state.running[i].blocks.len() && state.running[i].blocks[w] == held[h];
                assert(state.pool.can_release(state.running[i].blocks));
                assert(state.pool.is_held(state.running[i].blocks[w]));
            }
        }
    }
    vstd::set_lib::lemma_subset_equality(all.to_set(), inventory);
    assert(inventory.contains(block));
    assert(all.to_set().contains(block));
    assert(all.contains(block));
    let k = choose|k: int| 0 <= k < all.len() && all[k] == block;
    if k < state.pool.free.len() {
        assert(state.pool.free[k] == block);
        if is_held_by_some(state.running, block) {
            let b = choose|b: int| 0 <= b < held.len() && held[b] == block;
            assert(state.pool.free[k] != held[b]);
        }
    } else {
        assert(held[k - state.pool.free.len()] == block);
        assert(held.contains(block));
        if state.pool.free.contains(block) {
            let a = choose|a: int| 0 <= a < state.pool.free.len() && state.pool.free[a] == block;
            assert(state.pool.free[a] != held[k - state.pool.free.len()]);
        }
    }
}

/// Enough blocks for so many tokens hold at least so many tokens.
pub proof fn lemma_blocks_cover_tokens(tokens: nat, block_span: nat)
    requires
        block_span > 0,
    ensures
        spec_blocks_for(tokens, block_span) * block_span >= tokens,
{
    vstd::arithmetic::div_mod::lemma_fundamental_div_mod(tokens as int, block_span as int);
    let whole = tokens / block_span;
    assert((whole + 1) * block_span == whole * block_span + block_span) by (nonlinear_arith);
    assert(block_span * whole == whole * block_span) by (nonlinear_arith);
    vstd::arithmetic::div_mod::lemma_mod_bound(tokens as int, block_span as int);
}

/// The budget is never overcommitted. In every state that the scheduler can
/// reach, the footprints of the running requests are within the token budget,
/// the batch is within its size cap, and every running request holds enough
/// blocks for all the tokens that it can come to occupy.
pub proof fn lemma_budget_is_never_overcommitted(state: BackendView, at: int)
    requires
        state.wf(),
        0 <= at < state.running.len(),
    ensures
        committed_tokens(state.running) <= state.config.max_batch_total_tokens,
        state.config.max_batch_size matches Some(cap) ==> state.running.len() <= cap,
        state.running[at].blocks.len() * state.pool.block_span
            >= state.running[at].request.footprint(),
        state.running[at].request.input_ids@.len() + state.running[at].generated
            <= state.running[at].request.footprint(),
{
    lemma_blocks_cover_tokens(state.running[at].request.footprint(), state.pool.block_span);
}

/// What a tick delivers to a caller is the start of what the shards
/// generated for its request: the update names one of the results, and counts
/// no more tokens than that result holds and than the request may still take.
pub proof fn lemma_delivery_is_a_prefix(state: BackendView, replies: Seq<SlotReply>, at: int)
    requires
        state.wf(),
        0 <= at < state.running.len(),
    ensures
        state.updates(replies)[at].id == state.running[at].id,
        state.updates(replies)[at].reply matches Some(k) ==> k < replies.len(),
        state.updates(replies)[at].reply is None ==> state.updates(replies)[at].delivered == 0,
        state.updates(replies)[at].reply matches Some(k) ==> (replies[k as int] matches SlotReply::Tokens(
            tokens,
        ) ==> state.updates(replies)[at].delivered <= tokens@.len()),
        state.running[at].generated + state.updates(replies)[at].delivered
            <= state.running[at].request.max_new_tokens,
{
    let slot = state.running[at];
    match state.reply_place(at) {
        Some(k) => {
            if 0 <= k < replies.len() {
                match replies[k] {
                    SlotReply::Tokens(tokens) => {
                        crate::request::lemma_accepted_is_bounded(
                            tokens@,
                            slot.request.stop_tokens@,
                            (slot.request.max_new_tokens - slot.generated) as nat,
                        );
                    },
                    _ => {},
                }
            }
        },
        None => {},
    }
}

/// The failure of one request is its own. Had the shards failed on the
/// result at position `place` instead of returning it, every request with
/// another result, or with none, would get the update that it gets.
pub proof fn lemma_failure_is_isolated(
    state: BackendView,
    replies: Seq<SlotReply>,
    place: int,
    failed: SlotReply,
    other: int,
)
    requires
        state.wf(),
        0 <= place < replies.len(),
        0 <= other < state.running.len(),
        state.reply_place(other) != Some(place),
    ensures
        state.updates(replies.update(place, failed))[other] == state.updates(replies)[other],
{
}

} // verus!
