use batch_scheduler::backend::{BackendV3, CancelEffect, Dispatch};
use batch_scheduler::config::{BackendConfig, ServedRatio};
use batch_scheduler::error::ShardErrorKind;
use batch_scheduler::model::Pending;
use batch_scheduler::request::{Failure, Outcome, Request, SlotReply, SlotUpdate};

fn config(ratio: (u64, u64), max_waiting_tokens: usize, budget: u64) -> BackendConfig {
    BackendConfig {
        max_input_tokens: 1024,
        max_total_tokens: 2048,
        waiting_served_ratio: ServedRatio::new(ratio.0, ratio.1).expect("a fraction"),
        max_batch_prefill_tokens: 4096,
        max_batch_total_tokens: budget,
        max_waiting_tokens,
        max_batch_size: None,
        model_device_type: String::from("cuda"),
        model_dtype: String::from("float16"),
        speculate: 0,
    }
}

fn request(input: usize, max_new_tokens: u32) -> Request {
    Request { input_ids: vec![1; input], max_new_tokens, stop_tokens: vec![99] }
}

fn tokens(values: &[u32]) -> SlotReply {
    SlotReply::Tokens(values.to_vec())
}

fn prefill_ids(dispatch: Dispatch) -> Vec<u64> {
    match dispatch {
        Dispatch::Prefill(ids) => ids,
        other => panic!("expected a prefill, got {:?}", other),
    }
}

fn decode_ids(dispatch: Dispatch) -> Vec<u64> {
    match dispatch {
        Dispatch::Decode(ids) => ids,
        other => panic!("expected a decode step, got {:?}", other),
    }
}

fn blocks_of(backend: &BackendV3, at: usize) -> Vec<u64> {
    backend.running(at).expect("a running request").blocks.indices().clone()
}

fn assert_conserved(backend: &BackendV3) {
    let total = backend.total_blocks() as usize;
    let mut seen: Vec<u64> = Vec::new();
    for at in 0..backend.running_len() {
        for block in blocks_of(backend, at) {
            assert!((block as usize) < total);
            assert!(!seen.contains(&block));
            seen.push(block);
        }
    }
    assert_eq!(seen.len() + backend.free_count(), total);
}

#[test]
fn fresh_scheduler_has_every_block_free() {
    let mut backend = BackendV3::new(config((0, 1), 20, 100), 16);
    assert_eq!(backend.total_blocks(), 6);
    assert_eq!(backend.free_count(), 6);
    assert_eq!(backend.waiting_len(), 0);
    assert_eq!(backend.running_len(), 0);
    assert_eq!(backend.idle_steps(), 0);
    assert_eq!(backend.pending(), Pending::Nothing);
    assert!(backend.running(0).is_none());
    assert_eq!(backend.config().max_batch_total_tokens, 100);
    assert_eq!(backend.info().max_batch_total_tokens, 100);
    assert!(matches!(backend.schedule(), Dispatch::Idle));
    assert!(backend.complete(&vec![]).is_empty());
}

#[test]
fn a_request_runs_from_queue_to_finish() {
    let mut backend = BackendV3::new(config((0, 1), 20, 64), 16);
    assert_eq!(backend.enqueue(request(3, 5)), Some(0));
    assert_eq!(backend.enqueue(request(10, 10)), Some(1));
    assert_eq!(backend.waiting_len(), 2);

    assert_eq!(prefill_ids(backend.schedule()), vec![0, 1]);
    assert_eq!(backend.pending(), Pending::Prefill { first: 0 });
    assert_eq!(backend.waiting_len(), 0);
    assert_eq!(backend.running_len(), 2);
    assert_eq!(blocks_of(&backend, 0), vec![3]);
    assert_eq!(blocks_of(&backend, 1), vec![1, 2]);
    assert_eq!(backend.free_count(), 1);
    assert_eq!(backend.committed_tokens(), 28);
    assert_conserved(&backend);

    let updates = backend.complete(&vec![tokens(&[7]), tokens(&[8])]);
    assert_eq!(
        updates,
        vec![
            SlotUpdate { id: 0, reply: Some(0), delivered: 1, outcome: None },
            SlotUpdate { id: 1, reply: Some(1), delivered: 1, outcome: None },
        ]
    );
    assert_eq!(backend.pending(), Pending::Nothing);
    assert_eq!(backend.idle_steps(), 0);
    assert_eq!(backend.running(0).expect("running").generated, 1);

    assert_eq!(decode_ids(backend.schedule()), vec![0, 1]);
    assert_eq!(backend.pending(), Pending::Decode);
    let updates = backend.complete(&vec![tokens(&[99]), tokens(&[5])]);
    assert_eq!(
        updates,
        vec![
            SlotUpdate { id: 0, reply: Some(0), delivered: 1, outcome: Some(Outcome::Finished) },
            SlotUpdate { id: 1, reply: Some(1), delivered: 1, outcome: None },
        ]
    );
    assert_eq!(backend.idle_steps(), 1);
    assert_eq!(backend.running_len(), 1);
    assert_eq!(backend.running(0).expect("running").id, 1);
    assert_eq!(backend.running(0).expect("running").generated, 2);
    assert_eq!(backend.free_count(), 2);
    assert_conserved(&backend);

    assert_eq!(decode_ids(backend.schedule()), vec![1]);
    let updates = backend.complete(&vec![SlotReply::Failed(ShardErrorKind::Transport)]);
    assert_eq!(
        updates,
        vec![SlotUpdate {
            id: 1,
            reply: Some(0),
            delivered: 0,
            outcome: Some(Outcome::Failed(Failure::Shard(ShardErrorKind::Transport))),
        }]
    );
    assert_eq!(backend.running_len(), 0);
    assert_eq!(backend.free_count(), 4);
    assert_eq!(backend.idle_steps(), 2);
    assert!(matches!(backend.schedule(), Dispatch::Idle));
    assert_eq!(backend.pending(), Pending::Nothing);
}

#[test]
fn released_blocks_are_reserved_again() {
    let mut backend = BackendV3::new(config((0, 1), 20, 64), 16);
    backend.enqueue(request(3, 5));
    backend.enqueue(request(10, 10));
    prefill_ids(backend.schedule());
    backend.complete(&vec![tokens(&[99]), tokens(&[8])]);
    assert_eq!(backend.running_len(), 1);
    assert_eq!(backend.free_count(), 2);
    backend.enqueue(request(20, 12));
    assert_eq!(prefill_ids(backend.schedule()), vec![2]);
    assert_eq!(backend.pending(), Pending::Prefill { first: 1 });
    assert_eq!(blocks_of(&backend, 0), vec![1, 2]);
    assert_eq!(blocks_of(&backend, 1), vec![0, 3]);
    assert_eq!(backend.free_count(), 0);
    assert_conserved(&backend);
}

#[test]
fn a_request_that_does_not_fit_waits_for_blocks() {
    let mut backend = BackendV3::new(config((0, 1), 20, 64), 16);
    backend.enqueue(request(30, 18));
    backend.enqueue(request(30, 18));
    assert_eq!(prefill_ids(backend.schedule()), vec![0]);
    assert_eq!(backend.free_count(), 1);
    assert_eq!(backend.waiting_len(), 1);
    backend.complete(&vec![tokens(&[1])]);
    assert_eq!(decode_ids(backend.schedule()), vec![0]);
    backend.complete(&vec![tokens(&[99])]);
    assert_eq!(backend.free_count(), 4);
    assert_eq!(prefill_ids(backend.schedule()), vec![1]);
    assert_eq!(backend.free_count(), 1);
    assert_conserved(&backend);
}

#[test]
fn the_limit_ends_a_request_that_has_not_stopped() {
    let mut backend = BackendV3::new(config((0, 1), 20, 64), 16);
    backend.enqueue(request(3, 2));
    prefill_ids(backend.schedule());
    let updates = backend.complete(&vec![tokens(&[5, 6, 7])]);
    assert_eq!(
        updates,
        vec![SlotUpdate {
            id: 0,
            reply: Some(0),
            delivered: 2,
            outcome: Some(Outcome::Failed(Failure::LimitExceeded)),
        }]
    );
    assert_eq!(backend.running_len(), 0);
    assert_eq!(backend.free_count(), 4);
}

#[test]
fn a_stop_token_at_the_limit_finishes_the_request() {
    let mut backend = BackendV3::new(config((0, 1), 20, 64), 16);
    backend.enqueue(request(3, 2));
    prefill_ids(backend.schedule());
    let updates = backend.complete(&vec![tokens(&[5, 99, 7])]);
    assert_eq!(
        updates,
        vec![SlotUpdate { id: 0, reply: Some(0), delivered: 2, outcome: Some(Outcome::Finished) }]
    );
}

#[test]
fn tokens_behind_a_stop_token_are_not_delivered() {
    let mut backend = BackendV3::new(config((0, 1), 20, 64), 16);
    backend.enqueue(request(3, 10));
    prefill_ids(backend.schedule());
    let updates = backend.complete(&vec![tokens(&[5, 99, 7, 8])]);
    assert_eq!(
        updates,
        vec![SlotUpdate { id: 0, reply: Some(0), delivered: 2, outcome: Some(Outcome::Finished) }]
    );
}

#[test]
fn the_limit_is_reached_over_several_steps() {
    let mut backend = BackendV3::new(config((0, 1), 20, 64), 16);
    backend.enqueue(request(3, 3));
    prefill_ids(backend.schedule());
    assert_eq!(
        backend.complete(&vec![tokens(&[5, 6])]),
        vec![SlotUpdate { id: 0, reply: Some(0), delivered: 2, outcome: None }]
    );
    decode_ids(backend.schedule());
    assert_eq!(
        backend.complete(&vec![tokens(&[7, 8])]),
        vec![SlotUpdate {
            id: 0,
            reply: Some(0),
            delivered: 1,
            outcome: Some(Outcome::Failed(Failure::LimitExceeded)),
        }]
    );
}

#[test]
fn a_request_that_may_generate_nothing_ends_at_once() {
    let mut backend = BackendV3::new(config((0, 1), 20, 64), 16);
    backend.enqueue(request(3, 0));
    prefill_ids(backend.schedule());
    assert_eq!(
        backend.complete(&vec![tokens(&[99])]),
        vec![SlotUpdate {
            id: 0,
            reply: Some(0),
            delivered: 0,
            outcome: Some(Outcome::Failed(Failure::LimitExceeded)),
        }]
    );
}

#[test]
fn an_empty_reply_leaves_the_request_running() {
    let mut backend = BackendV3::new(config((0, 1), 20, 64), 16);
    backend.enqueue(request(3, 4));
    prefill_ids(backend.schedule());
    assert_eq!(
        backend.complete(&vec![tokens(&[])]),
        vec![SlotUpdate { id: 0, reply: Some(0), delivered: 0, outcome: None }]
    );
    assert_eq!(backend.running_len(), 1);
}

#[test]
fn one_failure_does_not_touch_the_rest_of_the_batch() {
    let mut backend = BackendV3::new(config((0, 1), 20, 160), 16);
    backend.enqueue(request(3, 5));
    backend.enqueue(request(3, 5));
    backend.enqueue(request(3, 5));
    assert_eq!(prefill_ids(backend.schedule()), vec![0, 1, 2]);
    let updates = backend.complete(&vec![
        tokens(&[4]),
        SlotReply::Failed(ShardErrorKind::Application),
        tokens(&[6]),
    ]);
    assert_eq!(
        updates,
        vec![
            SlotUpdate { id: 0, reply: Some(0), delivered: 1, outcome: None },
            SlotUpdate {
                id: 1,
                reply: Some(1),
                delivered: 0,
                outcome: Some(Outcome::Failed(Failure::Shard(ShardErrorKind::Application))),
            },
            SlotUpdate { id: 2, reply: Some(2), delivered: 1, outcome: None },
        ]
    );
    assert_eq!(decode_ids(backend.schedule()), vec![0, 2]);
    assert_eq!(backend.free_count(), 8);
    assert_conserved(&backend);
}

#[test]
fn a_request_without_a_result_fails() {
    let mut backend = BackendV3::new(config((0, 1), 20, 160), 16);
    backend.enqueue(request(3, 5));
    backend.enqueue(request(3, 5));
    prefill_ids(backend.schedule());
    let updates = backend.complete(&vec![tokens(&[4])]);
    assert_eq!(
        updates,
        vec![
            SlotUpdate { id: 0, reply: Some(0), delivered: 1, outcome: None },
            SlotUpdate {
                id: 1,
                reply: None,
                delivered: 0,
                outcome: Some(Outcome::Failed(Failure::Shard(ShardErrorKind::Application))),
            },
        ]
    );
    assert_eq!(backend.running_len(), 1);
}

#[test]
fn prefill_results_go_to_the_new_requests_only() {
    let mut backend = BackendV3::new(config((0, 1), 20, 160), 16);
    backend.enqueue(request(3, 5));
    prefill_ids(backend.schedule());
    backend.complete(&vec![tokens(&[4])]);
    backend.enqueue(request(3, 5));
    assert_eq!(prefill_ids(backend.schedule()), vec![1]);
    assert_eq!(backend.idle_steps(), 0);
    let updates = backend.complete(&vec![tokens(&[6, 7])]);
    assert_eq!(
        updates,
        vec![
            SlotUpdate { id: 0, reply: None, delivered: 0, outcome: None },
            SlotUpdate { id: 1, reply: Some(0), delivered: 2, outcome: None },
        ]
    );
    assert_eq!(backend.running(0).expect("running").generated, 1);
    assert_eq!(backend.running(1).expect("running").generated, 2);
    assert_eq!(backend.idle_steps(), 0);
}

#[test]
fn nothing_is_scheduled_while_a_call_is_in_flight() {
    let mut backend = BackendV3::new(config((0, 1), 20, 160), 16);
    backend.enqueue(request(3, 5));
    prefill_ids(backend.schedule());
    backend.enqueue(request(3, 5));
    assert!(matches!(backend.schedule(), Dispatch::Idle));
    assert_eq!(backend.pending(), Pending::Prefill { first: 0 });
    assert_eq!(backend.waiting_len(), 1);
    assert_eq!(backend.running_len(), 1);
    backend.complete(&vec![tokens(&[4])]);
    assert!(backend.complete(&vec![tokens(&[4])]).is_empty());
    assert_eq!(backend.running(0).expect("running").generated, 1);
}

#[test]
fn caller_gone_in_the_middle_of_a_decode_step() {
    let mut backend = BackendV3::new(config((0, 1), 20, 160), 16);
    backend.enqueue(request(3, 5));
    backend.enqueue(request(20, 12));
    backend.enqueue(request(3, 5));
    prefill_ids(backend.schedule());
    backend.complete(&vec![tokens(&[4]), tokens(&[5]), tokens(&[6])]);
    assert_eq!(decode_ids(backend.schedule()), vec![0, 1, 2]);
    let held = blocks_of(&backend, 1);
    assert_eq!(held, vec![7, 8]);
    assert_eq!(backend.free_count(), 6);

    assert_eq!(backend.cancel(1), CancelEffect::Marked);
    assert_eq!(backend.running_len(), 3);
    assert!(backend.running(1).expect("running").cancelled);
    assert_eq!(backend.free_count(), 6);

    let updates = backend.complete(&vec![tokens(&[7]), tokens(&[8]), tokens(&[9, 10])]);
    assert_eq!(
        updates,
        vec![
            SlotUpdate { id: 0, reply: Some(0), delivered: 1, outcome: None },
            SlotUpdate {
                id: 1,
                reply: None,
                delivered: 0,
                outcome: Some(Outcome::Failed(Failure::Cancelled)),
            },
            SlotUpdate { id: 2, reply: Some(2), delivered: 2, outcome: None },
        ]
    );
    assert_eq!(backend.running_len(), 2);
    assert_eq!(backend.running(0).expect("running").id, 0);
    assert_eq!(backend.running(1).expect("running").id, 2);
    assert_eq!(backend.free_count(), 8);
    assert_conserved(&backend);
    assert_eq!(backend.cancel(1), CancelEffect::Unknown);
    assert_eq!(backend.free_count(), 8);
    assert_eq!(decode_ids(backend.schedule()), vec![0, 2]);
}

#[test]
fn caller_gone_between_two_ticks() {
    let mut backend = BackendV3::new(config((0, 1), 20, 160), 16);
    backend.enqueue(request(3, 5));
    backend.enqueue(request(3, 5));
    prefill_ids(backend.schedule());
    backend.complete(&vec![tokens(&[4]), tokens(&[5])]);
    assert_eq!(backend.cancel(0), CancelEffect::Released);
    assert_eq!(backend.running_len(), 1);
    assert_eq!(backend.running(0).expect("running").id, 1);
    assert_eq!(backend.free_count(), 9);
    assert_eq!(backend.cancel(0), CancelEffect::Unknown);
    assert_eq!(backend.free_count(), 9);
    assert_conserved(&backend);
}

#[test]
fn caller_gone_while_waiting() {
    let mut backend = BackendV3::new(config((0, 1), 20, 160), 16);
    backend.enqueue(request(3, 5));
    backend.enqueue(request(3, 5));
    backend.enqueue(request(3, 5));
    assert_eq!(backend.cancel(1), CancelEffect::Dequeued);
    assert_eq!(backend.waiting_len(), 2);
    assert_eq!(backend.cancel(1), CancelEffect::Unknown);
    assert_eq!(backend.cancel(9), CancelEffect::Unknown);
    assert_eq!(prefill_ids(backend.schedule()), vec![0, 2]);
}

#[test]
fn caller_gone_while_other_requests_prefill() {
    let mut backend = BackendV3::new(config((0, 1), 20, 160), 16);
    backend.enqueue(request(3, 5));
    prefill_ids(backend.schedule());
    backend.complete(&vec![tokens(&[4])]);
    backend.enqueue(request(3, 5));
    assert_eq!(prefill_ids(backend.schedule()), vec![1]);
    assert_eq!(backend.cancel(0), CancelEffect::Marked);
    let updates = backend.complete(&vec![tokens(&[6])]);
    assert_eq!(
        updates,
        vec![
            SlotUpdate {
                id: 0,
                reply: None,
                delivered: 0,
                outcome: Some(Outcome::Failed(Failure::Cancelled)),
            },
            SlotUpdate { id: 1, reply: Some(0), delivered: 1, outcome: None },
        ]
    );
    assert_eq!(backend.running_len(), 1);
    assert_eq!(backend.free_count(), 9);
}

#[test]
fn ratio_defers_admission_until_the_starvation_guard_is_due() {
    let mut backend = BackendV3::new(config((3, 10), 2, 10000), 16);
    for _ in 0..10 {
        backend.enqueue(request(1, 100));
    }
    assert_eq!(prefill_ids(backend.schedule()), vec![0, 1, 2, 3, 4, 5, 6, 7]);
    assert_eq!(backend.waiting_len(), 2);
    let step: Vec<SlotReply> = (0..8).map(|_| tokens(&[1])).collect();
    backend.complete(&step);
    assert_eq!(backend.idle_steps(), 0);

    assert!(backend.free_count() >= 14);
    assert_eq!(decode_ids(backend.schedule()).len(), 8);
    assert_eq!(backend.waiting_len(), 2);
    backend.complete(&step);
    assert_eq!(backend.idle_steps(), 1);

    assert_eq!(decode_ids(backend.schedule()).len(), 8);
    assert_eq!(backend.waiting_len(), 2);
    backend.complete(&step);
    assert_eq!(backend.idle_steps(), 2);

    assert_eq!(prefill_ids(backend.schedule()), vec![8, 9]);
    assert_eq!(backend.pending(), Pending::Prefill { first: 8 });
    assert_eq!(backend.idle_steps(), 0);
    assert_eq!(backend.waiting_len(), 0);
    assert_eq!(backend.running_len(), 10);
    assert_conserved(&backend);
}

#[test]
fn ratio_lets_go_once_enough_requests_have_ended() {
    let mut backend = BackendV3::new(config((3, 10), 100, 10000), 16);
    for _ in 0..10 {
        backend.enqueue(request(1, 100));
    }
    prefill_ids(backend.schedule());
    let mut step: Vec<SlotReply> = (0..8).map(|_| tokens(&[1])).collect();
    step[0] = tokens(&[99]);
    step[1] = tokens(&[99]);
    backend.complete(&step);
    assert_eq!(backend.running_len(), 6);
    assert_eq!(prefill_ids(backend.schedule()), vec![8]);
    assert_eq!(backend.waiting_len(), 1);
}

#[test]
fn blocks_are_conserved_through_a_long_run() {
    let mut backend = BackendV3::new(config((1, 2), 3, 320), 16);
    let total = backend.total_blocks() as usize;
    assert_eq!(total, 20);
    let mut next_input = 1usize;
    for round in 0..40u32 {
        if round % 2 == 0 {
            backend.enqueue(request(next_input, (round % 7) + 1));
            next_input = (next_input * 5 + 3) % 61 + 1;
        }
        if round % 11 == 5 {
            backend.cancel((round / 3) as u64);
        }
        let dispatch = backend.schedule();
        assert_conserved(&backend);
        let count = match dispatch {
            Dispatch::Idle => 0,
            Dispatch::Prefill(ids) => ids.len(),
            Dispatch::Decode(ids) => ids.len(),
        };
        if round % 5 == 3 && backend.running_len() > 0 {
            let id = backend.running(0).expect("running").id;
            assert_eq!(backend.cancel(id), CancelEffect::Marked);
        }
        let replies: Vec<SlotReply> = (0..count)
            .map(|slot| {
                if (slot as u32 + round) % 6 == 0 {
                    SlotReply::Failed(ShardErrorKind::Application)
                } else if (slot as u32 + round) % 4 == 0 {
                    tokens(&[3, 99])
                } else {
                    tokens(&[3])
                }
            })
            .collect();
        let updates = backend.complete(&replies);
        if count > 0 {
            assert!(updates.len() >= count);
        }
        assert_conserved(&backend);
        for at in 0..backend.running_len() {
            let slot = backend.running(at).expect("running");
            assert!(!slot.cancelled);
            assert!(slot.generated <= slot.request.max_new_tokens);
        }
    }
}

#[test]
fn an_ended_request_gives_its_blocks_back_once() {
    let mut backend = BackendV3::new(config((0, 1), 20, 160), 16);
    backend.enqueue(request(20, 12));
    backend.enqueue(request(3, 5));
    prefill_ids(backend.schedule());
    let held = blocks_of(&backend, 0);
    assert_eq!(held, vec![8, 9]);
    let updates = backend.complete(&vec![tokens(&[99]), tokens(&[4])]);
    assert_eq!(updates[0].outcome, Some(Outcome::Finished));
    assert_eq!(backend.free_count(), 9);
    assert_eq!(backend.cancel(0), CancelEffect::Unknown);
    assert_eq!(backend.free_count(), 9);
    decode_ids(backend.schedule());
    let updates = backend.complete(&vec![tokens(&[5])]);
    assert_eq!(updates, vec![SlotUpdate { id: 1, reply: Some(0), delivered: 1, outcome: None }]);
    assert_eq!(backend.free_count(), 9);
    backend.enqueue(request(100, 44));
    assert_eq!(prefill_ids(backend.schedule()), vec![2]);
    let mut reserved = blocks_of(&backend, 1);
    reserved.sort();
    assert_eq!(reserved, vec![0, 1, 2, 3, 4, 5, 6, 8, 9]);
    assert_eq!(backend.free_count(), 0);
    assert_conserved(&backend);
}

#[test]
fn a_request_can_be_submitted_while_a_call_is_in_flight() {
    let mut backend = BackendV3::new(config((0, 1), 20, 160), 16);
    backend.enqueue(request(3, 5));
    prefill_ids(backend.schedule());
    assert_eq!(backend.enqueue(request(3, 5)), Some(1));
    assert_eq!(backend.waiting_position(1), Some(0));
    assert_eq!(backend.cancel(1), CancelEffect::Dequeued);
    assert_eq!(backend.waiting_position(1), None);
    assert_eq!(backend.enqueue(request(3, 5)), Some(2));
    backend.complete(&vec![tokens(&[4])]);
    assert_eq!(prefill_ids(backend.schedule()), vec![2]);
}
