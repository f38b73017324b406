//! Requests, and how a request takes the tokens that the shards generate.

use vstd::prelude::*;
use crate::block_allocator::BlockSet;
use crate::error::ShardErrorKind;

verus! {

/// A validated unit of work as the API layer submits it.
#[derive(Debug)]
pub struct Request {
    /// The input token sequence.
    pub input_ids: Vec<u32>,
    /// The most tokens that may be generated.
    pub max_new_tokens: u32,
    /// The stopping criterion: generation ends with the first of these tokens.
    pub stop_tokens: Vec<u32>,
}

impl Request {
    /// Tokens that the prefill pass over this request costs.
    pub open spec fn prefill_tokens(&self) -> nat {
        self.input_ids@.len()
    }

    /// Tokens that the request can come to occupy: its input and everything
    /// it may generate.
    pub open spec fn footprint(&self) -> nat {
        self.input_ids@.len() + self.max_new_tokens as nat
    }
}

/// A request in the queue, under the id that the queue gave it.
#[derive(Debug)]
pub struct Entry {
    pub id: u64,
    pub request: Request,
}

/// A request in the running batch.
#[derive(Debug)]
pub struct RunningRequest {
    pub id: u64,
    pub request: Request,
    /// The cache blocks that the request holds, it alone.
    pub blocks: BlockSet,
    /// Tokens delivered to the caller so far.
    pub generated: u32,
    /// The caller has gone away while a shard call was in flight.
    pub cancelled: bool,
}

/// Why a request ended without meeting its stopping criterion.
#[derive(Debug, Clone, Copy, PartialEq, Eq)]
pub enum Failure {
    /// The call to the shards failed for this request. A request that the
    /// shards left out of their answer counts as an error of theirs.
    Shard(ShardErrorKind),
    /// The caller disconnected.
    Cancelled,
    /// `max_new_tokens` tokens were generated and none of them stops the
    /// request.
    LimitExceeded,
}

/// How a request ended.
#[derive(Debug, Clone, Copy, PartialEq, Eq)]
pub enum Outcome {
    /// A stop token was generated.
    Finished,
    Failed(Failure),
}

/// What the shards returned for one request of a batch.
#[derive(Debug)]
pub enum SlotReply {
    /// The tokens generated in this step, in generation order.
    Tokens(Vec<u32>),
    /// The step failed for this request.
    Failed(ShardErrorKind),
}

/// What one tick did to one request of the running batch.
#[derive(Debug, Clone, Copy, PartialEq, Eq)]
pub struct SlotUpdate {
    pub id: u64,
    /// Which of the shards' results is this request's, if one is.
    pub reply: Option<usize>,
    /// How many of the reply's tokens, from its start, go to the caller.
    pub delivered: usize,
    /// The end of the request, if this tick ended it.
    pub outcome: Option<Outcome>,
}

/// How many of `tokens`, from the start, a request takes that may still
/// generate `allowance` tokens: up to and including its first stop token, and
/// no more than the allowance.
pub open spec fn spec_accepted(tokens: Seq<u32>, stops: Seq<u32>, allowance: nat) -> nat
    decreases tokens.len(),
{
    if tokens.len() == 0 || allowance == 0 {
        0
    } else if stops.contains(tokens[0]) {
        1
    } else {
        1 + spec_accepted(tokens.drop_first(), stops, (allowance - 1) as nat)
    }
}

/// Whether the last token that the request takes is a stop token.
pub open spec fn spec_stopped(tokens: Seq<u32>, stops: Seq<u32>, allowance: nat) -> bool {
    let taken = spec_accepted(tokens, stops, allowance);
    taken > 0 && stops.contains(tokens[taken - 1])
}

/// Whether `token` is one of `stops`.
pub fn is_stop_token(stops: &Vec<u32>, token: u32) -> (found: bool)
    ensures
        found == stops@.contains(token),
{
    let mut i: usize = 0;
    while i < stops.len()
        invariant
            i <= stops.len(),
            forall|k: int| 0 <= k < i ==> stops@[k] != token,
        decreases stops.len() - i,
    {
        if stops[i] == token {
            return true;
        }
        i = i + 1;
    }
    false
}

/// Cuts a reply to what the request may take, and says whether the cut ends
/// on a stop token.
pub fn accept_tokens(tokens: &Vec<u32>, stops: &Vec<u32>, allowance: u32) -> (cut: (usize, bool))
    ensures
        cut.0 == spec_accepted(tokens@, stops@, allowance as nat),
        cut.1 == spec_stopped(tokens@, stops@, allowance as nat),
        cut.0 <= tokens@.len(),
        cut.0 <= allowance,
{
    let mut taken: usize = 0;
    assert(tokens@.skip(0) == tokens@);
    while taken < tokens.len() && (taken as u64) < (allowance as u64)
        invariant
            taken <= tokens@.len(),
            taken <= allowance,
            spec_accepted(tokens@, stops@, allowance as nat) == taken + spec_accepted(
                tokens@.skip(taken as int),
                stops@,
                (allowance - taken) as nat,
            ),
            forall|k: int| 0 <= k < taken ==> !stops@.contains(tokens@[k]),
        decreases tokens@.len() - taken,
    {
        let token = tokens[taken];
        proof {
            let rest = tokens@.skip(taken as int);
            assert(rest[0] == token);
            assert(rest.drop_first() == tokens@.skip(taken + 1));
        }
        if is_stop_token(stops, token) {
            return (taken + 1, true);
        }
        taken = taken + 1;
    }
    proof {
        if taken > 0 {
            assert(!stops@.contains(tokens@[taken - 1]));
        }
    }
    (taken, false)
}

/// A request never takes more tokens than it was given or may still generate.
pub proof fn lemma_accepted_is_bounded(tokens: Seq<u32>, stops: Seq<u32>, allowance: nat)
    ensures
        spec_accepted(tokens, stops, allowance) <= tokens.len(),
        spec_accepted(tokens, stops, allowance) <= allowance,
    decreases tokens.len(),
{
    if tokens.len() > 0 && allowance > 0 && !stops.contains(tokens[0]) {
        lemma_accepted_is_bounded(tokens.drop_first(), stops, (allowance - 1) as nat);
    }
}

/// No token that a request takes before its last is a stop token: delivery
/// ends with the first one.
pub proof fn lemma_accepted_ends_at_first_stop(
    tokens: Seq<u32>,
    stops: Seq<u32>,
    allowance: nat,
    k: int,
)
    requires
        0 <= k < spec_accepted(tokens, stops, allowance) - 1,
    ensures
        k < tokens.len(),
        !stops.contains(tokens[k]),
    decreases tokens.len(),
{
    lemma_accepted_is_bounded(tokens, stops, allowance);
    if k > 0 {
        lemma_accepted_ends_at_first_stop(
            tokens.drop_first(),
            stops,
            (allowance - 1) as nat,
            k - 1,
        );
    }
}

} // verus!
