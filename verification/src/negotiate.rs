//! The startup protocol that fixes the token budget.
//!
//! The protocol is four calls to the shards in a fixed order: connect, clear
//! the cache, fetch the metadata, probe the capacity. Each stage is a type of
//! its own, and the only way to the next stage is to hand in the answer to the
//! stage's call. A failed call ends the protocol with the error of its stage.

use vstd::prelude::*;
use crate::config::{BackendConfig, Limits, ShardInfo};
use crate::error::{ShardError, V3Error};

verus! {

/// The budget that is taken when neither the shards nor the caller name one,
/// unless a single request or a prefill batch needs more.
pub const DEFAULT_BATCH_TOTAL_TOKENS: u64 = 16000;

/// What the warmup probe says of the shards' capacity.
#[derive(Debug, Clone, Copy, PartialEq, Eq)]
pub enum WarmupHint {
    /// The model cannot size its own batches.
    NoHint,
    /// The largest batch, in tokens, that the shards can hold.
    Hint(u32),
}

/// A remark on how the budget was resolved, for the operator's log.
#[derive(Debug, Clone, Copy, PartialEq, Eq)]
pub enum BudgetWarning {
    /// The shards gave no hint: automatic sizing is not supported.
    AutomaticSizingUnsupported,
    /// The shards gave a hint, so the caller's override was disregarded.
    OverrideIgnored,
}

/// The budget without hint or override: the largest of the default, one
/// request of full length, and one prefill batch.
pub open spec fn spec_default_budget(max_total_tokens: nat, max_batch_prefill_tokens: nat) -> nat {
    if max_total_tokens >= max_batch_prefill_tokens && max_total_tokens
        >= DEFAULT_BATCH_TOTAL_TOKENS {
        max_total_tokens
    } else if max_batch_prefill_tokens >= DEFAULT_BATCH_TOTAL_TOKENS {
        max_batch_prefill_tokens
    } else {
        DEFAULT_BATCH_TOTAL_TOKENS as nat
    }
}

/// The authoritative budget, or nothing where the shards cannot hold one
/// request of `max_total_tokens` tokens.
pub open spec fn spec_budget(
    hint: WarmupHint,
    max_total_tokens: nat,
    max_batch_prefill_tokens: nat,
    max_batch_total_tokens: Option<u32>,
) -> Option<nat> {
    match hint {
        WarmupHint::NoHint => match max_batch_total_tokens {
            Some(given) => Some(given as nat),
            None => Some(spec_default_budget(max_total_tokens, max_batch_prefill_tokens)),
        },
        WarmupHint::Hint(supported) => if max_total_tokens > supported {
            None
        } else {
            Some(supported as nat)
        },
    }
}

/// The remark that goes with a resolution.
pub open spec fn spec_warning(hint: WarmupHint, max_batch_total_tokens: Option<u32>) -> Option<
    BudgetWarning,
> {
    match hint {
        WarmupHint::NoHint => Some(BudgetWarning::AutomaticSizingUnsupported),
        WarmupHint::Hint(_) => if max_batch_total_tokens is Some {
            Some(BudgetWarning::OverrideIgnored)
        } else {
            None
        },
    }
}

/// A resolved budget, or the refusal, with the remark to log either way.
#[derive(Debug, PartialEq, Eq)]
pub struct BudgetResolution {
    pub warning: Option<BudgetWarning>,
    pub budget: Result<u64, V3Error>,
}

/// Computes the budget that applies without hint or override.
pub fn default_budget(max_total_tokens: usize, max_batch_prefill_tokens: u32) -> (budget: u64)
    ensures
        budget == spec_default_budget(max_total_tokens as nat, max_batch_prefill_tokens as nat),
{
    let request: u64 = max_total_tokens as u64;
    let prefill: u64 = max_batch_prefill_tokens as u64;
    if request >= prefill && request >= DEFAULT_BATCH_TOTAL_TOKENS {
        request
    } else if prefill >= DEFAULT_BATCH_TOTAL_TOKENS {
        prefill
    } else {
        DEFAULT_BATCH_TOTAL_TOKENS
    }
}

/// Resolves the authoritative token budget from the warmup answer.
///
/// Without a hint the caller's override counts, and without that the default.
/// With a hint the override is disregarded: the hint is the budget, unless it
/// is below `max_total_tokens`, which is refused.
pub fn resolve_budget(
    hint: WarmupHint,
    max_total_tokens: usize,
    max_batch_prefill_tokens: u32,
    max_batch_total_tokens: Option<u32>,
) -> (resolution: BudgetResolution)
    ensures
        resolution.warning == spec_warning(hint, max_batch_total_tokens),
        match spec_budget(
            hint,
            max_total_tokens as nat,
            max_batch_prefill_tokens as nat,
            max_batch_total_tokens,
        ) {
            Some(budget) => resolution.budget == Ok::<u64, V3Error>(budget as u64) && budget
                <= u64::MAX,
            None => resolution.budget == Err::<u64, V3Error>(
                V3Error::NotEnoughMemory(max_total_tokens),
            ),
        },
{
    match hint {
        WarmupHint::NoHint => {
            let budget: u64 = match max_batch_total_tokens {
                Some(given) => given as u64,
                None => default_budget(max_total_tokens, max_batch_prefill_tokens),
            };
            BudgetResolution {
                warning: Some(BudgetWarning::AutomaticSizingUnsupported),
                budget: Ok(budget),
            }
        },
        WarmupHint::Hint(supported) => {
            let warning = if max_batch_total_tokens.is_some() {
                Some(BudgetWarning::OverrideIgnored)
            } else {
                None
            };
            if max_total_tokens as u64 > supported as u64 {
                BudgetResolution {
                    warning,
                    budget: Err(V3Error::NotEnoughMemory(max_total_tokens)),
                }
            } else {
                BudgetResolution { warning, budget: Ok(supported as u64) }
            }
        },
    }
}

/// A negotiated budget holds one request of full length, except where the
/// shards give no hint and the caller's own override is too small.
pub proof fn lemma_budget_holds_one_request(
    hint: WarmupHint,
    max_total_tokens: nat,
    max_batch_prefill_tokens: nat,
    max_batch_total_tokens: Option<u32>,
)
    requires
        hint is NoHint ==> (max_batch_total_tokens matches Some(given) ==> given
            >= max_total_tokens),
    ensures
        spec_budget(hint, max_total_tokens, max_batch_prefill_tokens, max_batch_total_tokens)
            matches Some(budget) ==> budget >= max_total_tokens,
{
}

/// The parameters of the warmup probe.
#[derive(Debug, Clone, Copy, PartialEq, Eq)]
pub struct WarmupProbe {
    pub max_input_tokens: usize,
    pub max_batch_prefill_tokens: u32,
    pub max_total_tokens: usize,
    pub max_batch_size: Option<usize>,
}

/// First stage: the connection to the shards is being made.
#[derive(Debug)]
pub struct Connecting {
    limits: Limits,
}

/// Second stage: the shards are clearing what an earlier process left.
#[derive(Debug)]
pub struct ClearingCache {
    limits: Limits,
}

/// Third stage: the shards' metadata is being fetched.
#[derive(Debug)]
pub struct FetchingInfo {
    limits: Limits,
}

/// Fourth stage: the shards are probing their capacity.
#[derive(Debug)]
pub struct WarmingUp {
    limits: Limits,
    info: ShardInfo,
}

/// The end of a negotiation that succeeded.
#[derive(Debug, Clone, PartialEq, Eq)]
pub struct Negotiated {
    pub config: BackendConfig,
    pub info: ShardInfo,
}

/// How the last stage ended, with the remark on the budget.
#[derive(Debug, PartialEq, Eq)]
pub struct Conclusion {
    pub warning: Option<BudgetWarning>,
    pub outcome: Result<Negotiated, V3Error>,
}

impl Connecting {
    pub closed spec fn limits(&self) -> Limits {
        self.limits
    }

    /// Starts the protocol. The first call to make is the connection.
    pub fn begin(limits: Limits) -> (stage: Self)
        ensures
            stage.limits() == limits,
    {
        Connecting { limits }
    }

    /// Takes the outcome of the connection attempt.
    pub fn connected(self, outcome: Result<(), ShardError>) -> (next: Result<
        ClearingCache,
        V3Error,
    >)
        ensures
            match outcome {
                Ok(_) => next matches Ok(stage) && stage.limits() == self.limits(),
                Err(error) => next == Err::<ClearingCache, V3Error>(V3Error::Connection(error)),
            },
    {
        match outcome {
            Ok(_) => Ok(ClearingCache { limits: self.limits }),
            Err(error) => Err(V3Error::Connection(error)),
        }
    }
}

impl ClearingCache {
    pub closed spec fn limits(&self) -> Limits {
        self.limits
    }

    /// The batch whose cache is to be cleared: none, which clears it all.
    pub fn target_batch(&self) -> (batch_id: Option<u64>)
        ensures
            batch_id is None,
    {
        None
    }

    /// Takes the outcome of the cache-clear call.
    pub fn cleared(self, outcome: Result<(), ShardError>) -> (next: Result<FetchingInfo, V3Error>)
        ensures
            match outcome {
                Ok(_) => next matches Ok(stage) && stage.limits() == self.limits(),
                Err(error) => next == Err::<FetchingInfo, V3Error>(V3Error::Cache(error)),
            },
    {
        match outcome {
            Ok(_) => Ok(FetchingInfo { limits: self.limits }),
            Err(error) => Err(V3Error::Cache(error)),
        }
    }
}

impl FetchingInfo {
    pub closed spec fn limits(&self) -> Limits {
        self.limits
    }

    /// Takes the shards' metadata, or the failure to fetch it.
    pub fn received(self, outcome: Result<ShardInfo, ShardError>) -> (next: Result<
        WarmingUp,
        V3Error,
    >)
        ensures
            match outcome {
                Ok(info) => next matches Ok(stage) && stage.limits() == self.limits()
                    && stage.info() == info,
                Err(error) => next == Err::<WarmingUp, V3Error>(V3Error::Info(error)),
            },
    {
        match outcome {
            Ok(info) => Ok(WarmingUp { limits: self.limits, info }),
            Err(error) => Err(V3Error::Info(error)),
        }
    }
}

impl WarmingUp {
    pub closed spec fn limits(&self) -> Limits {
        self.limits
    }

    pub closed spec fn info(&self) -> ShardInfo {
        self.info
    }

    /// What the end of this stage is for a given answer of the shards.
    pub open spec fn spec_concluded(&self, outcome: Result<WarmupHint, ShardError>) -> Conclusion {
        let limits = self.limits();
        match outcome {
            Err(error) => Conclusion { warning: None, outcome: Err(V3Error::Warmup(error)) },
            Ok(hint) => Conclusion {
                warning: spec_warning(hint, limits.max_batch_total_tokens),
                outcome: match spec_budget(
                    hint,
                    limits.max_total_tokens as nat,
                    limits.max_batch_prefill_tokens as nat,
                    limits.max_batch_total_tokens,
                ) {
                    Some(budget) => Ok(
                        Negotiated {
                            config: BackendConfig::spec_assemble(limits, budget as u64, self.info()),
                            info: self.info(),
                        },
                    ),
                    None => Err(V3Error::NotEnoughMemory(limits.max_total_tokens)),
                },
            },
        }
    }

    /// The parameters to probe with: the configured limits, unchanged.
    pub fn probe(&self) -> (probe: WarmupProbe)
        ensures
            probe == (WarmupProbe {
                max_input_tokens: self.limits().max_input_tokens,
                max_batch_prefill_tokens: self.limits().max_batch_prefill_tokens,
                max_total_tokens: self.limits().max_total_tokens,
                max_batch_size: self.limits().max_batch_size,
            }),
    {
        WarmupProbe {
            max_input_tokens: self.limits.max_input_tokens,
            max_batch_prefill_tokens: self.limits.max_batch_prefill_tokens,
            max_total_tokens: self.limits.max_total_tokens,
            max_batch_size: self.limits.max_batch_size,
        }
    }

    /// Takes the answer to the warmup probe, resolves the budget and
    /// assembles the configuration.
    pub fn concluded(self, outcome: Result<WarmupHint, ShardError>) -> (end: Conclusion)
        ensures
            end == self.spec_concluded(outcome),
    {
        match outcome {
            Err(error) => Conclusion { warning: None, outcome: Err(V3Error::Warmup(error)) },
            Ok(hint) => {
                let resolution = resolve_budget(
                    hint,
                    self.limits.max_total_tokens,
                    self.limits.max_batch_prefill_tokens,
                    self.limits.max_batch_total_tokens,
                );
                match resolution.budget {
                    Ok(budget) => {
                        let config = BackendConfig::assemble(&self.limits, budget, &self.info);
                        Conclusion {
                            warning: resolution.warning,
                            outcome: Ok(Negotiated { config, info: self.info }),
                        }
                    },
                    Err(error) => Conclusion { warning: resolution.warning, outcome: Err(error) },
                }
            },
        }
    }
}

/// Invariant of a configuration: a negotiation that succeeds on a hint, or
/// without an override, yields a budget of at least `max_total_tokens`.
pub proof fn lemma_negotiated_budget_covers_request(
    stage: WarmingUp,
    outcome: Result<WarmupHint, ShardError>,
)
    requires
        outcome == Ok::<WarmupHint, ShardError>(WarmupHint::NoHint) ==> (
        stage.limits().max_batch_total_tokens matches Some(given) ==> given
            >= stage.limits().max_total_tokens),
    ensures
        stage.spec_concluded(outcome).outcome matches Ok(done)
            ==> done.config.max_batch_total_tokens >= done.config.max_total_tokens,
{
}

} // verus!
