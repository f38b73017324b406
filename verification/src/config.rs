//! The startup configuration and what the negotiation makes of it.

use vstd::prelude::*;

verus! {

/// The ratio of waiting to running requests below which admission pauses,
/// kept as an exact fraction.
#[derive(Debug, Clone, Copy, PartialEq, Eq)]
pub struct ServedRatio {
    numerator: u64,
    denominator: u64,
}

/// Whether `waiting / running` is at or below `numerator / denominator`,
/// with some request running.
pub open spec fn spec_throttles(numerator: nat, denominator: nat, waiting: nat, running: nat) -> bool {
    running > 0 && waiting * denominator <= numerator * running
}

impl ServedRatio {
    pub closed spec fn numerator(&self) -> nat {
        self.numerator as nat
    }

    pub closed spec fn denominator(&self) -> nat {
        self.denominator as nat
    }

    /// The denominator is not zero.
    pub open spec fn wf(&self) -> bool {
        self.denominator() > 0
    }

    /// Whether the ratio holds admissions back with `waiting` requests in the
    /// queue and `running` requests in the batch.
    pub open spec fn throttles(&self, waiting: nat, running: nat) -> bool {
        spec_throttles(self.numerator(), self.denominator(), waiting, running)
    }

    /// The fraction `numerator / denominator`, or nothing for a zero
    /// denominator.
    pub fn new(numerator: u64, denominator: u64) -> (ratio: Option<Self>)
        ensures
            denominator == 0 <==> ratio is None,
            ratio matches Some(r) ==> r.wf() && r.numerator() == numerator && r.denominator()
                == denominator,
    {
        if denominator == 0 {
            None
        } else {
            Some(ServedRatio { numerator, denominator })
        }
    }

    /// The fraction's two parts, numerator first.
    pub fn parts(&self) -> (parts: (u64, u64))
        ensures
            parts.0 == self.numerator(),
            parts.1 == self.denominator(),
    {
        (self.numerator, self.denominator)
    }

    /// Decides whether admission pauses: some request is running, and the
    /// waiting count divided by the running count is at or below the ratio.
    pub fn is_throttled(&self, waiting: usize, running: usize) -> (paused: bool)
        ensures
            paused == self.throttles(waiting as nat, running as nat),
    {
        if running == 0 {
            return false;
        }
        let bound: u128 = 0xffff_ffff_ffff_ffff;
        let w: u128 = waiting as u128;
        let d: u128 = self.denominator as u128;
        let n: u128 = self.numerator as u128;
        let r: u128 = running as u128;
        assert(w * d <= bound * bound && n * r <= bound * bound) by (nonlinear_arith)
            requires
                0 <= w <= bound,
                0 <= d <= bound,
                0 <= n <= bound,
                0 <= r <= bound,
        ;
        w * d <= n * r
    }
}

/// What the configuration loader supplies at startup.
#[derive(Debug, Clone, Copy, PartialEq, Eq)]
pub struct Limits {
    pub max_input_tokens: usize,
    pub max_total_tokens: usize,
    pub waiting_served_ratio: ServedRatio,
    pub max_batch_prefill_tokens: u32,
    /// The caller's override of the budget, if any.
    pub max_batch_total_tokens: Option<u32>,
    pub max_waiting_tokens: usize,
    pub max_batch_size: Option<usize>,
}

/// Static metadata that the shards return once.
#[derive(Debug, Clone, PartialEq, Eq)]
pub struct ShardInfo {
    pub device_type: String,
    pub dtype: String,
    /// Number of speculative tokens decoded per step.
    pub speculate: u32,
}

/// The configuration that the backend runs with, fixed once negotiated.
#[derive(Debug, Clone, PartialEq, Eq)]
pub struct BackendConfig {
    pub max_input_tokens: usize,
    pub max_total_tokens: usize,
    pub waiting_served_ratio: ServedRatio,
    pub max_batch_prefill_tokens: u32,
    /// The authoritative token budget.
    pub max_batch_total_tokens: u64,
    pub max_waiting_tokens: usize,
    pub max_batch_size: Option<usize>,
    pub model_device_type: String,
    pub model_dtype: String,
    pub speculate: usize,
}

/// The record that the API layer gets at startup.
#[derive(Debug, Clone, PartialEq, Eq)]
pub struct BackendInfo {
    pub waiting_served_ratio: ServedRatio,
    pub max_batch_total_tokens: u64,
    pub max_waiting_tokens: usize,
    pub max_batch_size: Option<usize>,
    pub model_device_type: String,
    pub model_dtype: String,
    pub speculate: usize,
}

impl BackendConfig {
    /// The configuration made of the startup limits, the resolved budget and
    /// the shards' metadata.
    pub open spec fn spec_assemble(limits: Limits, budget: u64, info: ShardInfo) -> BackendConfig {
        BackendConfig {
            max_input_tokens: limits.max_input_tokens,
            max_total_tokens: limits.max_total_tokens,
            waiting_served_ratio: limits.waiting_served_ratio,
            max_batch_prefill_tokens: limits.max_batch_prefill_tokens,
            max_batch_total_tokens: budget,
            max_waiting_tokens: limits.max_waiting_tokens,
            max_batch_size: limits.max_batch_size,
            model_device_type: info.device_type,
            model_dtype: info.dtype,
            speculate: info.speculate as usize,
        }
    }

    /// What the API layer is told of this configuration.
    pub open spec fn spec_info(&self) -> BackendInfo {
        BackendInfo {
            waiting_served_ratio: self.waiting_served_ratio,
            max_batch_total_tokens: self.max_batch_total_tokens,
            max_waiting_tokens: self.max_waiting_tokens,
            max_batch_size: self.max_batch_size,
            model_device_type: self.model_device_type,
            model_dtype: self.model_dtype,
            speculate: self.speculate,
        }
    }

    /// Puts the configuration together.
    pub fn assemble(limits: &Limits, budget: u64, info: &ShardInfo) -> (config: BackendConfig)
        ensures
            config == Self::spec_assemble(*limits, budget, *info),
    {
        BackendConfig {
            max_input_tokens: limits.max_input_tokens,
            max_total_tokens: limits.max_total_tokens,
            waiting_served_ratio: limits.waiting_served_ratio,
            max_batch_prefill_tokens: limits.max_batch_prefill_tokens,
            max_batch_total_tokens: budget,
            max_waiting_tokens: limits.max_waiting_tokens,
            max_batch_size: limits.max_batch_size,
            model_device_type: info.device_type.clone(),
            model_dtype: info.dtype.clone(),
            speculate: info.speculate as usize,
        }
    }

    /// The record for the API layer.
    pub fn info(&self) -> (info: BackendInfo)
        ensures
            info == self.spec_info(),
    {
        BackendInfo {
            waiting_served_ratio: self.waiting_served_ratio,
            max_batch_total_tokens: self.max_batch_total_tokens,
            max_waiting_tokens: self.max_waiting_tokens,
            max_batch_size: self.max_batch_size,
            model_device_type: self.model_device_type.clone(),
            model_dtype: self.model_dtype.clone(),
            speculate: self.speculate,
        }
    }
}

} // verus!
