use batch_scheduler::config::{BackendConfig, Limits, ServedRatio, ShardInfo};
use batch_scheduler::error::{ShardError, ShardErrorKind, V3Error};
use batch_scheduler::negotiate::{
    default_budget, resolve_budget, BudgetWarning, Connecting, WarmingUp, WarmupHint,
    DEFAULT_BATCH_TOTAL_TOKENS,
};

fn limits(max_total_tokens: usize, prefill: u32, given: Option<u32>) -> Limits {
    Limits {
        max_input_tokens: 1024,
        max_total_tokens,
        waiting_served_ratio: ServedRatio::new(3, 10).expect("a fraction"),
        max_batch_prefill_tokens: prefill,
        max_batch_total_tokens: given,
        max_waiting_tokens: 20,
        max_batch_size: Some(8),
    }
}

fn info() -> ShardInfo {
    ShardInfo { device_type: String::from("cuda"), dtype: String::from("float16"), speculate: 2 }
}

fn fault(kind: ShardErrorKind, message: &str) -> ShardError {
    ShardError { kind, message: String::from(message) }
}

fn warming_up(limits: Limits) -> WarmingUp {
    Connecting::begin(limits)
        .connected(Ok(()))
        .expect("connected")
        .cleared(Ok(()))
        .expect("cleared")
        .received(Ok(info()))
        .expect("metadata")
}

#[test]
fn without_hint_and_override_the_floor_dominates() {
    let resolution = resolve_budget(WarmupHint::NoHint, 2000, 4096, None);
    assert_eq!(resolution.budget, Ok(16000));
    assert_eq!(resolution.warning, Some(BudgetWarning::AutomaticSizingUnsupported));
    assert_eq!(default_budget(2000, 4096), 16000);
    assert_eq!(DEFAULT_BATCH_TOTAL_TOKENS, 16000);
}

#[test]
fn hint_below_one_request_is_not_enough_memory() {
    let resolution = resolve_budget(WarmupHint::Hint(8000), 10000, 4096, None);
    assert_eq!(resolution.budget, Err(V3Error::NotEnoughMemory(10000)));
    assert_eq!(resolution.warning, None);
}

#[test]
fn hint_wins_over_the_override_and_the_override_is_remarked() {
    let resolution = resolve_budget(WarmupHint::Hint(20000), 10000, 4096, Some(5000));
    assert_eq!(resolution.budget, Ok(20000));
    assert_eq!(resolution.warning, Some(BudgetWarning::OverrideIgnored));
}

#[test]
fn hint_without_override_carries_no_remark() {
    let resolution = resolve_budget(WarmupHint::Hint(20000), 10000, 4096, None);
    assert_eq!(resolution.budget, Ok(20000));
    assert_eq!(resolution.warning, None);
}

#[test]
fn hint_equal_to_one_request_is_enough() {
    let resolution = resolve_budget(WarmupHint::Hint(10000), 10000, 4096, None);
    assert_eq!(resolution.budget, Ok(10000));
    let short = resolve_budget(WarmupHint::Hint(9999), 10000, 4096, None);
    assert_eq!(short.budget, Err(V3Error::NotEnoughMemory(10000)));
}

#[test]
fn refused_hint_still_remarks_on_the_override() {
    let resolution = resolve_budget(WarmupHint::Hint(8000), 10000, 4096, Some(50000));
    assert_eq!(resolution.budget, Err(V3Error::NotEnoughMemory(10000)));
    assert_eq!(resolution.warning, Some(BudgetWarning::OverrideIgnored));
}

#[test]
fn without_hint_the_override_counts() {
    let resolution = resolve_budget(WarmupHint::NoHint, 2000, 4096, Some(5000));
    assert_eq!(resolution.budget, Ok(5000));
    assert_eq!(resolution.warning, Some(BudgetWarning::AutomaticSizingUnsupported));
    let small = resolve_budget(WarmupHint::NoHint, 10000, 4096, Some(100));
    assert_eq!(small.budget, Ok(100));
}

#[test]
fn default_budget_is_the_largest_of_three() {
    assert_eq!(default_budget(0, 0), 16000);
    assert_eq!(default_budget(16000, 16000), 16000);
    assert_eq!(default_budget(16001, 4096), 16001);
    assert_eq!(default_budget(2000, 16001), 16001);
    assert_eq!(default_budget(50000, 40000), 50000);
    assert_eq!(default_budget(40000, 50000), 50000);
    assert_eq!(default_budget(1, u32::MAX), u32::MAX as u64);
}

#[test]
fn request_longer_than_any_hint_is_refused_not_truncated() {
    let huge: usize = usize::MAX;
    let resolution = resolve_budget(WarmupHint::Hint(u32::MAX), huge, 4096, None);
    assert_eq!(resolution.budget, Err(V3Error::NotEnoughMemory(huge)));
    let unhinted = resolve_budget(WarmupHint::NoHint, huge, 4096, None);
    assert_eq!(unhinted.budget, Ok(huge as u64));
}

#[test]
fn failed_connection_ends_the_protocol() {
    let error = fault(ShardErrorKind::Transport, "no route");
    let next = Connecting::begin(limits(2000, 4096, None)).connected(Err(error.clone()));
    assert_eq!(next.err(), Some(V3Error::Connection(error)));
}

#[test]
fn failed_cache_clear_ends_the_protocol() {
    let error = fault(ShardErrorKind::Application, "busy");
    let stage = Connecting::begin(limits(2000, 4096, None)).connected(Ok(())).expect("connected");
    assert_eq!(stage.target_batch(), None);
    let next = stage.cleared(Err(error.clone()));
    assert_eq!(next.err(), Some(V3Error::Cache(error)));
}

#[test]
fn failed_metadata_fetch_ends_the_protocol() {
    let error = fault(ShardErrorKind::Transport, "reset");
    let stage = Connecting::begin(limits(2000, 4096, None))
        .connected(Ok(()))
        .expect("connected")
        .cleared(Ok(()))
        .expect("cleared");
    let next = stage.received(Err(error.clone()));
    assert_eq!(next.err(), Some(V3Error::Info(error)));
}

#[test]
fn failed_warmup_ends_the_protocol() {
    let error = fault(ShardErrorKind::Application, "out of memory");
    let end = warming_up(limits(2000, 4096, None)).concluded(Err(error.clone()));
    assert_eq!(end.outcome.err(), Some(V3Error::Warmup(error)));
    assert_eq!(end.warning, None);
}

#[test]
fn warmup_probes_with_the_configured_limits() {
    let stage = warming_up(limits(2000, 4096, Some(7)));
    let probe = stage.probe();
    assert_eq!(probe.max_input_tokens, 1024);
    assert_eq!(probe.max_batch_prefill_tokens, 4096);
    assert_eq!(probe.max_total_tokens, 2000);
    assert_eq!(probe.max_batch_size, Some(8));
}

#[test]
fn negotiation_without_hint_assembles_the_configuration() {
    let end = warming_up(limits(2000, 4096, None)).concluded(Ok(WarmupHint::NoHint));
    assert_eq!(end.warning, Some(BudgetWarning::AutomaticSizingUnsupported));
    let done = end.outcome.expect("negotiated");
    assert_eq!(done.info, info());
    let expected = BackendConfig {
        max_input_tokens: 1024,
        max_total_tokens: 2000,
        waiting_served_ratio: ServedRatio::new(3, 10).expect("a fraction"),
        max_batch_prefill_tokens: 4096,
        max_batch_total_tokens: 16000,
        max_waiting_tokens: 20,
        max_batch_size: Some(8),
        model_device_type: String::from("cuda"),
        model_dtype: String::from("float16"),
        speculate: 2,
    };
    assert_eq!(done.config, expected);
}

#[test]
fn negotiation_with_hint_takes_the_hint() {
    let end = warming_up(limits(10000, 4096, Some(5000))).concluded(Ok(WarmupHint::Hint(20000)));
    assert_eq!(end.warning, Some(BudgetWarning::OverrideIgnored));
    let done = end.outcome.expect("negotiated");
    assert_eq!(done.config.max_batch_total_tokens, 20000);
    assert!(done.config.max_batch_total_tokens >= done.config.max_total_tokens as u64);
}

#[test]
fn negotiation_with_too_small_a_hint_fails() {
    let end = warming_up(limits(10000, 4096, None)).concluded(Ok(WarmupHint::Hint(8000)));
    assert_eq!(end.outcome.err(), Some(V3Error::NotEnoughMemory(10000)));
}

#[test]
fn backend_info_is_taken_from_the_configuration() {
    let config = BackendConfig::assemble(&limits(2000, 4096, None), 12345, &info());
    let told = config.info();
    assert_eq!(told.waiting_served_ratio.parts(), (3, 10));
    assert_eq!(told.max_batch_total_tokens, 12345);
    assert_eq!(told.max_waiting_tokens, 20);
    assert_eq!(told.max_batch_size, Some(8));
    assert_eq!(told.model_device_type, "cuda");
    assert_eq!(told.model_dtype, "float16");
    assert_eq!(told.speculate, 2);
}

#[test]
fn served_ratio_needs_a_denominator() {
    assert!(ServedRatio::new(1, 0).is_none());
    assert!(ServedRatio::new(0, 0).is_none());
    assert_eq!(ServedRatio::new(0, 1).expect("a fraction").parts(), (0, 1));
}

#[test]
fn served_ratio_throttles_at_or_below_the_ratio() {
    let ratio = ServedRatio::new(3, 10).expect("a fraction");
    assert!(ratio.is_throttled(3, 10));
    assert!(ratio.is_throttled(2, 10));
    assert!(ratio.is_throttled(0, 1));
    assert!(!ratio.is_throttled(4, 10));
    assert!(!ratio.is_throttled(1, 3));
    assert!(ratio.is_throttled(1, 4));
    assert!(!ratio.is_throttled(0, 0));
    assert!(!ratio.is_throttled(5, 0));
}

#[test]
fn served_ratio_compares_without_overflow() {
    let large = ServedRatio::new(u64::MAX, 1).expect("a fraction");
    assert!(large.is_throttled(usize::MAX, usize::MAX));
    let small = ServedRatio::new(1, u64::MAX).expect("a fraction");
    assert!(!small.is_throttled(usize::MAX, usize::MAX));
    assert!(small.is_throttled(0, usize::MAX));
    let one = ServedRatio::new(u64::MAX, u64::MAX).expect("a fraction");
    assert!(one.is_throttled(7, 7));
    assert!(!one.is_throttled(8, 7));
}
