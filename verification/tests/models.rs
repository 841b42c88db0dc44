use engine_core::models::{model_kind, ModelKind, NaiveForecast, RulesCompletion, SegmentMean};
use engine_core::rng::{initial_state, next_state, unit_bits, DEFAULT_STATE};

#[test]
fn model_ids_and_versions() {
    assert_eq!(RulesCompletion.id(), "rules_completion");
    assert_eq!(SegmentMean.id(), "seg_mean");
    assert_eq!(NaiveForecast.id(), "naive_forecast");
    assert_eq!(RulesCompletion.version(), "1.0.0");
    assert_eq!(SegmentMean.version(), "1.0.0");
    assert_eq!(NaiveForecast.version(), "1.0.0");
}

#[test]
fn dispatch_by_name() {
    assert!(model_kind("rules_completion") == Some(ModelKind::Rules));
    assert!(model_kind("seg_mean") == Some(ModelKind::SegmentMean));
    assert!(model_kind("naive_forecast") == Some(ModelKind::NaiveForecast));
    assert!(model_kind("causal_forest") == None);
    assert!(model_kind("") == None);
}

#[test]
fn seed_zero_uses_default_state() {
    assert_eq!(initial_state(0), DEFAULT_STATE);
    assert_eq!(initial_state(0xC0FFEE), 0xC0FFEE);
}

#[test]
fn xorshift_step_value() {
    let mut s: u64 = 1;
    s ^= s << 13;
    s ^= s >> 7;
    s ^= s << 17;
    assert_eq!(next_state(1), s);
    assert_eq!(next_state(1), 1082269761);
}

#[test]
fn xorshift_never_reaches_zero() {
    let mut s = initial_state(0xC0FFEE);
    for _ in 0..10000 {
        s = next_state(s);
        assert_ne!(s, 0);
    }
}

#[test]
fn unit_bits_are_53() {
    assert_eq!(unit_bits(u64::MAX), (1u64 << 53) - 1);
    assert_eq!(unit_bits(2047), 0);
    assert_eq!(unit_bits(2048), 1);
    let u = unit_bits(next_state(initial_state(7))) as f64 / (1u64 << 53) as f64;
    assert!((0.0..1.0).contains(&u));
}
