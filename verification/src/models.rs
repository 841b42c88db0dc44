//! The registry of in-edge models: their ids and versions, and which model a
//! name selects.
use vstd::prelude::*;
use crate::text::text_eq;

verus! {

/// Deterministic rules predictor.
#[derive(Clone, Copy)]
pub struct RulesCompletion;

/// Empirical per-segment mean completion.
#[derive(Clone, Copy)]
pub struct SegmentMean;

/// Seasonal-naive time-series forecast.
#[derive(Clone, Copy)]
pub struct NaiveForecast;

impl RulesCompletion {
    pub fn id(&self) -> (r: &'static str)
        ensures
            r@ == "rules_completion"@,
    {
        "rules_completion"
    }

    pub fn version(&self) -> (r: &'static str)
        ensures
            r@ == "1.0.0"@,
    {
        "1.0.0"
    }
}

impl SegmentMean {
    pub fn id(&self) -> (r: &'static str)
        ensures
            r@ == "seg_mean"@,
    {
        "seg_mean"
    }

    pub fn version(&self) -> (r: &'static str)
        ensures
            r@ == "1.0.0"@,
    {
        "1.0.0"
    }
}

impl NaiveForecast {
    pub fn id(&self) -> (r: &'static str)
        ensures
            r@ == "naive_forecast"@,
    {
        "naive_forecast"
    }

    pub fn version(&self) -> (r: &'static str)
        ensures
            r@ == "1.0.0"@,
    {
        "1.0.0"
    }
}

/// The in-edge models a name can select.
#[derive(PartialEq, Eq, Structural, Clone, Copy)]
pub enum ModelKind {
    Rules,
    SegmentMean,
    NaiveForecast,
}

/// The model registered under a name; `None` for an unknown name.
pub open spec fn model_for(name: Seq<char>) -> Option<ModelKind> {
    if name == "rules_completion"@ {
        Some(ModelKind::Rules)
    } else if name == "seg_mean"@ {
        Some(ModelKind::SegmentMean)
    } else if name == "naive_forecast"@ {
        Some(ModelKind::NaiveForecast)
    } else {
        None
    }
}

/// Model dispatch: the model a name selects.
pub fn model_kind(name: &str) -> (k: Option<ModelKind>)
    ensures
        k == model_for(name@),
{
    if text_eq(name, RulesCompletion.id()) {
        Some(ModelKind::Rules)
    } else if text_eq(name, SegmentMean.id()) {
        Some(ModelKind::SegmentMean)
    } else if text_eq(name, NaiveForecast.id()) {
        Some(ModelKind::NaiveForecast)
    } else {
        None
    }
}

/// Id of the model of a kind.
pub open spec fn model_id_of(k: ModelKind) -> Seq<char> {
    match k {
        ModelKind::Rules => "rules_completion"@,
        ModelKind::SegmentMean => "seg_mean"@,
        ModelKind::NaiveForecast => "naive_forecast"@,
    }
}

/// A name selects the model registered under exactly that id.
pub proof fn law_dispatch_by_id(name: Seq<char>)
    ensures
        model_for(name) matches Some(k) ==> model_id_of(k) == name,
        model_for(model_id_of(ModelKind::Rules)) == Some(ModelKind::Rules),
        model_for(model_id_of(ModelKind::SegmentMean)) == Some(ModelKind::SegmentMean),
        model_for(model_id_of(ModelKind::NaiveForecast)) == Some(ModelKind::NaiveForecast),
        model_for("rules_completion"@) == Some(ModelKind::Rules),
        model_for("seg_mean"@) == Some(ModelKind::SegmentMean),
        model_for("naive_forecast"@) == Some(ModelKind::NaiveForecast),
        model_for(name) is None ==> name != "rules_completion"@ && name != "seg_mean"@ && name
            != "naive_forecast"@,
{
    reveal_strlit("rules_completion");
    reveal_strlit("seg_mean");
    reveal_strlit("naive_forecast");
    assert("seg_mean"@.len() != "rules_completion"@.len());
    assert("naive_forecast"@.len() != "rules_completion"@.len());
    assert("naive_forecast"@.len() != "seg_mean"@.len());
}

} // verus!
