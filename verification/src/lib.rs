//! Governed insight engine core: the PDPA-safe publication gate, the
//! PII scanner and redactor, and the integer and text logic of the
//! diagnose / propose / validate pipeline.
pub mod govern;
pub mod text;
pub mod matching;
pub mod engine;
pub mod models;
pub mod rng;

use vstd::prelude::*;

verus! {
}
