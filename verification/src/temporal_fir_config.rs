//! The settings of the temporal refinement, and the declarations of its evidence.

use crate::ieee::Double;
use vstd::prelude::*;

verus! {

/// An optional search, over saved impulse responses, for a temporal refinement of one
/// independent FIR output.
#[derive(Clone, Debug)]
pub struct TemporalFirConfig {
    pub channel: String,
    pub evidence: Vec<TemporalIrEvidence>,
    pub frequencies_hz: Vec<Double>,
    pub frequency_weights: Vec<Double>,
    pub window_seconds: Double,
    pub starts_seconds: Vec<Double>,
    pub delays_seconds: Vec<Double>,
    pub strengths: Vec<Double>,
    pub minimum_late_improvement_db: Double,
    pub maximum_early_change_db: Double,
    pub maximum_spectral_change_db: Double,
    /// Optional tighter, signed acceptance limits from the calibrated study. A minimum counts
    /// only as far as it exceeds `minimum_late_improvement_db`.
    pub minimum_relative_tail_improvement_db: Option<Double>,
    pub minimum_absolute_late_improvement_db: Option<Double>,
    pub minimum_early_change_db: Option<Double>,
    pub maximum_early_increase_db: Option<Double>,
    pub minimum_positions: Option<usize>,
}

/// Where the sidecar of a measurement lies, and what it is meant to be.
#[derive(Clone, Debug)]
pub struct TemporalIrEvidence {
    pub sidecar_path: String,
    pub position_id: String,
    pub partition: TemporalPartition,
}

/// What a measurement is used for: to choose a candidate, or to confirm the choice.
#[derive(Clone, Copy, Debug, PartialEq, Eq, Structural)]
pub enum TemporalPartition {
    Training,
    HeldOut,
}

/// Identity and processing of a saved impulse response, as its sidecar declares them.
#[derive(Clone, Debug)]
pub struct TemporalIrSidecar {
    pub wav_path: String,
    pub sha256: String,
    pub anchor_sample: usize,
    pub processing_state: String,
    pub stimulus_reference: String,
    pub capture_rate_hz: u32,
    pub channel: String,
    pub position_id: String,
    pub partition: TemporalPartition,
    pub orcmeasurement: Option<TemporalArrayReference>,
}

/// The array of a measurement package that must repeat the saved impulse response.
#[derive(Clone, Debug)]
pub struct TemporalArrayReference {
    pub package_path: String,
    pub array_path: String,
    pub logical_sha256: String,
    pub source_digest: String,
    pub campaign_id: String,
}

} // verus!
