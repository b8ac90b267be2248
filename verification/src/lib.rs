//! Time series forecasting: what surrounds the layers of the model.
//!
//! Numbers are held as bit patterns (`ieee`), so that every sum, threshold and rounded digit is
//! stated and proved to the last bit. The layers themselves run elsewhere; the library lays out what
//! they are given and makes sense of what they give back.

pub mod config;
pub mod data;
pub mod decide;
pub mod decimal;
pub mod error;
pub mod forecaster;
pub mod ieee;
pub mod json;
pub mod mcp;
pub mod model;
pub mod narrative;
pub mod rows;
pub mod stats;
pub mod symmetry;
pub mod text;
pub mod util;

pub use config::{
    Activation, NormType, ResidualBlockConfig, StackedTransformersConfig, TimesFM2p5Config,
    TimesFM3Config, TransformerConfig,
};
pub use decide::{
    check_series_guardrails, check_series_guardrails_with_config, policy_answer, policy_decision,
    policy_request, ComparisonOp, ForecastMetric, ForecastPolicy, ForecastPolicyRule,
    GuardrailConfig, GuardrailResult, PolicyDecision, ThresholdRule,
};
pub use error::TimesfmError;
pub use forecaster::{ForecastOptions, ForecastOutput};
pub use ieee::scalar::{Double, Single};
pub use narrative::{
    build_narrative_prompt, compute_summary_stats, ForecastNarrative, ForecastSummaryStats,
};
