//! Checks before a forecast and decisions after it.

pub mod guardrails;
pub mod policy;
pub mod quantiles;
pub mod request;

pub use guardrails::{
    check_series_guardrails, check_series_guardrails_with_config, GuardrailConfig, GuardrailResult,
    UNKNOWN,
};
pub use policy::{
    resolve_policy, ComparisonOp, ForecastMetric, ForecastPolicy, ForecastPolicyRule, ThresholdRule,
};
pub use quantiles::{extract_quantiles, ExtractedQuantiles};
pub use request::{
    policy_answer, policy_decision, policy_request, PolicyDecision, ZevAnswer, ZevRequest,
};
