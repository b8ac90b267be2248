//! The model context protocol: forecasting tools behind JSON-RPC messages.

pub mod catalogue;
pub mod decode;
pub mod engine;
pub mod server;
pub mod tools;
pub mod trend;

pub use engine::{Forecaster, MockForecaster};
pub use server::{handle_line, handle_message, JsonRpcError, JsonRpcRequest, JsonRpcResponse, RpcResult};
pub use tools::{
    CallToolResult, MultivariateForecastResult, ToolContent, UnivariateForecastResult,
};
pub use trend::{evaluate_trend, TrendEvaluationResult};
