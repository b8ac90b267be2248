//! The model around its layers: how a forecast is cut into patches and put together again.

pub mod alike;
pub mod answer;
pub mod cpm;
pub mod decode;
pub mod detrend;
pub mod layers;
pub mod patches;
pub mod plan;
pub mod running;
pub mod tokens;
pub mod window;
