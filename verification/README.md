# timesfm

Time series forecasting with the TimesFM family of models: the logic around the model's layers,
written in Verus, with contracts that pin results down to the last bit and digit.

- `src/ieee` – binary floating-point numbers as bit patterns: sums, products, quotients, roots and
  conversions, each proved to be the exact result rounded to nearest; what turns with a sign, and
  what stays finite.
- `src/decimal.rs`, `src/text.rs`, `src/json.rs`, `src/rows.rs`, `src/stats.rs` – digits, text, JSON
  values, rows of numbers, sums and extremes.
- `src/config.rs`, `src/error.rs`, `src/data.rs`, `src/util.rs` – configurations, errors, tables of
  comma-separated values, gap filling.
- `src/forecaster.rs` – what a forecast is made from and what it is made into.
- `src/symmetry.rs` – how the forecasts of related series relate.
- `src/model` – how a forecast is laid out in patches: padding, detrending, running statistics,
  tokens, hidden patches, stitching.
- `src/decide` – sanity checks before a forecast, policies and decisions after it.
- `src/narrative.rs` – a forecast told in words.
- `src/mcp` – forecasting tools behind JSON-RPC messages.
- `app` – the program: command line, files, network, and the layers on a tensor backend.

The library never runs the layers. It hands out the tokens of each series (`model::decode::
encode_series`) and reads the forecast out of what the layers say of them
(`model::decode::decode_series`).
