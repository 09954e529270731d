# model_gateway

Tool-call parsers and bearer-token authentication for a model gateway, verified with Verus.

- `src/parsers/` reads the tool calls of MiniMax M2, of the GLM-4 mixture-of-experts models and
  of DeepSeek V3.1, from complete texts and from streams. Beside each parser, `round_trip.rs`
  states that what is written in its format is read back, and `streaming.rs` what holds of every
  stream. The files `cutting.rs` of MiniMax M2 and of DeepSeek V3.1 state that the arguments of
  a call are sent whole, however the stream was cut.
- `src/auth.rs`, `src/config.rs` and `src/tenant.rs` decide who may use the gateway, and on whose
  behalf.
- `src/text/` searches, slices and trims strings; `src/json.rs` wraps the functions of
  `serde_json` that the parsers call.
- `app/` holds the asynchronous interface of the parsers and the middleware of the routes.

A string is modelled by its characters, a JSON value by a `JsonModel`, and a streaming parser by
its state: `parse_incremental` follows the function `feed` from state and chunk to state and
result. What is taken on trust of `serde_json`, `regex` and `sha2` is stated in `src/json.rs`,
`src/parsers/deepseek31/pattern.rs` and `src/auth.rs`.
