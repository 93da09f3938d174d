//! HifzSDK: the Sabqi -> Manzil daily memorization routine over the mushaf.
//!
//! - `sdk`: the verse model, the daily lesson chunking and the review plan.
//! - `json`: the JSON document model that the mushaf is read from.
//! - `export`: the exported document, the base document with `meta` and the
//!   plan set in it.
//! - `text`: character-level helpers (trimming, lines, decimal numbers).
//! - `studio`: the decisions of the wiring studio (scan, connect, search).

pub mod export;
pub mod json;
pub mod sdk;
pub mod studio;
pub mod text;
