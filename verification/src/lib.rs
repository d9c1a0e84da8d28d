//! A minimal telemetry library: it parses raw sensor text into exact decimal
//! readings, keeps the latest reading per label set in a concurrency-safe
//! metric store, and renders the store's contents in the line-oriented text
//! exposition format that metric collectors scrape.

pub mod labels;
pub mod num;
pub mod read;
pub mod registry;
pub mod render;
pub mod sampler;
pub mod shared;
pub mod store;
pub mod value;
