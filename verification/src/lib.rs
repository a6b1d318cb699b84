//! A verified single-process event pipeline: a broadcast hub fans out batches
//! of log records to independent subscribers, each of which filters, decodes,
//! and either accumulates (logger), yields (stream), or reacts (detector).

pub mod types;
pub mod accum;
pub mod contract;
pub mod csv;
pub mod detector;
pub mod digest;
pub mod ext;
pub mod fixed_point;
pub mod hub;
pub mod json;
pub mod logger;
pub mod registry;
pub mod simple_registry;
pub mod stream;
pub mod value;
