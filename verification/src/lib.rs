//! A dataflow-graph engine: typed message envelopes, graph configuration,
//! subgraph flattening, channel-type inference and graph wiring plans.
pub mod algo_base;
pub mod conversion;
pub mod dr;
pub mod envelope;
pub mod error;
pub mod expansion;
pub mod text;
pub mod wiring;
pub mod type_infer;
pub mod broker;
pub mod builtin;
pub mod channel;
pub mod config;
pub mod graph;
pub mod interlayer;
pub mod node;
pub mod registry;
pub mod resource;
pub mod search;
pub mod subgraph;
pub mod topics;
