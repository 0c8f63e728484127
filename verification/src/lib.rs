//! A runner of continuous integration pipelines: what a pipeline is and when
//! it is sound, which jobs run in which order, what becomes of each, what is
//! kept of a run and what is told of it, and the rules of the cache that
//! machines share.

pub mod artifacts;
pub mod cache_server;
pub mod cli;
pub mod clock;
pub mod color;
pub mod conditions;
pub mod dag;
pub mod digest;
pub mod digraph;
pub mod executor;
pub mod flow;
pub mod history;
pub mod letters;
pub mod logging;
pub mod matrix;
pub mod models;
pub mod numbers;
pub mod order;
pub mod parser;
pub mod paths;
pub mod pattern;
pub mod plan;
pub mod prepare;
pub mod remote_cache;
pub mod reporting;
pub mod rounding;
pub mod scheduler;
pub mod services;
pub mod state;
pub mod string_map;
pub mod syntax;
pub mod text;
pub mod trigger;
pub mod validator;
pub mod variables;
