use vstd::prelude::*;

pub mod arrow;
pub mod collections;
pub mod dag;
pub mod document;
pub mod edge_verify;
pub mod envelope;
pub mod ordered_float;
pub mod mutation_error;
pub mod orchestrator;
pub mod pipeline;
pub mod policy;
pub mod projection;
pub mod projection_ops;
pub mod replay;
pub mod schema;
pub mod schema_defs;
pub mod selection;
pub mod snapshot;
pub mod stored_rows;
pub mod subgraph;
pub mod subgraph_events;
pub mod sync;
pub mod text;
pub mod transform;
pub mod ui_mutation;
pub mod validation;
pub mod z_order;
