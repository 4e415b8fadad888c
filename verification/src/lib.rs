//! Verified core of the GaussRDL relational-graph library: node identifiers,
//! graph topology algorithms, compact codecs, error classification and
//! evaluation-metric kernels.
#![allow(unused_imports)]

pub mod decimal;
pub mod node_id;
pub mod topology;
pub mod paths;
pub mod reach;
pub mod connectivity;
pub mod acyclic;
pub mod builder;
pub mod compression;
pub mod community;
pub mod coloring;
pub mod sampling;
pub mod adaptive;
pub mod sampler;
pub mod graph_metrics;
pub mod visualization;
pub mod centrality;
pub mod betweenness;
pub mod tracking;
pub mod entity_graph;
pub mod coo;
pub mod schema;
pub mod error;
pub mod models;
pub mod metrics;

use vstd::prelude::*;
use crate::error::GraphError;

verus! {

/// Starts the graph system. Start-up cannot fail.
pub fn init() -> (r: Result<(), GraphError>)
    ensures
        r is Ok,
{
    Ok(())
}

/// Shuts the graph system down. Shutting down cannot fail.
pub fn shutdown() -> (r: Result<(), GraphError>)
    ensures
        r is Ok,
{
    Ok(())
}

} // verus!
