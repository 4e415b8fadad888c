//! The schema vocabulary of relational graphs: feature kinds and relation
//! constraints.
use vstd::prelude::*;

verus! {

/// The kind of a node or edge feature.
#[derive(Debug, Clone, PartialEq, Eq, Hash, Structural)]
pub enum FeatureType {
    Numerical,
    Categorical,
    Text,
    Temporal,
    Binary,
    Embedding,
}

/// A rule that the edges of a relation obey.
#[derive(Debug, Clone, PartialEq, Eq, Hash, Structural)]
pub enum RelationConstraint {
    SameEntityType,
    DifferentEntityType,
    TemporalOrder,
    Unique,
    Weighted,
}

/// The features a relation carries and the constraints it obeys.
#[derive(Debug, Clone)]
pub struct RelationSchema {
    pub feature_names: Vec<String>,
    pub feature_types: Vec<FeatureType>,
    pub constraints: Vec<RelationConstraint>,
}

} // verus!
