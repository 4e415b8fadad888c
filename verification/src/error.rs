//! Graph errors, their classification, and the context attached to a failed
//! operation.

use vstd::prelude::*;
use vstd::string::*;
use crate::builder::DensityLimit;
use crate::decimal::{decimal, u64_to_decimal};

verus! {

#[verifier::external_type_specification]
#[verifier::external_body]
pub struct ExIoError(std::io::Error);

#[verifier::external_type_specification]
#[verifier::external_body]
pub struct ExJsonError(serde_json::Error);

#[verifier::external_type_specification]
#[verifier::external_body]
pub struct ExAnyhowError(anyhow::Error);

/// Everything that can go wrong while building, querying or storing a graph.
///
/// `GraphTooDense` carries the density as its exact parts: `edges` edges among
/// `node_pairs` unordered node pairs, against the limit `max_density`.
#[derive(Debug)]
pub enum GraphError {
    InvalidNodeIndex(usize),
    InvalidEdgeIndex(usize),
    InvalidRelationType(String),
    DuplicateNode(String),
    DuplicateEdge { from: String, to: String, relation: String },
    NodeNotFound(String),
    EdgeNotFound { from: String, to: String },
    InvalidOperation(String),
    ValidationError(String),
    ConstructionError(String),
    MemoryError(String),
    IoError(std::io::Error),
    SerializationError(serde_json::Error),
    DatabaseError(String),
    BatchError(String),
    GraphTooLarge { nodes: usize, max_nodes: usize },
    GraphTooDense { edges: usize, node_pairs: u128, max_density: DensityLimit },
    CycleDetected,
    Disconnected,
    InvalidAttributeType { expected: String, actual: String },
    MissingAttribute(String),
    InvalidConfig(String),
    SamplingError(String),
    Other(anyhow::Error),
}

/// Result of a graph operation.
pub type GraphResult<T> = Result<T, GraphError>;

/// The errors after which the graph system cannot go on: memory, database,
/// size limit and configuration failures.
pub open spec fn fatal(e: GraphError) -> bool {
    ||| e is MemoryError
    ||| e is DatabaseError
    ||| e is GraphTooLarge
    ||| e is InvalidConfig
}

/// The stable machine-readable code of each error kind.
pub open spec fn code_of(e: GraphError) -> Seq<char> {
    match e {
        GraphError::InvalidNodeIndex(_) => "INVALID_NODE_INDEX"@,
        GraphError::InvalidEdgeIndex(_) => "INVALID_EDGE_INDEX"@,
        GraphError::InvalidRelationType(_) => "INVALID_RELATION_TYPE"@,
        GraphError::DuplicateNode(_) => "DUPLICATE_NODE"@,
        GraphError::DuplicateEdge { .. } => "DUPLICATE_EDGE"@,
        GraphError::NodeNotFound(_) => "NODE_NOT_FOUND"@,
        GraphError::EdgeNotFound { .. } => "EDGE_NOT_FOUND"@,
        GraphError::InvalidOperation(_) => "INVALID_OPERATION"@,
        GraphError::ValidationError(_) => "VALIDATION_ERROR"@,
        GraphError::ConstructionError(_) => "CONSTRUCTION_ERROR"@,
        GraphError::MemoryError(_) => "MEMORY_ERROR"@,
        GraphError::IoError(_) => "IO_ERROR"@,
        GraphError::SerializationError(_) => "SERIALIZATION_ERROR"@,
        GraphError::DatabaseError(_) => "DATABASE_ERROR"@,
        GraphError::BatchError(_) => "BATCH_ERROR"@,
        GraphError::GraphTooLarge { .. } => "GRAPH_TOO_LARGE"@,
        GraphError::GraphTooDense { .. } => "GRAPH_TOO_DENSE"@,
        GraphError::CycleDetected => "CYCLE_DETECTED"@,
        GraphError::Disconnected => "DISCONNECTED"@,
        GraphError::InvalidAttributeType { .. } => "INVALID_ATTRIBUTE_TYPE"@,
        GraphError::MissingAttribute(_) => "MISSING_ATTRIBUTE"@,
        GraphError::InvalidConfig(_) => "INVALID_CONFIG"@,
        GraphError::SamplingError(_) => "SAMPLING_ERROR"@,
        GraphError::Other(_) => "UNKNOWN_ERROR"@,
    }
}

impl GraphError {
    /// Whether the error is one after which the system cannot go on.
    pub fn is_fatal(&self) -> (r: bool)
        ensures
            r == fatal(*self),
    {
        match self {
            GraphError::MemoryError(_) => true,
            GraphError::DatabaseError(_) => true,
            GraphError::GraphTooLarge { .. } => true,
            GraphError::InvalidConfig(_) => true,
            _ => false,
        }
    }

    /// Whether the caller may retry or go on after the error.
    pub fn is_recoverable(&self) -> (r: bool)
        ensures
            r == !fatal(*self),
    {
        !self.is_fatal()
    }

    /// The stable machine-readable code of the error.
    pub fn error_code(&self) -> (r: &'static str)
        ensures
            r@ == code_of(*self),
    {
        match self {
            GraphError::InvalidNodeIndex(_) => "INVALID_NODE_INDEX",
            GraphError::InvalidEdgeIndex(_) => "INVALID_EDGE_INDEX",
            GraphError::InvalidRelationType(_) => "INVALID_RELATION_TYPE",
            GraphError::DuplicateNode(_) => "DUPLICATE_NODE",
            GraphError::DuplicateEdge { .. } => "DUPLICATE_EDGE",
            GraphError::NodeNotFound(_) => "NODE_NOT_FOUND",
            GraphError::EdgeNotFound { .. } => "EDGE_NOT_FOUND",
            GraphError::InvalidOperation(_) => "INVALID_OPERATION",
            GraphError::ValidationError(_) => "VALIDATION_ERROR",
            GraphError::ConstructionError(_) => "CONSTRUCTION_ERROR",
            GraphError::MemoryError(_) => "MEMORY_ERROR",
            GraphError::IoError(_) => "IO_ERROR",
            GraphError::SerializationError(_) => "SERIALIZATION_ERROR",
            GraphError::DatabaseError(_) => "DATABASE_ERROR",
            GraphError::BatchError(_) => "BATCH_ERROR",
            GraphError::GraphTooLarge { .. } => "GRAPH_TOO_LARGE",
            GraphError::GraphTooDense { .. } => "GRAPH_TOO_DENSE",
            GraphError::CycleDetected => "CYCLE_DETECTED",
            GraphError::Disconnected => "DISCONNECTED",
            GraphError::InvalidAttributeType { .. } => "INVALID_ATTRIBUTE_TYPE",
            GraphError::MissingAttribute(_) => "MISSING_ATTRIBUTE",
            GraphError::InvalidConfig(_) => "INVALID_CONFIG",
            GraphError::SamplingError(_) => "SAMPLING_ERROR",
            GraphError::Other(_) => "UNKNOWN_ERROR",
        }
    }
}

/// `Display` of `std::io::Error`: the error's own text. Nothing is stated of
/// it: it comes from the operating system for system errors.
#[verifier::external_body]
fn io_error_text(e: &std::io::Error) -> String {
    e.to_string()
}

/// `Display` of `serde_json::Error`: its text. Nothing is stated of it; the
/// error's contents are not visible here.
#[verifier::external_body]
fn json_error_text(e: &serde_json::Error) -> String {
    e.to_string()
}

/// `Display` of `anyhow::Error`: the outermost message of the chain.
/// Nothing is stated of it; the error's contents are not visible here.
#[verifier::external_body]
fn anyhow_error_text(e: &anyhow::Error) -> String {
    e.to_string()
}

/// The message of an error whose text is made of its own fields alone.
pub open spec fn error_text(e: GraphError) -> Option<Seq<char>> {
    match e {
        GraphError::InvalidNodeIndex(i) => Some("Invalid node index: "@ + decimal(i as nat)),
        GraphError::InvalidEdgeIndex(i) => Some("Invalid edge index: "@ + decimal(i as nat)),
        GraphError::InvalidRelationType(s) => Some("Invalid relation type: "@ + s@),
        GraphError::DuplicateNode(s) => Some("Node already exists with ID: "@ + s@),
        GraphError::DuplicateEdge { from, to, relation } =>
            Some("Edge already exists between nodes "@ + from@ + " and "@ + to@ + " with relation "@ + relation@),
        GraphError::NodeNotFound(s) => Some("Node not found with ID: "@ + s@),
        GraphError::EdgeNotFound { from, to } => Some("Edge not found between nodes "@ + from@ + " and "@ + to@),
        GraphError::InvalidOperation(s) => Some("Invalid graph operation: "@ + s@),
        GraphError::ValidationError(s) => Some("Graph validation error: "@ + s@),
        GraphError::ConstructionError(s) => Some("Graph construction error: "@ + s@),
        GraphError::MemoryError(s) => Some("Memory error: "@ + s@),
        GraphError::DatabaseError(s) => Some("Database error: "@ + s@),
        GraphError::BatchError(s) => Some("Batch processing error: "@ + s@),
        GraphError::GraphTooLarge { nodes, max_nodes } =>
            Some("Graph is too large: "@ + decimal(nodes as nat) + " nodes (max: "@ + decimal(max_nodes as nat) + ")"@),
        GraphError::CycleDetected => Some("Cycle detected in graph"@),
        GraphError::Disconnected => Some("Graph is disconnected"@),
        GraphError::InvalidAttributeType { expected, actual } =>
            Some("Invalid attribute type: expected "@ + expected@ + ", got "@ + actual@),
        GraphError::MissingAttribute(s) => Some("Missing required attribute: "@ + s@),
        GraphError::InvalidConfig(s) => Some("Invalid configuration: "@ + s@),
        GraphError::SamplingError(s) => Some("Graph sampling error: "@ + s@),
        _ => None,
    }
}

/// The leading part of the message of an error that wraps an outside error;
/// the outside error's own text follows it.
pub open spec fn wrapped_prefix(e: GraphError) -> Seq<char> {
    match e {
        GraphError::IoError(_) => "I/O error: "@,
        GraphError::SerializationError(_) => "Serialization error: "@,
        _ => Seq::empty(),
    }
}

fn with_prefix(prefix: &str, rest: &str) -> (r: String)
    ensures
        r@ == prefix@ + rest@,
{
    let mut r = String::from_str(prefix);
    r.append(rest);
    r
}

impl GraphError {
    /// The message of the error, as it is displayed. An error that wraps an
    /// outside error shows a fixed prefix and then that error's own text
    /// (`Other` shows only the latter). `GraphTooDense` shows its density as
    /// a floating-point number, which this library does not render: for it
    /// the result is `None`.
    pub fn message(&self) -> (r: Option<String>)
        ensures
            error_text(*self) matches Some(t) ==> (r matches Some(s) && s@ == t),
            (*self is IoError || *self is SerializationError) ==> (r matches Some(s)
                && s@.len() >= wrapped_prefix(*self).len()
                && s@.take(wrapped_prefix(*self).len() as int) == wrapped_prefix(*self)),
            *self is Other ==> r is Some,
            r is None <==> *self is GraphTooDense,
    {
        match self {
            GraphError::InvalidNodeIndex(i) => {
                let d = u64_to_decimal(*i as u64);
                Some(with_prefix("Invalid node index: ", d.as_str()))
            },
            GraphError::InvalidEdgeIndex(i) => {
                let d = u64_to_decimal(*i as u64);
                Some(with_prefix("Invalid edge index: ", d.as_str()))
            },
            GraphError::InvalidRelationType(s) => Some(with_prefix("Invalid relation type: ", s.as_str())),
            GraphError::DuplicateNode(s) => Some(with_prefix("Node already exists with ID: ", s.as_str())),
            GraphError::DuplicateEdge { from, to, relation } => {
                let mut r = with_prefix("Edge already exists between nodes ", from.as_str());
                r.append(" and ");
                r.append(to.as_str());
                r.append(" with relation ");
                r.append(relation.as_str());
                Some(r)
            },
            GraphError::NodeNotFound(s) => Some(with_prefix("Node not found with ID: ", s.as_str())),
            GraphError::EdgeNotFound { from, to } => {
                let mut r = with_prefix("Edge not found between nodes ", from.as_str());
                r.append(" and ");
                r.append(to.as_str());
                Some(r)
            },
            GraphError::InvalidOperation(s) => Some(with_prefix("Invalid graph operation: ", s.as_str())),
            GraphError::ValidationError(s) => Some(with_prefix("Graph validation error: ", s.as_str())),
            GraphError::ConstructionError(s) => Some(with_prefix("Graph construction error: ", s.as_str())),
            GraphError::MemoryError(s) => Some(with_prefix("Memory error: ", s.as_str())),
            GraphError::IoError(e) => {
                let t = io_error_text(e);
                let r = with_prefix("I/O error: ", t.as_str());
                assert(r@.take("I/O error: "@.len() as int) =~= "I/O error: "@);
                Some(r)
            },
            GraphError::SerializationError(e) => {
                let t = json_error_text(e);
                let r = with_prefix("Serialization error: ", t.as_str());
                assert(r@.take("Serialization error: "@.len() as int) =~= "Serialization error: "@);
                Some(r)
            },
            GraphError::DatabaseError(s) => Some(with_prefix("Database error: ", s.as_str())),
            GraphError::BatchError(s) => Some(with_prefix("Batch processing error: ", s.as_str())),
            GraphError::GraphTooLarge { nodes, max_nodes } => {
                let a = u64_to_decimal(*nodes as u64);
                let b = u64_to_decimal(*max_nodes as u64);
                let mut r = with_prefix("Graph is too large: ", a.as_str());
                r.append(" nodes (max: ");
                r.append(b.as_str());
                r.append(")");
                Some(r)
            },
            GraphError::GraphTooDense { .. } => None,
            GraphError::CycleDetected => Some(String::from_str("Cycle detected in graph")),
            GraphError::Disconnected => Some(String::from_str("Graph is disconnected")),
            GraphError::InvalidAttributeType { expected, actual } => {
                let mut r = with_prefix("Invalid attribute type: expected ", expected.as_str());
                r.append(", got ");
                r.append(actual.as_str());
                Some(r)
            },
            GraphError::MissingAttribute(s) => Some(with_prefix("Missing required attribute: ", s.as_str())),
            GraphError::InvalidConfig(s) => Some(with_prefix("Invalid configuration: ", s.as_str())),
            GraphError::SamplingError(s) => Some(with_prefix("Graph sampling error: ", s.as_str())),
            GraphError::Other(e) => Some(anyhow_error_text(e)),
        }
    }
}

/// What was being done when an error occurred.
#[derive(Debug)]
pub struct ErrorContext {
    pub operation: String,
    pub node_id: Option<String>,
    pub edge_ids: Option<(String, String)>,
    pub relation_type: Option<String>,
    pub additional_info: Option<String>,
}

/// `", " + label + ": " + value` when the value is present, nothing otherwise.
pub open spec fn optional_part(label: Seq<char>, value: Option<String>) -> Seq<char> {
    match value {
        Some(v) => label + v@,
        None => Seq::empty(),
    }
}

/// The one-line rendering of a context: the operation, then each part that is
/// present, in a fixed order.
pub open spec fn context_text(c: ErrorContext) -> Seq<char> {
    "Operation: "@ + c.operation@
        + optional_part(", Node: "@, c.node_id)
        + match c.edge_ids {
            Some((from, to)) => ", Edge: "@ + from@ + " -> "@ + to@,
            None => Seq::empty(),
        }
        + optional_part(", Relation: "@, c.relation_type)
        + optional_part(", Info: "@, c.additional_info)
}

fn append_optional(s: &mut String, label: &str, value: &Option<String>)
    ensures
        final(s)@ == old(s)@ + optional_part(label@, *value),
{
    match value {
        Some(v) => {
            s.append(label);
            s.append(v.as_str());
            assert(final(s)@ == old(s)@ + (label@ + v@));
        },
        None => {
            assert(old(s)@ + Seq::<char>::empty() == old(s)@);
        },
    }
}

impl ErrorContext {
    /// Renders the context on one line, as `Display` shows it.
    pub fn to_string(&self) -> (s: String)
        ensures
            s@ == context_text(*self),
    {
        let mut s = String::from_str("Operation: ");
        s.append(self.operation.as_str());
        append_optional(&mut s, ", Node: ", &self.node_id);
        let ghost after_node = s@;
        match &self.edge_ids {
            Some((from, to)) => {
                s.append(", Edge: ");
                s.append(from.as_str());
                s.append(" -> ");
                s.append(to.as_str());
                assert(s@ == after_node + (", Edge: "@ + from@ + " -> "@ + to@));
            },
            None => {
                assert(s@ == after_node + Seq::<char>::empty());
            },
        }
        append_optional(&mut s, ", Relation: ", &self.relation_type);
        append_optional(&mut s, ", Info: ", &self.additional_info);
        s
    }
}

/// Decides what happens to an error raised during a graph operation.
pub trait ErrorHandler {
    fn handle_error(&self, error: GraphError, context: Option<ErrorContext>) -> GraphResult<()>;
}

/// The handler that passes every error back to the caller.
#[derive(Default)]
pub struct DefaultErrorHandler;

impl ErrorHandler for DefaultErrorHandler {
    fn handle_error(&self, error: GraphError, context: Option<ErrorContext>) -> (r: GraphResult<()>)
        ensures
            r == Err::<(), GraphError>(error),
    {
        Err(error)
    }
}

} // verus!
