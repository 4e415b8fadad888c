use gaussrdl::error::{DefaultErrorHandler, ErrorContext, ErrorHandler, GraphError};

#[test]
fn test_error_context_display() {
    let context = ErrorContext {
        operation: "add_edge".to_string(),
        node_id: Some("node1".to_string()),
        edge_ids: Some(("node1".to_string(), "node2".to_string())),
        relation_type: Some("CONNECTS_TO".to_string()),
        additional_info: Some("max retries exceeded".to_string()),
    };

    let display = context.to_string();
    assert!(display.contains("Operation: add_edge"));
    assert!(display.contains("Node: node1"));
    assert!(display.contains("Edge: node1 -> node2"));
    assert!(display.contains("Relation: CONNECTS_TO"));
    assert!(display.contains("Info: max retries exceeded"));
}

#[test]
fn test_error_handling() {
    let handler = DefaultErrorHandler::default();
    let error = GraphError::NodeNotFound("test_node".to_string());
    let context = ErrorContext {
        operation: "get_node".to_string(),
        node_id: Some("test_node".to_string()),
        edge_ids: None,
        relation_type: None,
        additional_info: None,
    };

    let result = handler.handle_error(error, Some(context));
    assert!(result.is_err());
}

#[test]
fn test_error_properties() {
    let error = GraphError::MemoryError("Out of memory".to_string());
    assert!(error.is_fatal());
    assert!(!error.is_recoverable());
    assert_eq!(error.error_code(), "MEMORY_ERROR");

    let error = GraphError::NodeNotFound("test".to_string());
    assert!(!error.is_fatal());
    assert!(error.is_recoverable());
    assert_eq!(error.error_code(), "NODE_NOT_FOUND");
}

#[test]
fn context_with_operation_only() {
    let context = ErrorContext {
        operation: "build".to_string(),
        node_id: None,
        edge_ids: None,
        relation_type: None,
        additional_info: None,
    };
    assert_eq!(context.to_string(), "Operation: build");
}

#[test]
fn context_parts_keep_their_order() {
    let context = ErrorContext {
        operation: "add_edge".to_string(),
        node_id: Some("a".to_string()),
        edge_ids: Some(("a".to_string(), "b".to_string())),
        relation_type: Some("R".to_string()),
        additional_info: Some("x".to_string()),
    };
    assert_eq!(
        context.to_string(),
        "Operation: add_edge, Node: a, Edge: a -> b, Relation: R, Info: x"
    );
}

#[test]
fn fatal_errors_are_exactly_the_four_kinds() {
    assert!(GraphError::DatabaseError("d".to_string()).is_fatal());
    assert!(GraphError::GraphTooLarge { nodes: 3, max_nodes: 2 }.is_fatal());
    assert!(GraphError::InvalidConfig("c".to_string()).is_fatal());
    assert!(!GraphError::CycleDetected.is_fatal());
    assert!(!GraphError::Disconnected.is_fatal());
    assert!(GraphError::Disconnected.is_recoverable());
}

#[test]
fn error_codes_of_each_kind() {
    assert_eq!(GraphError::InvalidNodeIndex(1).error_code(), "INVALID_NODE_INDEX");
    assert_eq!(GraphError::InvalidEdgeIndex(1).error_code(), "INVALID_EDGE_INDEX");
    assert_eq!(GraphError::InvalidRelationType("r".to_string()).error_code(), "INVALID_RELATION_TYPE");
    assert_eq!(GraphError::DuplicateNode("n".to_string()).error_code(), "DUPLICATE_NODE");
    assert_eq!(
        GraphError::DuplicateEdge { from: "a".to_string(), to: "b".to_string(), relation: "r".to_string() }.error_code(),
        "DUPLICATE_EDGE"
    );
    assert_eq!(GraphError::EdgeNotFound { from: "a".to_string(), to: "b".to_string() }.error_code(), "EDGE_NOT_FOUND");
    assert_eq!(GraphError::InvalidOperation("o".to_string()).error_code(), "INVALID_OPERATION");
    assert_eq!(GraphError::ValidationError("v".to_string()).error_code(), "VALIDATION_ERROR");
    assert_eq!(GraphError::ConstructionError("c".to_string()).error_code(), "CONSTRUCTION_ERROR");
    assert_eq!(GraphError::BatchError("b".to_string()).error_code(), "BATCH_ERROR");
    assert_eq!(GraphError::GraphTooDense { edges: 1, node_pairs: 1, max_density: gaussrdl::builder::DensityLimit { numerator: 0, denominator: 1 } }.error_code(), "GRAPH_TOO_DENSE");
    assert_eq!(GraphError::CycleDetected.error_code(), "CYCLE_DETECTED");
    assert_eq!(GraphError::Disconnected.error_code(), "DISCONNECTED");
    assert_eq!(
        GraphError::InvalidAttributeType { expected: "a".to_string(), actual: "b".to_string() }.error_code(),
        "INVALID_ATTRIBUTE_TYPE"
    );
    assert_eq!(GraphError::MissingAttribute("m".to_string()).error_code(), "MISSING_ATTRIBUTE");
    assert_eq!(GraphError::SamplingError("s".to_string()).error_code(), "SAMPLING_ERROR");
    let io = std::io::Error::new(std::io::ErrorKind::Other, "disk");
    assert_eq!(GraphError::IoError(io).error_code(), "IO_ERROR");
    let json = serde_json::from_str::<u32>("x").unwrap_err();
    assert_eq!(GraphError::SerializationError(json).error_code(), "SERIALIZATION_ERROR");
    assert_eq!(GraphError::Other(anyhow::Error::msg("boom")).error_code(), "UNKNOWN_ERROR");
}

#[test]
fn error_messages_follow_the_display_text() {
    assert_eq!(GraphError::InvalidNodeIndex(42).message().unwrap(), "Invalid node index: 42");
    assert_eq!(GraphError::NodeNotFound("0:1".to_string()).message().unwrap(), "Node not found with ID: 0:1");
    assert_eq!(
        GraphError::DuplicateEdge { from: "a".to_string(), to: "b".to_string(), relation: "R".to_string() }.message().unwrap(),
        "Edge already exists between nodes a and b with relation R"
    );
    assert_eq!(
        GraphError::GraphTooLarge { nodes: 11, max_nodes: 10 }.message().unwrap(),
        "Graph is too large: 11 nodes (max: 10)"
    );
    assert_eq!(GraphError::CycleDetected.message().unwrap(), "Cycle detected in graph");
    assert_eq!(
        GraphError::InvalidAttributeType { expected: "int".to_string(), actual: "str".to_string() }.message().unwrap(),
        "Invalid attribute type: expected int, got str"
    );
    let io = GraphError::IoError(std::io::Error::new(std::io::ErrorKind::Other, "disk full"));
    assert_eq!(io.message().unwrap(), "I/O error: disk full");
    assert!(GraphError::GraphTooDense {
        edges: 1,
        node_pairs: 1,
        max_density: gaussrdl::builder::DensityLimit { numerator: 1, denominator: 2 }
    }
    .message()
    .is_none());
}
