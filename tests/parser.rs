use gram::parser::parse;
use gram::tokenizer::Token;
#[test]
fn test_normal_tokens() {
    let tokens = vec![
        Token::Participant("Client".to_string()),
        Token::RightArrow,
        Token::Participant("Server".to_string()),
        Token::ArrowMessage("GET /api/data".to_string()),
        Token::Participant("Server".to_string()),
        Token::RightArrow,
        Token::Participant("Database".to_string()),
        Token::ArrowMessage("SELECT query".to_string()),
        Token::Participant("Server".to_string()),
        Token::LeftArrow,
        Token::Participant("Database".to_string()),
        Token::ArrowMessage("Result set".to_string()),
        Token::Participant("Client".to_string()),
        Token::LeftArrow,
        Token::Participant("Server".to_string()),
        Token::ArrowMessage("JSON response".to_string()),
    ];

    let graph = parse(tokens).unwrap();

    assert_eq!(graph.nodes.len(), 3);
    assert!(graph.nodes.contains(&"Client".to_string()));
    assert!(graph.nodes.contains(&"Server".to_string()));
    assert!(graph.nodes.contains(&"Database".to_string()));

    let node1_edges = graph.adjacency.get("Client").unwrap();
    assert_eq!(node1_edges.len(), 1);
    assert_eq!(node1_edges[0].to, "Server");
    assert_eq!(node1_edges[0].message, Some("GET /api/data".to_string()));

    let node2_edges = graph.adjacency.get("Server").unwrap();
    assert_eq!(node2_edges.len(), 2);
    assert_eq!(node2_edges[0].to, "Database");
    assert_eq!(node2_edges[0].message, Some("SELECT query".to_string()));
    assert_eq!(node2_edges[1].to, "Client");
    assert_eq!(node2_edges[1].message, Some("JSON response".to_string()));

    let node3_edges = graph.adjacency.get("Database").unwrap();
    assert_eq!(node3_edges.len(), 1);
    assert_eq!(node3_edges[0].to, "Server");
    assert_eq!(node3_edges[0].message, Some("Result set".to_string()));
}

#[test]
fn test_with_optional_message() {
    let tokens = vec![
        Token::Participant("Client".to_string()),
        Token::RightArrow,
        Token::Participant("Server".to_string()),
        Token::ArrowMessage("GET /api/data".to_string()),
        Token::Participant("Server".to_string()),
        Token::RightArrow,
        Token::Participant("Database".to_string()),
        Token::ArrowMessage("SELECT query".to_string()),
        Token::Participant("Server".to_string()),
        Token::LeftArrow,
        Token::Participant("Database".to_string()),
        Token::Participant("Client".to_string()),
        Token::LeftArrow,
        Token::Participant("Server".to_string()),
    ];

    let graph = parse(tokens).unwrap();

    assert_eq!(graph.nodes.len(), 3);
    assert!(graph.nodes.contains(&"Client".to_string()));
    assert!(graph.nodes.contains(&"Server".to_string()));
    assert!(graph.nodes.contains(&"Database".to_string()));

    let node1_edges = graph.adjacency.get("Client").unwrap();
    assert_eq!(node1_edges.len(), 1);
    assert_eq!(node1_edges[0].to, "Server");
    assert_eq!(node1_edges[0].message, Some("GET /api/data".to_string()));

    let node2_edges = graph.adjacency.get("Server").unwrap();
    assert_eq!(node2_edges.len(), 2);
    assert_eq!(node2_edges[0].to, "Database");
    assert_eq!(node2_edges[0].message, Some("SELECT query".to_string()));
    assert_eq!(node2_edges[1].to, "Client");
    assert_eq!(node2_edges[1].message, None);

    let node3_edges = graph.adjacency.get("Database").unwrap();
    assert_eq!(node3_edges.len(), 1);
    assert_eq!(node3_edges[0].to, "Server");
    assert_eq!(node3_edges[0].message, None);
}

#[test]
fn test_incomplete_edge() {
    let tokens = vec![
        Token::Participant("Client".to_string()),
        Token::RightArrow,
        Token::Participant("Server".to_string()),
        Token::ArrowMessage("GET /api/data".to_string()),
        Token::Participant("Server".to_string()),
        Token::RightArrow,
        Token::Participant("Database".to_string()),
        Token::ArrowMessage("SELECT query".to_string()),
        Token::Participant("Server".to_string()),
        Token::LeftArrow,
        Token::Participant("Database".to_string()),
        Token::ArrowMessage("Result set".to_string()),
        Token::Participant("Client".to_string()),
        // Missing arrow
        Token::Participant("Server".to_string()),
    ];

    let result = parse(tokens);
    assert!(result.is_err());
    assert!(
        result
            .unwrap_err()
            .message
            .contains("Incomplete edge. Expected at least 3 tokens")
    );
}

#[test]
fn test_invalid_token_order() {
    let tokens = vec![
        Token::Participant("Client".to_string()),
        Token::RightArrow,
        Token::Participant("Server".to_string()),
        Token::ArrowMessage("GET /api/data".to_string()),
        Token::Participant("Server".to_string()),
        Token::RightArrow,
        Token::Participant("Database".to_string()),
        Token::ArrowMessage("SELECT query".to_string()),
        Token::Participant("Server".to_string()),
        Token::LeftArrow,
        Token::Participant("Database".to_string()),
        Token::ArrowMessage("Result set".to_string()),
        Token::Participant("Client".to_string()),
        Token::Participant("Server".to_string()), // Wrong order
        Token::LeftArrow,
        Token::ArrowMessage("JSON response".to_string()),
    ];

    let result = parse(tokens);
    assert!(result.is_err());
    assert!(result.unwrap_err().message.contains("Expected participant"));
}
