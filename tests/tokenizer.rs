use gram::tokenizer::{tokenize, Token};
#[test]
fn test_normal_input() {
    let input = "\
Client -> Server: GET /api/data
Server -> Database: SELECT query
Server <- Database: Result set
Client <- Server: JSON response";
    let tokens = tokenize(input).unwrap();
    assert_eq!(
        tokens,
        vec![
            Token::Participant("Client".to_string()),
            Token::RightArrow,
            Token::Participant("Server".to_string()),
            Token::ArrowMessage("GET /api/data".to_string()),
            Token::Participant("Server".to_string()),
            Token::RightArrow,
            Token::Participant("Database".to_string()),
            Token::ArrowMessage("SELECT query".to_string()),
            Token::Participant("Server".to_string()),
            Token::LeftArrow,
            Token::Participant("Database".to_string()),
            Token::ArrowMessage("Result set".to_string()),
            Token::Participant("Client".to_string()),
            Token::LeftArrow,
            Token::Participant("Server".to_string()),
            Token::ArrowMessage("JSON response".to_string()),
        ]
    );
}

#[test]
fn test_whitespaces() {
    let input = "
Client    ->    Server  :      GET /api/data \t
Server    ->    Database:      SELECT query  \t
Server    <-    Database:      Result set    \n
Client    <-    Server  :      JSON response \n";
    let tokens = tokenize(input).unwrap();
    assert_eq!(
        tokens,
        vec![
            Token::Participant("Client".to_string()),
            Token::RightArrow,
            Token::Participant("Server".to_string()),
            Token::ArrowMessage("GET /api/data".to_string()),
            Token::Participant("Server".to_string()),
            Token::RightArrow,
            Token::Participant("Database".to_string()),
            Token::ArrowMessage("SELECT query".to_string()),
            Token::Participant("Server".to_string()),
            Token::LeftArrow,
            Token::Participant("Database".to_string()),
            Token::ArrowMessage("Result set".to_string()),
            Token::Participant("Client".to_string()),
            Token::LeftArrow,
            Token::Participant("Server".to_string()),
            Token::ArrowMessage("JSON response".to_string()),
        ]
    );
}

#[test]
fn test_optional_arrow_messages() {
    let input = "\
Client -> Server: GET /api/data
Server -> Database: SELECT query
Server <- Database
Client <- Server";
    let tokens = tokenize(input).unwrap();
    assert_eq!(
        tokens,
        vec![
            Token::Participant("Client".to_string()),
            Token::RightArrow,
            Token::Participant("Server".to_string()),
            Token::ArrowMessage("GET /api/data".to_string()),
            Token::Participant("Server".to_string()),
            Token::RightArrow,
            Token::Participant("Database".to_string()),
            Token::ArrowMessage("SELECT query".to_string()),
            Token::Participant("Server".to_string()),
            Token::LeftArrow,
            Token::Participant("Database".to_string()),
            Token::Participant("Client".to_string()),
            Token::LeftArrow,
            Token::Participant("Server".to_string()),
        ]
    );
}

#[test]
fn test_one_line() {
    let input = "\
Client -> Server: GET /api/data\n Server -> Database: SELECT query\n Server <- Database: Result set\n Client <- Server: JSON response";
    let tokens = tokenize(input).unwrap();
    assert_eq!(
        tokens,
        vec![
            Token::Participant("Client".to_string()),
            Token::RightArrow,
            Token::Participant("Server".to_string()),
            Token::ArrowMessage("GET /api/data".to_string()),
            Token::Participant("Server".to_string()),
            Token::RightArrow,
            Token::Participant("Database".to_string()),
            Token::ArrowMessage("SELECT query".to_string()),
            Token::Participant("Server".to_string()),
            Token::LeftArrow,
            Token::Participant("Database".to_string()),
            Token::ArrowMessage("Result set".to_string()),
            Token::Participant("Client".to_string()),
            Token::LeftArrow,
            Token::Participant("Server".to_string()),
            Token::ArrowMessage("JSON response".to_string()),
        ]
    );
}

#[test]
fn tokenizer_test_missing_arrow() {
    let input = "\
Client -> Server: GET /api/data
Server Database: SELECT query
Server <- Database: Result set
Client <- Server: JSON response";
    let result = tokenize(input);
    assert!(result.is_err());
    let err = result.unwrap_err();
    assert_eq!(err.line, 2);
    assert!(err.message.contains("Missing arrow ('->' or '<-')"));
}

#[test]
fn test_multiple_arrows() {
    let input = "\
Client -> Server: GET /api/data
Server -> Cache -> Database: SELECT query
Server <- Database: Result set
Client <- Server: JSON response";
    let result = tokenize(input);
    assert!(result.is_err());
    let err = result.unwrap_err();
    assert_eq!(err.line, 2);
    assert!(
        err.message
            .contains("Multiple arrows found. Expected exactly one arrow per line")
    );
}

#[test]
fn test_empty_first_participant() {
    let input = "\
Client -> Server: GET /api/data
-> Database: SELECT query
Server <- Database: Result set
Client <- Server: JSON response";
    let result = tokenize(input);
    assert!(result.is_err());
    let err = result.unwrap_err();
    assert_eq!(err.line, 2);
    assert!(err.message.contains("First participant is empty."));
}

#[test]
fn test_empty_second_participant() {
    let input = "\
Client -> Server: GET /api/data
Server -> : SELECT query
Server <- Database: Result set
Client <- Server: JSON response";
    let result = tokenize(input);
    assert!(result.is_err());
    let err = result.unwrap_err();
    assert_eq!(err.line, 2);
    assert!(err.message.contains("Second participant is empty."));
}

#[test]
fn test_participant_too_long() {
    let long_name = "A".repeat(82);
    let input = format!(
        "\
Client -> Server: GET /api/data
Server -> {}: SELECT query
Server <- Database: Result set
Client <- Server: JSON response",
        long_name
    );
    let result = tokenize(&input);
    assert!(result.is_err());
    let err = result.unwrap_err();
    assert_eq!(err.line, 2);
    assert!(
        err.message
            .contains("Second participant is too long (max 80 characters).")
    );
}

#[test]
fn colon_before_arrow_stays_in_first_name() {
    let tokens = tokenize("A: x -> B").unwrap();
    assert_eq!(
        tokens,
        vec![Token::Participant("A: x".to_string()), Token::RightArrow, Token::Participant("B".to_string())]
    );
}

#[test]
fn byte_length_limit_counts_utf8() {
    let name = "é".repeat(41);
    let err = tokenize(&format!("{} -> B", name)).unwrap_err();
    assert_eq!(err.line, 1);
    assert_eq!(err.message, "First participant is too long (max 80 characters).");
    assert!(tokenize(&format!("{} -> B", "é".repeat(40))).is_ok());
}

#[test]
fn blank_lines_keep_numbering() {
    let err = tokenize("\n\nA -> B\n\nC D\n").unwrap_err();
    assert_eq!(err.line, 3);
}
