use std::collections::HashSet;

use gram::graph::parser::{parse, Edge};

#[test]
fn test_input_whitespaces() {
    let input = "
cpu                  ->    \t   control-unit          \n
cpu                  ->    \t   alu                   \n
cpu                  ->    \t   registers             \n
cpu                  ->    \t   cache                 \n
control-unit         ->    \t   decoder               \n
control-unit         ->    \t   registers             \n
alu                  ->    \t   registers             \n
cache                ->    \t   bus                   \n
decoder              ->    \t   instruction-register  \n
instruction-register ->    \t   registers             \n
memory               ->    \t   bus                   \n
registers            ->    \t   bus                   \n";

    let graph = parse(input).unwrap();
    let expected_nodes: HashSet<String> = [
        "cpu",
        "control-unit",
        "alu",
        "registers",
        "cache",
        "decoder",
        "bus",
        "instruction-register",
        "memory",
    ]
    .iter()
    .map(|s| s.to_string())
    .collect();

    let expected_edges = vec![
        Edge {
            from: "cpu".to_string(),
            to: "control-unit".to_string(),
        },
        Edge {
            from: "cpu".to_string(),
            to: "alu".to_string(),
        },
        Edge {
            from: "cpu".to_string(),
            to: "registers".to_string(),
        },
        Edge {
            from: "cpu".to_string(),
            to: "cache".to_string(),
        },
        Edge {
            from: "control-unit".to_string(),
            to: "decoder".to_string(),
        },
        Edge {
            from: "control-unit".to_string(),
            to: "registers".to_string(),
        },
        Edge {
            from: "alu".to_string(),
            to: "registers".to_string(),
        },
        Edge {
            from: "cache".to_string(),
            to: "bus".to_string(),
        },
        Edge {
            from: "decoder".to_string(),
            to: "instruction-register".to_string(),
        },
        Edge {
            from: "instruction-register".to_string(),
            to: "registers".to_string(),
        },
        Edge {
            from: "memory".to_string(),
            to: "bus".to_string(),
        },
        Edge {
            from: "registers".to_string(),
            to: "bus".to_string(),
        },
    ];

    let nodes: HashSet<String> = graph.nodes.iter().cloned().collect();
    assert_eq!(graph.nodes.len(), nodes.len());
    assert_eq!(nodes, expected_nodes);
    assert_eq!(graph.edges, expected_edges);
}

#[test]
fn test_empty_node() {
    let input = "\
cpu -> control-unit
cpu -> 
cpu -> registers
cpu -> cache
control-unit -> decoder
control-unit -> registers
alu -> registers
cache -> bus
decoder -> instruction-register
instruction-register -> registers
memory -> bus
registers -> bus";
    let result = parse(input);
    assert!(result.is_err());
    let err = result.unwrap_err();
    assert_eq!(err.line, 2);
    assert!(err.message.contains("Node name cannot be empty"));
}

#[test]
fn parser_test_missing_arrow() {
    let input = "\
cpu -> control-unit
cpu alu
cpu -> registers
cpu -> cache
control-unit -> decoder
control-unit -> registers
alu -> registers
cache -> bus
decoder -> instruction-register
instruction-register -> registers
memory -> bus
registers -> bus";
    let result = parse(input);
    assert!(result.is_err());
    let err = result.unwrap_err();
    assert_eq!(err.line, 2);
    assert!(
        err.message
            .contains("Invalid format, expected 'from -> to'")
    );
}

#[test]
fn test_multiplae_arrows_on_same_line() {
    let input = "\
cpu -> control-unit
cpu -> alu
cpu -> registers
cpu -> cache
control-unit -> decoder
control-unit -> registers
alu -> registers
cache -> bus
decoder -> instruction-register -> registers
memory -> bus
registers -> bus";
    let result = parse(input);
    assert!(result.is_err());
    let err = result.unwrap_err();
    assert_eq!(err.line, 9);
    assert!(err.message.contains("Node name cannot contain '->'"));
}

#[test]
fn node_name_too_long() {
    let err = parse(&format!("a -> {}", "b".repeat(81))).unwrap_err();
    assert_eq!(err.line, 1);
    assert_eq!(err.message, "Node name too long. Max 80 chars");
}

#[test]
fn nodes_in_first_appearance_order() {
    let graph = parse("b -> a\nc -> b\n").unwrap();
    assert_eq!(graph.nodes, vec!["b".to_string(), "a".to_string(), "c".to_string()]);
}
