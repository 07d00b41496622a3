use vstd::prelude::*;
use crate::parser::add_name;
use crate::text::{find_char, find_pair, first_of, first_pair, lemma_first_of, longer_than, contains_text, trim, trim_str, utf8_len};

verus! {

pub type Node = String;

#[derive(Debug, PartialEq)]
pub struct Edge {
    pub from: Node,
    pub to: Node,
}

/// Nodes in order of first appearance, each once, and the edges in input order.
#[derive(Debug)]
pub struct Graph {
    pub nodes: Vec<Node>,
    pub edges: Vec<Edge>,
}

#[derive(Debug)]
pub struct ParseError {
    pub line: usize,
    pub message: String,
}

/// Why `name` cannot name a node, if it cannot.
pub open spec fn node_error(name: Seq<char>) -> Option<Seq<char>> {
    if name.len() == 0 {
        Some("Node name cannot be empty"@)
    } else if utf8_len(name) > 80 {
        Some("Node name too long. Max 80 chars"@)
    } else if first_pair(name, '-', '>') >= 0 {
        Some("Node name cannot contain '->'"@)
    } else {
        None
    }
}

/// The edge on one trimmed, non-empty line numbered `n`, or the error it gives.
pub open spec fn line_edge(line: Seq<char>, n: int) -> Result<(Seq<char>, Seq<char>), (int, Seq<char>)> {
    let a = first_pair(line, '-', '>');
    if a < 0 {
        Err((n, "Invalid format, expected 'from -> to', found: '"@ + line + "'"@))
    } else {
        let from = trim(line.take(a));
        let to = trim(line.skip(a + 2));
        if node_error(from) is Some {
            Err((n, node_error(from)->Some_0))
        } else if node_error(to) is Some {
            Err((n, node_error(to)->Some_0))
        } else {
            Ok((from, to))
        }
    }
}

pub open spec fn prepend_pairs(
    a: Seq<(Seq<char>, Seq<char>)>,
    r: Result<Seq<(Seq<char>, Seq<char>)>, (int, Seq<char>)>,
) -> Result<Seq<(Seq<char>, Seq<char>)>, (int, Seq<char>)> {
    match r {
        Ok(t) => Ok(a + t),
        Err(e) => Err(e),
    }
}

/// The edges on the lines of `s`, the first of them numbered `n`; blank lines are skipped.
pub open spec fn graph_text(s: Seq<char>, n: int) -> Result<Seq<(Seq<char>, Seq<char>)>, (int, Seq<char>)>
    decreases s.len(),
{
    let k = first_of(s, '\n');
    let line = if k < 0 { s } else { s.take(k) };
    let here = if trim(line).len() == 0 {
        Ok(Seq::empty())
    } else {
        match line_edge(trim(line), n) {
            Ok(e) => Ok(seq![e]),
            Err(e) => Err(e),
        }
    };
    match here {
        Err(e) => Err(e),
        Ok(es) => if k < 0 || s.len() <= k {
            Ok(es)
        } else {
            prepend_pairs(es, graph_text(s.skip(k + 1), n + 1))
        },
    }
}

/// Node names of a list of edges, in order of first appearance.
pub open spec fn pair_nodes(edges: Seq<(Seq<char>, Seq<char>)>) -> Seq<Seq<char>>
    decreases edges.len(),
{
    if edges.len() == 0 {
        Seq::empty()
    } else {
        add_name(add_name(pair_nodes(edges.drop_last()), edges.last().0), edges.last().1)
    }
}

pub open spec fn edge_pairs(edges: Seq<Edge>) -> Seq<(Seq<char>, Seq<char>)> {
    edges.map_values(|e: Edge| (e.from@, e.to@))
}

pub open spec fn node_names(nodes: Seq<Node>) -> Seq<Seq<char>> {
    nodes.map_values(|s: String| s@)
}

/// Checks that `name` can name a node.
pub fn validate_node(line_number: usize, name: &str) -> (r: Result<(), ParseError>)
    ensures
        match r {
            Ok(()) => node_error(name@) is None,
            Err(e) => node_error(name@) == Some(e.message@) && e.line == line_number,
        },
{
    if name.unicode_len() == 0 {
        return Err(ParseError { line: line_number, message: String::from_str("Node name cannot be empty") });
    }
    if longer_than(name, 80) {
        return Err(ParseError {
            line: line_number,
            message: String::from_str("Node name too long. Max 80 chars"),
        });
    }
    if find_pair(name, '-', '>').is_some() {
        return Err(ParseError {
            line: line_number,
            message: String::from_str("Node name cannot contain '->'"),
        });
    }
    Ok(())
}

fn add_node(nodes: &mut Vec<Node>, n: &str)
    ensures
        node_names(final(nodes)@) == add_name(node_names(old(nodes)@), n@),
{
    if !contains_text(nodes, n) {
        nodes.push(String::from_str(n));
        assert(node_names(nodes@) =~= node_names(old(nodes)@).push(n@));
    }
}

/// Reads one edge `from -> to` per non-blank line.
pub fn parse(input: &str) -> (r: Result<Graph, ParseError>)
    ensures
        match (r, graph_text(input@, 1)) {
            (Ok(g), Ok(edges)) => edge_pairs(g.edges@) == edges && node_names(g.nodes@) == pair_nodes(
                edges,
            ),
            (Err(e), Err(err)) => err == (e.line as int, e.message@),
            _ => false,
        },
{
    let len = input.unicode_len();
    let mut nodes: Vec<Node> = Vec::new();
    let mut edges: Vec<Edge> = Vec::new();
    let mut p: usize = 0;
    let mut line_number: usize = 1;
    let mut more = true;
    assert(input@.skip(0) =~= input@);
    assert(node_names(nodes@) =~= pair_nodes(edge_pairs(edges@)));
    while more
        invariant
            len == input@.len(),
            p <= len,
            1 <= line_number <= p + 1,
            node_names(nodes@) == pair_nodes(edge_pairs(edges@)),
            more ==> graph_text(input@, 1) == prepend_pairs(
                edge_pairs(edges@),
                graph_text(input@.skip(p as int), line_number as int),
            ),
            !more ==> graph_text(input@, 1) == Ok::<
                Seq<(Seq<char>, Seq<char>)>,
                (int, Seq<char>),
            >(edge_pairs(edges@)),
        decreases len - p + if more { 1int } else { 0int },
    {
        let rest = input.substring_char(p, len);
        let newline = find_char(rest, '\n');
        proof {
            lemma_first_of(rest@, '\n');
            assert(rest@ =~= input@.skip(p as int));
        }
        let line_end = match newline {
            Some(k) => p + k,
            None => len,
        };
        let line = trim_str(input.substring_char(p, line_end));
        proof {
            match newline {
                Some(k) => {
                    assert(input@.subrange(p as int, line_end as int) =~= rest@.take(k as int));
                    assert(rest@.skip(k + 1) =~= input@.skip(p + k + 1));
                },
                None => {
                    assert(input@.subrange(p as int, line_end as int) =~= rest@);
                },
            }
        }
        let ghost acc = edge_pairs(edges@);
        let ghost here: Seq<(Seq<char>, Seq<char>)> = Seq::empty();
        if line.unicode_len() > 0 {
            let n = line.unicode_len();
            match find_pair(line, '-', '>') {
                Some(a) => {
                    let from_node = trim_str(line.substring_char(0, a));
                    let to_node = trim_str(line.substring_char(a + 2, n));
                    assert(line@.subrange(0, a as int) =~= line@.take(a as int));
                    assert(line@.subrange(a + 2, n as int) =~= line@.skip(a + 2));
                    match validate_node(line_number, from_node) {
                        Ok(()) => {},
                        Err(e) => {
                            return Err(e);
                        },
                    }
                    match validate_node(line_number, to_node) {
                        Ok(()) => {},
                        Err(e) => {
                            return Err(e);
                        },
                    }
                    let ghost before = edges@;
                    add_node(&mut nodes, from_node);
                    add_node(&mut nodes, to_node);
                    edges.push(Edge { from: String::from_str(from_node), to: String::from_str(to_node) });
                    proof {
                        here = seq![(from_node@, to_node@)];
                        assert(edge_pairs(edges@) =~= acc + here);
                        assert(edge_pairs(edges@).drop_last() =~= edge_pairs(before));
                    }
                },
                None => {
                    return Err(ParseError {
                        line: line_number,
                        message: String::from_str("Invalid format, expected 'from -> to', found: '").concat(
                            line,
                        ).concat("'"),
                    });
                },
            }
        }
        proof {
            if line@.len() == 0 {
                assert(acc + here =~= acc);
            }
            assert(edge_pairs(edges@) == acc + here);
            match graph_text(rest@.skip(newline->Some_0 + 1), line_number + 1) {
                Ok(t) => {
                    assert(acc + (here + t) =~= acc + here + t);
                },
                Err(e) => {},
            }
            if newline is None {
                assert(acc + here + Seq::<(Seq<char>, Seq<char>)>::empty() =~= acc + here);
            }
        }
        match newline {
            Some(k) => {
                p = p + k + 1;
                if p < len {
                    line_number = line_number + 1;
                } else {
                    // nothing follows the last line feed
                    more = false;
                    proof {
                        let empty = input@.skip(p as int);
                        assert(empty =~= Seq::<char>::empty());
                        assert(trim(empty) =~= Seq::<char>::empty());
                        assert(graph_text(empty, line_number + 1) == Ok::<
                            Seq<(Seq<char>, Seq<char>)>,
                            (int, Seq<char>),
                        >(Seq::empty()));
                        assert(edge_pairs(edges@) + Seq::<(Seq<char>, Seq<char>)>::empty()
                            =~= edge_pairs(edges@));
                    }
                }
            },
            None => {
                more = false;
            },
        }
    }
    Ok(Graph { nodes, edges })
}

} // verus!
