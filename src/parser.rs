use vstd::prelude::*;
use crate::text::{contains_text, same_text};
use crate::tokenizer::{Token, TokenView};

verus! {

#[derive(Debug)]
pub struct Edge {
    pub to: String,
    pub message: Option<String>,
}

/// Target and label of an edge.
pub open spec fn edge_view(e: Edge) -> (Seq<char>, Option<Seq<char>>) {
    (e.to@, match e.message {
        Some(m) => Some(m@),
        None => None,
    })
}

/// A parsed edge: source, target and optional label.
pub type EdgeSpec = (Seq<char>, Seq<char>, Option<Seq<char>>);

/// Outgoing edges of each source node, sources in order of their first edge.
#[derive(Debug)]
pub struct Adjacency {
    entries: Vec<(String, Vec<Edge>)>,
}

/// Index of the entry with key `k`, or -1.
pub open spec fn key_index(adj: Seq<(Seq<char>, Seq<(Seq<char>, Option<Seq<char>>)>)>, k: Seq<char>) -> int
    decreases adj.len(),
{
    if adj.len() == 0 {
        -1
    } else {
        let i = key_index(adj.drop_last(), k);
        if i >= 0 {
            i
        } else if adj.last().0 == k {
            adj.len() - 1
        } else {
            -1
        }
    }
}

proof fn lemma_key_index(adj: Seq<(Seq<char>, Seq<(Seq<char>, Option<Seq<char>>)>)>, k: Seq<char>)
    ensures
        -1 <= key_index(adj, k) < adj.len(),
        key_index(adj, k) >= 0 ==> adj[key_index(adj, k)].0 == k,
        forall|j: int|
            0 <= j < adj.len() && (j < key_index(adj, k) || key_index(adj, k) < 0) ==> adj[j].0 != k,
    decreases adj.len(),
{
    if adj.len() > 0 {
        lemma_key_index(adj.drop_last(), k);
        assert forall|j: int| 0 <= j < adj.len() - 1 implies adj[j] == adj.drop_last()[j] by {}
    }
}

/// Adds edge `e` at the end of the list of source `from`.
pub open spec fn adj_insert(
    adj: Seq<(Seq<char>, Seq<(Seq<char>, Option<Seq<char>>)>)>,
    from: Seq<char>,
    e: (Seq<char>, Option<Seq<char>>),
) -> Seq<(Seq<char>, Seq<(Seq<char>, Option<Seq<char>>)>)> {
    let i = key_index(adj, from);
    if i >= 0 {
        adj.update(i, (from, adj[i].1.push(e)))
    } else {
        adj.push((from, seq![e]))
    }
}

/// The adjacency of a list of edges.
pub open spec fn adjacency_of(edges: Seq<EdgeSpec>) -> Seq<(Seq<char>, Seq<(Seq<char>, Option<Seq<char>>)>)>
    decreases edges.len(),
{
    if edges.len() == 0 {
        Seq::empty()
    } else {
        let e = edges.last();
        adj_insert(adjacency_of(edges.drop_last()), e.0, (e.1, e.2))
    }
}

/// `ns` with `n` added at the end unless it is there already.
pub open spec fn add_name(ns: Seq<Seq<char>>, n: Seq<char>) -> Seq<Seq<char>> {
    if ns.contains(n) {
        ns
    } else {
        ns.push(n)
    }
}

/// Node names in order of first appearance, source before target within an edge.
pub open spec fn nodes_of(edges: Seq<EdgeSpec>) -> Seq<Seq<char>>
    decreases edges.len(),
{
    if edges.len() == 0 {
        Seq::empty()
    } else {
        add_name(add_name(nodes_of(edges.drop_last()), edges.last().0), edges.last().1)
    }
}

impl View for Adjacency {
    type V = Seq<(Seq<char>, Seq<(Seq<char>, Option<Seq<char>>)>)>;

    closed spec fn view(&self) -> Self::V {
        self.entries@.map_values(
            |en: (String, Vec<Edge>)| (en.0@, en.1@.map_values(|e: Edge| edge_view(e))),
        )
    }
}

impl Adjacency {
    pub fn new() -> (r: Adjacency)
        ensures
            r@ == Seq::<(Seq<char>, Seq<(Seq<char>, Option<Seq<char>>)>)>::empty(),
    {
        let r = Adjacency { entries: Vec::new() };
        assert(r@ =~= Seq::<(Seq<char>, Seq<(Seq<char>, Option<Seq<char>>)>)>::empty());
        r
    }

    fn index_of(&self, key: &str) -> (r: Option<usize>)
        ensures
            match r {
                Some(i) => i == key_index(self@, key@),
                None => key_index(self@, key@) < 0,
            },
    {
        proof {
            lemma_key_index(self@, key@);
        }
        let mut i: usize = 0;
        while i < self.entries.len()
            invariant
                i <= self.entries@.len(),
                self@.len() == self.entries@.len(),
                -1 <= key_index(self@, key@) < self@.len(),
                key_index(self@, key@) >= 0 ==> self@[key_index(self@, key@)].0 == key@,
                forall|j: int|
                    0 <= j < self@.len() && (j < key_index(self@, key@) || key_index(self@, key@)
                        < 0) ==> self@[j].0 != key@,
                forall|j: int| 0 <= j < i ==> self@[j].0 != key@,
            decreases self.entries@.len() - i,
        {
            assert(self@[i as int].0 == self.entries@[i as int].0@);
            if same_text(self.entries[i].0.as_str(), key) {
                return Some(i);
            }
            i = i + 1;
        }
        None
    }

    /// The outgoing edges of `key`, in the order they were added.
    pub fn get(&self, key: &str) -> (r: Option<&Vec<Edge>>)
        ensures
            match r {
                Some(v) => key_index(self@, key@) >= 0 && v@.map_values(|e: Edge| edge_view(e))
                    == self@[key_index(self@, key@)].1,
                None => key_index(self@, key@) < 0,
            },
    {
        proof {
            lemma_key_index(self@, key@);
        }
        assert(self@.len() == self.entries@.len());
        match self.index_of(key) {
            Some(i) => Some(&self.entries[i].1),
            None => None,
        }
    }

    /// Adds an edge at the end of `from`'s list.
    pub fn insert(&mut self, from: String, edge: Edge)
        ensures
            final(self)@ == adj_insert(old(self)@, from@, edge_view(edge)),
    {
        proof {
            lemma_key_index(self@, from@);
        }
        match self.index_of(from.as_str()) {
            Some(i) => {
                let ghost before = self@;
                let (key, mut list) = self.entries.remove(i);
                let ghost ev = edge_view(edge);
                let ghost old_list = list@;
                list.push(edge);
                assert(list@.map_values(|e: Edge| edge_view(e)) =~= old_list.map_values(
                    |e: Edge| edge_view(e),
                ).push(ev));
                self.entries.insert(i, (key, list));
                assert(self@ =~= adj_insert(before, from@, ev));
            },
            None => {
                let ghost before = self@;
                let ghost ev = edge_view(edge);
                let mut list: Vec<Edge> = Vec::new();
                list.push(edge);
                assert(list@.map_values(|e: Edge| edge_view(e)) =~= seq![ev]);
                self.entries.push((from, list));
                assert(self@ =~= adj_insert(before, from@, ev));
            },
        }
    }
}

#[derive(Debug)]
pub struct Graph {
    pub nodes: Vec<String>,
    pub adjacency: Adjacency,
}

#[derive(Debug)]
pub struct ParseError {
    pub message: String,
}

/// The edges that the tokens from index `i` on describe, or the first error.
pub open spec fn parse_edges(ts: Seq<TokenView>, i: int) -> Result<Seq<EdgeSpec>, Seq<char>>
    decreases ts.len() - i,
{
    if i < 0 || i >= ts.len() {
        Ok(Seq::empty())
    } else if i + 2 >= ts.len() {
        Err("Incomplete edge. Expected at least 3 tokens"@)
    } else if !(ts[i] is Participant) || !(ts[i + 2] is Participant) {
        Err("Expected participant"@)
    } else if !(ts[i + 1] is RightArrow) && !(ts[i + 1] is LeftArrow) {
        Err("Expected arrow"@)
    } else {
        let a = ts[i]->Participant_0;
        let b = ts[i + 2]->Participant_0;
        let from = if ts[i + 1] is RightArrow { a } else { b };
        let to = if ts[i + 1] is RightArrow { b } else { a };
        let has_msg = i + 3 < ts.len() && ts[i + 3] is ArrowMessage;
        let msg = if has_msg { Some(ts[i + 3]->ArrowMessage_0) } else { None };
        match parse_edges(ts, if has_msg { i + 4 } else { i + 3 }) {
            Ok(rest) => Ok(seq![(from, to, msg)] + rest),
            Err(e) => Err(e),
        }
    }
}

pub open spec fn prepend_edges(a: Seq<EdgeSpec>, r: Result<Seq<EdgeSpec>, Seq<char>>) -> Result<Seq<EdgeSpec>, Seq<char>> {
    match r {
        Ok(t) => Ok(a + t),
        Err(e) => Err(e),
    }
}

fn add_node(nodes: &mut Vec<String>, n: &String)
    ensures
        final(nodes)@.map_values(|s: String| s@) == add_name(old(nodes)@.map_values(|s: String| s@), n@),
{
    if !contains_text(nodes, n.as_str()) {
        nodes.push(n.clone());
        assert(nodes@.map_values(|s: String| s@) =~= old(nodes)@.map_values(|s: String| s@).push(n@));
    }
}

fn participant_name(t: &Token) -> (r: Option<String>)
    ensures
        match r {
            Some(s) => t@ is Participant && s@ == t@->Participant_0,
            None => !(t@ is Participant),
        },
{
    match t {
        Token::Participant(name) => Some(name.clone()),
        _ => None,
    }
}

/// Reads edges `first arrow second [message]` from the tokens, and collects the
/// participants in order of first appearance and each one's outgoing edges.
pub fn parse(tokens: Vec<Token>) -> (r: Result<Graph, ParseError>)
    ensures
        match (r, parse_edges(tokens@.map_values(|t: Token| t@), 0)) {
            (Ok(g), Ok(edges)) => g.nodes@.map_values(|s: String| s@) == nodes_of(edges)
                && g.adjacency@ == adjacency_of(edges),
            (Err(e), Err(m)) => e.message@ == m,
            _ => false,
        },
{
    let ghost ts = tokens@.map_values(|t: Token| t@);
    let mut nodes: Vec<String> = Vec::new();
    let mut adjacency = Adjacency::new();
    let ghost mut edges: Seq<EdgeSpec> = Seq::empty();
    let mut i: usize = 0;
    assert(nodes@.map_values(|s: String| s@) =~= nodes_of(edges));
    while i < tokens.len()
        invariant
            ts == tokens@.map_values(|t: Token| t@),
            i <= tokens@.len(),
            parse_edges(ts, 0) == prepend_edges(edges, parse_edges(ts, i as int)),
            nodes@.map_values(|s: String| s@) == nodes_of(edges),
            adjacency@ == adjacency_of(edges),
        decreases tokens@.len() - i,
    {
        if tokens.len() - i <= 2 {
            return Err(ParseError {
                message: String::from_str("Incomplete edge. Expected at least 3 tokens"),
            });
        }
        let first_participant = match participant_name(&tokens[i]) {
            Some(name) => name,
            None => {
                return Err(ParseError { message: String::from_str("Expected participant") });
            },
        };
        let second_participant = match participant_name(&tokens[i + 2]) {
            Some(name) => name,
            None => {
                return Err(ParseError { message: String::from_str("Expected participant") });
            },
        };
        let (from_node, to_node) = match &tokens[i + 1] {
            Token::RightArrow => (first_participant, second_participant),
            Token::LeftArrow => (second_participant, first_participant),
            _ => {
                return Err(ParseError { message: String::from_str("Expected arrow") });
            },
        };
        let mut step: usize = 3;
        let message = if i + 3 < tokens.len() {
            match &tokens[i + 3] {
                Token::ArrowMessage(msg) => {
                    step = 4;
                    Some(msg.clone())
                },
                _ => None,
            }
        } else {
            None
        };
        let ghost e: EdgeSpec = (from_node@, to_node@, edge_view(Edge { to: to_node, message }).1);
        proof {
            assert(ts[i as int] == tokens@[i as int]@);
            assert(ts[i + 1] == tokens@[i + 1]@);
            assert(ts[i + 2] == tokens@[i + 2]@);
            if i + 3 < tokens@.len() {
                assert(ts[i + 3] == tokens@[i + 3]@);
            }
            assert(edges + (seq![e] + parse_edges(ts, i + step)->Ok_0) =~= edges.push(e) + parse_edges(ts, i + step)->Ok_0);
            assert(edges.push(e).drop_last() =~= edges);
        }
        add_node(&mut nodes, &from_node);
        add_node(&mut nodes, &to_node);
        adjacency.insert(from_node, Edge { to: to_node, message });
        proof {
            edges = edges.push(e);
        }
        i = i + step;
    }
    Ok(Graph { nodes, adjacency })
}

} // verus!
