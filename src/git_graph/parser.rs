use vstd::prelude::*;
use crate::text::{find_char, first_of, lemma_first_of, same_text, trim, trim_str};

verus! {

#[derive(Debug)]
pub struct ParseError {
    pub line: usize,
    pub message: String,
}

#[derive(Debug, PartialEq)]
pub struct Commit {
    pub index: usize,
    pub message: String,
    pub merged_from: Option<String>,
}

#[derive(Debug, PartialEq)]
pub struct Branch {
    pub commits: Vec<Commit>,
    pub base_commit: Option<usize>,
}

/// A commit: its index, message and the branch merged in, if any.
pub type CommitView = (int, Seq<char>, Option<Seq<char>>);

/// A branch: its commits and the index of the commit it starts from.
pub type BranchView = (Seq<CommitView>, Option<int>);

pub open spec fn commit_view(c: Commit) -> CommitView {
    (c.index as int, c.message@, match c.merged_from {
        Some(m) => Some(m@),
        None => None,
    })
}

pub open spec fn branch_view(b: Branch) -> BranchView {
    (b.commits@.map_values(|c: Commit| commit_view(c)), match b.base_commit {
        Some(i) => Some(i as int),
        None => None,
    })
}

/// Branches by name, in order of creation.
#[derive(Debug)]
pub struct GitGraph {
    branches: Vec<(String, Branch)>,
}

impl View for GitGraph {
    type V = Seq<(Seq<char>, BranchView)>;

    closed spec fn view(&self) -> Self::V {
        self.branches@.map_values(|b: (String, Branch)| (b.0@, branch_view(b.1)))
    }
}

/// Index of the branch named `k`, or -1.
pub open spec fn branch_pos(g: Seq<(Seq<char>, BranchView)>, k: Seq<char>) -> int
    decreases g.len(),
{
    if g.len() == 0 {
        -1
    } else {
        let i = branch_pos(g.drop_last(), k);
        if i >= 0 {
            i
        } else if g.last().0 == k {
            g.len() - 1
        } else {
            -1
        }
    }
}

proof fn lemma_branch_pos(g: Seq<(Seq<char>, BranchView)>, k: Seq<char>)
    ensures
        -1 <= branch_pos(g, k) < g.len(),
        branch_pos(g, k) >= 0 ==> g[branch_pos(g, k)].0 == k,
        forall|j: int| 0 <= j < g.len() && (j < branch_pos(g, k) || branch_pos(g, k) < 0) ==> g[j].0 != k,
    decreases g.len(),
{
    if g.len() > 0 {
        lemma_branch_pos(g.drop_last(), k);
        assert forall|j: int| 0 <= j < g.len() - 1 implies g[j] == g.drop_last()[j] by {}
    }
}

proof fn lemma_branch_pos_names(g: Seq<(Seq<char>, BranchView)>, h: Seq<(Seq<char>, BranchView)>, k: Seq<char>)
    requires
        g.len() == h.len(),
        forall|i: int| 0 <= i < g.len() ==> g[i].0 == h[i].0,
    ensures
        branch_pos(g, k) == branch_pos(h, k),
    decreases g.len(),
{
    if g.len() > 0 {
        lemma_branch_pos_names(g.drop_last(), h.drop_last(), k);
    }
}

/// Where a parse stands: the branches so far, the current branch and the index of
/// the next commit.
pub type ParseState = (Seq<(Seq<char>, BranchView)>, Seq<char>, int);

/// Adds commit `c` to the branch at `pos`.
pub open spec fn add_commit(g: Seq<(Seq<char>, BranchView)>, pos: int, c: CommitView) -> Seq<(Seq<char>, BranchView)> {
    g.update(pos, (g[pos].0, (g[pos].1.0.push(c), g[pos].1.1)))
}

/// One trimmed, non-empty line applied to the parse state, or the error it gives.
pub open spec fn step(line: Seq<char>, st: ParseState) -> Result<ParseState, Seq<char>> {
    let (g, current, index) = st;
    let sp = first_of(line, ' ');
    let action = trim(line.take(sp));
    let rest = trim(line.skip(sp + 1));
    let cur = branch_pos(g, current);
    let target = branch_pos(g, rest);
    if sp < 0 {
        Err("Invalid syntax"@)
    } else if action == "commit"@ {
        Ok((add_commit(g, cur, (index, rest, None)), current, index + 1))
    } else if action == "branch"@ {
        if target >= 0 {
            Err("Cannot create new branch. Branch "@ + rest + " already exists"@)
        } else if g[cur].1.0.len() == 0 {
            Err("Cannot create a new branch. Current branch ("@ + current + ") has no commits yet"@)
        } else {
            Ok((g.push((rest, (Seq::empty(), Some(g[cur].1.0.last().0)))), rest, index))
        }
    } else if action == "checkout"@ {
        if target >= 0 {
            Ok((g, rest, index))
        } else {
            Err("Branch "@ + rest + " does not exist"@)
        }
    } else if action == "merge"@ {
        if rest == current {
            Err("Cannot merge branch "@ + rest + " into itself"@)
        } else if target < 0 {
            Err("Branch "@ + rest + " does not exist"@)
        } else if g[target].1.0.len() == 0 {
            Err("Cannot merge branch "@ + rest + " because it has no commits"@)
        } else {
            Ok(
                (
                    add_commit(
                        g,
                        cur,
                        (index, "Merge branch "@ + rest + " into branch "@ + current, Some(rest)),
                    ),
                    current,
                    index + 1,
                ),
            )
        }
    } else {
        Err("Invalid syntax: expected '<action> <name>'"@)
    }
}

/// The state after the lines of `s`, the first of them numbered `n`; blank lines
/// are skipped.
pub open spec fn git_text(s: Seq<char>, n: int, st: ParseState) -> Result<ParseState, (int, Seq<char>)>
    decreases s.len(),
{
    let k = first_of(s, '\n');
    let line = if k < 0 { s } else { s.take(k) };
    let here: Result<ParseState, (int, Seq<char>)> = if trim(line).len() == 0 {
        Ok(st)
    } else {
        match step(trim(line), st) {
            Ok(t) => Ok(t),
            Err(m) => Err((n, m)),
        }
    };
    match here {
        Err(e) => Err(e),
        Ok(next) => if k < 0 || s.len() <= k {
            Ok(next)
        } else {
            git_text(s.skip(k + 1), n + 1, next)
        },
    }
}

/// The state before the first line: an empty `main` branch, checked out.
pub open spec fn initial_state() -> ParseState {
    (seq![("main"@, (Seq::<CommitView>::empty(), None::<int>))], "main"@, 0)
}

impl GitGraph {
    fn position(&self, name: &str) -> (r: Option<usize>)
        ensures
            match r {
                Some(i) => i == branch_pos(self@, name@) && i < self@.len(),
                None => branch_pos(self@, name@) < 0,
            },
    {
        proof {
            lemma_branch_pos(self@, name@);
        }
        let mut i: usize = 0;
        while i < self.branches.len()
            invariant
                i <= self.branches@.len(),
                self@.len() == self.branches@.len(),
                -1 <= branch_pos(self@, name@) < self@.len(),
                branch_pos(self@, name@) >= 0 ==> self@[branch_pos(self@, name@)].0 == name@,
                forall|j: int|
                    0 <= j < self@.len() && (j < branch_pos(self@, name@) || branch_pos(self@, name@)
                        < 0) ==> self@[j].0 != name@,
                forall|j: int| 0 <= j < i ==> self@[j].0 != name@,
            decreases self.branches@.len() - i,
        {
            assert(self@[i as int].0 == self.branches@[i as int].0@);
            if same_text(self.branches[i].0.as_str(), name) {
                return Some(i);
            }
            i = i + 1;
        }
        None
    }

    /// Whether a branch named `name` exists.
    pub fn contains_key(&self, name: &str) -> (r: bool)
        ensures
            r == (branch_pos(self@, name@) >= 0),
    {
        self.position(name).is_some()
    }

    /// The branch named `name`.
    pub fn get(&self, name: &str) -> (r: Option<&Branch>)
        ensures
            match r {
                Some(b) => branch_pos(self@, name@) >= 0 && branch_view(*b) == self@[branch_pos(
                    self@,
                    name@,
                )].1,
                None => branch_pos(self@, name@) < 0,
            },
    {
        match self.position(name) {
            Some(i) => Some(&self.branches[i].1),
            None => None,
        }
    }

    fn add_commit(&mut self, pos: usize, commit: Commit)
        requires
            pos < old(self)@.len(),
        ensures
            final(self)@ == add_commit(old(self)@, pos as int, commit_view(commit)),
    {
        let ghost before = self@;
        let ghost cv = commit_view(commit);
        let (name, mut branch) = self.branches.remove(pos);
        let ghost old_commits = branch.commits@;
        branch.commits.push(commit);
        assert(branch.commits@.map_values(|c: Commit| commit_view(c)) =~= old_commits.map_values(
            |c: Commit| commit_view(c),
        ).push(cv));
        self.branches.insert(pos, (name, branch));
        assert(self@ =~= add_commit(before, pos as int, cv));
    }

    fn last_commit_index(&self, pos: usize) -> (r: Option<usize>)
        requires
            pos < self@.len(),
        ensures
            match r {
                Some(i) => self@[pos as int].1.0.len() > 0 && i == self@[pos as int].1.0.last().0,
                None => self@[pos as int].1.0.len() == 0,
            },
    {
        let commits = &self.branches[pos].1.commits;
        assert(self@[pos as int].1.0 == commits@.map_values(|c: Commit| commit_view(c)));
        if commits.len() == 0 {
            None
        } else {
            Some(commits[commits.len() - 1].index)
        }
    }
}

fn init_git_graph() -> (r: GitGraph)
    ensures
        r@ == initial_state().0,
{
    let mut branches: Vec<(String, Branch)> = Vec::new();
    let main = Branch { commits: Vec::new(), base_commit: None };
    assert(main.commits@.map_values(|c: Commit| commit_view(c)) =~= Seq::<CommitView>::empty());
    branches.push((String::from_str("main"), main));
    let r = GitGraph { branches };
    assert(r@ =~= initial_state().0);
    r
}

/// Reads a history of `commit <message>`, `branch <name>`, `checkout <name>` and
/// `merge <name>` lines, one per line, starting on an empty `main` branch.
pub fn parse(input: &str) -> (r: Result<GitGraph, ParseError>)
    ensures
        match (r, git_text(input@, 1, initial_state())) {
            (Ok(g), Ok(st)) => g@ == st.0,
            (Err(e), Err(err)) => err == (e.line as int, e.message@),
            _ => false,
        },
{
    let len = input.unicode_len();
    let mut git_graph = init_git_graph();
    let mut current_branch_name = String::from_str("main");
    let mut current_index: usize = 0;
    let mut p: usize = 0;
    let mut line_number: usize = 1;
    let mut more = true;
    assert(input@.skip(0) =~= input@);
    while more
        invariant
            len == input@.len(),
            p <= len,
            1 <= line_number <= p + 1,
            more ==> current_index < line_number,
            current_index <= line_number,
            branch_pos(git_graph@, current_branch_name@) >= 0,
            more ==> git_text(input@, 1, initial_state()) == git_text(
                input@.skip(p as int),
                line_number as int,
                (git_graph@, current_branch_name@, current_index as int),
            ),
            !more ==> git_text(input@, 1, initial_state()) == Ok::<ParseState, (int, Seq<char>)>(
                (git_graph@, current_branch_name@, current_index as int),
            ),
        decreases len - p + if more { 1int } else { 0int },
    {
        let rest_of_input = input.substring_char(p, len);
        let newline = find_char(rest_of_input, '\n');
        proof {
            lemma_first_of(rest_of_input@, '\n');
            assert(rest_of_input@ =~= input@.skip(p as int));
        }
        let line_end = match newline {
            Some(k) => p + k,
            None => len,
        };
        let line = trim_str(input.substring_char(p, line_end));
        proof {
            match newline {
                Some(k) => {
                    assert(input@.subrange(p as int, line_end as int) =~= rest_of_input@.take(k as int));
                    assert(rest_of_input@.skip(k + 1) =~= input@.skip(p + k + 1));
                },
                None => {
                    assert(input@.subrange(p as int, line_end as int) =~= rest_of_input@);
                },
            }
        }
        let ghost st: ParseState = (git_graph@, current_branch_name@, current_index as int);
        if line.unicode_len() > 0 {
            let n = line.unicode_len();
            let sp = match find_char(line, ' ') {
                Some(sp) => sp,
                None => {
                    return Err(ParseError { line: line_number, message: String::from_str("Invalid syntax") });
                },
            };
            proof {
                lemma_first_of(line@, ' ');
                lemma_branch_pos(git_graph@, current_branch_name@);
            }
            let action = trim_str(line.substring_char(0, sp));
            let rest = trim_str(line.substring_char(sp + 1, n));
            assert(line@.subrange(0, sp as int) =~= line@.take(sp as int));
            assert(line@.subrange(sp + 1, n as int) =~= line@.skip(sp + 1));
            let current = match git_graph.position(current_branch_name.as_str()) {
                Some(i) => i,
                None => 0,
            };
            if same_text(action, "commit") {
                let ghost before = git_graph@;
                git_graph.add_commit(
                    current,
                    Commit { index: current_index, message: String::from_str(rest), merged_from: None },
                );
                current_index = current_index + 1;
                proof {
                    lemma_branch_pos_names(git_graph@, before, current_branch_name@);
                }
            } else if same_text(action, "branch") {
                if git_graph.contains_key(rest) {
                    return Err(ParseError {
                        line: line_number,
                        message: String::from_str("Cannot create new branch. Branch ").concat(rest).concat(
                            " already exists",
                        ),
                    });
                }
                match git_graph.last_commit_index(current) {
                    Some(base_index) => {
                        let ghost before = git_graph@;
                        let new_branch = Branch { commits: Vec::new(), base_commit: Some(base_index) };
                        assert(new_branch.commits@.map_values(|c: Commit| commit_view(c)) =~= Seq::<
                            CommitView,
                        >::empty());
                        git_graph.branches.push((String::from_str(rest), new_branch));
                        current_branch_name = String::from_str(rest);
                        proof {
                            assert(git_graph@ =~= before.push(
                                (rest@, (Seq::<CommitView>::empty(), Some(base_index as int))),
                            ));
                            lemma_branch_pos(git_graph@, rest@);
                            assert(git_graph@.drop_last() =~= before);
                        }
                    },
                    None => {
                        return Err(ParseError {
                            line: line_number,
                            message: String::from_str("Cannot create a new branch. Current branch (").concat(
                                current_branch_name.as_str(),
                            ).concat(") has no commits yet"),
                        });
                    },
                }
            } else if same_text(action, "checkout") {
                if git_graph.contains_key(rest) {
                    current_branch_name = String::from_str(rest);
                } else {
                    return Err(ParseError {
                        line: line_number,
                        message: String::from_str("Branch ").concat(rest).concat(" does not exist"),
                    });
                }
            } else if same_text(action, "merge") {
                if same_text(rest, current_branch_name.as_str()) {
                    return Err(ParseError {
                        line: line_number,
                        message: String::from_str("Cannot merge branch ").concat(rest).concat(" into itself"),
                    });
                }
                match git_graph.position(rest) {
                    Some(target) => {
                        if git_graph.last_commit_index(target).is_none() {
                            return Err(ParseError {
                                line: line_number,
                                message: String::from_str("Cannot merge branch ").concat(rest).concat(
                                    " because it has no commits",
                                ),
                            });
                        }
                    },
                    None => {
                        return Err(ParseError {
                            line: line_number,
                            message: String::from_str("Branch ").concat(rest).concat(" does not exist"),
                        });
                    },
                }
                let message = String::from_str("Merge branch ").concat(rest).concat(" into branch ").concat(
                    current_branch_name.as_str(),
                );
                let ghost before = git_graph@;
                git_graph.add_commit(
                    current,
                    Commit {
                        index: current_index,
                        message,
                        merged_from: Some(String::from_str(rest)),
                    },
                );
                current_index = current_index + 1;
                proof {
                    lemma_branch_pos_names(git_graph@, before, current_branch_name@);
                }
            } else {
                return Err(ParseError {
                    line: line_number,
                    message: String::from_str("Invalid syntax: expected '<action> <name>'"),
                });
            }
            proof {
                assert(step(line@, st) == Ok::<ParseState, Seq<char>>(
                    (git_graph@, current_branch_name@, current_index as int),
                ));
                lemma_branch_pos(git_graph@, current_branch_name@);
            }
        }
        match newline {
            Some(k) => {
                p = p + k + 1;
                if p < len {
                    line_number = line_number + 1;
                } else {
                    // nothing follows the last line feed
                    more = false;
                    proof {
                        let empty = input@.skip(p as int);
                        assert(empty =~= Seq::<char>::empty());
                        assert(trim(empty) =~= Seq::<char>::empty());
                        assert(git_text(empty, line_number + 1, (git_graph@, current_branch_name@, current_index as int))
                            == Ok::<ParseState, (int, Seq<char>)>(
                            (git_graph@, current_branch_name@, current_index as int),
                        ));
                    }
                }
            },
            None => {
                more = false;
            },
        }
    }
    Ok(git_graph)
}

} // verus!
