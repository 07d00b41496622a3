use vstd::prelude::*;
use regex::Regex;
use crate::text::{first_of, lemma_first_of, find_char, longer_than, trim, trim_str, utf8_len};

verus! {

#[derive(Debug, PartialEq)]
pub enum Token {
    LeftArrow,
    RightArrow,
    ArrowMessage(String),
    Participant(String),
}

/// A token with its text as a character sequence.
pub enum TokenView {
    LeftArrow,
    RightArrow,
    ArrowMessage(Seq<char>),
    Participant(Seq<char>),
}

impl View for Token {
    type V = TokenView;

    open spec fn view(&self) -> TokenView {
        match self {
            Token::LeftArrow => TokenView::LeftArrow,
            Token::RightArrow => TokenView::RightArrow,
            Token::ArrowMessage(m) => TokenView::ArrowMessage(m@),
            Token::Participant(p) => TokenView::Participant(p@),
        }
    }
}

#[derive(Debug)]
pub struct TokenizeError {
    pub line: usize,
    pub message: String,
}

/// `->` or `<-` starts at index `i` of `s`.
pub open spec fn arrow_at(s: Seq<char>, i: int) -> bool {
    &&& 0 <= i
    &&& i + 1 < s.len()
    &&& ((s[i] == '-' && s[i + 1] == '>') || (s[i] == '<' && s[i + 1] == '-'))
}

/// Index of the first arrow in `s`, or -1.
pub open spec fn first_arrow(s: Seq<char>) -> int
    decreases s.len(),
{
    if s.len() < 2 {
        -1
    } else {
        let k = first_arrow(s.drop_last());
        if k >= 0 {
            k
        } else if arrow_at(s, s.len() - 2) {
            s.len() - 2
        } else {
            -1
        }
    }
}

proof fn lemma_first_arrow(s: Seq<char>)
    ensures
        first_arrow(s) >= 0 ==> arrow_at(s, first_arrow(s)),
        forall|j: int| (j < first_arrow(s) || first_arrow(s) < 0) ==> !arrow_at(s, j),
    decreases s.len(),
{
    if s.len() >= 2 {
        let p = s.drop_last();
        lemma_first_arrow(p);
        assert forall|j: int| 0 <= j && j + 1 < p.len() implies (arrow_at(s, j) <==> arrow_at(p, j)) by {}
    }
}

/// Relies on `regex::Regex::find` with the pattern `->|<-`: it returns the leftmost
/// match, and both alternatives are two characters long, so the match starts at the
/// first index where either arrow occurs. Its byte offset is turned into a count of
/// the characters before it.
#[verifier::external_body]
fn find_arrow(s: &str) -> (r: Option<usize>)
    ensures
        match r {
            Some(i) => arrow_at(s@, i as int) && forall|j: int| j < i ==> !arrow_at(s@, j),
            None => forall|j: int| !arrow_at(s@, j),
        },
{
    match Regex::new(r"->|<-").unwrap().find(s) {
        Some(m) => Some(s[..m.start()].chars().count()),
        None => None,
    }
}

/// The first arrow of `s`, as a character index.
fn first_arrow_in(s: &str) -> (r: Option<usize>)
    ensures
        match r {
            Some(i) => i == first_arrow(s@),
            None => first_arrow(s@) < 0,
        },
{
    proof {
        lemma_first_arrow(s@);
    }
    find_arrow(s)
}

pub open spec fn participant_error(name: Seq<char>, position: Seq<char>) -> Option<Seq<char>> {
    if name.len() == 0 {
        Some(position + " participant is empty."@)
    } else if utf8_len(name) > 80 {
        Some(position + " participant is too long (max 80 characters)."@)
    } else if name.contains('\n') {
        Some(position + " participant contains new line character."@)
    } else {
        None
    }
}

/// The tokens of one trimmed, non-empty line numbered `n`, or the error it gives.
pub open spec fn line_tokens(line: Seq<char>, n: int) -> Result<Seq<TokenView>, (int, Seq<char>)> {
    let a = first_arrow(line);
    if a < 0 {
        Err((n, "Missing arrow ('->' or '<-')"@))
    } else if first_arrow(line.skip(a + 2)) >= 0 {
        Err((n, "Multiple arrows found. Expected exactly one arrow per line"@))
    } else {
        let first = trim(line.take(a));
        let arrow = if line[a] == '-' { TokenView::RightArrow } else { TokenView::LeftArrow };
        let rest = trim(line.skip(a + 2));
        let c = first_of(rest, ':');
        if participant_error(first, "First"@) is Some {
            Err((n, participant_error(first, "First"@)->Some_0))
        } else if c >= 0 {
            let second = trim(rest.take(c));
            let msg = trim(rest.skip(c + 1));
            if participant_error(second, "Second"@) is Some {
                Err((n, participant_error(second, "Second"@)->Some_0))
            } else if msg.len() > 0 {
                Ok(
                    seq![
                        TokenView::Participant(first),
                        arrow,
                        TokenView::Participant(second),
                        TokenView::ArrowMessage(msg),
                    ],
                )
            } else {
                Ok(seq![TokenView::Participant(first), arrow, TokenView::Participant(second)])
            }
        } else if participant_error(rest, "Second"@) is Some {
            Err((n, participant_error(rest, "Second"@)->Some_0))
        } else {
            Ok(seq![TokenView::Participant(first), arrow, TokenView::Participant(rest)])
        }
    }
}

/// `Ok(a + r)` for `Ok(r)`; an error passes through.
pub open spec fn prepend(a: Seq<TokenView>, r: Result<Seq<TokenView>, (int, Seq<char>)>) -> Result<
    Seq<TokenView>,
    (int, Seq<char>),
> {
    match r {
        Ok(t) => Ok(a + t),
        Err(e) => Err(e),
    }
}

/// Tokens of the lines of `s`, the first of them numbered `n`; blank lines are skipped.
pub open spec fn tokenize_text(s: Seq<char>, n: int) -> Result<Seq<TokenView>, (int, Seq<char>)>
    decreases s.len(),
{
    let k = first_of(s, '\n');
    let line = if k < 0 { s } else { s.take(k) };
    let here = if trim(line).len() == 0 { Ok(Seq::empty()) } else { line_tokens(trim(line), n) };
    match here {
        Err(e) => Err(e),
        Ok(ts) => if k < 0 || s.len() <= k {
            Ok(ts)
        } else {
            prepend(ts, tokenize_text(s.skip(k + 1), n + 1))
        },
    }
}

/// What `tokenize` gives for `input`.
pub open spec fn tokenize_spec(input: Seq<char>) -> Result<Seq<TokenView>, (int, Seq<char>)> {
    tokenize_text(trim(input), 1)
}

fn validate_participant(name: &str, line_number: usize, position: &str) -> (r: Result<(), TokenizeError>)
    ensures
        match r {
            Ok(()) => participant_error(name@, position@) is None,
            Err(e) => participant_error(name@, position@) == Some(e.message@) && e.line == line_number,
        },
{
    if name.unicode_len() == 0 {
        return Err(TokenizeError {
            line: line_number,
            message: String::from_str(position).concat(" participant is empty."),
        });
    }
    if longer_than(name, 80) {
        return Err(TokenizeError {
            line: line_number,
            message: String::from_str(position).concat(" participant is too long (max 80 characters)."),
        });
    }
    let newline = find_char(name, '\n');
    proof {
        lemma_first_of(name@, '\n');
    }
    if newline.is_some() {
        return Err(TokenizeError {
            line: line_number,
            message: String::from_str(position).concat(" participant contains new line character."),
        });
    }
    Ok(())
}

fn tokenize_line(line: &str, line_number: usize, tokens: &mut Vec<Token>) -> (r: Result<(), TokenizeError>)
    ensures
        match (r, line_tokens(line@, line_number as int)) {
            (Ok(()), Ok(ts)) => final(tokens)@.map_values(|t: Token| t@) == old(tokens)@.map_values(
                |t: Token| t@,
            ) + ts,
            (Err(e), Err(err)) => err == (e.line as int, e.message@) && final(tokens)@ == old(tokens)@,
            _ => false,
        },
{
    let n = line.unicode_len();
    let arrow = match first_arrow_in(line) {
        Some(a) => a,
        None => {
            return Err(TokenizeError {
                line: line_number,
                message: String::from_str("Missing arrow ('->' or '<-')"),
            });
        }
    };
    proof {
        lemma_first_arrow(line@);
    }
    let after = line.substring_char(arrow + 2, n);
    if first_arrow_in(after).is_some() {
        return Err(TokenizeError {
            line: line_number,
            message: String::from_str("Multiple arrows found. Expected exactly one arrow per line"),
        });
    }
    assert(after@ =~= line@.skip(arrow + 2));
    let first_participant = trim_str(line.substring_char(0, arrow));
    assert(line@.subrange(0, arrow as int) =~= line@.take(arrow as int));
    match validate_participant(first_participant, line_number, "First") {
        Ok(()) => {},
        Err(e) => {
            return Err(e);
        },
    }
    let mut found: Vec<Token> = Vec::new();
    found.push(Token::Participant(String::from_str(first_participant)));
    if line.get_char(arrow) == '-' {
        found.push(Token::RightArrow);
    } else {
        found.push(Token::LeftArrow);
    }
    let rest = trim_str(after);
    let rest_len = rest.unicode_len();
    match find_char(rest, ':') {
        Some(colon_pos) => {
            proof {
                lemma_first_of(rest@, ':');
            }
            let second_participant = trim_str(rest.substring_char(0, colon_pos));
            assert(rest@.subrange(0, colon_pos as int) =~= rest@.take(colon_pos as int));
            match validate_participant(second_participant, line_number, "Second") {
                Ok(()) => {},
                Err(e) => {
                    return Err(e);
                },
            }
            found.push(Token::Participant(String::from_str(second_participant)));
            let message = trim_str(rest.substring_char(colon_pos + 1, rest_len));
            assert(rest@.subrange(colon_pos + 1, rest@.len() as int) =~= rest@.skip(colon_pos + 1));
            if message.unicode_len() > 0 {
                found.push(Token::ArrowMessage(String::from_str(message)));
            }
        },
        None => {
            match validate_participant(rest, line_number, "Second") {
                Ok(()) => {},
                Err(e) => {
                    return Err(e);
                },
            }
            found.push(Token::Participant(String::from_str(rest)));
        },
    }
    let ghost before = tokens@;
    let mut i: usize = 0;
    while i < found.len()
        invariant
            i <= found@.len(),
            tokens@.map_values(|t: Token| t@) == before.map_values(|t: Token| t@) + found@.take(
                i as int,
            ).map_values(|t: Token| t@),
        decreases found@.len() - i,
    {
        let t = move_token(&found[i]);
        let ghost prev = tokens@;
        tokens.push(t);
        proof {
            assert(tokens@.map_values(|t: Token| t@) =~= prev.map_values(|t: Token| t@).push(t@));
            assert(found@.take(i + 1).map_values(|t: Token| t@) =~= found@.take(i as int).map_values(
                |t: Token| t@,
            ).push(found@[i as int]@));
        }
        i = i + 1;
    }
    proof {
        assert(found@.take(i as int) =~= found@);
        assert(found@.map_values(|t: Token| t@) =~= line_tokens(line@, line_number as int)->Ok_0);
    }
    Ok(())
}

/// A copy of a token.
fn move_token(t: &Token) -> (r: Token)
    ensures
        r@ == t@,
{
    match t {
        Token::LeftArrow => Token::LeftArrow,
        Token::RightArrow => Token::RightArrow,
        Token::ArrowMessage(m) => Token::ArrowMessage(m.clone()),
        Token::Participant(p) => Token::Participant(p.clone()),
    }
}

/// Splits the trimmed input into lines and tokenizes each non-blank one; the first
/// failing line, numbered from 1, gives the error.
pub fn tokenize(input: &str) -> (r: Result<Vec<Token>, TokenizeError>)
    ensures
        match (r, tokenize_spec(input@)) {
            (Ok(ts), Ok(spec)) => ts@.map_values(|t: Token| t@) == spec,
            (Err(e), Err(err)) => err == (e.line as int, e.message@),
            _ => false,
        },
{
    let text = trim_str(input);
    let len = text.unicode_len();
    let mut tokens: Vec<Token> = Vec::new();
    let mut p: usize = 0;
    let mut line_number: usize = 1;
    let mut more = true;
    assert(text@.skip(0) =~= text@);
    while more
        invariant
            len == text@.len(),
            p <= len,
            1 <= line_number <= p + 1,
            more ==> tokenize_spec(input@) == prepend(
                tokens@.map_values(|t: Token| t@),
                tokenize_text(text@.skip(p as int), line_number as int),
            ),
            !more ==> tokenize_spec(input@) == Ok::<Seq<TokenView>, (int, Seq<char>)>(
                tokens@.map_values(|t: Token| t@),
            ),
            text@ == trim(input@),
        decreases len - p + if more { 1int } else { 0int },
    {
        let rest = text.substring_char(p, len);
        let newline = find_char(rest, '\n');
        proof {
            lemma_first_of(rest@, '\n');
            assert(rest@ =~= text@.skip(p as int));
        }
        let line_end = match newline {
            Some(k) => p + k,
            None => len,
        };
        let line = trim_str(text.substring_char(p, line_end));
        proof {
            match newline {
                Some(k) => {
                    assert(text@.subrange(p as int, line_end as int) =~= rest@.take(k as int));
                    assert(rest@.skip(k + 1) =~= text@.skip(p + k + 1));
                },
                None => {
                    assert(text@.subrange(p as int, line_end as int) =~= rest@);
                },
            }
        }
        let ghost acc = tokens@.map_values(|t: Token| t@);
        if line.unicode_len() > 0 {
            match tokenize_line(line, line_number, &mut tokens) {
                Ok(()) => {},
                Err(e) => {
                    return Err(e);
                },
            }
        }
        proof {
            let here = if line@.len() == 0 {
                Seq::<TokenView>::empty()
            } else {
                line_tokens(line@, line_number as int)->Ok_0
            };
            assert(tokens@.map_values(|t: Token| t@) == acc + here) by {
                if line@.len() == 0 {
                    assert(acc + here =~= acc);
                }
            }
            match tokenize_text(rest@.skip(newline->Some_0 + 1), line_number + 1) {
                Ok(t) => {
                    assert(acc + (here + t) =~= acc + here + t);
                },
                Err(e) => {},
            }
            if newline is None {
                assert(acc + here + Seq::<TokenView>::empty() =~= acc + here);
            }
        }
        match newline {
            Some(k) => {
                p = p + k + 1;
                if p < len {
                    line_number = line_number + 1;
                } else {
                    // nothing follows the last line feed
                    more = false;
                    proof {
                        let empty = text@.skip(p as int);
                        assert(empty =~= Seq::<char>::empty());
                        assert(trim(empty) =~= Seq::<char>::empty());
                        assert(tokenize_text(empty, line_number + 1) == Ok::<
                            Seq<TokenView>,
                            (int, Seq<char>),
                        >(Seq::empty()));
                        assert(tokens@.map_values(|t: Token| t@) + Seq::<TokenView>::empty()
                            =~= tokens@.map_values(|t: Token| t@));
                    }
                }
            },
            None => {
                more = false;
            },
        }
    }
    Ok(tokens)
}

} // verus!
