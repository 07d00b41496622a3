use vstd::prelude::*;
use crate::gantt::date::{Date, day_of_text, parse_date};
use crate::text::{find_char, first_of, int_of_text, lemma_first_of, parse_i64, same_text, trim, trim_str};

verus! {

#[derive(Debug)]
pub struct Task {
    pub start_date: Date,
    pub end_date: Date,
    pub name: String,
}

#[derive(Debug)]
pub struct GanttChart {
    pub tasks: Vec<Task>,
}

#[derive(Debug)]
pub struct ParseError {
    pub line: usize,
    pub message: String,
}

/// A parsed task: start day, end day and name.
pub type TaskSpec = (int, int, Seq<char>);

/// Days of a duration `<number>d`, or the message of the error it gives.
pub open spec fn duration_of(s: Seq<char>) -> Result<int, Seq<char>> {
    if s.len() == 0 || s.last() != 'd' {
        Err("Invalid end date '"@ + s + "'. Expected format: 'DD-MM-YYYY' or '<number>d'"@)
    } else {
        match int_of_text(s.drop_last()) {
            None => Err("Invalid number in duration"@),
            Some(v) => if v <= 0 {
                Err("Duration must be positive"@)
            } else {
                Ok(v)
            },
        }
    }
}

/// Start day from `DD-MM-YYYY`, or `continue` for the end of the previous task.
pub open spec fn start_of(s: Seq<char>, last: Option<int>) -> Result<int, Seq<char>> {
    match day_of_text(s) {
        Some(d) => Ok(d),
        None => if s != "continue"@ {
            Err("Invalid start date '"@ + s + "'. Expected format: 'DD-MM-YYYY' or 'continue'"@)
        } else {
            match last {
                None => Err("No previous task exists"@),
                Some(p) => Ok(p),
            }
        },
    }
}

/// End day from `DD-MM-YYYY`, or from a duration after `start`.
pub open spec fn end_of(s: Seq<char>, start: int) -> Result<int, Seq<char>> {
    match day_of_text(s) {
        Some(d) => Ok(d),
        None => match duration_of(s) {
            Err(m) => Err(m),
            Ok(days) => if start + days > i32::MAX {
                Err("End date is out of range"@)
            } else {
                Ok(start + days)
            },
        },
    }
}

/// The task on one trimmed, non-empty line, given the end day of the task before.
pub open spec fn line_task(line: Seq<char>, last: Option<int>) -> Result<TaskSpec, Seq<char>> {
    let c = first_of(line, ':');
    let name = trim(line.take(c));
    let rest = line.skip(c + 1);
    let k = first_of(rest, ',');
    let ss = trim(rest.take(k));
    let es = trim(rest.skip(k + 1));
    if c < 0 {
        Err("Missing colon. Expects format: 'Task: start_date, end_date'"@)
    } else if name.len() == 0 {
        Err("Task name cannot be empty"@)
    } else if k < 0 {
        Err("Missing delimiter. Expects format: 'Task: start_date, end_date'"@)
    } else {
        match start_of(ss, last) {
            Err(m) => Err(m),
            Ok(start) => match end_of(es, start) {
                Err(m) => Err(m),
                Ok(end) => if end < start {
                    Err("End date cannot be earlier than start date"@)
                } else {
                    Ok((start, end, name))
                },
            },
        }
    }
}

pub open spec fn prepend_tasks(a: Seq<TaskSpec>, r: Result<Seq<TaskSpec>, (int, Seq<char>)>) -> Result<
    Seq<TaskSpec>,
    (int, Seq<char>),
> {
    match r {
        Ok(t) => Ok(a + t),
        Err(e) => Err(e),
    }
}

/// End day of the last task, after `ts`, or `last` when `ts` is empty.
pub open spec fn last_end(ts: Seq<TaskSpec>, last: Option<int>) -> Option<int> {
    if ts.len() == 0 { last } else { Some(ts.last().1) }
}

/// The tasks on the lines of `s`, the first of them numbered `n`, after a task
/// ending on `last`; blank lines are skipped.
pub open spec fn gantt_text(s: Seq<char>, n: int, last: Option<int>) -> Result<Seq<TaskSpec>, (int, Seq<char>)>
    decreases s.len(),
{
    let k = first_of(s, '\n');
    let line = if k < 0 { s } else { s.take(k) };
    let here: Result<Seq<TaskSpec>, (int, Seq<char>)> = if trim(line).len() == 0 {
        Ok(Seq::empty())
    } else {
        match line_task(trim(line), last) {
            Ok(t) => Ok(seq![t]),
            Err(m) => Err((n, m)),
        }
    };
    match here {
        Err(e) => Err(e),
        Ok(ts) => if k < 0 || s.len() <= k {
            Ok(ts)
        } else {
            prepend_tasks(ts, gantt_text(s.skip(k + 1), n + 1, last_end(ts, last)))
        },
    }
}

pub open spec fn task_spec(t: Task) -> TaskSpec {
    (t.start_date.day as int, t.end_date.day as int, t.name@)
}

/// Days of a duration `<number>d`.
fn parse_duration(line_number: usize, duration_str: &str) -> (r: Result<i64, ParseError>)
    ensures
        match (r, duration_of(duration_str@)) {
            (Ok(d), Ok(days)) => d == days,
            (Err(e), Err(m)) => e.message@ == m && e.line == line_number,
            _ => false,
        },
{
    let n = duration_str.unicode_len();
    if n == 0 || duration_str.get_char(n - 1) != 'd' {
        return Err(ParseError {
            line: line_number,
            message: String::from_str("Invalid end date '").concat(duration_str).concat(
                "'. Expected format: 'DD-MM-YYYY' or '<number>d'",
            ),
        });
    }
    let number_part = duration_str.substring_char(0, n - 1);
    assert(number_part@ =~= duration_str@.drop_last());
    let days = match parse_i64(number_part) {
        Some(v) => v,
        None => {
            return Err(ParseError {
                line: line_number,
                message: String::from_str("Invalid number in duration"),
            });
        },
    };
    if days <= 0 {
        return Err(ParseError { line: line_number, message: String::from_str("Duration must be positive") });
    }
    Ok(days)
}

/// The task on one trimmed, non-empty line.
fn parse_line(line: &str, last: Option<Date>) -> (r: Result<Task, String>)
    ensures
        match (r, line_task(line@, match last { Some(d) => Some(d.day as int), None => None })) {
            (Ok(t), Ok(spec)) => task_spec(t) == spec,
            (Err(m), Err(spec)) => m@ == spec,
            _ => false,
        },
{
    let n = line.unicode_len();
    let c = match find_char(line, ':') {
        Some(c) => c,
        None => {
            return Err(String::from_str("Missing colon. Expects format: 'Task: start_date, end_date'"));
        },
    };
    proof {
        lemma_first_of(line@, ':');
    }
    let task_name = trim_str(line.substring_char(0, c));
    assert(line@.subrange(0, c as int) =~= line@.take(c as int));
    if task_name.unicode_len() == 0 {
        return Err(String::from_str("Task name cannot be empty"));
    }
    let date_str = line.substring_char(c + 1, n);
    assert(date_str@ =~= line@.skip(c + 1));
    let m = date_str.unicode_len();
    let k = match find_char(date_str, ',') {
        Some(k) => k,
        None => {
            return Err(String::from_str("Missing delimiter. Expects format: 'Task: start_date, end_date'"));
        },
    };
    proof {
        lemma_first_of(date_str@, ',');
    }
    let start_date_str = trim_str(date_str.substring_char(0, k));
    let end_date_str = trim_str(date_str.substring_char(k + 1, m));
    assert(date_str@.subrange(0, k as int) =~= date_str@.take(k as int));
    assert(date_str@.subrange(k + 1, m as int) =~= date_str@.skip(k + 1));
    let start_date = match parse_date(start_date_str) {
        Some(d) => d,
        None => {
            if !same_text(start_date_str, "continue") {
                return Err(String::from_str("Invalid start date '").concat(start_date_str).concat(
                    "'. Expected format: 'DD-MM-YYYY' or 'continue'",
                ));
            }
            match last {
                Some(d) => d,
                None => {
                    return Err(String::from_str("No previous task exists"));
                },
            }
        },
    };
    let end_date = match parse_date(end_date_str) {
        Some(d) => d,
        None => {
            let days = match parse_duration(0, end_date_str) {
                Ok(days) => days,
                Err(e) => {
                    return Err(e.message);
                },
            };
            if days > i32::MAX as i64 - start_date.day as i64 {
                return Err(String::from_str("End date is out of range"));
            }
            Date { day: (start_date.day as i64 + days) as i32 }
        },
    };
    if end_date.day < start_date.day {
        return Err(String::from_str("End date cannot be earlier than start date"));
    }
    Ok(Task { start_date, end_date, name: String::from_str(task_name) })
}

/// Reads one task `name: start, end` per non-blank line; a start may be `continue`
/// (the previous task's end) and an end may be a duration `<number>d`.
pub fn parse(input: &str) -> (r: Result<GanttChart, ParseError>)
    ensures
        match (r, gantt_text(input@, 1, None)) {
            (Ok(chart), Ok(tasks)) => chart.tasks@.map_values(|t: Task| task_spec(t)) == tasks,
            (Err(e), Err(err)) => err == (e.line as int, e.message@),
            _ => false,
        },
{
    let len = input.unicode_len();
    let mut tasks: Vec<Task> = Vec::new();
    let mut p: usize = 0;
    let mut line_number: usize = 1;
    let mut more = true;
    assert(input@.skip(0) =~= input@);
    assert(tasks@.map_values(|t: Task| task_spec(t)) =~= Seq::<TaskSpec>::empty());
    while more
        invariant
            len == input@.len(),
            p <= len,
            1 <= line_number <= p + 1,
            more ==> gantt_text(input@, 1, None) == prepend_tasks(
                tasks@.map_values(|t: Task| task_spec(t)),
                gantt_text(
                    input@.skip(p as int),
                    line_number as int,
                    last_end(tasks@.map_values(|t: Task| task_spec(t)), None),
                ),
            ),
            !more ==> gantt_text(input@, 1, None) == Ok::<Seq<TaskSpec>, (int, Seq<char>)>(
                tasks@.map_values(|t: Task| task_spec(t)),
            ),
        decreases len - p + if more { 1int } else { 0int },
    {
        let rest = input.substring_char(p, len);
        let newline = find_char(rest, '\n');
        proof {
            lemma_first_of(rest@, '\n');
            assert(rest@ =~= input@.skip(p as int));
        }
        let line_end = match newline {
            Some(k) => p + k,
            None => len,
        };
        let line = trim_str(input.substring_char(p, line_end));
        proof {
            match newline {
                Some(k) => {
                    assert(input@.subrange(p as int, line_end as int) =~= rest@.take(k as int));
                    assert(rest@.skip(k + 1) =~= input@.skip(p + k + 1));
                },
                None => {
                    assert(input@.subrange(p as int, line_end as int) =~= rest@);
                },
            }
        }
        let ghost acc = tasks@.map_values(|t: Task| task_spec(t));
        let ghost here: Seq<TaskSpec> = Seq::empty();
        let ghost last = last_end(acc, None);
        if line.unicode_len() > 0 {
            let previous = if tasks.len() > 0 {
                Some(tasks[tasks.len() - 1].end_date)
            } else {
                None
            };
            assert(match previous { Some(d) => Some(d.day as int), None => None::<int> } == last);
            match parse_line(line, previous) {
                Ok(task) => {
                    proof {
                        here = seq![task_spec(task)];
                    }
                    tasks.push(task);
                    assert(tasks@.map_values(|t: Task| task_spec(t)) =~= acc + here);
                },
                Err(message) => {
                    return Err(ParseError { line: line_number, message });
                },
            }
        }
        proof {
            if line@.len() == 0 {
                assert(acc + here =~= acc);
            }
            assert(tasks@.map_values(|t: Task| task_spec(t)) == acc + here);
            assert(last_end(acc + here, None) == last_end(here, last));
            match gantt_text(rest@.skip(newline->Some_0 + 1), line_number + 1, last_end(here, last)) {
                Ok(t) => {
                    assert(acc + (here + t) =~= acc + here + t);
                },
                Err(e) => {},
            }
            if newline is None {
                assert(acc + here + Seq::<TaskSpec>::empty() =~= acc + here);
            }
        }
        match newline {
            Some(k) => {
                p = p + k + 1;
                if p < len {
                    line_number = line_number + 1;
                } else {
                    // nothing follows the last line feed
                    more = false;
                    proof {
                        let empty = input@.skip(p as int);
                        assert(empty =~= Seq::<char>::empty());
                        assert(trim(empty) =~= Seq::<char>::empty());
                        assert(tasks@.map_values(|t: Task| task_spec(t)) + Seq::<TaskSpec>::empty()
                            =~= tasks@.map_values(|t: Task| task_spec(t)));
                    }
                }
            },
            None => {
                more = false;
            },
        }
    }
    Ok(GanttChart { tasks })
}

} // verus!
