use vstd::prelude::*;
use vstd::string::*;
use crate::command::{parse, Command, Op};
use crate::cursor::{emitted, run, shapes_of, Cursor, Fig, Shape, State, Trace};
use crate::error::{Failure, ParseError};
use crate::text::{chars_of, lines_of, split_lines, split_words, texts};

verus! {

/// What is wrong with a line of a program.
#[derive(Debug, PartialEq, Eq)]
pub enum Problem {
    /// The line does not hold a command.
    Parse(ParseError),
    /// The line is the `]` of a block that no line opened: a closing
    /// marker is no command to execute.
    InternalInvariantViolation,
}

/// The first line of a program that could not be drawn, counted from 0,
/// and what is wrong with it.
#[derive(Debug, PartialEq, Eq)]
pub struct LineError {
    pub line: usize,
    pub problem: Problem,
}

/// What a `Problem` says.
pub enum Fault {
    Parse(Failure),
    InternalInvariantViolation,
}

/// What a `LineError` says.
pub struct LineFault {
    pub line: nat,
    pub fault: Fault,
}

impl View for LineError {
    type V = LineFault;

    open spec fn view(&self) -> LineFault {
        LineFault {
            line: self.line as nat,
            fault: match self.problem {
                Problem::Parse(e) => Fault::Parse(e@),
                Problem::InternalInvariantViolation => Fault::InternalInvariantViolation,
            },
        }
    }
}

/// Whether a line holds no command: an empty line, or a comment, which
/// starts with `#`.
pub open spec fn is_skipped(line: Seq<char>) -> bool {
    line.len() == 0 || line[0] == '#'
}

/// What the first `k` lines of a program do to a state and what they draw,
/// or the first of them that is in error.
pub open spec fn run_lines(s: State, lines: Seq<Seq<char>>, k: nat) -> Result<Trace, LineFault>
    decreases k,
{
    if k == 0 || k > lines.len() {
        Ok(Trace { state: s, shapes: Seq::empty() })
    } else {
        match run_lines(s, lines, (k - 1) as nat) {
            Err(e) => Err(e),
            Ok(t) => if is_skipped(lines[k - 1]) {
                Ok(t)
            } else {
                match parse(split_words(lines[k - 1])).result {
                    Err(f) => Err(LineFault { line: (k - 1) as nat, fault: Fault::Parse(f) }),
                    Ok(Op::EndRepeat) => Err(
                        LineFault { line: (k - 1) as nat, fault: Fault::InternalInvariantViolation },
                    ),
                    Ok(op) => {
                        let e = run(t.state, op);
                        Ok(Trace { state: e.state, shapes: t.shapes + emitted(e.shape) })
                    },
                }
            },
        }
    }
}

/// Reads the command of a line, if the line holds one.
pub fn parse_line(line: &str) -> (r: Result<Option<Command>, ParseError>)
    ensures
        is_skipped(line@) ==> r == Ok::<Option<Command>, ParseError>(None),
        !is_skipped(line@) ==> match r {
            Ok(Some(c)) => parse(split_words(line@)).result == Ok::<Op, Failure>(c@) && (c@
                == Op::EndRepeat || c@.finished()),
            Ok(None) => false,
            Err(e) => parse(split_words(line@)).result == Err::<Op, Failure>(e@),
        },
{
    let chars = chars_of(line);
    if chars.len() == 0 || chars[0] == '#' {
        return Ok(None);
    }
    match Command::from_line(line) {
        Ok(c) => Ok(Some(c)),
        Err(e) => Err(e),
    }
}

/// What a program does to a state and what it draws, or its first line
/// that is in error.
pub open spec fn run_program(s: State, code: Seq<char>) -> Result<Trace, LineFault> {
    run_lines(s, split_lines(code), split_lines(code).len())
}

/// The state after the first `k` lines of a program, none of which is in
/// error.
pub open spec fn state_after(s: State, code: Seq<char>, k: nat) -> Option<State> {
    match run_lines(s, split_lines(code), k) {
        Ok(t) => Some(t.state),
        Err(_) => None,
    }
}

/// Draws a program: executes the commands of its lines in order, and
/// hands back what each of them drew. At the first line in error nothing
/// is handed back but the error, and the cursor stays where the lines
/// before left it.
#[verifier::loop_isolation(false)]
pub fn create_drawing(cursor: &mut Cursor, code: &str) -> (r: Result<Vec<Fig>, LineError>)
    ensures
        match r {
            Ok(figs) => run_program(old(cursor)@, code@) == Ok::<Trace, LineFault>(
                Trace { state: final(cursor)@, shapes: shapes_of(figs@) },
            ),
            Err(e) => run_program(old(cursor)@, code@) == Err::<Trace, LineFault>(e@)
                && state_after(old(cursor)@, code@, e@.line) == Some(final(cursor)@),
        },
{
    let lines = lines_of(code);
    assert(texts(lines@).len() == lines@.len());
    let ghost start = cursor@;
    let ghost all = texts(lines@);
    let mut drawing: Vec<Fig> = Vec::new();
    let mut i: usize = 0;
    assert(shapes_of(drawing@) =~= Seq::<Shape>::empty());
    while i < lines.len()
        invariant
            i <= lines.len(),
            run_lines(start, all, i as nat) == Ok::<Trace, LineFault>(
                Trace { state: cursor@, shapes: shapes_of(drawing@) },
            ),
        decreases lines.len() - i,
    {
        let ghost had = drawing@;
        assert(all[i as int] == lines@[i as int]@);
        match parse_line(lines[i].as_str()) {
            Err(e) => {
                let failed = LineError { line: i, problem: Problem::Parse(e) };
                proof {
                    lemma_error_stays(start, all, (i + 1) as nat, lines@.len());
                }
                return Err(failed);
            },
            Ok(None) => {},
            Ok(Some(command)) => {
                if !command.is_finished() {
                    let failed = LineError { line: i, problem: Problem::InternalInvariantViolation };
                    proof {
                        lemma_error_stays(start, all, (i + 1) as nat, lines@.len());
                    }
                    return Err(failed);
                }
                match cursor.apply_command(&command) {
                    Some(f) => {
                        drawing.push(f);
                        assert(shapes_of(drawing@) =~= shapes_of(had) + seq![f@]);
                    },
                    None => {
                        assert(shapes_of(had) + Seq::<Shape>::empty() =~= shapes_of(had));
                    },
                }
            },
        }
        i += 1;
    }
    Ok(drawing)
}

/// Once a line is in error, the lines after it change nothing.
pub proof fn lemma_error_stays(s: State, lines: Seq<Seq<char>>, k: nat, n: nat)
    requires
        k <= n <= lines.len(),
        run_lines(s, lines, k) is Err,
    ensures
        run_lines(s, lines, n) == run_lines(s, lines, k),
    decreases n - k,
{
    if k < n {
        lemma_error_stays(s, lines, k, (n - 1) as nat);
    }
}

} // verus!
