//! From source text to the instruction tree.

use vstd::prelude::*;
use vstd::std_specs::iter::IteratorSpec;
use vstd::string::StringExecFns;
use std::str::Chars;
use crate::parse::opcodes::{OpCodes, Tokens, Op, Node, tree, lemma_loop_model};
use crate::text::{decimal, digits};

verus! {

/// Why a source text is refused before it is parsed.
#[derive(Clone, Copy, Debug, PartialEq, Eq, Structural)]
pub enum ParseError {
    /// The text holds `open` times `[` and `close` times `]`, and the two differ.
    UnbalancedBrackets { open: usize, close: usize },
}

/// What a user is told about an error.
pub open spec fn message(error: ParseError) -> Seq<char> {
    match error {
        ParseError::UnbalancedBrackets { open, close } => "Could not balance brackets:\n'[': "@
            + digits(open as nat) + "\n']': "@ + digits(close as nat),
    }
}

impl ParseError {
    /// The error in words, with both counts.
    pub fn to_string(&self) -> (text: String)
        ensures
            text@ == message(*self),
    {
        match self {
            ParseError::UnbalancedBrackets { open, close } => {
                let mut text = "Could not balance brackets:\n'[': ".to_owned();
                text.append(decimal(*open as u64).as_str());
                text.append("\n']': ");
                text.append(decimal(*close as u64).as_str());
                text
            },
        }
    }
}

/// How often `wanted` occurs in `text`.
pub open spec fn occurrences(text: Seq<char>, wanted: char) -> nat
    decreases text.len(),
{
    if text.len() == 0 {
        0
    } else {
        occurrences(text.drop_first(), wanted) + if text[0] == wanted {
            1nat
        } else {
            0nat
        }
    }
}

/// No character occurs more often than the text is long.
pub proof fn lemma_occurrences_bound(text: Seq<char>, wanted: char)
    ensures
        occurrences(text, wanted) <= text.len(),
    decreases text.len(),
{
    if text.len() > 0 {
        lemma_occurrences_bound(text.drop_first(), wanted);
    }
}

/// `Chars::clone`: the copy is the same iterator value, so it has the same
/// characters still to come; the iterator that is copied is not advanced.
#[verifier::external_body]
fn duplicate<'a>(program: &Chars<'a>) -> (copy: Chars<'a>)
    ensures
        copy == *program,
{
    program.clone()
}

/// Compares the number of `[` in what `program` has still to yield with the
/// number of `]`. Only the two counts are compared, not the nesting. The
/// iterator itself is left where it is.
pub fn balance_brackets(program: &Chars) -> (outcome: Result<(), ParseError>)
    requires
        program.decrease() is Some,
        program.remaining().len() <= usize::MAX,
    ensures
        outcome == if occurrences(program.remaining(), '[') == occurrences(
            program.remaining(),
            ']',
        ) {
            Ok::<(), ParseError>(())
        } else {
            Err::<(), ParseError>(
                ParseError::UnbalancedBrackets {
                    open: occurrences(program.remaining(), '[') as usize,
                    close: occurrences(program.remaining(), ']') as usize,
                },
            )
        },
{
    broadcast use vstd::string::group_string_axioms;

    let ghost text = program.remaining();
    let mut rest = duplicate(program);
    let mut left: usize = 0;
    let mut right: usize = 0;
    loop
        invariant
            rest.decrease() is Some,
            rest.remaining().len() <= text.len() <= usize::MAX,
            left + occurrences(rest.remaining(), ']') == occurrences(text, ']'),
            right + occurrences(rest.remaining(), '[') == occurrences(text, '['),
        ensures
            left == occurrences(text, ']'),
            right == occurrences(text, '['),
        decreases rest.decrease()->0,
    {
        proof {
            lemma_occurrences_bound(text, '[');
            lemma_occurrences_bound(text, ']');
        }
        match rest.next() {
            Some(c) => {
                if c == ']' {
                    left += 1;
                }
                if c == '[' {
                    right += 1;
                }
            },
            None => {
                break ;
            },
        }
    }
    if left != right {
        Err(ParseError::UnbalancedBrackets { open: right, close: left })
    } else {
        Ok(())
    }
}

/// What parsing one scope gives: its nodes, the text behind the scope, and
/// the position reached.
pub ghost struct Parsed {
    pub nodes: Seq<Node>,
    pub rest: Seq<char>,
    pub line: int,
    pub column: int,
}

/// The instruction that a character stands for, if it is one of the six
/// that are not brackets.
pub open spec fn simple_op(c: char) -> Option<Op> {
    if c == '>' {
        Some(Op::Inc(1))
    } else if c == '<' {
        Some(Op::Dec(1))
    } else if c == '+' {
        Some(Op::Add(1))
    } else if c == '-' {
        Some(Op::Sub(1))
    } else if c == '.' {
        Some(Op::Output)
    } else if c == ',' {
        Some(Op::Input)
    } else {
        None
    }
}

/// A position as it is stored in a node.
pub open spec fn place(line: int, column: int) -> (u32, u32) {
    (line as u32, column as u32)
}

/// Parses one scope of `text`, read from position (`line`, `column`).
///
/// Every character moves the column on by one, but a newline, which starts
/// the next line at column 0. `[` opens a nested scope, which is parsed from
/// the position reached and hands the position it reaches back; `]` closes
/// the scope at hand and is consumed; a scope also ends where the text ends.
/// A node is placed at the position of its character.
pub open spec fn parse_scope(text: Seq<char>, line: int, column: int) -> Parsed
    decreases text.len(),
{
    if text.len() == 0 {
        Parsed { nodes: Seq::empty(), rest: text, line, column }
    } else {
        let c = text[0];
        let after = text.drop_first();
        let here = column + 1;
        if c == ']' {
            Parsed { nodes: Seq::empty(), rest: after, line, column: here }
        } else if c == '[' {
            let inner = parse_scope(after, line, here);
            if inner.rest.len() < text.len() {
                let outer = parse_scope(inner.rest, inner.line, inner.column);
                Parsed {
                    nodes: seq![Node { op: Op::Loop(inner.nodes), location: place(line, here) }]
                        + outer.nodes,
                    ..outer
                }
            } else {
                Parsed { nodes: Seq::empty(), rest: text, line, column }
            }
        } else if c == '\n' {
            parse_scope(after, line + 1, 0)
        } else {
            let outer = parse_scope(after, line, here);
            match simple_op(c) {
                Some(op) => Parsed {
                    nodes: seq![Node { op, location: place(line, here) }] + outer.nodes,
                    ..outer
                },
                None => outer,
            }
        }
    }
}

/// A scope leaves no more text than it was given, and moves the position by
/// no more than it consumed.
pub proof fn lemma_parse_scope_bounds(text: Seq<char>, line: int, column: int)
    requires
        0 <= line,
        0 <= column,
    ensures
        parse_scope(text, line, column).rest.len() <= text.len(),
        text.len() > 0 ==> parse_scope(text, line, column).rest.len() < text.len(),
        line <= parse_scope(text, line, column).line,
        0 <= parse_scope(text, line, column).column,
        parse_scope(text, line, column).line + parse_scope(text, line, column).rest.len() <= line
            + text.len(),
        parse_scope(text, line, column).column + parse_scope(text, line, column).rest.len()
            <= column + text.len(),
    decreases text.len(),
{
    if text.len() > 0 {
        let c = text[0];
        let after = text.drop_first();
        let here = column + 1;
        if c == ']' {
        } else if c == '[' {
            lemma_parse_scope_bounds(after, line, here);
            let inner = parse_scope(after, line, here);
            lemma_parse_scope_bounds(inner.rest, inner.line, inner.column);
        } else if c == '\n' {
            lemma_parse_scope_bounds(after, line + 1, 0);
        } else {
            lemma_parse_scope_bounds(after, line, here);
        }
    }
}

/// Parses one scope from `program` and hands back its tokens with the
/// position reached, so that the scope around it can go on counting from
/// there, and whether the scope ended with the text.
fn parse_from(program: &mut Chars, line_num: u32, column_num: u32) -> (parsed: (
    Vec<Tokens>,
    u32,
    u32,
    bool,
))
    requires
        (*old(program)).decrease() is Some,
        line_num + (*old(program)).remaining().len() <= u32::MAX,
        column_num + (*old(program)).remaining().len() <= u32::MAX,
    ensures
        tree(parsed.0@) == parse_scope(
            (*old(program)).remaining(),
            line_num as int,
            column_num as int,
        ).nodes,
        (*final(program)).remaining() == parse_scope(
            (*old(program)).remaining(),
            line_num as int,
            column_num as int,
        ).rest,
        parsed.1 == parse_scope(
            (*old(program)).remaining(),
            line_num as int,
            column_num as int,
        ).line,
        parsed.2 == parse_scope(
            (*old(program)).remaining(),
            line_num as int,
            column_num as int,
        ).column,
        (*final(program)).decrease() is Some,
        parsed.3 ==> (*final(program)).remaining().len() == 0,
        !parsed.3 ==> (*final(program)).decrease()->0 <= (*old(program)).decrease()->0,
    decreases (*old(program)).decrease()->0,
{
    broadcast use vstd::string::group_string_axioms;

    let ghost text = (*program).remaining();
    let ghost goal = parse_scope(text, line_num as int, column_num as int);
    let ghost fuel = (*program).decrease()->0;
    let mut out: Vec<Tokens> = Vec::new();
    let mut line_num = line_num;
    let mut column_num = column_num;
    let mut ended = false;
    loop
        invariant_except_break
            !ended,
            (*program).decrease()->0 <= fuel,
            line_num + (*program).remaining().len() <= u32::MAX,
            column_num + (*program).remaining().len() <= u32::MAX,
            goal.nodes == tree(out@) + parse_scope(
                (*program).remaining(),
                line_num as int,
                column_num as int,
            ).nodes,
            goal.rest == parse_scope(
                (*program).remaining(),
                line_num as int,
                column_num as int,
            ).rest,
            goal.line == parse_scope(
                (*program).remaining(),
                line_num as int,
                column_num as int,
            ).line,
            goal.column == parse_scope(
                (*program).remaining(),
                line_num as int,
                column_num as int,
            ).column,
        invariant
            (*program).decrease() is Some,
            fuel == (*old(program)).decrease()->0,
        ensures
            ended ==> (*program).remaining().len() == 0,
            !ended ==> (*program).decrease()->0 <= fuel,
            goal.nodes == tree(out@),
            goal.rest == (*program).remaining(),
            goal.line == line_num,
            goal.column == column_num,
        decreases (*program).decrease()->0,
    {
        let ghost before = tree(out@);
        let ghost now = (*program).remaining();
        let ghost line0 = line_num as int;
        let ghost column0 = column_num as int;
        let next = program.next();
        if next.is_none() {
            assert(before + Seq::<Node>::empty() =~= before);
            ended = true;
            break ;
        }
        let part = next.unwrap();
        column_num += 1;
        match part {
            '[' => {
                let location = (line_num, column_num);
                let (body, line_after, column_after, body_ended) = parse_from(
                    program,
                    line_num,
                    column_num,
                );
                proof {
                    lemma_loop_model(body);
                    lemma_parse_scope_bounds(now.drop_first(), line0, column0 + 1);
                }
                let token = Tokens::new(OpCodes::Loop(body), location);
                out.push(token);
                line_num = line_after;
                column_num = column_after;
                proof {
                    let outer = parse_scope(
                        (*program).remaining(),
                        line_num as int,
                        column_num as int,
                    );
                    assert(tree(out@) =~= before.push(token.model()));
                    assert(tree(out@) + outer.nodes =~= before + (seq![token.model()]
                        + outer.nodes));
                }
                if body_ended {
                    assert(tree(out@) + Seq::<Node>::empty() =~= tree(out@));
                    ended = true;
                    break ;
                }
            },
            ']' => {
                assert(before + Seq::<Node>::empty() =~= before);
                break ;
            },
            '\n' => {
                line_num += 1;
                column_num = 0;
            },
            _ => {
                let code = match part {
                    '>' => Some(OpCodes::Inc(1)),
                    '<' => Some(OpCodes::Dec(1)),
                    '+' => Some(OpCodes::Add(1)),
                    '-' => Some(OpCodes::Sub(1)),
                    '.' => Some(OpCodes::Output),
                    ',' => Some(OpCodes::Input),
                    _ => None,  /* Comments probably */
                };
                if let Some(code) = code {
                    let token = Tokens::new(code, (line_num, column_num));
                    out.push(token);
                    proof {
                        let outer = parse_scope(
                            (*program).remaining(),
                            line_num as int,
                            column_num as int,
                        );
                        assert(tree(out@) =~= before.push(token.model()));
                        assert(tree(out@) + outer.nodes =~= before + (seq![token.model()]
                            + outer.nodes));
                    }
                }
            },
        }
    }
    (out, line_num, column_num, ended)
}

/// Parses what `program` has still to yield into an instruction tree.
///
/// Counting starts at line `line_num` (1 where none is given) and column
/// `column_num` (0 where none is given), and goes on through nested scopes
/// and behind them. Parsing ends with the text or with the first `]` that
/// closes no `[`; the iterator is left behind what was read.
pub fn generate_ast(
    program: &mut Chars,
    line_num: Option<u32>,
    column_num: Option<u32>,
) -> (out: Vec<Tokens>)
    requires
        (*old(program)).decrease() is Some,
        start_of(line_num, 1) + (*old(program)).remaining().len() <= u32::MAX,
        start_of(column_num, 0) + (*old(program)).remaining().len() <= u32::MAX,
    ensures
        tree(out@) == parse_scope(
            (*old(program)).remaining(),
            start_of(line_num, 1) as int,
            start_of(column_num, 0) as int,
        ).nodes,
        (*final(program)).remaining() == parse_scope(
            (*old(program)).remaining(),
            start_of(line_num, 1) as int,
            start_of(column_num, 0) as int,
        ).rest,
{
    let line_num = match line_num {
        Some(i) => i,
        None => 1,
    };
    let column_num = match column_num {
        Some(i) => i,
        None => 0,
    };
    let (out, _, _, _) = parse_from(program, line_num, column_num);
    out
}

/// The given start, or the default where none is given.
pub open spec fn start_of(given: Option<u32>, default: u32) -> u32 {
    match given {
        Some(i) => i,
        None => default,
    }
}

} // verus!
