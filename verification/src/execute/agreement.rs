//! A session does what the interpreter does.
//!
//! The interpreter is given the whole input and carries a program out in one
//! go; a session is taken through the same program step by step by a driver
//! that serves it. Here the driver is modelled, and it is shown that it ends
//! where the interpreter ends, with the same tape, input and output.

use vstd::prelude::*;
use crate::execute::interpret::{apply, execute, execute_from, execute_loop, Outcome, Run, Stop};
use crate::execute::machine::{written, RuntimeError};
use crate::execute::session::{
    advanced, fed, lemma_scope_at_prefix, next_of, on_program, scope_at, step_of, Action, Next,
    State,
};
use crate::parse::opcodes::{Node, Op};

verus! {

/// A session together with what its driver keeps: how many input bytes are
/// used up, and the characters written so far.
pub ghost struct Play {
    pub state: State,
    pub consumed: int,
    pub output: Seq<char>,
}

/// Where a driver has got to, and how the run came to its end, if it has.
pub ghost struct Played {
    pub halted: Option<Stop>,
    pub at: Play,
}

/// One step of a driver that serves a session from `input`: a character to
/// be written is appended to the output, a byte to be read is taken from the
/// input and fed, and where none is left the run ends with `EndOfInput`.
pub open spec fn serve(from: Play, input: Seq<u8>) -> Played {
    let next = step_of(from.state).1;
    match step_of(from.state).0 {
        None => Played { halted: None, at: Play { state: next, ..from } },
        Some(Action::Write(c)) => Played {
            halted: None,
            at: Play { state: next, output: from.output.push(c), ..from },
        },
        Some(Action::Read) => if 0 <= from.consumed < input.len() {
            Played {
                halted: None,
                at: Play {
                    state: fed(from.state, input[from.consumed]),
                    consumed: from.consumed + 1,
                    ..from
                },
            }
        } else {
            Played { halted: Some(Stop::Fault(RuntimeError::EndOfInput)), at: from }
        },
        Some(Action::Done) => Played { halted: Some(Stop::Done), at: from },
        Some(Action::Fault(fault)) => Played { halted: Some(Stop::Fault(fault)), at: from },
        Some(Action::Pause) => Played { halted: None, at: from },
    }
}

/// What a driver has done after `steps` steps, or when the run ended, if
/// that was earlier.
pub open spec fn play(from: Play, input: Seq<u8>, steps: nat) -> Played
    decreases steps,
{
    if steps == 0 {
        Played { halted: None, at: from }
    } else if serve(from, input).halted is None {
        play(serve(from, input).at, input, (steps - 1) as nat)
    } else {
        serve(from, input)
    }
}

/// The driver at `path` of `program`, with the tape, input and output of
/// `run`.
pub open spec fn at(program: Seq<Node>, path: Seq<int>, run: Run) -> Play {
    Play {
        state: State { program, path, tape: run.tape },
        consumed: run.consumed,
        output: run.output,
    }
}

/// The driver has come to the end that `outcome` describes.
pub open spec fn ended_as(played: Played, outcome: Outcome) -> bool {
    &&& played.halted == Some(outcome.stop)
    &&& played.at.state.tape == outcome.run.tape
    &&& played.at.consumed == outcome.run.consumed
    &&& played.at.output == outcome.run.output
}

/// One step of playing is one step of serving.
proof fn lemma_play_one(from: Play, input: Seq<u8>)
    ensures
        play(from, input, 1) == serve(from, input),
{
    assert(play(serve(from, input).at, input, 0) == (Played {
        halted: None,
        at: serve(from, input).at,
    }));
}

/// Steps can be taken in two goes.
proof fn lemma_play_add(from: Play, input: Seq<u8>, first: nat, second: nat)
    requires
        play(from, input, first).halted is None,
    ensures
        play(from, input, first + second) == play(play(from, input, first).at, input, second),
    decreases first,
{
    if first > 0 {
        lemma_play_add(serve(from, input).at, input, (first - 1) as nat, second);
    }
}

/// A path keeps its scopes when its last index changes or an index is put
/// behind it.
proof fn lemma_scopes_kept(program: Seq<Node>, path: Seq<int>, other: Seq<int>)
    requires
        path.len() >= 1,
        other.len() >= path.len(),
        forall|d: int| 0 <= d < path.len() - 1 ==> path[d] == other[d],
    ensures
        forall|d: int| 0 <= d < path.len() ==> scope_at(program, other, d) == scope_at(
            program,
            path,
            d,
        ),
{
    assert forall|d: int| 0 <= d < path.len() implies scope_at(program, other, d) == scope_at(
        program,
        path,
        d,
    ) by {
        lemma_scope_at_prefix(program, path, other, d);
    }
}

/// Moving on inside a scope stays on the program.
proof fn lemma_advanced_on_program(program: Seq<Node>, path: Seq<int>)
    requires
        on_program(program, path),
        path.last() < scope_at(program, path, path.len() - 1).len(),
    ensures
        on_program(program, advanced(path)),
        scope_at(program, advanced(path), path.len() - 1) == scope_at(
            program,
            path,
            path.len() - 1,
        ),
        advanced(path).len() == path.len(),
        advanced(path).last() == path.last() + 1,
        advanced(path).drop_last() == path.drop_last(),
{
    let after = advanced(path);
    lemma_scopes_kept(program, path, after);
    assert forall|d: int| 0 <= d < after.len() - 1 implies 0 <= #[trigger] after[d] < scope_at(
        program,
        after,
        d,
    ).len() && scope_at(program, after, d)[after[d]].op is Loop by {
        assert(after[d] == path[d]);
    }
    assert(after.drop_last() =~= path.drop_last());
}

/// Going into a loop stays on the program.
proof fn lemma_entered_on_program(program: Seq<Node>, path: Seq<int>, body: Seq<Node>)
    requires
        on_program(program, path),
        path.last() < scope_at(program, path, path.len() - 1).len(),
        scope_at(program, path, path.len() - 1)[path.last()].op == Op::Loop(body),
    ensures
        on_program(program, path.push(0)),
        scope_at(program, path.push(0), path.len() as int) == body,
        path.push(0).drop_last() == path,
        forall|k: int| #[trigger] path.push(0).drop_last().push(k).drop_last() == path,
{
    let inside = path.push(0);
    lemma_scopes_kept(program, path, inside);
    assert(inside[path.len() - 1] == path.last());
    assert forall|d: int| 0 <= d < inside.len() - 1 implies 0 <= #[trigger] inside[d]
        < scope_at(program, inside, d).len() && scope_at(program, inside, d)[inside[d]].op
        is Loop by {
        assert(inside[d] == path[d]);
    }
    assert(inside.drop_last() =~= path);
    assert forall|k: int| #[trigger] path.push(0).drop_last().push(k).drop_last() == path by {
        assert(path.push(0).drop_last().push(k).drop_last() =~= path);
    }
}

/// The driver carries out the rest of a scope as the interpreter does: it
/// comes to the end of the scope with the same tape, input and output, or
/// it ends with the same fault.
proof fn lemma_scope(
    program: Seq<Node>,
    path: Seq<int>,
    run: Run,
    input: Seq<u8>,
    fuel: nat,
) -> (steps: nat)
    requires
        on_program(program, path),
        !(execute_from(
            scope_at(program, path, path.len() - 1),
            path.last(),
            run,
            input,
            fuel,
        ).stop is OutOfFuel),
    ensures
        ({
            let scope = scope_at(program, path, path.len() - 1);
            let outcome = execute_from(scope, path.last(), run, input, fuel);
            let played = play(at(program, path, run), input, steps);
            if outcome.stop is Done {
                played == (Played {
                    halted: None,
                    at: at(program, path.drop_last().push(scope.len() as int), outcome.run),
                })
            } else {
                ended_as(played, outcome)
            }
        }),
    decreases fuel, scope_at(program, path, path.len() - 1), scope_at(
        program,
        path,
        path.len() - 1,
    ).len() - path.last(),
{
    let scope = scope_at(program, path, path.len() - 1);
    let i = path.last();
    let from = at(program, path, run);
    if i >= scope.len() {
        assert(path.drop_last().push(scope.len() as int) =~= path);
        return 0;
    }
    let node = scope[i];
    let onward = advanced(path);
    lemma_play_one(from, input);
    lemma_advanced_on_program(program, path);
    assert(onward.drop_last().push(scope.len() as int) =~= path.drop_last().push(
        scope.len() as int,
    ));
    match node.op {
        Op::Loop(body) => {
            let first = execute_loop(body, run, input, fuel);
            if run.tape.cell() == 0 {
                let rest = lemma_scope(program, onward, run, input, fuel);
                assert(play(from, input, 1) == (Played {
                    halted: None,
                    at: at(program, onward, run),
                }));
                lemma_play_add(from, input, 1, rest);
                return 1 + rest;
            }
            lemma_entered_on_program(program, path, body);
            let rounds = lemma_rounds(program, path, body, run, input, fuel);
            assert(play(from, input, 1) == (Played {
                halted: None,
                at: at(program, path.push(0), run),
            }));
            lemma_play_add(from, input, 1, rounds);
            if first.stop is Done {
                let rest = lemma_scope(program, onward, first.run, input, fuel);
                lemma_play_add(from, input, 1 + rounds, rest);
                return 1 + rounds + rest;
            }
            return 1 + rounds;
        },
        Op::Output => {
            if written(run.tape.cell()) is Ok {
                let first = apply(node.op, run, input);
                let rest = lemma_scope(program, onward, first.run, input, fuel);
                assert(play(from, input, 1) == (Played {
                    halted: None,
                    at: at(program, onward, first.run),
                }));
                lemma_play_add(from, input, 1, rest);
                return 1 + rest;
            }
            return 1;
        },
        Op::Input => {
            if 0 <= run.consumed < input.len() {
                let first = apply(node.op, run, input);
                let rest = lemma_scope(program, onward, first.run, input, fuel);
                assert(play(from, input, 1) == (Played {
                    halted: None,
                    at: at(program, onward, first.run),
                }));
                lemma_play_add(from, input, 1, rest);
                return 1 + rest;
            }
            return 1;
        },
        _ => {
            let first = apply(node.op, run, input);
            let rest = lemma_scope(program, onward, first.run, input, fuel);
            assert(play(from, input, 1) == (Played {
                halted: None,
                at: at(program, onward, first.run),
            }));
            lemma_play_add(from, input, 1, rest);
            return 1 + rest;
        },
    }
}

/// The driver carries out the rounds of a loop that it has gone into as the
/// interpreter does: it comes out behind the loop with the same tape, input
/// and output, or it ends with the same fault.
proof fn lemma_rounds(
    program: Seq<Node>,
    path: Seq<int>,
    body: Seq<Node>,
    run: Run,
    input: Seq<u8>,
    fuel: nat,
) -> (steps: nat)
    requires
        on_program(program, path),
        path.last() < scope_at(program, path, path.len() - 1).len(),
        scope_at(program, path, path.len() - 1)[path.last()].op == Op::Loop(body),
        run.tape.cell() != 0,
        !(execute_loop(body, run, input, fuel).stop is OutOfFuel),
    ensures
        ({
            let outcome = execute_loop(body, run, input, fuel);
            let played = play(at(program, path.push(0), run), input, steps);
            if outcome.stop is Done {
                played == (Played { halted: None, at: at(program, advanced(path), outcome.run) })
            } else {
                ended_as(played, outcome)
            }
        }),
    decreases fuel, body, body.len() + 1,
{
    let inside = path.push(0);
    let from = at(program, inside, run);
    lemma_entered_on_program(program, path, body);
    let once = execute_from(body, 0, run, input, (fuel - 1) as nat);
    let through = lemma_scope(program, inside, run, input, (fuel - 1) as nat);
    if !(once.stop is Done) {
        return through;
    }
    let end = inside.drop_last().push(body.len() as int);
    let there = at(program, end, once.run);
    assert(end =~= path.push(body.len() as int));
    assert(end.drop_last() =~= path);
    lemma_scopes_kept(program, inside, end);
    assert(scope_at(program, end, end.len() - 1) == body);
    assert(next_of(program, end) == Next::End);
    lemma_play_one(there, input);
    if once.run.tape.cell() != 0 {
        assert(end.drop_last().push(0) =~= inside);
        assert(play(there, input, 1) == (Played {
            halted: None,
            at: at(program, inside, once.run),
        }));
        let more = lemma_rounds(program, path, body, once.run, input, (fuel - 1) as nat);
        lemma_play_add(from, input, through, 1);
        lemma_play_add(from, input, through + 1, more);
        return through + 1 + more;
    }
    assert(advanced(end.drop_last()) =~= advanced(path));
    assert(play(there, input, 1) == (Played {
        halted: None,
        at: at(program, advanced(path), once.run),
    }));
    lemma_play_add(from, input, through, 1);
    through + 1
}

/// Whatever the interpreter does with a program within its fuel, a driver
/// that serves a session from the same input does as well: after some
/// number of steps the session has ended in the same way, on the same tape,
/// with the same input used up and the same output written.
pub proof fn law_session_agrees_with_interpreter(
    program: Seq<Node>,
    run: Run,
    input: Seq<u8>,
    fuel: nat,
) -> (steps: nat)
    requires
        !(execute(program, run, input, fuel).stop is OutOfFuel),
    ensures
        ended_as(
            play(at(program, seq![0int], run), input, steps),
            execute(program, run, input, fuel),
        ),
{
    let path = seq![0int];
    let outcome = execute(program, run, input, fuel);
    assert(scope_at(program, path, 0) == program);
    let through = lemma_scope(program, path, run, input, fuel);
    if outcome.stop is Done {
        let end = path.drop_last().push(program.len() as int);
        let there = at(program, end, outcome.run);
        assert(scope_at(program, end, 0) == program);
        assert(next_of(program, end) == Next::End);
        lemma_play_one(there, input);
        assert(play(there, input, 1) == (Played { halted: Some(Stop::Done), at: there }));
        lemma_play_add(at(program, path, run), input, through, 1);
        through + 1
    } else {
        through
    }
}

} // verus!
