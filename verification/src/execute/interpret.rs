//! What a program does, and the interpreter that does it.
//!
//! Reading and writing are kept outside: the input is handed in as bytes,
//! together with how many of them are used up, and what is written is
//! collected. A loop may run for ever, so every run is given fuel: each
//! round of a loop uses one unit for itself and for what runs inside it.

use vstd::prelude::*;
use crate::execute::machine::{Machine, RuntimeError, Tape, written};
use crate::parse::opcodes::{OpCodes, Tokens, Op, Node, tree, lemma_loop_model};

verus! {

/// How a run came to its end.
#[derive(Clone, Copy, Debug, PartialEq, Eq, Structural)]
pub enum Stop {
    /// Every instruction was carried out.
    Done,
    /// An instruction failed; the run ended before it.
    Fault(RuntimeError),
    /// A loop wanted one more round than the fuel allowed.
    OutOfFuel,
}

/// The state of a run: the tape, how many input bytes are used up, and the
/// characters written so far.
pub ghost struct Run {
    pub tape: Tape,
    pub consumed: int,
    pub output: Seq<char>,
}

/// The end of a run and the state it ended in.
pub ghost struct Outcome {
    pub stop: Stop,
    pub run: Run,
}

/// The run of a fresh machine of `size` cells: nothing read, nothing written.
pub open spec fn start(size: int) -> Run {
    Run { tape: Tape::fresh(size), consumed: 0, output: Seq::empty() }
}

/// What one instruction other than a loop does to the state of a run.
pub open spec fn apply(op: Op, run: Run, input: Seq<u8>) -> Outcome {
    match op {
        Op::Inc(n) => Outcome {
            stop: Stop::Done,
            run: Run { tape: run.tape.forward(n as int), ..run },
        },
        Op::Dec(n) => Outcome {
            stop: Stop::Done,
            run: Run { tape: run.tape.backward(n as int), ..run },
        },
        Op::Add(n) => Outcome {
            stop: Stop::Done,
            run: Run { tape: run.tape.with_cell(run.tape.cell().wrapping_add(n)), ..run },
        },
        Op::Sub(n) => Outcome {
            stop: Stop::Done,
            run: Run { tape: run.tape.with_cell(run.tape.cell().wrapping_sub(n)), ..run },
        },
        Op::Clear => Outcome {
            stop: Stop::Done,
            run: Run { tape: run.tape.with_cell(0), ..run },
        },
        Op::Output => match written(run.tape.cell()) {
            Ok(c) => Outcome { stop: Stop::Done, run: Run { output: run.output.push(c), ..run } },
            Err(fault) => Outcome { stop: Stop::Fault(fault), run },
        },
        Op::Input => if 0 <= run.consumed < input.len() {
            Outcome {
                stop: Stop::Done,
                run: Run {
                    tape: run.tape.with_cell(input[run.consumed] as u32),
                    consumed: run.consumed + 1,
                    ..run
                },
            }
        } else {
            Outcome { stop: Stop::Fault(RuntimeError::EndOfInput), run }
        },
        Op::Loop(_) => Outcome { stop: Stop::Done, run },
    }
}

/// Carries out the nodes of `scope` from index `i` on, in order, until one
/// of them does not end well.
pub open spec fn execute_from(
    scope: Seq<Node>,
    i: int,
    run: Run,
    input: Seq<u8>,
    fuel: nat,
) -> Outcome
    decreases fuel, scope, scope.len() - i,
{
    if 0 <= i < scope.len() {
        let first = match scope[i].op {
            Op::Loop(body) => execute_loop(body, run, input, fuel),
            op => apply(op, run, input),
        };
        if first.stop is Done {
            execute_from(scope, i + 1, first.run, input, fuel)
        } else {
            first
        }
    } else {
        Outcome { stop: Stop::Done, run }
    }
}

/// Carries out `body` again and again for as long as the cell under the
/// pointer is not zero.
pub open spec fn execute_loop(body: Seq<Node>, run: Run, input: Seq<u8>, fuel: nat) -> Outcome
    decreases fuel, body, body.len() + 1,
{
    if run.tape.cell() == 0 {
        Outcome { stop: Stop::Done, run }
    } else if fuel == 0 {
        Outcome { stop: Stop::OutOfFuel, run }
    } else {
        let once = execute_from(body, 0, run, input, (fuel - 1) as nat);
        if once.stop is Done {
            execute_loop(body, once.run, input, (fuel - 1) as nat)
        } else {
            once
        }
    }
}

/// What one node does: a loop runs, anything else is applied.
pub open spec fn step(node: Node, run: Run, input: Seq<u8>, fuel: nat) -> Outcome {
    match node.op {
        Op::Loop(body) => execute_loop(body, run, input, fuel),
        op => apply(op, run, input),
    }
}

/// Carries out a whole scope.
pub open spec fn execute(scope: Seq<Node>, run: Run, input: Seq<u8>, fuel: nat) -> Outcome {
    execute_from(scope, 0, run, input, fuel)
}

/// Carries out `ast` on `machine`.
///
/// An input instruction takes the byte at index `consumed` of `input` and
/// moves `consumed` on; where no byte is left the run ends with
/// `EndOfInput`. An output instruction appends its character to `output`;
/// where the cell holds no character the run ends with
/// `InvalidScalarValue`. Each round of a loop gets one unit of fuel less
/// than the round before; a round that is due with no fuel left ends the run
/// with `OutOfFuel`. Whatever the end, the machine, `consumed` and `output`
/// are left as they stood at that moment.
pub fn interpret(
    ast: &Vec<Tokens>,
    machine: &mut Machine,
    input: &[u8],
    consumed: &mut usize,
    output: &mut Vec<char>,
    fuel: u64,
) -> (stop: Stop)
    ensures
        (Outcome {
            stop,
            run: Run {
                tape: final(machine)@,
                consumed: *final(consumed) as int,
                output: final(output)@,
            },
        }) == execute(
            tree(ast@),
            Run { tape: old(machine)@, consumed: *old(consumed) as int, output: old(output)@ },
            input@,
            fuel as nat,
        ),
    decreases fuel, ast,
{
    let ghost scope = tree(ast@);
    let ghost goal = execute(
        scope,
        Run { tape: machine@, consumed: *consumed as int, output: output@ },
        input@,
        fuel as nat,
    );
    let mut i: usize = 0;
    while i < ast.len()
        invariant
            i <= ast.len(),
            scope == tree(ast@),
            goal == execute(
                scope,
                Run {
                    tape: old(machine)@,
                    consumed: *old(consumed) as int,
                    output: old(output)@,
                },
                input@,
                fuel as nat,
            ),
            goal == execute_from(
                scope,
                i as int,
                Run { tape: machine@, consumed: *consumed as int, output: output@ },
                input@,
                fuel as nat,
            ),
        decreases ast.len() - i,
    {
        let op = &ast[i];
        assert(scope[i as int] == op.model());
        match op.get_type() {
            OpCodes::Inc(x) => {
                machine.increment(*x as usize);
            },
            OpCodes::Dec(x) => {
                machine.decrement(*x as usize);
            },
            OpCodes::Clear => {
                machine.set_byte(0);
            },
            OpCodes::Add(x) => {
                machine.add(*x);
            },
            OpCodes::Sub(x) => {
                machine.sub(*x);
            },
            OpCodes::Input => {
                if *consumed < input.len() {
                    machine.input(input[*consumed]);
                    *consumed += 1;
                } else {
                    return Stop::Fault(RuntimeError::EndOfInput);
                }
            },
            OpCodes::Output => {
                match machine.output() {
                    Ok(c) => {
                        output.push(c);
                    },
                    Err(fault) => {
                        return Stop::Fault(fault);
                    },
                }
            },
            OpCodes::Loop(x) => {
                proof {
                    lemma_loop_model(*x);
                }
                let ghost body = tree(x@);
                let ghost turn = execute_loop(
                    body,
                    Run { tape: machine@, consumed: *consumed as int, output: output@ },
                    input@,
                    fuel as nat,
                );
                let mut left: u64 = fuel;
                while machine.get_byte() != 0
                    invariant
                        left <= fuel,
                        body == tree(x@),
                        i < ast.len(),
                        scope == tree(ast@),
                        goal == execute(
                            scope,
                            Run {
                                tape: old(machine)@,
                                consumed: *old(consumed) as int,
                                output: old(output)@,
                            },
                            input@,
                            fuel as nat,
                        ),
                        goal == if turn.stop is Done {
                            execute_from(scope, i + 1, turn.run, input@, fuel as nat)
                        } else {
                            turn
                        },
                        turn == execute_loop(
                            body,
                            Run { tape: machine@, consumed: *consumed as int, output: output@ },
                            input@,
                            left as nat,
                        ),
                    decreases left,
                {
                    if left == 0 {
                        return Stop::OutOfFuel;
                    }
                    left -= 1;
                    let once = interpret(x, machine, input, consumed, output, left);
                    match once {
                        Stop::Done => {},
                        _ => {
                            return once;
                        },
                    }
                }
            },
        }
        i += 1;
    }
    Stop::Done
}

} // verus!
