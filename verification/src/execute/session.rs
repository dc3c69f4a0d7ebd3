//! A run that can be taken up again.
//!
//! `interpret` needs the whole input before it starts and hands the output
//! over when it is done. A program that talks to a user cannot be run like
//! that, and one that never ends cannot be run at all. A `Session` carries
//! out a program step by step and stops wherever the outside world has to
//! act: it says what is to be written or that a byte is to be read, and goes
//! on when it is called again.

use vstd::prelude::*;
use crate::execute::machine::{written, Machine, RuntimeError, Tape};
use crate::parse::opcodes::{lemma_loop_model, tree, Node, Op, OpCodes, Tokens};

verus! {

/// Why a session stopped.
#[derive(Clone, Copy, Debug, PartialEq, Eq, Structural)]
pub enum Action {
    /// This character is to be written; then the session can go on.
    Write(char),
    /// A byte is to be read and handed to `feed`; then the session can go on.
    Read,
    /// The program is at its end.
    Done,
    /// The program cannot go on.
    Fault(RuntimeError),
    /// The steps that were allowed are used up; the session can go on.
    Pause,
}

/// What stands where a session has got to.
#[derive(Clone, Copy, Debug, PartialEq, Eq, Structural)]
pub enum Next {
    /// The end of a scope.
    End,
    /// A loop, not yet entered.
    Loop,
    Inc(u32),
    Dec(u32),
    Add(u32),
    Sub(u32),
    Clear,
    Output,
    Input,
}

/// The state of a session: the program, the place reached in it, and the
/// tape. The place is a path: the indices of the loops that the run is
/// inside of, from the outermost scope inwards, and last the index of the
/// instruction that comes next, in the innermost of these loops.
pub ghost struct State {
    pub program: Seq<Node>,
    pub path: Seq<int>,
    pub tape: Tape,
}

/// The scope that the index at `depth` of `path` counts in.
pub open spec fn scope_at(program: Seq<Node>, path: Seq<int>, depth: int) -> Seq<Node>
    decreases depth,
{
    if depth <= 0 {
        program
    } else {
        match scope_at(program, path, depth - 1)[path[depth - 1]].op {
            Op::Loop(body) => body,
            _ => Seq::empty(),
        }
    }
}

/// Every index of `path` but the last stands on a loop, and the last stands
/// on an instruction or at the end of its scope.
pub open spec fn on_program(program: Seq<Node>, path: Seq<int>) -> bool {
    &&& path.len() >= 1
    &&& forall|d: int|
        0 <= d < path.len() - 1 ==> 0 <= #[trigger] path[d] < scope_at(program, path, d).len()
            && scope_at(program, path, d)[path[d]].op is Loop
    &&& 0 <= path.last() <= scope_at(program, path, path.len() - 1).len()
}

/// The path one instruction further on in the innermost scope.
pub open spec fn advanced(path: Seq<int>) -> Seq<int> {
    path.drop_last().push(path.last() + 1)
}

/// What stands at the place that `path` leads to.
pub open spec fn next_of(program: Seq<Node>, path: Seq<int>) -> Next {
    let scope = scope_at(program, path, path.len() - 1);
    if path.last() >= scope.len() {
        Next::End
    } else {
        match scope[path.last()].op {
            Op::Loop(_) => Next::Loop,
            Op::Inc(n) => Next::Inc(n),
            Op::Dec(n) => Next::Dec(n),
            Op::Add(n) => Next::Add(n),
            Op::Sub(n) => Next::Sub(n),
            Op::Clear => Next::Clear,
            Op::Output => Next::Output,
            Op::Input => Next::Input,
        }
    }
}

/// One step of a session, and why it has to stop there, if it has.
///
/// At the end of a loop body the cell decides between another round and the
/// instruction behind the loop; at the end of the program the session is
/// done. A loop is entered or passed over as the cell decides. An output
/// stops the session with the character and goes on behind it; an input
/// stops the session where it is, for `feed` to go on. Anything else is
/// carried out.
pub open spec fn step_of(state: State) -> (Option<Action>, State) {
    let path = state.path;
    let tape = state.tape;
    match next_of(state.program, path) {
        Next::End => if path.len() <= 1 {
            (Some(Action::Done), state)
        } else if tape.cell() != 0 {
            (None, State { path: path.drop_last().push(0), ..state })
        } else {
            (None, State { path: advanced(path.drop_last()), ..state })
        },
        Next::Loop => if tape.cell() != 0 {
            (None, State { path: path.push(0), ..state })
        } else {
            (None, State { path: advanced(path), ..state })
        },
        Next::Inc(n) => (None, State { path: advanced(path), tape: tape.forward(n as int), ..state }),
        Next::Dec(n) => (
            None,
            State { path: advanced(path), tape: tape.backward(n as int), ..state },
        ),
        Next::Add(n) => (
            None,
            State {
                path: advanced(path),
                tape: tape.with_cell(tape.cell().wrapping_add(n)),
                ..state
            },
        ),
        Next::Sub(n) => (
            None,
            State {
                path: advanced(path),
                tape: tape.with_cell(tape.cell().wrapping_sub(n)),
                ..state
            },
        ),
        Next::Clear => (None, State { path: advanced(path), tape: tape.with_cell(0), ..state }),
        Next::Output => match written(tape.cell()) {
            Ok(c) => (Some(Action::Write(c)), State { path: advanced(path), ..state }),
            Err(fault) => (Some(Action::Fault(fault)), state),
        },
        Next::Input => (Some(Action::Read), state),
    }
}

/// Steps of a session until it has to stop, but no more than `budget`.
pub open spec fn steps_of(state: State, budget: nat) -> (Action, State)
    decreases budget,
{
    if budget == 0 {
        (Action::Pause, state)
    } else {
        match step_of(state).0 {
            Some(action) => (action, step_of(state).1),
            None => steps_of(step_of(state).1, (budget - 1) as nat),
        }
    }
}

/// What a byte handed in does: where an input stands next, the byte goes
/// into the cell and the session goes on behind the input; anywhere else
/// nothing happens.
pub open spec fn fed(state: State, byte: u8) -> State {
    if next_of(state.program, state.path) == Next::Input {
        State {
            path: advanced(state.path),
            tape: state.tape.with_cell(byte as u32),
            ..state
        }
    } else {
        state
    }
}

/// The indices of a path as the model has them.
pub open spec fn indices(path: Seq<usize>) -> Seq<int> {
    Seq::new(path.len(), |d: int| path[d] as int)
}

/// A program, the place that a run of it has reached, and its machine.
pub struct Session {
    program: Vec<Tokens>,
    path: Vec<usize>,
    machine: Machine,
}

impl View for Session {
    type V = State;

    closed spec fn view(&self) -> State {
        State { program: tree(self.program@), path: indices(self.path@), tape: self.machine@ }
    }
}

/// Two paths that agree up to a depth lead to the same scope there.
pub proof fn lemma_scope_at_prefix(program: Seq<Node>, path: Seq<int>, other: Seq<int>, depth: int)
    requires
        0 <= depth <= path.len(),
        depth <= other.len(),
        forall|d: int| 0 <= d < depth ==> path[d] == other[d],
    ensures
        scope_at(program, path, depth) == scope_at(program, other, depth),
    decreases depth,
{
    if depth > 0 {
        lemma_scope_at_prefix(program, path, other, depth - 1);
    }
}

/// The scope that the last index of `path` counts in.
fn innermost<'a>(program: &'a Vec<Tokens>, path: &Vec<usize>) -> (scope: &'a Vec<Tokens>)
    requires
        on_program(tree(program@), indices(path@)),
    ensures
        tree(scope@) == scope_at(tree(program@), indices(path@), path@.len() - 1),
{
    let ghost whole = tree(program@);
    let ghost way = indices(path@);
    let mut scope: &Vec<Tokens> = program;
    let mut depth: usize = 0;
    while depth + 1 < path.len()
        invariant
            depth < path.len(),
            whole == tree(program@),
            way == indices(path@),
            on_program(whole, way),
            tree(scope@) == scope_at(whole, way, depth as int),
        decreases path.len() - depth,
    {
        let index = path[depth];
        assert(way[depth as int] == index);
        assert(tree(scope@)[index as int] == scope@[index as int].model());
        match scope[index].get_type() {
            OpCodes::Loop(body) => {
                proof {
                    lemma_loop_model(*body);
                }
                scope = body;
            },
            _ => {
                assert(false);
            },
        }
        depth += 1;
    }
    scope
}

/// What stands at the place that `path` leads to.
fn peek(program: &Vec<Tokens>, path: &Vec<usize>) -> (next: Next)
    requires
        on_program(tree(program@), indices(path@)),
    ensures
        next == next_of(tree(program@), indices(path@)),
        next != Next::End ==> indices(path@).last() < usize::MAX,
{
    let scope = innermost(program, path);
    let index = path[path.len() - 1];
    assert(indices(path@).last() == index);
    if index >= scope.len() {
        Next::End
    } else {
        assert(tree(scope@)[index as int] == scope@[index as int].model());
        match scope[index].get_type() {
            OpCodes::Loop(_) => Next::Loop,
            OpCodes::Inc(n) => Next::Inc(*n),
            OpCodes::Dec(n) => Next::Dec(*n),
            OpCodes::Add(n) => Next::Add(*n),
            OpCodes::Sub(n) => Next::Sub(*n),
            OpCodes::Clear => Next::Clear,
            OpCodes::Output => Next::Output,
            OpCodes::Input => Next::Input,
        }
    }
}

/// Moves the last index of `path` one on.
fn advance(path: &mut Vec<usize>, Ghost(program): Ghost<Seq<Node>>)
    requires
        on_program(program, indices(old(path)@)),
        indices(old(path)@).last() < scope_at(
            program,
            indices(old(path)@),
            old(path)@.len() - 1,
        ).len(),
        indices(old(path)@).last() < usize::MAX,
    ensures
        indices(final(path)@) == advanced(indices(old(path)@)),
        on_program(program, indices(final(path)@)),
{
    let last = path.len() - 1;
    let index = path[last];
    let ghost before = indices(path@);
    assert(before.last() == index);
    path.set(last, index + 1);
    proof {
        let after = indices(path@);
        assert(after =~= advanced(before));
        assert forall|d: int| 0 <= d < after.len() implies scope_at(program, after, d)
            == scope_at(program, before, d) by {
            lemma_scope_at_prefix(program, after, before, d);
        }
        assert forall|d: int| 0 <= d < after.len() - 1 implies 0 <= #[trigger] after[d]
            < scope_at(program, after, d).len() && scope_at(program, after, d)[after[d]].op
            is Loop by {
            assert(after[d] == before[d]);
        }
    }
}

impl Session {
    /// The place reached lies on the program. Every session is made so and
    /// stays so.
    pub closed spec fn wf(self) -> bool {
        on_program(tree(self.program@), indices(self.path@))
    }

    /// A session at the start of `program`, on `machine`.
    pub fn new(program: Vec<Tokens>, machine: Machine) -> (session: Self)
        ensures
            session@ == (State { program: tree(program@), path: seq![0int], tape: machine@ }),
            session.wf(),
    {
        let mut path: Vec<usize> = Vec::new();
        path.push(0);
        assert(indices(path@) =~= seq![0int]);
        Session { program, path, machine }
    }

    /// The machine as it stands.
    pub fn machine(&self) -> (machine: &Machine)
        ensures
            machine@ == self@.tape,
    {
        &self.machine
    }

    /// Hands in a byte that was read. It is taken where the session stands
    /// on an input, and only there.
    pub fn feed(&mut self, byte: u8) -> (taken: bool)
        requires
            old(self).wf(),
        ensures
            final(self).wf(),
            final(self)@ == fed(old(self)@, byte),
            taken == (next_of(old(self)@.program, old(self)@.path) == Next::Input),
    {
        match peek(&self.program, &self.path) {
            Next::Input => {
                self.machine.input(byte);
                advance(&mut self.path, Ghost(tree(self.program@)));
                true
            },
            _ => false,
        }
    }

    /// Goes on until something has to be written or read, the program is at
    /// its end or cannot go on, or `budget` steps are done.
    pub fn resume(&mut self, budget: u64) -> (action: Action)
        requires
            old(self).wf(),
        ensures
            final(self).wf(),
            (action, final(self)@) == steps_of(old(self)@, budget as nat),
    {
        let ghost program = tree(self.program@);
        let ghost goal = steps_of(self@, budget as nat);
        let mut left: u64 = budget;
        while left > 0
            invariant
                program == tree(self.program@),
                on_program(program, indices(self.path@)),
                goal == steps_of(old(self)@, budget as nat),
                goal == steps_of(self@, left as nat),
            decreases left,
        {
            left -= 1;
            let ghost state = self@;
            let ghost way = indices(self.path@);
            match peek(&self.program, &self.path) {
                Next::End => {
                    if self.path.len() <= 1 {
                        return Action::Done;
                    }
                    self.path.pop();
                    proof {
                        let up = indices(self.path@);
                        assert(up =~= way.drop_last());
                        assert forall|d: int| 0 <= d < up.len() implies scope_at(program, up, d)
                            == scope_at(program, way, d) by {
                            lemma_scope_at_prefix(program, up, way, d);
                        }
                        assert forall|d: int| 0 <= d < up.len() - 1 implies 0 <= #[trigger] up[d]
                            < scope_at(program, up, d).len() && scope_at(program, up, d)[up[d]].op
                            is Loop by {
                            assert(up[d] == way[d]);
                        }
                        assert(up.last() == way[up.len() - 1]);
                    }
                    if self.machine.get_byte() != 0 {
                        enter(&mut self.path, Ghost(program));
                    } else {
                        let stands = peek(&self.program, &self.path);
                        advance(&mut self.path, Ghost(program));
                    }
                },
                Next::Loop => {
                    if self.machine.get_byte() != 0 {
                        enter(&mut self.path, Ghost(program));
                    } else {
                        advance(&mut self.path, Ghost(program));
                    }
                },
                Next::Inc(n) => {
                    self.machine.increment(n as usize);
                    advance(&mut self.path, Ghost(program));
                },
                Next::Dec(n) => {
                    self.machine.decrement(n as usize);
                    advance(&mut self.path, Ghost(program));
                },
                Next::Add(n) => {
                    self.machine.add(n);
                    advance(&mut self.path, Ghost(program));
                },
                Next::Sub(n) => {
                    self.machine.sub(n);
                    advance(&mut self.path, Ghost(program));
                },
                Next::Clear => {
                    self.machine.set_byte(0);
                    advance(&mut self.path, Ghost(program));
                },
                Next::Output => {
                    match self.machine.output() {
                        Ok(c) => {
                            advance(&mut self.path, Ghost(program));
                            return Action::Write(c);
                        },
                        Err(fault) => {
                            return Action::Fault(fault);
                        },
                    }
                },
                Next::Input => {
                    return Action::Read;
                },
            }
        }
        Action::Pause
    }
}

/// Takes `path` into the loop that its last index stands on.
fn enter(path: &mut Vec<usize>, Ghost(program): Ghost<Seq<Node>>)
    requires
        on_program(program, indices(old(path)@)),
        indices(old(path)@).last() < scope_at(
            program,
            indices(old(path)@),
            old(path)@.len() - 1,
        ).len(),
        scope_at(program, indices(old(path)@), old(path)@.len() - 1)[indices(
            old(path)@,
        ).last()].op is Loop,
    ensures
        indices(final(path)@) == indices(old(path)@).push(0),
        on_program(program, indices(final(path)@)),
{
    let ghost before = indices(path@);
    path.push(0);
    proof {
        let after = indices(path@);
        assert(after =~= before.push(0));
        assert forall|d: int| 0 <= d < before.len() implies scope_at(program, after, d)
            == scope_at(program, before, d) by {
            lemma_scope_at_prefix(program, after, before, d);
        }
        assert forall|d: int| 0 <= d < after.len() - 1 implies 0 <= #[trigger] after[d]
            < scope_at(program, after, d).len() && scope_at(program, after, d)[after[d]].op
            is Loop by {
            assert(after[d] == before[d]);
        }
    }
}

} // verus!
