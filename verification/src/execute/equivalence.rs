//! The optimizer keeps what a program does.
//!
//! A pass may turn a run that never ends into one that ends (a loop that
//! cannot reach zero is folded into `Clear`, a loop without body is
//! dropped), so every statement here is about runs that the fuel suffices
//! for.

use vstd::prelude::*;
use vstd::arithmetic::div_mod::{
    lemma_add_mod_noop, lemma_mod_bound, lemma_small_mod, lemma_sub_mod_noop,
};
use crate::execute::interpret::{
    apply, execute, execute_from, execute_loop, start, step, Outcome, Run, Stop,
};
use crate::parse::ast::{lemma_parse_scope_bounds, parse_scope, place, simple_op};
use crate::parse::opcodes::{opposite_op, Node, Op};
use crate::parse::optimizer::{
    clear_node, clear_scope, contract_from, contraction, count_of, dead_code, dead_code_from,
    has_effect, is_clear_body, kept_len, lemma_clear_node_loop, lemma_run_rest_bound, optimized,
    run_rest, run_sum, same_kind, saturate, with_count, without_pure_tail, OptimizerStrategies,
};

verus! {

/// Carrying out an instruction leaves the pointer on the tape.
pub proof fn lemma_apply_wf(op: Op, run: Run, input: Seq<u8>)
    requires
        run.tape.wf(),
    ensures
        apply(op, run, input).run.tape.wf(),
        apply(op, run, input).run.tape.cells.len() == run.tape.cells.len(),
{
    let size = run.tape.cells.len() as int;
    match op {
        Op::Inc(n) => {
            lemma_mod_bound(run.tape.pointer + n, size);
        },
        Op::Dec(n) => {
            lemma_mod_bound(run.tape.pointer - n, size);
        },
        _ => {},
    }
}

/// Carrying out nodes leaves the pointer on the tape.
pub proof fn lemma_execute_from_wf(scope: Seq<Node>, i: int, run: Run, input: Seq<u8>, fuel: nat)
    requires
        run.tape.wf(),
    ensures
        execute_from(scope, i, run, input, fuel).run.tape.wf(),
        execute_from(scope, i, run, input, fuel).run.tape.cells.len() == run.tape.cells.len(),
    decreases fuel, scope, scope.len() - i,
{
    if 0 <= i < scope.len() {
        let first = step(scope[i], run, input, fuel);
        match scope[i].op {
            Op::Loop(body) => {
                lemma_execute_loop_wf(body, run, input, fuel);
            },
            op => {
                lemma_apply_wf(op, run, input);
            },
        }
        if first.stop is Done {
            lemma_execute_from_wf(scope, i + 1, first.run, input, fuel);
        }
    }
}

/// Running a loop leaves the pointer on the tape.
pub proof fn lemma_execute_loop_wf(body: Seq<Node>, run: Run, input: Seq<u8>, fuel: nat)
    requires
        run.tape.wf(),
    ensures
        execute_loop(body, run, input, fuel).run.tape.wf(),
        execute_loop(body, run, input, fuel).run.tape.cells.len() == run.tape.cells.len(),
    decreases fuel, body, body.len() + 1,
{
    if run.tape.cell() != 0 && fuel != 0 {
        let once = execute_from(body, 0, run, input, (fuel - 1) as nat);
        lemma_execute_from_wf(body, 0, run, input, (fuel - 1) as nat);
        if once.stop is Done {
            lemma_execute_loop_wf(body, once.run, input, (fuel - 1) as nat);
        }
    }
}

/// Nodes behind others are carried out as they would be alone.
pub proof fn lemma_execute_shift(
    front: Seq<Node>,
    back: Seq<Node>,
    j: int,
    run: Run,
    input: Seq<u8>,
    fuel: nat,
)
    requires
        0 <= j,
    ensures
        execute_from(front + back, front.len() + j, run, input, fuel) == execute_from(
            back,
            j,
            run,
            input,
            fuel,
        ),
    decreases back.len() - j,
{
    if j < back.len() {
        assert((front + back)[front.len() + j] == back[j]);
        let first = step(back[j], run, input, fuel);
        if first.stop is Done {
            lemma_execute_shift(front, back, j + 1, first.run, input, fuel);
        }
    }
}

/// A scope that starts with `node` does what `node` does, and then, if that
/// ended well, what the rest does.
pub proof fn lemma_execute_cons(node: Node, rest: Seq<Node>, run: Run, input: Seq<u8>, fuel: nat)
    ensures
        execute(seq![node] + rest, run, input, fuel) == if step(node, run, input, fuel).stop
            is Done {
            execute(rest, step(node, run, input, fuel).run, input, fuel)
        } else {
            step(node, run, input, fuel)
        },
{
    let first = step(node, run, input, fuel);
    assert((seq![node] + rest)[0] == node);
    if first.stop is Done {
        lemma_execute_shift(seq![node], rest, 0, first.run, input, fuel);
    }
}

// ---------------------------------------------------------------------------
// Clear-loop folding
// ---------------------------------------------------------------------------

/// A loop around a single add or subtract that comes to an end leaves the
/// cell at zero and nothing else changed.
pub proof fn lemma_zeroing_loop(inner: Node, run: Run, input: Seq<u8>, fuel: nat)
    requires
        inner.op is Add || inner.op is Sub,
        run.tape.wf(),
        !(execute_loop(seq![inner], run, input, fuel).stop is OutOfFuel),
    ensures
        execute_loop(seq![inner], run, input, fuel) == apply(Op::Clear, run, input),
    decreases fuel,
{
    let body = seq![inner];
    if run.tape.cell() == 0 {
        assert(run.tape.with_cell(0).cells =~= run.tape.cells);
    } else {
        let once = execute_from(body, 0, run, input, (fuel - 1) as nat);
        let first = apply(inner.op, run, input);
        assert(once == execute_from(body, 1, first.run, input, (fuel - 1) as nat));
        assert(once == first);
        lemma_apply_wf(inner.op, run, input);
        lemma_zeroing_loop(inner, once.run, input, (fuel - 1) as nat);
        assert(once.run.tape.with_cell(0).cells =~= run.tape.with_cell(0).cells);
    }
}

/// Clear-loop folding keeps every run that comes to an end, from index `i`
/// of a scope on.
pub proof fn lemma_clear_from(scope: Seq<Node>, i: int, run: Run, input: Seq<u8>, fuel: nat)
    requires
        0 <= i,
        run.tape.wf(),
        !(execute_from(scope, i, run, input, fuel).stop is OutOfFuel),
    ensures
        execute_from(clear_scope(scope), i, run, input, fuel) == execute_from(
            scope,
            i,
            run,
            input,
            fuel,
        ),
    decreases fuel, scope, scope.len() - i,
{
    if i < scope.len() {
        let node = scope[i];
        let first = step(node, run, input, fuel);
        assert(clear_scope(scope)[i] == clear_node(node));
        match node.op {
            Op::Loop(body) => {
                lemma_execute_loop_wf(body, run, input, fuel);
                if is_clear_body(body) {
                    assert(body =~= seq![body[0]]);
                    lemma_zeroing_loop(body[0], run, input, fuel);
                } else {
                    lemma_clear_node_loop(body, node.location);
                    lemma_clear_loop(body, run, input, fuel);
                }
            },
            op => {
                lemma_apply_wf(op, run, input);
            },
        }
        if first.stop is Done {
            lemma_clear_from(scope, i + 1, first.run, input, fuel);
        }
    }
}

/// Clear-loop folding of the body keeps every run of a loop that comes to an
/// end.
pub proof fn lemma_clear_loop(body: Seq<Node>, run: Run, input: Seq<u8>, fuel: nat)
    requires
        run.tape.wf(),
        !(execute_loop(body, run, input, fuel).stop is OutOfFuel),
    ensures
        execute_loop(clear_scope(body), run, input, fuel) == execute_loop(body, run, input, fuel),
    decreases fuel, body, body.len() + 1,
{
    if run.tape.cell() != 0 && fuel != 0 {
        let once = execute_from(body, 0, run, input, (fuel - 1) as nat);
        lemma_clear_from(body, 0, run, input, (fuel - 1) as nat);
        lemma_execute_from_wf(body, 0, run, input, (fuel - 1) as nat);
        if once.stop is Done {
            lemma_clear_loop(body, once.run, input, (fuel - 1) as nat);
        }
    }
}

// ---------------------------------------------------------------------------
// Dead-code elimination
// ---------------------------------------------------------------------------

/// No loop among the nodes of `scope` from index `i` on, at whatever depth,
/// has a body that opens with `Clear`. A loop is only entered on a cell that
/// is not zero, so there such a `Clear` does something, and dropping it
/// changes the program.
pub open spec fn loops_open_safely(scope: Seq<Node>, i: int) -> bool
    decreases scope, scope.len() - i,
{
    if 0 <= i < scope.len() {
        let here = match scope[i].op {
            Op::Loop(body) => (body.len() == 0 || !(body[0].op is Clear)) && loops_open_safely(
                body,
                0,
            ),
            _ => true,
        };
        here && loops_open_safely(scope, i + 1)
    } else {
        true
    }
}

/// There is no `Clear` among the nodes of `scope` from index `i` on, at
/// whatever depth: the program is made of the eight instructions of the
/// language alone.
pub open spec fn without_clear(scope: Seq<Node>, i: int) -> bool
    decreases scope, scope.len() - i,
{
    if 0 <= i < scope.len() {
        let here = match scope[i].op {
            Op::Loop(body) => without_clear(body, 0),
            Op::Clear => false,
            _ => true,
        };
        here && without_clear(scope, i + 1)
    } else {
        true
    }
}

/// In a program without `Clear` no loop body opens with one.
pub proof fn lemma_without_clear_opens_safely(scope: Seq<Node>, i: int)
    requires
        without_clear(scope, i),
    ensures
        loops_open_safely(scope, i),
    decreases scope, scope.len() - i,
{
    if 0 <= i < scope.len() {
        match scope[i].op {
            Op::Loop(body) => {
                assert(without_clear(body, 0));
                if body.len() > 0 {
                    assert(!(body[0].op is Clear));
                }
                lemma_without_clear_opens_safely(body, 0);
            },
            _ => {},
        }
        lemma_without_clear_opens_safely(scope, i + 1);
    }
}

/// A loop without body that comes to an end was never entered.
pub proof fn lemma_empty_loop(run: Run, input: Seq<u8>, fuel: nat)
    requires
        !(execute_loop(Seq::empty(), run, input, fuel).stop is OutOfFuel),
    ensures
        execute_loop(Seq::empty(), run, input, fuel) == (Outcome { stop: Stop::Done, run }),
    decreases fuel,
{
    if run.tape.cell() != 0 && fuel != 0 {
        let body = Seq::<Node>::empty();
        assert(execute_from(body, 0, run, input, (fuel - 1) as nat) == (Outcome {
            stop: Stop::Done,
            run,
        }));
        lemma_empty_loop(run, input, (fuel - 1) as nat);
    }
}

/// An add, subtract or move followed by its opposite with the same count
/// leaves everything as it was.
pub proof fn lemma_opposites_cancel(first: Op, second: Op, run: Run, input: Seq<u8>)
    requires
        run.tape.wf(),
        opposite_op(first) == Some(second),
    ensures
        apply(first, run, input).stop is Done,
        apply(second, apply(first, run, input).run, input) == (Outcome { stop: Stop::Done, run }),
{
    let size = run.tape.cells.len() as int;
    let after = apply(first, run, input).run;
    let back = apply(second, after, input).run;
    match first {
        Op::Inc(n) => {
            assert(((run.tape.pointer + n) % size - n) % size == run.tape.pointer) by {
                lemma_mod_inverse(run.tape.pointer, n as int, size);
            }
        },
        Op::Dec(n) => {
            assert(((run.tape.pointer - n) % size + n) % size == run.tape.pointer) by {
                lemma_mod_inverse_back(run.tape.pointer, n as int, size);
            }
        },
        _ => {
            assert(back.tape.cells =~= run.tape.cells);
        },
    }
}

/// Going `n` on and `n` back modulo `size` ends where it began.
proof fn lemma_mod_inverse(p: int, n: int, size: int)
    requires
        0 <= p < size,
    ensures
        ((p + n) % size - n) % size == p,
{
    lemma_sub_mod_noop(p + n, n, size);
    lemma_small_mod(p as nat, size as nat);
    vstd::arithmetic::div_mod::lemma_sub_mod_noop_right((p + n) % size, n, size);
}

/// Going `n` back and `n` on modulo `size` ends where it began.
proof fn lemma_mod_inverse_back(p: int, n: int, size: int)
    requires
        0 <= p < size,
    ensures
        ((p - n) % size + n) % size == p,
{
    lemma_add_mod_noop(p - n, n, size);
    lemma_small_mod(p as nat, size as nat);
    vstd::arithmetic::div_mod::lemma_add_mod_noop_right((p - n) % size, n, size);
}

/// Dead-code elimination keeps every run that comes to an end, from index
/// `i` of a scope on: for a scope in which no loop body opens with `Clear`
/// and which, where it opens with `Clear` itself, is started on a cell that
/// holds zero.
pub proof fn lemma_dead_code_from(scope: Seq<Node>, i: int, run: Run, input: Seq<u8>, fuel: nat)
    requires
        0 <= i,
        run.tape.wf(),
        loops_open_safely(scope, i),
        i == 0 && scope.len() > 0 && scope[0].op is Clear ==> run.tape.cell() == 0,
        !(execute_from(scope, i, run, input, fuel).stop is OutOfFuel),
    ensures
        execute(dead_code_from(scope, i), run, input, fuel) == execute_from(
            scope,
            i,
            run,
            input,
            fuel,
        ),
    decreases fuel, scope, scope.len() - i,
{
    if i < scope.len() {
        let node = scope[i];
        let first = step(node, run, input, fuel);
        match node.op {
            Op::Loop(body) => {
                lemma_execute_loop_wf(body, run, input, fuel);
                if body.len() == 0 {
                    assert(body =~= Seq::<Node>::empty());
                    lemma_empty_loop(run, input, fuel);
                    lemma_dead_code_from(scope, i + 1, run, input, fuel);
                } else {
                    let kept = Node {
                        op: Op::Loop(dead_code_from(body, 0)),
                        location: node.location,
                    };
                    lemma_dead_code_loop(body, run, input, fuel);
                    lemma_execute_cons(kept, dead_code_from(scope, i + 1), run, input, fuel);
                    if first.stop is Done {
                        lemma_dead_code_from(scope, i + 1, first.run, input, fuel);
                    }
                }
            },
            Op::Clear => {
                lemma_apply_wf(node.op, run, input);
                if i == 0 {
                    assert(run.tape.with_cell(0).cells =~= run.tape.cells);
                    assert(first.run == run);
                    lemma_dead_code_from(scope, i + 1, run, input, fuel);
                } else {
                    lemma_execute_cons(node, dead_code_from(scope, i + 1), run, input, fuel);
                    lemma_dead_code_from(scope, i + 1, first.run, input, fuel);
                }
            },
            Op::Add(_) | Op::Sub(_) | Op::Inc(_) | Op::Dec(_) => {
                lemma_apply_wf(node.op, run, input);
                if i + 1 < scope.len() && opposite_op(node.op) == Some(scope[i + 1].op) {
                    lemma_opposites_cancel(node.op, scope[i + 1].op, run, input);
                    let second = step(scope[i + 1], first.run, input, fuel);
                    assert(second == (Outcome { stop: Stop::Done, run }));
                    assert(execute_from(scope, i, run, input, fuel) == execute_from(
                        scope,
                        i + 1,
                        first.run,
                        input,
                        fuel,
                    ));
                    assert(execute_from(scope, i + 1, first.run, input, fuel) == execute_from(
                        scope,
                        i + 2,
                        run,
                        input,
                        fuel,
                    ));
                    assert(loops_open_safely(scope, i + 1));
                    lemma_dead_code_from(scope, i + 2, run, input, fuel);
                } else {
                    lemma_execute_cons(node, dead_code_from(scope, i + 1), run, input, fuel);
                    lemma_dead_code_from(scope, i + 1, first.run, input, fuel);
                }
            },
            _ => {
                lemma_apply_wf(node.op, run, input);
                lemma_execute_cons(node, dead_code_from(scope, i + 1), run, input, fuel);
                if first.stop is Done {
                    lemma_dead_code_from(scope, i + 1, first.run, input, fuel);
                }
            },
        }
    }
}

/// Dead-code elimination of the body keeps every run of a loop that comes to
/// an end, where neither the body nor a loop inside it opens with `Clear`.
pub proof fn lemma_dead_code_loop(body: Seq<Node>, run: Run, input: Seq<u8>, fuel: nat)
    requires
        run.tape.wf(),
        loops_open_safely(body, 0),
        body.len() == 0 || !(body[0].op is Clear),
        !(execute_loop(body, run, input, fuel).stop is OutOfFuel),
    ensures
        execute_loop(dead_code_from(body, 0), run, input, fuel) == execute_loop(
            body,
            run,
            input,
            fuel,
        ),
    decreases fuel, body, body.len() + 1,
{
    if run.tape.cell() != 0 && fuel != 0 {
        let once = execute_from(body, 0, run, input, (fuel - 1) as nat);
        lemma_dead_code_from(body, 0, run, input, (fuel - 1) as nat);
        lemma_execute_from_wf(body, 0, run, input, (fuel - 1) as nat);
        if once.stop is Done {
            lemma_dead_code_loop(body, once.run, input, (fuel - 1) as nat);
        }
    }
}

// ---------------------------------------------------------------------------
// Contraction
// ---------------------------------------------------------------------------

/// No run of one kind among the nodes of `scope` from index `i` on, at
/// whatever depth, has counts that add up to more than a count can hold.
/// Where they do, contraction cuts the sum off, and the program changes.
pub open spec fn sums_fit(scope: Seq<Node>, i: int) -> bool
    decreases scope, scope.len() - i,
{
    if 0 <= i < scope.len() {
        match scope[i].op {
            Op::Loop(body) => sums_fit(body, 0) && sums_fit(scope, i + 1),
            Op::Add(_) | Op::Sub(_) | Op::Inc(_) | Op::Dec(_) => {
                let j = i + 1 + run_rest(scope, i);
                proof {
                    lemma_run_rest_bound(scope, i);
                }
                run_sum(scope, i, j) <= u32::MAX && sums_fit(scope, j)
            },
            _ => sums_fit(scope, i + 1),
        }
    } else {
        true
    }
}

/// Every node of a run is of the kind of its first node, and the run goes
/// on from it as far as it went on from the first.
proof fn lemma_run_same_kind(scope: Seq<Node>, i: int, k: int)
    requires
        0 <= i <= k <= i + run_rest(scope, i),
        i < scope.len(),
        same_kind(scope[i].op, scope[i].op),
    ensures
        k < scope.len(),
        same_kind(scope[i].op, scope[k].op),
        run_rest(scope, i) == (k - i) + run_rest(scope, k),
    decreases k - i,
{
    if i < k {
        lemma_run_same_kind(scope, i + 1, k);
    }
}

/// The sum of counts grows with the stretch that is summed.
proof fn lemma_run_sum_grows(scope: Seq<Node>, i: int, j: int)
    requires
        i <= j,
    ensures
        0 <= run_sum(scope, i, j),
        i < j ==> run_sum(scope, i, j - 1) <= run_sum(scope, i, j),
    decreases j - i,
{
    if i < j {
        lemma_run_sum_grows(scope, i, j - 1);
    }
}

/// Two instructions of one kind in a row do what one instruction of that
/// kind with the sum of the counts does, as long as the sum is a count.
proof fn lemma_merge_two(op: Op, a: u32, b: u32, run: Run, input: Seq<u8>)
    requires
        same_kind(op, op),
        a + b <= u32::MAX,
        run.tape.wf(),
    ensures
        apply(with_count(op, a), run, input).stop is Done,
        apply(with_count(op, b), apply(with_count(op, a), run, input).run, input) == apply(
            with_count(op, (a + b) as u32),
            run,
            input,
        ),
{
    let size = run.tape.cells.len() as int;
    let p = run.tape.pointer;
    let once = apply(with_count(op, a), run, input).run;
    let twice = apply(with_count(op, b), once, input).run;
    let merged = apply(with_count(op, (a + b) as u32), run, input).run;
    match op {
        Op::Inc(_) => {
            vstd::arithmetic::div_mod::lemma_add_mod_noop_right(b as int, p + a, size);
        },
        Op::Dec(_) => {
            lemma_sub_mod_noop(p - a, b as int, size);
            vstd::arithmetic::div_mod::lemma_sub_mod_noop_right((p - a) % size, b as int, size);
        },
        _ => {
            assert(twice.tape.cells =~= merged.tape.cells);
        },
    }
}

/// A stretch of a run does what one instruction of its kind with the sum of
/// its counts does, as long as the sum is a count.
proof fn lemma_run_executes(scope: Seq<Node>, i: int, k: int, run: Run, input: Seq<u8>, fuel: nat)
    requires
        0 <= i < k <= i + 1 + run_rest(scope, i),
        i < scope.len(),
        same_kind(scope[i].op, scope[i].op),
        run_sum(scope, i, k) <= u32::MAX,
        run.tape.wf(),
    ensures
        execute_from(scope, i, run, input, fuel) == execute_from(
            scope,
            k,
            apply(with_count(scope[i].op, run_sum(scope, i, k) as u32), run, input).run,
            input,
            fuel,
        ),
    decreases k - i,
{
    let op = scope[i].op;
    if k == i + 1 {
        assert(run_sum(scope, i, i) == 0);
        assert(run_sum(scope, i, k) == count_of(op));
        assert(with_count(op, count_of(op) as u32) == op);
    } else {
        lemma_run_sum_grows(scope, i, k);
        lemma_run_sum_grows(scope, i, k - 1);
        lemma_run_executes(scope, i, k - 1, run, input, fuel);
        lemma_run_same_kind(scope, i, k - 1);
        let before = run_sum(scope, i, k - 1) as u32;
        let last = scope[k - 1].op;
        let count = count_of(last) as u32;
        assert(with_count(op, count) == last);
        lemma_merge_two(op, before, count, run, input);
        let reached = apply(with_count(op, before), run, input).run;
        assert(step(scope[k - 1], reached, input, fuel) == apply(last, reached, input));
    }
}

/// Contraction keeps every run that comes to an end, from index `i` of a
/// scope on, where the sums of the runs are counts.
pub proof fn lemma_contract_from(scope: Seq<Node>, i: int, run: Run, input: Seq<u8>, fuel: nat)
    requires
        0 <= i,
        run.tape.wf(),
        sums_fit(scope, i),
        !(execute_from(scope, i, run, input, fuel).stop is OutOfFuel),
    ensures
        execute(contract_from(scope, i), run, input, fuel) == execute_from(
            scope,
            i,
            run,
            input,
            fuel,
        ),
    decreases fuel, scope, scope.len() - i,
{
    if i < scope.len() {
        let node = scope[i];
        let first = step(node, run, input, fuel);
        match node.op {
            Op::Loop(body) => {
                let kept = Node {
                    op: Op::Loop(contract_from(body, 0)),
                    location: node.location,
                };
                lemma_execute_loop_wf(body, run, input, fuel);
                lemma_contract_loop(body, run, input, fuel);
                lemma_execute_cons(kept, contract_from(scope, i + 1), run, input, fuel);
                if first.stop is Done {
                    lemma_contract_from(scope, i + 1, first.run, input, fuel);
                }
            },
            Op::Add(_) | Op::Sub(_) | Op::Inc(_) | Op::Dec(_) => {
                let j = i + 1 + run_rest(scope, i);
                lemma_run_rest_bound(scope, i);
                lemma_run_sum_grows(scope, i, j);
                let total = run_sum(scope, i, j) as u32;
                let merged = Node { op: with_count(node.op, total), location: node.location };
                assert(saturate(run_sum(scope, i, j)) == total);
                lemma_run_executes(scope, i, j, run, input, fuel);
                lemma_apply_wf(merged.op, run, input);
                let reached = apply(merged.op, run, input).run;
                assert(step(merged, run, input, fuel) == apply(merged.op, run, input));
                lemma_execute_cons(merged, contract_from(scope, j), run, input, fuel);
                lemma_contract_from(scope, j, reached, input, fuel);
            },
            _ => {
                lemma_apply_wf(node.op, run, input);
                lemma_execute_cons(node, contract_from(scope, i + 1), run, input, fuel);
                if first.stop is Done {
                    lemma_contract_from(scope, i + 1, first.run, input, fuel);
                }
            },
        }
    }
}

/// Contraction of the body keeps every run of a loop that comes to an end,
/// where the sums of the runs in the body are counts.
pub proof fn lemma_contract_loop(body: Seq<Node>, run: Run, input: Seq<u8>, fuel: nat)
    requires
        run.tape.wf(),
        sums_fit(body, 0),
        !(execute_loop(body, run, input, fuel).stop is OutOfFuel),
    ensures
        execute_loop(contract_from(body, 0), run, input, fuel) == execute_loop(
            body,
            run,
            input,
            fuel,
        ),
    decreases fuel, body, body.len() + 1,
{
    if run.tape.cell() != 0 && fuel != 0 {
        let once = execute_from(body, 0, run, input, (fuel - 1) as nat);
        lemma_contract_from(body, 0, run, input, (fuel - 1) as nat);
        lemma_execute_from_wf(body, 0, run, input, (fuel - 1) as nat);
        if once.stop is Done {
            lemma_contract_loop(body, once.run, input, (fuel - 1) as nat);
        }
    }
}

// ---------------------------------------------------------------------------
// Pure-tail elimination
// ---------------------------------------------------------------------------

/// Two runs that end in the same way, have used the same input and have
/// written the same. The tapes may differ.
pub open spec fn same_behaviour(a: Outcome, b: Outcome) -> bool {
    a.stop == b.stop && a.run.consumed == b.run.consumed && a.run.output == b.run.output
}

/// Behind the kept part of a scope stands nothing with an effect.
proof fn lemma_tail_is_pure(scope: Seq<Node>, k: int, j: int)
    requires
        0 <= k <= scope.len(),
        kept_len(scope, k) <= j < k,
    ensures
        !has_effect(scope[j].op),
    decreases k,
{
    if k > 0 && !has_effect(scope[k - 1].op) && j < k - 1 {
        lemma_tail_is_pure(scope, k - 1, j);
    }
}

/// Nodes without effect end well and neither read nor write.
proof fn lemma_pure_nodes(scope: Seq<Node>, j: int, run: Run, input: Seq<u8>, fuel: nat)
    requires
        0 <= j,
        forall|m: int| j <= m < scope.len() ==> !has_effect(#[trigger] scope[m].op),
    ensures
        same_behaviour(
            execute_from(scope, j, run, input, fuel),
            Outcome { stop: Stop::Done, run },
        ),
    decreases scope.len() - j,
{
    if j < scope.len() {
        assert(!has_effect(scope[j].op));
        let first = step(scope[j], run, input, fuel);
        lemma_pure_nodes(scope, j + 1, first.run, input, fuel);
    }
}

/// A scope does what its first `k` nodes do, and then, if that ended well,
/// what the rest does.
proof fn lemma_execute_prefix(
    scope: Seq<Node>,
    k: int,
    i: int,
    run: Run,
    input: Seq<u8>,
    fuel: nat,
)
    requires
        0 <= i <= k <= scope.len(),
    ensures
        execute_from(scope, i, run, input, fuel) == if execute_from(
            scope.subrange(0, k),
            i,
            run,
            input,
            fuel,
        ).stop is Done {
            execute_from(
                scope,
                k,
                execute_from(scope.subrange(0, k), i, run, input, fuel).run,
                input,
                fuel,
            )
        } else {
            execute_from(scope.subrange(0, k), i, run, input, fuel)
        },
    decreases k - i,
{
    if i < k {
        assert(scope.subrange(0, k)[i] == scope[i]);
        let first = step(scope[i], run, input, fuel);
        if first.stop is Done {
            lemma_execute_prefix(scope, k, i + 1, first.run, input, fuel);
        }
    }
}

/// Pure-tail elimination keeps how a run ends, what it reads and what it
/// writes.
pub proof fn lemma_pure_tail(scope: Seq<Node>, run: Run, input: Seq<u8>, fuel: nat)
    ensures
        same_behaviour(
            execute(without_pure_tail(scope), run, input, fuel),
            execute(scope, run, input, fuel),
        ),
{
    let k = kept_len(scope, scope.len() as int);
    crate::parse::optimizer::lemma_kept_len_bounds(scope, scope.len() as int);
    lemma_execute_prefix(scope, k, 0, run, input, fuel);
    let kept = execute(without_pure_tail(scope), run, input, fuel);
    if kept.stop is Done {
        assert forall|m: int| k <= m < scope.len() implies !has_effect(#[trigger] scope[m].op) by {
            lemma_tail_is_pure(scope, scope.len() as int, m);
        }
        lemma_pure_nodes(scope, k, kept.run, input, fuel);
    }
}

// ---------------------------------------------------------------------------
// The pipeline
// ---------------------------------------------------------------------------

/// The tree that dead-code elimination is applied to.
pub open spec fn folded(scope: Seq<Node>, passes: Seq<OptimizerStrategies>) -> Seq<Node> {
    if passes.contains(OptimizerStrategies::ClearLoop) {
        clear_scope(scope)
    } else {
        scope
    }
}

/// The tree that contraction is applied to.
pub open spec fn cleaned(scope: Seq<Node>, passes: Seq<OptimizerStrategies>) -> Seq<Node> {
    if passes.contains(OptimizerStrategies::DeadCode) {
        dead_code(folded(scope, passes))
    } else {
        folded(scope, passes)
    }
}

/// The counts of the nodes of `scope` from index `i` on, loop bodies
/// included, added up.
pub open spec fn weight(scope: Seq<Node>, i: int) -> nat
    decreases scope, scope.len() - i,
{
    if 0 <= i < scope.len() {
        let inside = match scope[i].op {
            Op::Loop(body) => weight(body, 0),
            _ => 0,
        };
        count_of(scope[i].op) as nat + inside + weight(scope, i + 1)
    } else {
        0
    }
}

/// A stretch of a scope weighs no more than the scope from its start on,
/// less what lies behind the stretch.
proof fn lemma_run_sum_within_weight(scope: Seq<Node>, i: int, j: int)
    requires
        0 <= i <= j <= scope.len(),
    ensures
        run_sum(scope, i, j) + weight(scope, j) <= weight(scope, i),
    decreases j - i,
{
    if i < j {
        lemma_run_sum_within_weight(scope, i, j - 1);
    }
}

/// In a scope that weighs no more than a count can hold, the sums of the
/// runs are counts.
pub proof fn lemma_light_sums_fit(scope: Seq<Node>, i: int)
    requires
        weight(scope, i) <= u32::MAX,
    ensures
        sums_fit(scope, i),
    decreases scope, scope.len() - i,
{
    if 0 <= i < scope.len() {
        match scope[i].op {
            Op::Loop(body) => {
                lemma_light_sums_fit(body, 0);
                lemma_light_sums_fit(scope, i + 1);
            },
            Op::Add(_) | Op::Sub(_) | Op::Inc(_) | Op::Dec(_) => {
                let j = i + 1 + run_rest(scope, i);
                lemma_run_rest_bound(scope, i);
                lemma_run_sum_within_weight(scope, i, j);
                lemma_run_sum_grows(scope, i, j);
                lemma_light_sums_fit(scope, j);
            },
            _ => {
                lemma_light_sums_fit(scope, i + 1);
            },
        }
    }
}

/// A scope that starts with `node` weighs what `node` and the rest weigh.
proof fn lemma_weight_cons(node: Node, rest: Seq<Node>)
    ensures
        weight(seq![node] + rest, 0) == weight(seq![node], 0) + weight(rest, 0),
{
    let whole = seq![node] + rest;
    assert(whole[0] == node);
    assert(weight(seq![node], 1) == 0);
    lemma_weight_shift(seq![node], rest, 0);
}

/// Nodes behind others weigh what they would weigh alone.
proof fn lemma_weight_shift(front: Seq<Node>, back: Seq<Node>, j: int)
    requires
        0 <= j,
    ensures
        weight(front + back, front.len() + j) == weight(back, j),
    decreases back.len() - j,
{
    if j < back.len() {
        assert((front + back)[front.len() + j] == back[j]);
        lemma_weight_shift(front, back, j + 1);
    }
}

/// Clear-loop folding makes no scope heavier.
pub proof fn lemma_clear_weight(scope: Seq<Node>, i: int)
    requires
        0 <= i,
    ensures
        weight(clear_scope(scope), i) <= weight(scope, i),
    decreases scope, scope.len() - i,
{
    if i < scope.len() {
        let node = scope[i];
        assert(clear_scope(scope)[i] == clear_node(node));
        match node.op {
            Op::Loop(body) => {
                if !is_clear_body(body) {
                    lemma_clear_node_loop(body, node.location);
                    lemma_clear_weight(body, 0);
                }
            },
            _ => {},
        }
        lemma_clear_weight(scope, i + 1);
    }
}

/// Dead-code elimination makes no scope heavier.
pub proof fn lemma_dead_code_weight(scope: Seq<Node>, i: int)
    requires
        0 <= i,
    ensures
        weight(dead_code_from(scope, i), 0) <= weight(scope, i),
    decreases scope, scope.len() - i,
{
    if i < scope.len() {
        let node = scope[i];
        match node.op {
            Op::Loop(body) => {
                lemma_dead_code_weight(scope, i + 1);
                if body.len() != 0 {
                    let kept = Node {
                        op: Op::Loop(dead_code_from(body, 0)),
                        location: node.location,
                    };
                    lemma_dead_code_weight(body, 0);
                    lemma_weight_cons(kept, dead_code_from(scope, i + 1));
                    assert(weight(seq![kept], 1) == 0);
                }
            },
            Op::Add(_) | Op::Sub(_) | Op::Inc(_) | Op::Dec(_) => {
                if i + 1 < scope.len() && opposite_op(node.op) == Some(scope[i + 1].op) {
                    lemma_dead_code_weight(scope, i + 2);
                    assert(weight(scope, i + 1) >= weight(scope, i + 2));
                } else {
                    lemma_dead_code_weight(scope, i + 1);
                    lemma_weight_cons(node, dead_code_from(scope, i + 1));
                    assert(weight(seq![node], 1) == 0);
                }
            },
            Op::Clear => {
                lemma_dead_code_weight(scope, i + 1);
                if i != 0 {
                    lemma_weight_cons(node, dead_code_from(scope, i + 1));
                    assert(weight(seq![node], 1) == 0);
                }
            },
            _ => {
                lemma_dead_code_weight(scope, i + 1);
                lemma_weight_cons(node, dead_code_from(scope, i + 1));
                assert(weight(seq![node], 1) == 0);
            },
        }
    }
}

/// A program that comes to an end on a fresh machine ends in the same way,
/// reads the same input and writes the same output after it was optimized,
/// with whatever passes.
///
/// Two kinds of program are left out, because for them it is not so: where
/// dead-code elimination is among the passes, a program in which a loop body
/// opens with `Clear` when that pass starts; where contraction is among
/// them, a program in which the counts of a run add up to more than a count
/// can hold when that pass starts.
pub proof fn law_optimize_keeps_behaviour(
    scope: Seq<Node>,
    passes: Seq<OptimizerStrategies>,
    size: int,
    input: Seq<u8>,
    fuel: nat,
)
    requires
        size > 0,
        !(execute(scope, start(size), input, fuel).stop is OutOfFuel),
        passes.contains(OptimizerStrategies::DeadCode) ==> loops_open_safely(
            folded(scope, passes),
            0,
        ),
        passes.contains(OptimizerStrategies::Contractions) ==> sums_fit(cleaned(scope, passes), 0),
    ensures
        same_behaviour(
            execute(optimized(scope, passes), start(size), input, fuel),
            execute(scope, start(size), input, fuel),
        ),
{
    let run = start(size);
    let first = folded(scope, passes);
    let second = cleaned(scope, passes);
    if passes.contains(OptimizerStrategies::ClearLoop) {
        lemma_clear_from(scope, 0, run, input, fuel);
    }
    if passes.contains(OptimizerStrategies::DeadCode) {
        lemma_dead_code_from(first, 0, run, input, fuel);
    }
    if passes.contains(OptimizerStrategies::Contractions) {
        lemma_contract_from(second, 0, run, input, fuel);
    }
    let third = if passes.contains(OptimizerStrategies::Contractions) {
        contraction(second)
    } else {
        second
    };
    if passes.contains(OptimizerStrategies::PureCode) {
        lemma_pure_tail(third, run, input, fuel);
    }
}

/// Nodes behind others are without `Clear` if they are so alone.
proof fn lemma_without_clear_shift(front: Seq<Node>, back: Seq<Node>, j: int)
    requires
        0 <= j,
    ensures
        without_clear(front + back, front.len() + j) == without_clear(back, j),
    decreases back.len() - j,
{
    if j < back.len() {
        assert((front + back)[front.len() + j] == back[j]);
        lemma_without_clear_shift(front, back, j + 1);
    }
}

/// What the parser makes of a text is made of the eight instructions of the
/// language alone and weighs no more than the text is long.
pub proof fn lemma_parsed_is_plain(text: Seq<char>, line: int, column: int)
    requires
        0 <= line,
        0 <= column,
    ensures
        without_clear(parse_scope(text, line, column).nodes, 0),
        weight(parse_scope(text, line, column).nodes, 0) + parse_scope(
            text,
            line,
            column,
        ).rest.len() <= text.len(),
    decreases text.len(),
{
    if text.len() > 0 {
        let c = text[0];
        let after = text.drop_first();
        let here = column + 1;
        lemma_parse_scope_bounds(text, line, column);
        if c == ']' {
        } else if c == '[' {
            let inner = parse_scope(after, line, here);
            lemma_parse_scope_bounds(after, line, here);
            lemma_parsed_is_plain(after, line, here);
            let outer = parse_scope(inner.rest, inner.line, inner.column);
            lemma_parsed_is_plain(inner.rest, inner.line, inner.column);
            let node = Node { op: Op::Loop(inner.nodes), location: place(line, here) };
            let nodes = seq![node] + outer.nodes;
            assert(nodes[0] == node);
            lemma_without_clear_shift(seq![node], outer.nodes, 0);
            lemma_weight_cons(node, outer.nodes);
            assert(weight(seq![node], 1) == 0);
        } else if c == '\n' {
            lemma_parsed_is_plain(after, line + 1, 0);
        } else {
            let outer = parse_scope(after, line, here);
            lemma_parsed_is_plain(after, line, here);
            match simple_op(c) {
                Some(op) => {
                    let node = Node { op, location: place(line, here) };
                    let nodes = seq![node] + outer.nodes;
                    assert(nodes[0] == node);
                    lemma_without_clear_shift(seq![node], outer.nodes, 0);
                    lemma_weight_cons(node, outer.nodes);
                    assert(weight(seq![node], 1) == 0);
                },
                None => {},
            }
        }
    }
}

/// A program made of the eight instructions of the language alone, whose
/// counts add up to no more than a count can hold, and that comes to an end
/// on a fresh machine, ends in the same way, reads the same input and writes
/// the same output after it was optimized, with whatever passes, unless
/// clear-loop folding and dead-code elimination are both among them.
pub proof fn law_optimize_keeps_behaviour_of_plain_programs(
    scope: Seq<Node>,
    passes: Seq<OptimizerStrategies>,
    size: int,
    input: Seq<u8>,
    fuel: nat,
)
    requires
        size > 0,
        without_clear(scope, 0),
        weight(scope, 0) <= u32::MAX,
        !(passes.contains(OptimizerStrategies::ClearLoop) && passes.contains(
            OptimizerStrategies::DeadCode,
        )),
        !(execute(scope, start(size), input, fuel).stop is OutOfFuel),
    ensures
        same_behaviour(
            execute(optimized(scope, passes), start(size), input, fuel),
            execute(scope, start(size), input, fuel),
        ),
{
    lemma_without_clear_opens_safely(scope, 0);
    if passes.contains(OptimizerStrategies::ClearLoop) {
        lemma_clear_weight(scope, 0);
    }
    if passes.contains(OptimizerStrategies::DeadCode) {
        lemma_dead_code_weight(scope, 0);
    }
    lemma_light_sums_fit(cleaned(scope, passes), 0);
    law_optimize_keeps_behaviour(scope, passes, size, input, fuel);
}

/// What was said of plain programs holds of every program that the parser
/// makes of a source text: it ends in the same way, reads the same input and
/// writes the same output after it was optimized, with whatever passes,
/// unless clear-loop folding and dead-code elimination are both among them.
pub proof fn law_optimize_keeps_behaviour_of_sources(
    text: Seq<char>,
    passes: Seq<OptimizerStrategies>,
    size: int,
    input: Seq<u8>,
    fuel: nat,
)
    requires
        size > 0,
        text.len() <= u32::MAX,
        !(passes.contains(OptimizerStrategies::ClearLoop) && passes.contains(
            OptimizerStrategies::DeadCode,
        )),
        !(execute(parse_scope(text, 1, 0).nodes, start(size), input, fuel).stop is OutOfFuel),
    ensures
        same_behaviour(
            execute(optimized(parse_scope(text, 1, 0).nodes, passes), start(size), input, fuel),
            execute(parse_scope(text, 1, 0).nodes, start(size), input, fuel),
        ),
{
    lemma_parsed_is_plain(text, 1, 0);
    law_optimize_keeps_behaviour_of_plain_programs(
        parse_scope(text, 1, 0).nodes,
        passes,
        size,
        input,
        fuel,
    );
}

} // verus!
