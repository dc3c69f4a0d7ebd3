//! Rewrites of the instruction tree.
//!
//! Each pass is given twice: as a spec function on the model of a scope, and
//! as an executable function whose result has exactly that model.

use vstd::prelude::*;
use crate::parse::opcodes::{OpCodes, Tokens, Op, Node, tree, lemma_loop_model, opposite_op};

verus! {

/// The passes that `optimize` can apply.
#[derive(Clone, Copy, Debug, PartialEq, Eq, Structural)]
pub enum OptimizerStrategies {
    Contractions,
    ClearLoop,
    DeadCode,
    PureCode,
}

// ---------------------------------------------------------------------------
// Clear-loop folding
// ---------------------------------------------------------------------------

/// A loop body made of exactly one add or one subtract: the loop zeroes the cell.
pub open spec fn is_clear_body(body: Seq<Node>) -> bool {
    body.len() == 1 && (body[0].op is Add || body[0].op is Sub)
}

/// Clear-loop folding of one node: a loop over a clear body becomes `Clear`,
/// any other loop has its body folded, anything else stays.
pub open spec fn clear_node(node: Node) -> Node
    decreases node,
{
    match node.op {
        Op::Loop(body) => if is_clear_body(body) {
            Node { op: Op::Clear, location: node.location }
        } else {
            Node {
                op: Op::Loop(
                    Seq::new(
                        body.len(),
                        |i: int| if 0 <= i < body.len() { clear_node(body[i]) } else { body[0] },
                    ),
                ),
                location: node.location,
            }
        },
        _ => node,
    }
}

/// Clear-loop folding of a scope: node by node.
pub open spec fn clear_scope(scope: Seq<Node>) -> Seq<Node> {
    Seq::new(scope.len(), |i: int| clear_node(scope[i]))
}

/// A loop that is not folded keeps its place and has its body folded.
pub proof fn lemma_clear_node_loop(body: Seq<Node>, location: (u32, u32))
    requires
        !is_clear_body(body),
    ensures
        clear_node(Node { op: Op::Loop(body), location }) == (Node {
            op: Op::Loop(clear_scope(body)),
            location,
        }),
{
    assert(clear_node(Node { op: Op::Loop(body), location }).op->Loop_0 =~= clear_scope(body));
}

/// Whether `code` is an add or a subtract.
fn is_add_or_sub(code: &OpCodes) -> (yes: bool)
    ensures
        yes == (code.model() is Add || code.model() is Sub),
{
    match code {
        OpCodes::Add(_) | OpCodes::Sub(_) => true,
        _ => false,
    }
}

/// Folds every loop whose body is a single add or subtract into `Clear`, at
/// every nesting level.
pub fn clear(ast: &Vec<Tokens>) -> (out: Vec<Tokens>)
    ensures
        tree(out@) == clear_scope(tree(ast@)),
    decreases ast,
{
    let mut out: Vec<Tokens> = Vec::new();
    let mut i: usize = 0;
    while i < ast.len()
        invariant
            i <= ast.len(),
            out@.len() == i,
            forall|k: int| 0 <= k < i ==> out@[k].model() == clear_node(#[trigger] ast@[k].model()),
        decreases ast.len() - i,
    {
        let part = &ast[i];
        match part.get_type() {
            OpCodes::Loop(body) => {
                proof {
                    lemma_loop_model(*body);
                }
                if body.len() == 1 && is_add_or_sub(body[0].get_type()) {
                    out.push(Tokens::new(OpCodes::Clear, part.get_location()));
                } else {
                    let inner = clear(body);
                    proof {
                        lemma_loop_model(inner);
                        lemma_clear_node_loop(tree(body@), part.model().location);
                    }
                    out.push(Tokens::new(OpCodes::Loop(inner), part.get_location()));
                }
            },
            _ => {
                out.push(part.clone());
            },
        }
        i += 1;
    }
    assert(tree(out@) =~= clear_scope(tree(ast@)));
    out
}

// ---------------------------------------------------------------------------
// Dead-code elimination
// ---------------------------------------------------------------------------

/// Dead-code elimination of the nodes of `scope` from index `i` on, scanning
/// left to right:
/// a loop with an empty body is dropped, any other loop has its body cleaned;
/// a `Clear` is dropped where it is the first node of the scope;
/// an add, subtract or move directly followed by its opposite is dropped
/// together with it; everything else stays.
pub open spec fn dead_code_from(scope: Seq<Node>, i: int) -> Seq<Node>
    decreases scope, scope.len() - i,
{
    if 0 <= i < scope.len() {
        let node = scope[i];
        match node.op {
            Op::Loop(body) => if body.len() == 0 {
                dead_code_from(scope, i + 1)
            } else {
                seq![Node { op: Op::Loop(dead_code_from(body, 0)), location: node.location }]
                    + dead_code_from(scope, i + 1)
            },
            Op::Clear => if i == 0 {
                dead_code_from(scope, i + 1)
            } else {
                seq![node] + dead_code_from(scope, i + 1)
            },
            Op::Add(_) | Op::Sub(_) | Op::Inc(_) | Op::Dec(_) => if i + 1 < scope.len()
                && opposite_op(node.op) == Some(scope[i + 1].op) {
                dead_code_from(scope, i + 2)
            } else {
                seq![node] + dead_code_from(scope, i + 1)
            },
            _ => seq![node] + dead_code_from(scope, i + 1),
        }
    } else {
        Seq::empty()
    }
}

/// Dead-code elimination of a scope.
pub open spec fn dead_code(scope: Seq<Node>) -> Seq<Node> {
    dead_code_from(scope, 0)
}

/// Whether `second` is the opposite of `first`, with the same count.
fn cancels(first: &OpCodes, second: &OpCodes) -> (yes: bool)
    ensures
        yes == (opposite_op(first.model()) == Some(second.model())),
{
    match (first, second) {
        (OpCodes::Add(x), OpCodes::Sub(y)) => *x == *y,
        (OpCodes::Sub(x), OpCodes::Add(y)) => *x == *y,
        (OpCodes::Inc(x), OpCodes::Dec(y)) => *x == *y,
        (OpCodes::Dec(x), OpCodes::Inc(y)) => *x == *y,
        _ => false,
    }
}

/// Drops empty loops, a `Clear` that opens its scope, and adjacent pairs of
/// exact opposites, at every nesting level.
pub fn clear_dead_code(ast: &Vec<Tokens>) -> (out: Vec<Tokens>)
    ensures
        tree(out@) == dead_code(tree(ast@)),
    decreases ast,
{
    let ghost scope = tree(ast@);
    let mut out: Vec<Tokens> = Vec::new();
    let mut i: usize = 0;
    while i < ast.len()
        invariant
            i <= ast.len(),
            scope == tree(ast@),
            tree(out@) + dead_code_from(scope, i as int) == dead_code(scope),
        decreases ast.len() - i,
    {
        let part = &ast[i];
        let ghost before = tree(out@);
        let ghost node = scope[i as int];
        assert(node == part.model());
        match part.get_type() {
            OpCodes::Loop(body) => {
                proof {
                    lemma_loop_model(*body);
                }
                // Remove empty loops `[]`
                if body.len() != 0 {
                    let inner = clear_dead_code(body);
                    proof {
                        lemma_loop_model(inner);
                    }
                    let token = Tokens::new(OpCodes::Loop(inner), part.get_location());
                    out.push(token);
                    assert(tree(out@) =~= before.push(token.model()));
                    assert(tree(out@) + dead_code_from(scope, i + 1) =~= before + dead_code_from(
                        scope,
                        i as int,
                    ));
                }
                i += 1;
            },
            OpCodes::Clear => {
                // A `Clear` that opens the scope works on a cell that is still zero
                if i != 0 {
                    out.push(part.clone());
                    assert(tree(out@) =~= before.push(node));
                    assert(tree(out@) + dead_code_from(scope, i + 1) =~= before + dead_code_from(
                        scope,
                        i as int,
                    ));
                }
                i += 1;
            },
            OpCodes::Add(_) | OpCodes::Sub(_) | OpCodes::Inc(_) | OpCodes::Dec(_) => {
                if i + 1 < ast.len() && cancels(part.get_type(), ast[i + 1].get_type()) {
                    i += 2;
                } else {
                    out.push(part.clone());
                    assert(tree(out@) =~= before.push(node));
                    assert(tree(out@) + dead_code_from(scope, i + 1) =~= before + dead_code_from(
                        scope,
                        i as int,
                    ));
                    i += 1;
                }
            },
            _ => {
                out.push(part.clone());
                assert(tree(out@) =~= before.push(node));
                assert(tree(out@) + dead_code_from(scope, i + 1) =~= before + dead_code_from(
                    scope,
                    i as int,
                ));
                i += 1;
            },
        }
    }
    assert(tree(out@) + Seq::<Node>::empty() =~= tree(out@));
    out
}

// ---------------------------------------------------------------------------
// Contraction
// ---------------------------------------------------------------------------

/// Both are adds, both subtracts, both forward moves or both backward moves.
pub open spec fn same_kind(a: Op, b: Op) -> bool {
    ||| a is Add && b is Add
    ||| a is Sub && b is Sub
    ||| a is Inc && b is Inc
    ||| a is Dec && b is Dec
}

/// The count that an add, subtract or move carries.
pub open spec fn count_of(op: Op) -> int {
    match op {
        Op::Add(n) | Op::Sub(n) | Op::Inc(n) | Op::Dec(n) => n as int,
        _ => 0,
    }
}

/// The same kind of instruction with another count.
pub open spec fn with_count(op: Op, n: u32) -> Op {
    match op {
        Op::Add(_) => Op::Add(n),
        Op::Sub(_) => Op::Sub(n),
        Op::Inc(_) => Op::Inc(n),
        Op::Dec(_) => Op::Dec(n),
        _ => op,
    }
}

/// A count cut off at the largest that fits.
pub open spec fn saturate(n: int) -> u32 {
    if n > u32::MAX {
        u32::MAX
    } else if n < 0 {
        0
    } else {
        n as u32
    }
}

/// How many nodes directly after index `i` continue the run of one kind that
/// the node at `i` is part of.
pub open spec fn run_rest(scope: Seq<Node>, i: int) -> nat
    decreases scope.len() - i,
{
    if 0 <= i && i + 1 < scope.len() && same_kind(scope[i].op, scope[i + 1].op) {
        1 + run_rest(scope, i + 1)
    } else {
        0
    }
}

/// A run ends inside its scope.
pub proof fn lemma_run_rest_bound(scope: Seq<Node>, i: int)
    requires
        0 <= i < scope.len(),
    ensures
        i + 1 + run_rest(scope, i) <= scope.len(),
    decreases scope.len() - i,
{
    if i + 1 < scope.len() && same_kind(scope[i].op, scope[i + 1].op) {
        lemma_run_rest_bound(scope, i + 1);
    }
}

/// The sum of the counts of the nodes from index `i` up to, not including, `j`.
pub open spec fn run_sum(scope: Seq<Node>, i: int, j: int) -> int
    decreases j - i,
{
    if i < j {
        run_sum(scope, i, j - 1) + count_of(scope[j - 1].op)
    } else {
        0
    }
}

/// Contraction of the nodes of `scope` from index `i` on: each maximal run of
/// adds, of subtracts or of moves in one direction becomes one node, at the
/// place of the first, whose count is the saturated sum of the run; loop
/// bodies are contracted; everything else stays.
pub open spec fn contract_from(scope: Seq<Node>, i: int) -> Seq<Node>
    decreases scope, scope.len() - i,
{
    if 0 <= i < scope.len() {
        let node = scope[i];
        match node.op {
            Op::Loop(body) => seq![
                Node { op: Op::Loop(contract_from(body, 0)), location: node.location },
            ] + contract_from(scope, i + 1),
            Op::Add(_) | Op::Sub(_) | Op::Inc(_) | Op::Dec(_) => {
                let j = i + 1 + run_rest(scope, i);
                proof {
                    lemma_run_rest_bound(scope, i);
                }
                seq![
                    Node {
                        op: with_count(node.op, saturate(run_sum(scope, i, j))),
                        location: node.location,
                    },
                ] + contract_from(scope, j)
            },
            _ => seq![node] + contract_from(scope, i + 1),
        }
    } else {
        Seq::empty()
    }
}

/// Contraction of a scope.
pub open spec fn contraction(scope: Seq<Node>) -> Seq<Node> {
    contract_from(scope, 0)
}

/// Whether the two are of one kind that contraction merges.
fn kind_matches(first: &OpCodes, second: &OpCodes) -> (yes: bool)
    ensures
        yes == same_kind(first.model(), second.model()),
{
    match (first, second) {
        (OpCodes::Add(_), OpCodes::Add(_)) => true,
        (OpCodes::Sub(_), OpCodes::Sub(_)) => true,
        (OpCodes::Inc(_), OpCodes::Inc(_)) => true,
        (OpCodes::Dec(_), OpCodes::Dec(_)) => true,
        _ => false,
    }
}

/// The count that `code` carries.
fn count(code: &OpCodes) -> (n: u32)
    ensures
        n == count_of(code.model()),
{
    match code {
        OpCodes::Add(x) | OpCodes::Sub(x) | OpCodes::Inc(x) | OpCodes::Dec(x) => *x,
        _ => 0,
    }
}

/// An instruction of the kind of `code` with the count `n`.
fn recount(code: &OpCodes, n: u32) -> (out: OpCodes)
    requires
        same_kind(code.model(), code.model()),
    ensures
        out.model() == with_count(code.model(), n),
{
    match code {
        OpCodes::Add(_) => OpCodes::Add(n),
        OpCodes::Sub(_) => OpCodes::Sub(n),
        OpCodes::Inc(_) => OpCodes::Inc(n),
        _ => OpCodes::Dec(n),
    }
}

/// Counts add up to nothing below zero.
proof fn lemma_run_sum_nonnegative(scope: Seq<Node>, i: int, j: int)
    ensures
        run_sum(scope, i, j) >= 0,
    decreases j - i,
{
    if i < j {
        lemma_run_sum_nonnegative(scope, i, j - 1);
    }
}

/// Merges each maximal run of adds, of subtracts or of moves in one direction
/// into one instruction with the saturated sum of the counts, at every
/// nesting level.
pub fn contract(ast: &Vec<Tokens>) -> (out: Vec<Tokens>)
    ensures
        tree(out@) == contraction(tree(ast@)),
    decreases ast,
{
    let ghost scope = tree(ast@);
    let mut out: Vec<Tokens> = Vec::new();
    let mut i: usize = 0;
    while i < ast.len()
        invariant
            i <= ast.len(),
            scope == tree(ast@),
            tree(out@) + contract_from(scope, i as int) == contraction(scope),
        decreases ast.len() - i,
    {
        let op = &ast[i];
        let ghost before = tree(out@);
        let ghost node = scope[i as int];
        assert(node == op.model());
        match op.get_type() {
            OpCodes::Add(_) | OpCodes::Sub(_) | OpCodes::Inc(_) | OpCodes::Dec(_) => {
                let mut counter: u32 = count(op.get_type());
                let mut j: usize = i + 1;
                assert(run_sum(scope, i as int, i as int) == 0);
                while j < ast.len() && kind_matches(op.get_type(), ast[j].get_type())
                    invariant
                        i < j <= ast.len(),
                        scope == tree(ast@),
                        node == scope[i as int],
                        node == op.model(),
                        same_kind(node.op, node.op),
                        forall|k: int| i <= k < j ==> same_kind(node.op, #[trigger] scope[k].op),
                        run_rest(scope, i as int) == j - 1 - i + run_rest(scope, j - 1),
                        counter == saturate(run_sum(scope, i as int, j as int)),
                    decreases ast.len() - j,
                {
                    proof {
                        lemma_run_sum_nonnegative(scope, i as int, j as int);
                        assert(same_kind(node.op, scope[j - 1].op));
                        assert(scope[j as int] == ast@[j as int].model());
                    }
                    counter = counter.saturating_add(count(ast[j].get_type()));
                    j += 1;
                }
                proof {
                    assert(same_kind(node.op, scope[j - 1].op));
                    if j < ast.len() {
                        assert(scope[j as int] == ast@[j as int].model());
                    }
                    assert(run_rest(scope, j - 1) == 0);
                }
                let token = Tokens::new(recount(op.get_type(), counter), op.get_location());
                out.push(token);
                assert(tree(out@) =~= before.push(token.model()));
                assert(tree(out@) + contract_from(scope, j as int) =~= before + contract_from(
                    scope,
                    i as int,
                ));
                i = j;
            },
            OpCodes::Loop(body) => {
                let inner = contract(body);
                proof {
                    lemma_loop_model(*body);
                    lemma_loop_model(inner);
                }
                let token = Tokens::new(OpCodes::Loop(inner), op.get_location());
                out.push(token);
                assert(tree(out@) =~= before.push(token.model()));
                assert(tree(out@) + contract_from(scope, i + 1) =~= before + contract_from(
                    scope,
                    i as int,
                ));
                i += 1;
            },
            _ => {
                out.push(op.clone());
                assert(tree(out@) =~= before.push(node));
                assert(tree(out@) + contract_from(scope, i + 1) =~= before + contract_from(
                    scope,
                    i as int,
                ));
                i += 1;
            },
        }
    }
    assert(tree(out@) + Seq::<Node>::empty() =~= tree(out@));
    out
}

// ---------------------------------------------------------------------------
// Pure-tail elimination
// ---------------------------------------------------------------------------

/// Output, input and loops are where a program shows: nothing after the last
/// of them in the outermost scope can be observed.
pub open spec fn has_effect(op: Op) -> bool {
    op is Output || op is Input || op is Loop
}

/// How many of the first `k` nodes stay when those among them that follow the
/// last node with an effect are dropped.
pub open spec fn kept_len(scope: Seq<Node>, k: int) -> int
    decreases k,
{
    if k <= 0 {
        0
    } else if has_effect(scope[k - 1].op) {
        k
    } else {
        kept_len(scope, k - 1)
    }
}

/// Pure-tail elimination of a scope: the scope up to and including its last
/// node with an effect. Loop bodies are left as they are.
pub open spec fn without_pure_tail(scope: Seq<Node>) -> Seq<Node> {
    scope.subrange(0, kept_len(scope, scope.len() as int))
}

/// What is kept of the first `k` nodes is a number of nodes between none
/// and `k`.
pub proof fn lemma_kept_len_bounds(scope: Seq<Node>, k: int)
    requires
        0 <= k,
    ensures
        0 <= kept_len(scope, k) <= k,
    decreases k,
{
    if k > 0 && !has_effect(scope[k - 1].op) {
        lemma_kept_len_bounds(scope, k - 1);
    }
}

/// Whether `code` is an output, an input or a loop.
fn is_effect(code: &OpCodes) -> (yes: bool)
    ensures
        yes == has_effect(code.model()),
{
    match code {
        OpCodes::Input | OpCodes::Output | OpCodes::Loop(_) => true,
        _ => false,
    }
}

/// Drops the instructions that follow the last output, input or loop of the
/// given scope. It does not look into loop bodies.
pub fn remove_pure(ast: &Vec<Tokens>) -> (out: Vec<Tokens>)
    ensures
        tree(out@) == without_pure_tail(tree(ast@)),
{
    let ghost scope = tree(ast@);
    let mut keep: usize = ast.len();
    while keep > 0 && !is_effect(ast[keep - 1].get_type())
        invariant
            keep <= ast.len(),
            scope == tree(ast@),
            kept_len(scope, keep as int) == kept_len(scope, ast.len() as int),
        decreases keep,
    {
        assert(scope[keep - 1] == ast@[keep - 1].model());
        keep -= 1;
    }
    proof {
        if keep > 0 {
            assert(scope[keep - 1] == ast@[keep - 1].model());
        }
        assert(kept_len(scope, keep as int) == keep);
    }
    let mut out: Vec<Tokens> = Vec::new();
    let mut i: usize = 0;
    while i < keep
        invariant
            i <= keep <= ast.len(),
            out@.len() == i,
            forall|k: int| 0 <= k < i ==> out@[k].model() == #[trigger] ast@[k].model(),
        decreases keep - i,
    {
        out.push(ast[i].clone());
        i += 1;
    }
    assert(tree(out@) =~= without_pure_tail(scope));
    out
}

// ---------------------------------------------------------------------------
// The pipeline
// ---------------------------------------------------------------------------

/// The selected passes applied in their fixed order: clear-loop folding,
/// dead-code elimination, contraction, pure-tail elimination.
pub open spec fn optimized(scope: Seq<Node>, passes: Seq<OptimizerStrategies>) -> Seq<Node> {
    let folded = if passes.contains(OptimizerStrategies::ClearLoop) {
        clear_scope(scope)
    } else {
        scope
    };
    let cleaned = if passes.contains(OptimizerStrategies::DeadCode) {
        dead_code(folded)
    } else {
        folded
    };
    let contracted = if passes.contains(OptimizerStrategies::Contractions) {
        contraction(cleaned)
    } else {
        cleaned
    };
    if passes.contains(OptimizerStrategies::PureCode) {
        without_pure_tail(contracted)
    } else {
        contracted
    }
}

/// Whether `pass` is among `optimizers`.
fn selected(optimizers: &[OptimizerStrategies], pass: OptimizerStrategies) -> (yes: bool)
    ensures
        yes == optimizers@.contains(pass),
{
    let mut i: usize = 0;
    while i < optimizers.len()
        invariant
            i <= optimizers.len(),
            forall|k: int| 0 <= k < i ==> optimizers@[k] != pass,
        decreases optimizers.len() - i,
    {
        if optimizers[i] == pass {
            return true;
        }
        i += 1;
    }
    false
}

/// Applies the passes named in `optimizers` to a copy of `ast`. The order of
/// the passes is fixed; the order and repetition of the names play no part.
pub fn optimize(ast: &[Tokens], optimizers: &[OptimizerStrategies]) -> (out: Vec<Tokens>)
    ensures
        tree(out@) == optimized(tree(ast@), optimizers@),
{
    let mut new_ast: Vec<Tokens> = Vec::new();
    let mut i: usize = 0;
    while i < ast.len()
        invariant
            i <= ast.len(),
            new_ast@.len() == i,
            forall|k: int| 0 <= k < i ==> new_ast@[k].model() == #[trigger] ast@[k].model(),
        decreases ast.len() - i,
    {
        new_ast.push(ast[i].clone());
        i += 1;
    }
    assert(tree(new_ast@) =~= tree(ast@));
    if selected(optimizers, OptimizerStrategies::ClearLoop) {
        new_ast = clear(&new_ast);
    }
    if selected(optimizers, OptimizerStrategies::DeadCode) {
        new_ast = clear_dead_code(&new_ast);
    }
    if selected(optimizers, OptimizerStrategies::Contractions) {
        new_ast = contract(&new_ast);
    }
    if selected(optimizers, OptimizerStrategies::PureCode) {
        new_ast = remove_pure(&new_ast);
    }
    new_ast
}

// ---------------------------------------------------------------------------
// What the passes do to the smallest programs
// ---------------------------------------------------------------------------

/// Two instructions of one kind in a row contract into one instruction of
/// that kind, at the place of the first, whose count is the sum of the two
/// counts, cut off at the largest count.
pub proof fn law_contraction_merges_pair(first: Node, second: Node)
    requires
        same_kind(first.op, second.op),
    ensures
        contraction(seq![first, second]) == seq![
            Node {
                op: with_count(first.op, saturate(count_of(first.op) + count_of(second.op))),
                location: first.location,
            },
        ],
{
    let scope = seq![first, second];
    assert(run_rest(scope, 1) == 0);
    assert(run_rest(scope, 0) == 1);
    assert(run_sum(scope, 0, 0) == 0);
    assert(run_sum(scope, 0, 1) == count_of(first.op));
    assert(run_sum(scope, 0, 2) == count_of(first.op) + count_of(second.op));
    assert(contract_from(scope, 2) == Seq::<Node>::empty());
    assert(contraction(scope) =~= seq![
        Node {
            op: with_count(first.op, saturate(count_of(first.op) + count_of(second.op))),
            location: first.location,
        },
    ]);
}

/// A loop whose body is a single add or a single subtract, of whatever
/// count, folds into `Clear` at the place of the loop.
pub proof fn law_clear_loop_folds(inner: Node, location: (u32, u32))
    requires
        inner.op is Add || inner.op is Sub,
    ensures
        clear_scope(seq![Node { op: Op::Loop(seq![inner]), location }]) == seq![
            Node { op: Op::Clear, location },
        ],
{
    assert(clear_scope(seq![Node { op: Op::Loop(seq![inner]), location }]) =~= seq![
        Node { op: Op::Clear, location },
    ]);
}

/// A loop whose body is anything else stays a loop; a loop around a single
/// output stays as it is.
pub proof fn law_clear_loop_keeps_other_loops(body: Seq<Node>, inner: Node, location: (u32, u32))
    requires
        !is_clear_body(body),
        inner.op is Output,
    ensures
        clear_scope(seq![Node { op: Op::Loop(body), location }]) == seq![
            Node { op: Op::Loop(clear_scope(body)), location },
        ],
        clear_scope(seq![Node { op: Op::Loop(seq![inner]), location }]) == seq![
            Node { op: Op::Loop(seq![inner]), location },
        ],
{
    lemma_clear_node_loop(body, location);
    lemma_clear_node_loop(seq![inner], location);
    assert(clear_scope(seq![inner]) =~= seq![inner]);
    assert(clear_scope(seq![Node { op: Op::Loop(body), location }]) =~= seq![
        Node { op: Op::Loop(clear_scope(body)), location },
    ]);
    assert(clear_scope(seq![Node { op: Op::Loop(seq![inner]), location }]) =~= seq![
        Node { op: Op::Loop(seq![inner]), location },
    ]);
}

/// A loop with an empty body disappears.
pub proof fn law_dead_code_drops_empty_loop(location: (u32, u32))
    ensures
        dead_code(seq![Node { op: Op::Loop(Seq::empty()), location }]) == Seq::<Node>::empty(),
{
    let scope = seq![Node { op: Op::Loop(Seq::empty()), location }];
    assert(dead_code_from(scope, 1) == Seq::<Node>::empty());
}

/// A `Clear` that opens a scope disappears: what is left is what the rest of
/// the scope leaves.
pub proof fn law_dead_code_drops_leading_clear(scope: Seq<Node>)
    requires
        scope.len() > 0,
        scope[0].op is Clear,
    ensures
        dead_code(scope) == dead_code_from(scope, 1),
{
}

proof fn lemma_dead_code_keeps_clear(scope: Seq<Node>, i: int, k: int)
    requires
        0 <= k <= i < scope.len(),
        0 < i,
        scope[i].op is Clear,
    ensures
        dead_code_from(scope, k).contains(scope[i]),
    decreases i - k,
{
    let node = scope[k];
    if k == i {
        assert((seq![node] + dead_code_from(scope, k + 1))[0] == scope[i]);
    } else {
        let skipped = (node.op is Add || node.op is Sub || node.op is Inc || node.op is Dec) && k
            + 1 < scope.len() && opposite_op(node.op) == Some(scope[k + 1].op);
        let next = if skipped {
            k + 2
        } else {
            k + 1
        };
        lemma_dead_code_keeps_clear(scope, i, next);
        let rest = dead_code_from(scope, next);
        let at = choose|j: int| 0 <= j < rest.len() && rest[j] == scope[i];
        let whole = dead_code_from(scope, k);
        if whole.len() == rest.len() + 1 {
            assert(whole[at + 1] == scope[i]);
        } else {
            assert(whole[at] == scope[i]);
        }
    }
}

/// A `Clear` that does not open its scope stays.
pub proof fn law_dead_code_keeps_later_clear(scope: Seq<Node>, i: int)
    requires
        0 < i < scope.len(),
        scope[i].op is Clear,
    ensures
        dead_code(scope).contains(scope[i]),
{
    lemma_dead_code_keeps_clear(scope, i, 0);
}

/// An add, subtract or move directly followed by its opposite with the same
/// count disappears together with it.
pub proof fn law_dead_code_cancels_opposites(first: Node, second: Node)
    requires
        opposite_op(first.op) == Some(second.op),
    ensures
        dead_code(seq![first, second]) == Seq::<Node>::empty(),
{
    let scope = seq![first, second];
    assert(dead_code_from(scope, 2) == Seq::<Node>::empty());
}

/// Two adds, subtracts or moves in a row of which the second is not the
/// opposite of the first with the same count both stay as they are.
pub proof fn law_dead_code_keeps_unequal_pair(first: Node, second: Node)
    requires
        same_kind(first.op, first.op),
        same_kind(second.op, second.op),
        opposite_op(first.op) != Some(second.op),
    ensures
        dead_code(seq![first, second]) == seq![first, second],
{
    let scope = seq![first, second];
    assert(dead_code_from(scope, 2) == Seq::<Node>::empty());
    assert(dead_code_from(scope, 1) =~= seq![second]);
    assert(dead_code(scope) =~= seq![first, second]);
}

} // verus!
