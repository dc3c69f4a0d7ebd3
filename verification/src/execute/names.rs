//! Every name in a generated program is given out once.
//!
//! A label names the block that it opens, and a temporary is the target of
//! one assignment. A label that opened two blocks, or a temporary that was
//! assigned to twice, would make the backend refuse the program or, worse,
//! take it for another.

use vstd::prelude::*;
use crate::execute::compile::{
    label_name, labels_from, lines_from, located, loop_foot, loop_head, main_lines, prologue,
    return_zero, simple_lines, temp_name, temps_from, temps_of,
};
use crate::execute::ir::{Line, Operand};
use crate::parse::opcodes::{Node, Op};
use crate::text::lemma_digits_differ;

verus! {

/// The name that a line gives out: the label that it sets if `labels` are
/// asked for, the temporary that it assigns to if temporaries are.
pub open spec fn given(line: Line, labels: bool) -> Option<Seq<char>> {
    match line {
        Line::Label(name) => if labels {
            Some(name)
        } else {
            None
        },
        Line::Assign(Operand::Temporary(name), _, _) => if labels {
            None
        } else {
            Some(name)
        },
        _ => None,
    }
}

/// The name of the label or of the temporary with number `k`.
pub open spec fn name_for(labels: bool, k: nat) -> Seq<char> {
    if labels {
        label_name(k)
    } else {
        temp_name(k)
    }
}

/// The numbers from `low` up to, not including, `high`.
pub open spec fn range(low: nat, high: nat) -> Set<nat> {
    Set::new(|k: nat| low <= k < high)
}

/// Every name that `lines` give out is the name of a number in `allowed`.
pub open spec fn names_from(lines: Seq<Line>, labels: bool, allowed: Set<nat>) -> bool {
    forall|j: int|
        0 <= j < lines.len() && given(#[trigger] lines[j], labels) is Some ==> exists|k: nat|
            allowed.contains(k) && given(lines[j], labels) == Some(name_for(labels, k))
}

/// No two of `lines` give out the same name.
pub open spec fn names_differ(lines: Seq<Line>, labels: bool) -> bool {
    forall|a: int, b: int|
        #![trigger lines[a], lines[b]]
        0 <= a < b < lines.len() && given(lines[a], labels) is Some && given(lines[b], labels)
            is Some ==> given(lines[a], labels) != given(lines[b], labels)
}

/// Different numbers have different names.
proof fn lemma_names_of_numbers_differ(labels: bool, a: nat, b: nat)
    requires
        a != b,
    ensures
        name_for(labels, a) != name_for(labels, b),
{
    lemma_digits_differ("."@, a, b);
    lemma_digits_differ("loop."@, a, b);
}

/// Lines whose names come from two sets of numbers without a number in
/// common can be put one behind the other.
proof fn lemma_join(
    front: Seq<Line>,
    back: Seq<Line>,
    labels: bool,
    first: Set<nat>,
    second: Set<nat>,
    all: Set<nat>,
)
    requires
        names_from(front, labels, first),
        names_from(back, labels, second),
        names_differ(front, labels),
        names_differ(back, labels),
        forall|k: nat| !(first.contains(k) && second.contains(k)),
        forall|k: nat| first.contains(k) || second.contains(k) ==> all.contains(k),
    ensures
        names_from(front + back, labels, all),
        names_differ(front + back, labels),
{
    let lines = front + back;
    assert forall|j: int|
        0 <= j < lines.len() && given(#[trigger] lines[j], labels) is Some implies exists|k: nat|
        all.contains(k) && given(lines[j], labels) == Some(name_for(labels, k)) by {
        if j < front.len() {
            assert(lines[j] == front[j]);
            let k = choose|k: nat|
                first.contains(k) && given(front[j], labels) == Some(name_for(labels, k));
            assert(all.contains(k));
        } else {
            assert(lines[j] == back[j - front.len()]);
            let k = choose|k: nat|
                second.contains(k) && given(back[j - front.len()], labels) == Some(
                    name_for(labels, k),
                );
            assert(all.contains(k));
        }
    }
    assert forall|a: int, b: int|
        #![trigger lines[a], lines[b]]
        0 <= a < b < lines.len() && given(lines[a], labels) is Some && given(lines[b], labels)
            is Some implies given(lines[a], labels) != given(lines[b], labels) by {
        if b < front.len() {
            assert(lines[a] == front[a] && lines[b] == front[b]);
        } else if a >= front.len() {
            assert(lines[a] == back[a - front.len()] && lines[b] == back[b - front.len()]);
        } else {
            assert(lines[a] == front[a] && lines[b] == back[b - front.len()]);
            let ka = choose|k: nat|
                first.contains(k) && given(front[a], labels) == Some(name_for(labels, k));
            let kb = choose|k: nat|
                second.contains(k) && given(back[b - front.len()], labels) == Some(
                    name_for(labels, k),
                );
            lemma_names_of_numbers_differ(labels, ka, kb);
        }
    }
}

/// The numbers that the names of the lines for a scope come from: for
/// labels those from `label` on, for temporaries those behind `counter`, as
/// many as the scope takes.
pub open spec fn numbers_of(scope: Seq<Node>, i: int, counter: nat, label: nat, labels: bool) -> Set<
    nat,
> {
    if labels {
        range(label, label + labels_from(scope, i))
    } else {
        range(counter + 1, counter + 1 + temps_from(scope, i))
    }
}

/// A directive gives out no name.
proof fn lemma_located_names(debug: bool, location: (u32, u32), labels: bool)
    ensures
        names_from(located(debug, location), labels, Set::empty()),
        names_differ(located(debug, location), labels),
{
}

/// The lines for one instruction other than a loop give out the temporaries
/// that the instruction takes, each once, and no label.
proof fn lemma_simple_names(op: Op, counter: nat, labels: bool)
    requires
        !(op is Loop),
    ensures
        names_from(
            simple_lines(op, counter),
            labels,
            if labels {
                Set::empty()
            } else {
                range(counter + 1, counter + 1 + temps_of(op))
            },
        ),
        names_differ(simple_lines(op, counter), labels),
{
    let lines = simple_lines(op, counter);
    let allowed = range(counter + 1, counter + 1 + temps_of(op));
    lemma_names_of_numbers_differ(labels, counter + 1, counter + 2);
    lemma_names_of_numbers_differ(labels, counter + 1, counter + 3);
    lemma_names_of_numbers_differ(labels, counter + 2, counter + 3);
    if !labels {
        assert forall|j: int|
            0 <= j < lines.len() && given(#[trigger] lines[j], labels) is Some implies exists|
            k: nat,
        |
            allowed.contains(k) && given(lines[j], labels) == Some(name_for(labels, k)) by {
            let name = given(lines[j], labels)->0;
            if name == temp_name(counter + 1) {
                assert(allowed.contains(counter + 1));
            } else if name == temp_name(counter + 2) {
                assert(allowed.contains(counter + 2));
            } else {
                assert(name == temp_name(counter + 3));
                assert(allowed.contains(counter + 3));
            }
        }
    }
}

/// The head of a loop gives out two labels and two temporaries, each once;
/// its foot gives out the third label.
proof fn lemma_loop_names(counter: nat, label: nat, labels: bool)
    ensures
        names_from(
            loop_head(counter, label),
            labels,
            if labels {
                range(label, label + 2)
            } else {
                range(counter + 1, counter + 3)
            },
        ),
        names_differ(loop_head(counter, label), labels),
        names_from(
            loop_foot(label),
            labels,
            if labels {
                range(label + 2, label + 3)
            } else {
                Set::empty()
            },
        ),
        names_differ(loop_foot(label), labels),
{
    let head = loop_head(counter, label);
    let foot = loop_foot(label);
    lemma_names_of_numbers_differ(labels, counter + 1, counter + 2);
    lemma_names_of_numbers_differ(labels, label, label + 1);
    if labels {
        let allowed = range(label, label + 2);
        assert(allowed.contains(label) && allowed.contains(label + 1));
        assert(range(label + 2, label + 3).contains(label + 2));
        assert(given(foot[1], labels) == Some(name_for(labels, label + 2)));
    } else {
        let allowed = range(counter + 1, counter + 3);
        assert(allowed.contains(counter + 1) && allowed.contains(counter + 2));
    }
}

/// The lines for the nodes of a scope from index `i` on give out the names
/// of the numbers that the scope takes, each once.
pub proof fn lemma_lines_names(
    scope: Seq<Node>,
    i: int,
    counter: nat,
    label: nat,
    debug: bool,
    labels: bool,
)
    ensures
        names_from(
            lines_from(scope, i, counter, label, debug),
            labels,
            numbers_of(scope, i, counter, label, labels),
        ),
        names_differ(lines_from(scope, i, counter, label, debug), labels),
    decreases scope, scope.len() - i,
{
    if 0 <= i < scope.len() {
        let node = scope[i];
        let all = numbers_of(scope, i, counter, label, labels);
        let mark = located(debug, node.location);
        lemma_located_names(debug, node.location, labels);
        match node.op {
            Op::Loop(body) => {
                let head = loop_head(counter, label);
                let inner = lines_from(body, 0, counter + 3, label + 3, debug);
                let foot = loop_foot(label);
                let next_counter = counter + 3 + temps_from(body, 0);
                let next_label = label + 3 + labels_from(body, 0);
                let rest = lines_from(scope, i + 1, next_counter, next_label, debug);
                lemma_loop_names(counter, label, labels);
                lemma_lines_names(body, 0, counter + 3, label + 3, debug, labels);
                lemma_lines_names(scope, i + 1, next_counter, next_label, debug, labels);
                let head_set = if labels {
                    range(label, label + 2)
                } else {
                    range(counter + 1, counter + 3)
                };
                let inner_set = numbers_of(body, 0, counter + 3, label + 3, labels);
                let foot_set = if labels {
                    range(label + 2, label + 3)
                } else {
                    Set::empty()
                };
                let rest_set = numbers_of(scope, i + 1, next_counter, next_label, labels);
                let up_to_inner = Set::new(|k: nat| head_set.contains(k) || inner_set.contains(k));
                let up_to_foot = Set::new(|k: nat| up_to_inner.contains(k) || foot_set.contains(k));
                lemma_join(mark, head, labels, Set::empty(), head_set, head_set);
                lemma_join(mark + head, inner, labels, head_set, inner_set, up_to_inner);
                lemma_join(mark + head + inner, foot, labels, up_to_inner, foot_set, up_to_foot);
                lemma_join(mark + head + inner + foot, rest, labels, up_to_foot, rest_set, all);
            },
            op => {
                let own = simple_lines(op, counter);
                let own_set = if labels {
                    Set::empty()
                } else {
                    range(counter + 1, counter + 1 + temps_of(op))
                };
                let rest = lines_from(scope, i + 1, counter + temps_of(op), label, debug);
                let rest_set = numbers_of(scope, i + 1, counter + temps_of(op), label, labels);
                lemma_simple_names(op, counter, labels);
                lemma_lines_names(scope, i + 1, counter + temps_of(op), label, debug, labels);
                lemma_join(mark, own, labels, Set::empty(), own_set, own_set);
                lemma_join(mark + own, rest, labels, own_set, rest_set, all);
            },
        }
    }
}

/// In the body of `main`, no label opens two blocks and no temporary is
/// assigned to twice, however the loops of the program are nested and
/// lined up.
pub proof fn law_names_are_given_once(scope: Seq<Node>, debug: bool)
    ensures
        names_differ(main_lines(scope, debug), true),
        names_differ(main_lines(scope, debug), false),
{
    if scope.len() > 0 {
        let body = lines_from(scope, 0, 3, 1, debug);
        let tail = seq![return_zero()];
        lemma_lines_names(scope, 0, 3, 1, debug, true);
        lemma_lines_names(scope, 0, 3, 1, debug, false);
        // temporaries: the start takes the first three
        lemma_names_of_numbers_differ(false, 1, 2);
        lemma_names_of_numbers_differ(false, 1, 3);
        lemma_names_of_numbers_differ(false, 2, 3);
        let start_set = range(1, 4);
        assert(start_set.contains(1) && start_set.contains(2) && start_set.contains(3));
        assert(names_from(prologue(), false, start_set)) by {
            assert forall|j: int|
                0 <= j < prologue().len() && given(
                    #[trigger] prologue()[j],
                    false,
                ) is Some implies exists|k: nat|
                start_set.contains(k) && given(prologue()[j], false) == Some(
                    name_for(false, k),
                ) by {
                let name = given(prologue()[j], false)->0;
                if name == temp_name(1) {
                    assert(start_set.contains(1));
                } else if name == temp_name(2) {
                    assert(start_set.contains(2));
                } else {
                    assert(name == temp_name(3));
                    assert(start_set.contains(3));
                }
            }
        }
        let body_set = numbers_of(scope, 0, 3, 1, false);
        let both = Set::new(|k: nat| start_set.contains(k) || body_set.contains(k));
        lemma_join(prologue(), body, false, start_set, body_set, both);
        lemma_join(prologue() + body, tail, false, both, Set::empty(), both);
        // labels: the start has one that no loop has
        let lines = main_lines(scope, debug);
        let numbers = numbers_of(scope, 0, 3, 1, true);
        assert forall|a: int, b: int|
            #![trigger lines[a], lines[b]]
            0 <= a < b < lines.len() && given(lines[a], true) is Some && given(lines[b], true)
                is Some implies given(lines[a], true) != given(lines[b], true) by {
            let first = prologue().len() as int;
            assert(given(lines[b], true) is Some ==> first <= b < first + body.len());
            assert(lines[b] == body[b - first]);
            let kb = choose|k: nat|
                numbers.contains(k) && given(body[b - first], true) == Some(name_for(true, k));
            if a < first {
                assert(lines[a] == prologue()[a]);
                assert(given(lines[a], true) == Some("start"@));
                reveal_strlit("start");
                reveal_strlit("loop.");
                assert(label_name(kb)[0] == 'l');
                assert("start"@[0] == 's');
            } else {
                assert(lines[a] == body[a - first]);
            }
        }
    }
}

} // verus!
