//! From the instruction tree to QBE intermediate language.
//!
//! The tape is a global buffer of zeroed bytes; the temporary `%.1` holds the
//! address of the slot that holds the address of the current cell. Every
//! other temporary and every label gets a number of its own from two
//! counters that run through the whole program.

use vstd::prelude::*;
use vstd::string::StringExecFns;
use qbe::{Function, Type, Value};
use crate::execute::ir::{
    add_block, add_function, add_instr, add_zeroed_data, arguments_of, assign_instr,
    function_lines, function_new, function_shape, instr_add, instr_alloc8, instr_call,
    instr_copy, instr_dbgloc, instr_extsw, instr_jmp, instr_jnz, instr_load, instr_ret,
    instr_store, instr_sub, module_new, module_text, module_to_string, type_long, type_word,
    value_const, value_global, value_of, value_temporary, writable, Code, Data, Line,
    Operand, Shape, Width,
};
use crate::execute::machine::Machine;
use crate::text::{decimal, digits};
use crate::parse::opcodes::{lemma_loop_model, tree, Node, Op, OpCodes, Tokens};

verus! {

// ---------------------------------------------------------------------------
// What is generated
// ---------------------------------------------------------------------------

/// The name of the temporary with number `n`.
pub open spec fn temp_name(n: nat) -> Seq<char> {
    "."@ + digits(n)
}

/// The name of the label with number `n`.
pub open spec fn label_name(n: nat) -> Seq<char> {
    "loop."@ + digits(n)
}

/// The temporary with number `n`.
pub open spec fn temp(n: nat) -> Operand {
    Operand::Temporary(temp_name(n))
}

/// The directive that ties what follows to a place in the source, where
/// debugging is asked for.
pub open spec fn located(debug: bool, location: (u32, u32)) -> Seq<Line> {
    if debug {
        seq![Line::Plain(Code::DbgLoc(location.0 as u64, Some(location.1 as u64)))]
    } else {
        Seq::empty()
    }
}

/// Loads the address of the current cell into temporary `target`.
pub open spec fn load_pointer(target: nat) -> Line {
    Line::Assign(temp(target), Width::Long, Code::Load(Width::Long, temp(1)))
}

/// Loads the word at the address held by temporary `address` into temporary
/// `target`.
pub open spec fn load_cell(target: nat, address: nat) -> Line {
    Line::Assign(temp(target), Width::Word, Code::Load(Width::Word, temp(address)))
}

/// The lines for one instruction other than a loop, when the temporaries up
/// to `counter` are taken. A cell is four bytes wide, so a move by `n` cells
/// changes the address by `4 * n`.
pub open spec fn simple_lines(op: Op, counter: nat) -> Seq<Line> {
    match op {
        Op::Inc(x) => seq![
            load_pointer(counter + 1),
            Line::Assign(
                temp(counter + 2),
                Width::Long,
                Code::Add(temp(counter + 1), Operand::Const((x as u64 * 4) as u64)),
            ),
            Line::Plain(Code::Store(Width::Long, temp(1), temp(counter + 2))),
        ],
        Op::Dec(x) => seq![
            load_pointer(counter + 1),
            Line::Assign(
                temp(counter + 2),
                Width::Long,
                Code::Sub(temp(counter + 1), Operand::Const((x as u64 * 4) as u64)),
            ),
            Line::Plain(Code::Store(Width::Long, temp(1), temp(counter + 2))),
        ],
        Op::Add(x) => seq![
            load_pointer(counter + 1),
            load_cell(counter + 2, counter + 1),
            Line::Assign(
                temp(counter + 3),
                Width::Word,
                Code::Add(temp(counter + 2), Operand::Const(x as u64)),
            ),
            Line::Plain(Code::Store(Width::Word, temp(counter + 1), temp(counter + 3))),
        ],
        Op::Sub(x) => seq![
            load_pointer(counter + 1),
            load_cell(counter + 2, counter + 1),
            Line::Assign(
                temp(counter + 3),
                Width::Word,
                Code::Sub(temp(counter + 2), Operand::Const(x as u64)),
            ),
            Line::Plain(Code::Store(Width::Word, temp(counter + 1), temp(counter + 3))),
        ],
        Op::Output => seq![
            load_pointer(counter + 1),
            load_cell(counter + 2, counter + 1),
            Line::Assign(
                temp(counter + 3),
                Width::Word,
                Code::Call("putchar"@, seq![(Width::Word, temp(counter + 2))]),
            ),
        ],
        Op::Input => seq![
            Line::Assign(temp(counter + 1), Width::Word, Code::Call("getchar"@, Seq::empty())),
            load_pointer(counter + 2),
            Line::Plain(Code::Store(Width::Word, temp(counter + 2), temp(counter + 1))),
        ],
        Op::Clear => seq![
            load_pointer(counter + 1),
            load_cell(counter + 2, counter + 1),
            Line::Assign(temp(counter + 3), Width::Word, Code::Copy(Operand::Const(0))),
            Line::Plain(Code::Store(Width::Word, temp(counter + 1), temp(counter + 3))),
        ],
        Op::Loop(_) => Seq::empty(),
    }
}

/// How many numbers for temporaries an instruction takes for itself. A loop
/// takes three for its head and uses two of them.
pub open spec fn temps_of(op: Op) -> nat {
    match op {
        Op::Inc(_) | Op::Dec(_) | Op::Input => 2,
        _ => 3,
    }
}

/// How many numbers for temporaries the nodes of `scope` from index `i` on
/// take, loop bodies included.
pub open spec fn temps_from(scope: Seq<Node>, i: int) -> nat
    decreases scope, scope.len() - i,
{
    if 0 <= i < scope.len() {
        let inside = match scope[i].op {
            Op::Loop(body) => temps_from(body, 0),
            _ => 0,
        };
        temps_of(scope[i].op) + inside + temps_from(scope, i + 1)
    } else {
        0
    }
}

/// How many numbers for labels the nodes of `scope` from index `i` on take:
/// three for each loop, at whatever depth.
pub open spec fn labels_from(scope: Seq<Node>, i: int) -> nat
    decreases scope, scope.len() - i,
{
    if 0 <= i < scope.len() {
        let here = match scope[i].op {
            Op::Loop(body) => 3 + labels_from(body, 0),
            _ => 0,
        };
        here + labels_from(scope, i + 1)
    } else {
        0
    }
}

/// The head of a loop: the block at which it is entered and re-entered
/// tests the current cell and branches into the body or behind the loop; the
/// block of the body follows.
pub open spec fn loop_head(counter: nat, label: nat) -> Seq<Line> {
    seq![
        Line::Label(label_name(label)),
        load_pointer(counter + 1),
        load_cell(counter + 2, counter + 1),
        Line::Plain(
            Code::Jnz(temp(counter + 2), label_name(label + 1), label_name(label + 2)),
        ),
        Line::Label(label_name(label + 1)),
    ]
}

/// The foot of a loop: the jump back to its head, and the block behind it.
pub open spec fn loop_foot(label: nat) -> Seq<Line> {
    seq![Line::Plain(Code::Jmp(label_name(label))), Line::Label(label_name(label + 2))]
}

/// The lines for the nodes of `scope` from index `i` on, when the
/// temporaries up to `counter` are taken and `label` is the next free number
/// for a label. A loop takes its three labels before its body is generated,
/// so that no loop inside or behind it gets the same.
pub open spec fn lines_from(scope: Seq<Node>, i: int, counter: nat, label: nat, debug: bool) -> Seq<
    Line,
>
    decreases scope, scope.len() - i,
{
    if 0 <= i < scope.len() {
        let node = scope[i];
        match node.op {
            Op::Loop(body) => located(debug, node.location) + loop_head(counter, label)
                + lines_from(body, 0, counter + 3, label + 3, debug) + loop_foot(label)
                + lines_from(
                scope,
                i + 1,
                counter + 3 + temps_from(body, 0),
                label + 3 + labels_from(body, 0),
                debug,
            ),
            op => located(debug, node.location) + simple_lines(op, counter) + lines_from(
                scope,
                i + 1,
                counter + temps_of(op),
                label,
                debug,
            ),
        }
    } else {
        Seq::empty()
    }
}

/// The start of `main` for a program that does something: the slot for the
/// address of the current cell is made and set to the start of the tape, and
/// buffering of the standard output is switched off.
pub open spec fn prologue() -> Seq<Line> {
    seq![
        Line::Label("start"@),
        Line::Assign(temp(1), Width::Long, Code::Alloc8(8)),
        Line::Plain(Code::Store(Width::Long, temp(1), Operand::Global("tape"@))),
        Line::Assign(temp(2), Width::Long, Code::Load(Width::Long, Operand::Global("stdout"@))),
        Line::Assign(temp(3), Width::Long, Code::Extsw(Operand::Const(0))),
        Line::Plain(
            Code::Call("setbuf"@, seq![(Width::Long, temp(2)), (Width::Long, temp(3))]),
        ),
    ]
}

/// The return of the value zero.
pub open spec fn return_zero() -> Line {
    Line::Plain(Code::Ret(Some(Operand::Const(0))))
}

/// The body of `main` for the given program.
pub open spec fn main_lines(scope: Seq<Node>, debug: bool) -> Seq<Line> {
    if scope.len() == 0 {
        seq![Line::Label("start"@), return_zero()]
    } else {
        prologue() + lines_from(scope, 0, 3, 1, debug) + seq![return_zero()]
    }
}

/// The directive that names the source file, on a line of its own.
pub open spec fn file_header(path: Seq<char>) -> Seq<char> {
    "dbgfile \""@ + path + "\"\n"@
}

/// The text generated for a program: for the empty program a `main` that
/// returns zero, without tape; for any other the tape of `size` bytes and
/// `main`, behind the file directive where debugging is asked for.
pub open spec fn program_text(scope: Seq<Node>, size: u64, debug: bool, path: Seq<char>) -> Seq<
    char,
> {
    if scope.len() == 0 {
        module_text(seq![(Shape::Exported("main"@), main_lines(scope, debug))], Seq::empty())
    } else {
        let text = module_text(
            seq![(Shape::Exported("main"@), main_lines(scope, debug))],
            seq![Data::Zeroed("tape"@, 8, size)],
        );
        if debug {
            file_header(path) + text
        } else {
            text
        }
    }
}

/// The numbers for temporaries and labels that a program takes fit the
/// counters.
pub open spec fn fits(scope: Seq<Node>) -> bool {
    3 + temps_from(scope, 0) <= u64::MAX && 1 + labels_from(scope, 0) <= u64::MAX
}

// ---------------------------------------------------------------------------
// The generator
// ---------------------------------------------------------------------------

/// Every line is one that can be written.
pub open spec fn all_writable(lines: Seq<Line>) -> bool {
    forall|j: int| 0 <= j < lines.len() ==> writable(#[trigger] lines[j])
}

/// The name of the temporary with number `value`.
fn format_counter(value: u64) -> (name: String)
    ensures
        name@ == temp_name(value as nat),
{
    let mut name = ".".to_owned();
    name.append(decimal(value).as_str());
    name
}

/// The name of the label with number `value`.
fn format_label(value: u64) -> (name: String)
    ensures
        name@ == label_name(value as nat),
{
    let mut name = "loop.".to_owned();
    name.append(decimal(value).as_str());
    name
}

/// The temporary with number `number`.
fn temporary(number: u64) -> (value: Value)
    ensures
        value_of(value) == temp(number as nat),
{
    value_temporary(format_counter(number))
}

/// Appends the directive for `location`, where debugging is asked for.
fn emit_location(func: &mut Function, debug: bool, location: (u32, u32))
    requires
        function_lines(*old(func)).len() > 0,
        all_writable(function_lines(*old(func))),
    ensures
        function_lines(*final(func)) == function_lines(*old(func)) + located(debug, location),
        function_shape(*final(func)) == function_shape(*old(func)),
        all_writable(function_lines(*final(func))),
{
    if debug {
        add_instr(func, instr_dbgloc(location.0 as u64, location.1 as u64));
    }
    assert(function_lines(*func) =~= function_lines(*old(func)) + located(debug, location));
}

/// Appends the load of the address of the current cell.
fn emit_load_pointer(func: &mut Function, target: u64)
    requires
        function_lines(*old(func)).len() > 0,
        all_writable(function_lines(*old(func))),
    ensures
        function_lines(*final(func)) == function_lines(*old(func)).push(
            load_pointer(target as nat),
        ),
        function_shape(*final(func)) == function_shape(*old(func)),
        all_writable(function_lines(*final(func))),
{
    assign_instr(func, temporary(target), type_long(), instr_load(type_long(), temporary(1)));
}

/// Appends the load of the word at an address.
fn emit_load_cell(func: &mut Function, target: u64, address: u64)
    requires
        function_lines(*old(func)).len() > 0,
        all_writable(function_lines(*old(func))),
    ensures
        function_lines(*final(func)) == function_lines(*old(func)).push(
            load_cell(target as nat, address as nat),
        ),
        function_shape(*final(func)) == function_shape(*old(func)),
        all_writable(function_lines(*final(func))),
{
    assign_instr(
        func,
        temporary(target),
        type_word(),
        instr_load(type_word(), temporary(address)),
    );
}

/// Appends the store of one temporary at the address held by another, as a
/// long or as a word.
fn emit_store(func: &mut Function, long: bool, destination: u64, value: u64)
    requires
        function_lines(*old(func)).len() > 0,
        all_writable(function_lines(*old(func))),
    ensures
        function_lines(*final(func)) == function_lines(*old(func)).push(
            Line::Plain(
                Code::Store(
                    if long {
                        Width::Long
                    } else {
                        Width::Word
                    },
                    temp(destination as nat),
                    temp(value as nat),
                ),
            ),
        ),
        function_shape(*final(func)) == function_shape(*old(func)),
        all_writable(function_lines(*final(func))),
{
    let ty = if long {
        type_long()
    } else {
        type_word()
    };
    add_instr(func, instr_store(ty, temporary(destination), temporary(value)));
}

/// Appends the lines for one instruction other than a loop.
fn generate_simple(code: &OpCodes, counter: u64, func: &mut Function)
    requires
        !(code.model() is Loop),
        counter + temps_of(code.model()) <= u64::MAX,
        function_lines(*old(func)).len() > 0,
        all_writable(function_lines(*old(func))),
    ensures
        function_lines(*final(func)) == function_lines(*old(func)) + simple_lines(
            code.model(),
            counter as nat,
        ),
        function_shape(*final(func)) == function_shape(*old(func)),
        all_writable(function_lines(*final(func))),
{
    let ghost before = function_lines(*func);
    match code {
        OpCodes::Inc(x) => {
            // the pointer is a number in a slot: load it, add, store it back
            emit_load_pointer(func, counter + 1);
            assign_instr(
                func,
                temporary(counter + 2),
                type_long(),
                instr_add(temporary(counter + 1), value_const(*x as u64 * 4)),
            );
            emit_store(func, true, 1, counter + 2);
        },
        OpCodes::Dec(x) => {
            emit_load_pointer(func, counter + 1);
            assign_instr(
                func,
                temporary(counter + 2),
                type_long(),
                instr_sub(temporary(counter + 1), value_const(*x as u64 * 4)),
            );
            emit_store(func, true, 1, counter + 2);
        },
        OpCodes::Add(x) => {
            // load the pointer, load the word it points to, add, store the
            // word back where the pointer points
            emit_load_pointer(func, counter + 1);
            emit_load_cell(func, counter + 2, counter + 1);
            assign_instr(
                func,
                temporary(counter + 3),
                type_word(),
                instr_add(temporary(counter + 2), value_const(*x as u64)),
            );
            emit_store(func, false, counter + 1, counter + 3);
        },
        OpCodes::Sub(x) => {
            emit_load_pointer(func, counter + 1);
            emit_load_cell(func, counter + 2, counter + 1);
            assign_instr(
                func,
                temporary(counter + 3),
                type_word(),
                instr_sub(temporary(counter + 2), value_const(*x as u64)),
            );
            emit_store(func, false, counter + 1, counter + 3);
        },
        OpCodes::Output => {
            emit_load_pointer(func, counter + 1);
            emit_load_cell(func, counter + 2, counter + 1);
            let mut args: Vec<(Type, Value)> = Vec::new();
            args.push((type_word(), temporary(counter + 2)));
            assert(arguments_of(args@) =~= seq![(Width::Word, temp((counter + 2) as nat))]);
            assign_instr(
                func,
                temporary(counter + 3),
                type_word(),
                instr_call("putchar".to_owned(), args),
            );
        },
        OpCodes::Input => {
            let args: Vec<(Type, Value)> = Vec::new();
            assert(arguments_of(args@) =~= Seq::<(Width, Operand)>::empty());
            assign_instr(
                func,
                temporary(counter + 1),
                type_word(),
                instr_call("getchar".to_owned(), args),
            );
            emit_load_pointer(func, counter + 2);
            emit_store(func, false, counter + 2, counter + 1);
        },
        OpCodes::Clear => {
            emit_load_pointer(func, counter + 1);
            emit_load_cell(func, counter + 2, counter + 1);
            assign_instr(
                func,
                temporary(counter + 3),
                type_word(),
                instr_copy(value_const(0)),
            );
            emit_store(func, false, counter + 1, counter + 3);
        },
        OpCodes::Loop(_) => {},
    }
    assert(function_lines(*func) =~= before + simple_lines(code.model(), counter as nat));
}

/// Appends the head of a loop.
fn generate_loop_head(counter: u64, label: u64, func: &mut Function)
    requires
        counter + 3 <= u64::MAX,
        label + 3 <= u64::MAX,
        function_lines(*old(func)).len() > 0,
        all_writable(function_lines(*old(func))),
    ensures
        function_lines(*final(func)) == function_lines(*old(func)) + loop_head(
            counter as nat,
            label as nat,
        ),
        function_shape(*final(func)) == function_shape(*old(func)),
        all_writable(function_lines(*final(func))),
{
    let ghost before = function_lines(*func);
    add_block(func, format_label(label));
    emit_load_pointer(func, counter + 1);
    emit_load_cell(func, counter + 2, counter + 1);
    add_instr(
        func,
        instr_jnz(temporary(counter + 2), format_label(label + 1), format_label(label + 2)),
    );
    add_block(func, format_label(label + 1));
    assert(function_lines(*func) =~= before + loop_head(counter as nat, label as nat));
}

/// Appends the foot of a loop.
fn generate_loop_foot(label: u64, func: &mut Function)
    requires
        label + 3 <= u64::MAX,
        function_lines(*old(func)).len() > 0,
        all_writable(function_lines(*old(func))),
    ensures
        function_lines(*final(func)) == function_lines(*old(func)) + loop_foot(label as nat),
        function_shape(*final(func)) == function_shape(*old(func)),
        all_writable(function_lines(*final(func))),
{
    let ghost before = function_lines(*func);
    add_instr(func, instr_jmp(format_label(label)));
    add_block(func, format_label(label + 2));
    assert(function_lines(*func) =~= before + loop_foot(label as nat));
}

/// Appends the lines for `ast` to the last block of `func` and moves the two
/// counters on by what was taken.
fn generate_qbe(
    ast: &Vec<Tokens>,
    counter: &mut u64,
    while_counter: &mut u64,
    debug: bool,
    func: &mut Function,
)
    requires
        *old(counter) + temps_from(tree(ast@), 0) <= u64::MAX,
        *old(while_counter) + labels_from(tree(ast@), 0) <= u64::MAX,
        function_lines(*old(func)).len() > 0,
        all_writable(function_lines(*old(func))),
    ensures
        function_lines(*final(func)) == function_lines(*old(func)) + lines_from(
            tree(ast@),
            0,
            *old(counter) as nat,
            *old(while_counter) as nat,
            debug,
        ),
        function_shape(*final(func)) == function_shape(*old(func)),
        all_writable(function_lines(*final(func))),
        *final(counter) == *old(counter) + temps_from(tree(ast@), 0),
        *final(while_counter) == *old(while_counter) + labels_from(tree(ast@), 0),
    decreases ast,
{
    let ghost scope = tree(ast@);
    let ghost start = function_lines(*func);
    let ghost goal = lines_from(scope, 0, *counter as nat, *while_counter as nat, debug);
    let ghost all_temps = *counter + temps_from(scope, 0);
    let ghost all_labels = *while_counter + labels_from(scope, 0);
    let mut i: usize = 0;
    while i < ast.len()
        invariant
            i <= ast.len(),
            scope == tree(ast@),
            all_temps <= u64::MAX,
            all_labels <= u64::MAX,
            *counter + temps_from(scope, i as int) == all_temps,
            *while_counter + labels_from(scope, i as int) == all_labels,
            function_lines(*func).len() > 0,
            all_writable(function_lines(*func)),
            function_shape(*func) == function_shape(*old(func)),
            function_lines(*func) + lines_from(
                scope,
                i as int,
                *counter as nat,
                *while_counter as nat,
                debug,
            ) == start + goal,
        decreases ast.len() - i,
    {
        let part = &ast[i];
        let ghost before = function_lines(*func);
        let ghost node = scope[i as int];
        let ghost rest_before = lines_from(
            scope,
            i as int,
            *counter as nat,
            *while_counter as nat,
            debug,
        );
        assert(node == part.model());
        emit_location(func, debug, part.get_location());
        match part.get_type() {
            OpCodes::Loop(body) => {
                proof {
                    lemma_loop_model(*body);
                }
                let ghost inner = tree(body@);
                let ghost c = *counter as nat;
                let ghost l = *while_counter as nat;
                generate_loop_head(*counter, *while_counter, func);
                *counter += 3;
                let returned_while = *while_counter;
                *while_counter += 3;
                generate_qbe(body, counter, while_counter, debug, func);
                generate_loop_foot(returned_while, func);
                proof {
                    let rest_after = lines_from(
                        scope,
                        i + 1,
                        *counter as nat,
                        *while_counter as nat,
                        debug,
                    );
                    assert(function_lines(*func) == before + located(debug, node.location)
                        + loop_head(c, l) + lines_from(inner, 0, c + 3, l + 3, debug)
                        + loop_foot(l));
                    assert(function_lines(*func) + rest_after =~= before + rest_before);
                }
            },
            code => {
                let ghost c = *counter as nat;
                generate_simple(code, *counter, func);
                match code {
                    OpCodes::Inc(_) | OpCodes::Dec(_) | OpCodes::Input => {
                        *counter += 2;
                    },
                    _ => {
                        *counter += 3;
                    },
                }
                proof {
                    let rest_after = lines_from(
                        scope,
                        i + 1,
                        *counter as nat,
                        *while_counter as nat,
                        debug,
                    );
                    assert(function_lines(*func) == before + located(debug, node.location)
                        + simple_lines(node.op, c));
                    assert(function_lines(*func) + rest_after =~= before + rest_before);
                }
            },
        }
        i += 1;
    }
    assert(function_lines(*func) + Seq::<Line>::empty() =~= function_lines(*func));
}

/// Counts the numbers for temporaries and for labels that `ast` takes, or
/// finds that one of the two counts does not fit a `u64`.
fn name_count(ast: &Vec<Tokens>) -> (count: Option<(u64, u64)>)
    ensures
        match count {
            Some((temps, labels)) => temps == temps_from(tree(ast@), 0) && labels == labels_from(
                tree(ast@),
                0,
            ),
            None => temps_from(tree(ast@), 0) > u64::MAX || labels_from(tree(ast@), 0)
                > u64::MAX,
        },
    decreases ast,
{
    let ghost scope = tree(ast@);
    let mut temps: u64 = 0;
    let mut labels: u64 = 0;
    let mut i: usize = 0;
    while i < ast.len()
        invariant
            i <= ast.len(),
            scope == tree(ast@),
            temps + temps_from(scope, i as int) == temps_from(scope, 0),
            labels + labels_from(scope, i as int) == labels_from(scope, 0),
        decreases ast.len() - i,
    {
        let part = &ast[i];
        assert(scope[i as int] == part.model());
        let (own_temps, own_labels): (u64, u64) = match part.get_type() {
            OpCodes::Loop(body) => {
                proof {
                    lemma_loop_model(*body);
                }
                match name_count(body) {
                    Some((inner_temps, inner_labels)) => {
                        if inner_temps > u64::MAX - 3 || inner_labels > u64::MAX - 3 {
                            return None;
                        }
                        (inner_temps + 3, inner_labels + 3)
                    },
                    None => {
                        return None;
                    },
                }
            },
            OpCodes::Inc(_) | OpCodes::Dec(_) | OpCodes::Input => (2, 0),
            _ => (3, 0),
        };
        if own_temps > u64::MAX - temps || own_labels > u64::MAX - labels {
            return None;
        }
        temps += own_temps;
        labels += own_labels;
        i += 1;
    }
    Some((temps, labels))
}

/// Whether `compile` can number the temporaries and labels of `ast`.
pub fn can_compile(ast: &Vec<Tokens>) -> (yes: bool)
    ensures
        yes == fits(tree(ast@)),
{
    match name_count(ast) {
        Some((temps, labels)) => temps <= u64::MAX - 3 && labels <= u64::MAX - 1,
        None => false,
    }
}

/// Generates the program for `ast` as QBE intermediate language, for a tape
/// as large as that of `machine`, and says whether the result is worth
/// linking statically: it is, unless the program is empty.
///
/// With `debug` every group of lines is tied to the place of its instruction
/// in the source, and the text starts with a directive that names
/// `file_location`.
pub fn compile(ast: &Vec<Tokens>, machine: &Machine, debug: &bool, file_location: String) -> (out: (
    String,
    bool,
))
    requires
        fits(tree(ast@)),
    ensures
        out.0@ == program_text(
            tree(ast@),
            machine@.cells.len() as u64,
            *debug,
            file_location@,
        ),
        out.1 == (ast@.len() != 0),
{
    // If so, let's just create a silly little return
    if ast.len() == 0 {
        let mut module = module_new();
        let mut func = function_new("main".to_owned());
        add_block(&mut func, "start".to_owned());
        add_instr(&mut func, instr_ret(value_const(0)));
        assert(function_lines(func) =~= main_lines(tree(ast@), *debug));
        add_function(&mut module, func);
        return (module_to_string(&module), false);
    }
    let mut module = module_new();
    let mut counter: u64 = 1;
    let mut while_counter: u64 = 1;
    add_zeroed_data(&mut module, "tape".to_owned(), 8, machine.get_size() as u64);
    // Create `main`
    let mut func = function_new("main".to_owned());
    add_block(&mut func, "start".to_owned());

    // %.1 =l alloc8 8
    assign_instr(&mut func, temporary(counter), type_long(), instr_alloc8(8));

    // storel $tape, %.1
    add_instr(
        &mut func,
        instr_store(type_long(), temporary(counter), value_global("tape".to_owned())),
    );

    // %.2 =l loadl $stdout
    assign_instr(
        &mut func,
        temporary(counter + 1),
        type_long(),
        instr_load(type_long(), value_global("stdout".to_owned())),
    );

    // %.3 =l extsw 0
    assign_instr(&mut func, temporary(counter + 2), type_long(), instr_extsw(value_const(0)));

    // call $setbuf(l %.2, l %.3)
    // Buffering is switched off so that a program that prints a lot in one
    // line and takes its time shows that something is going on.
    let mut args: Vec<(Type, Value)> = Vec::new();
    args.push((type_long(), temporary(counter + 1)));
    args.push((type_long(), temporary(counter + 2)));
    assert(arguments_of(args@) =~= seq![(Width::Long, temp(2)), (Width::Long, temp(3))]);
    add_instr(&mut func, instr_call("setbuf".to_owned(), args));
    assert(function_lines(func) =~= prologue());

    counter += 2;

    generate_qbe(ast, &mut counter, &mut while_counter, *debug, &mut func);
    add_instr(&mut func, instr_ret(value_const(0)));
    assert(function_lines(func) =~= main_lines(tree(ast@), *debug));
    add_function(&mut module, func);
    let text = module_to_string(&module);
    (with_file_header(text, *debug, file_location), true)
}

/// Puts the directive that names the source file before `text`, where
/// debugging is asked for.
pub fn with_file_header(text: String, debug: bool, file_location: String) -> (out: String)
    ensures
        out@ == if debug {
            file_header(file_location@) + text@
        } else {
            text@
        },
{
    if debug {
        let mut out = "dbgfile \"".to_owned();
        out.append(file_location.as_str());
        out.append("\"\n");
        out.append(text.as_str());
        out
    } else {
        text
    }
}

} // verus!
