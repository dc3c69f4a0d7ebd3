//! The `qbe` crate as this library sees it.
//!
//! The crate's values are opaque here. Each kind of value gets a model that
//! says what it holds, and each constructor and method that the code
//! generator calls gets a contract over those models. None of these
//! contracts is proved: they restate what the crate's source shows.

use vstd::prelude::*;
use qbe::{Function, Instr, Module, Type, Value};

verus! {

/// `qbe::Value`, carried through as it is.
#[verifier::external_type_specification]
#[verifier::external_body]
pub struct ExValue(Value);

/// `qbe::Type`, carried through as it is.
#[verifier::external_type_specification]
#[verifier::external_body]
pub struct ExType(Type);

/// `qbe::Instr`, carried through as it is.
#[verifier::external_type_specification]
#[verifier::external_body]
pub struct ExInstr(Instr);

/// `qbe::Function`: a collection of blocks that is filled line by line.
#[verifier::external_type_specification]
#[verifier::external_body]
pub struct ExFunction(Function);

/// `qbe::Module`: a collection of functions and data definitions.
#[verifier::external_type_specification]
#[verifier::external_body]
pub struct ExModule(Module);

/// What a `Value` holds.
pub ghost enum Operand {
    Temporary(Seq<char>),
    Global(Seq<char>),
    Const(u64),
}

/// What a `Type` holds. `Other` stands for the types that this library
/// never builds.
pub ghost enum Width {
    Word,
    Long,
    Other(int),
}

/// What an `Instr` holds. `Other` stands for the instructions that this
/// library never builds.
pub ghost enum Code {
    Add(Operand, Operand),
    Sub(Operand, Operand),
    Copy(Operand),
    Ret(Option<Operand>),
    Jnz(Operand, Seq<char>, Seq<char>),
    Jmp(Seq<char>),
    /// A call that is not variadic: the callee and its typed arguments.
    Call(Seq<char>, Seq<(Width, Operand)>),
    Alloc8(u64),
    /// Type, destination, value.
    Store(Width, Operand, Operand),
    /// Type, source.
    Load(Width, Operand),
    DbgLoc(u64, Option<u64>),
    Extsw(Operand),
    Other(int),
}

/// One line of a function's body: the label that opens a block, or one item
/// of the block that was opened last.
pub ghost enum Line {
    Label(Seq<char>),
    Assign(Operand, Width, Code),
    Plain(Code),
    Comment(Seq<char>),
}

/// What a `Function` holds besides its blocks. `Other` stands for the
/// linkages, parameters and return types that this library never builds.
pub ghost enum Shape {
    /// Exported, in no section, without parameters, returning a word.
    Exported(Seq<char>),
    Other(int),
}

/// What a `DataDef` holds. `Other` stands for the definitions that this
/// library never builds.
pub ghost enum Data {
    /// Private, with the given name and alignment, made of one run of
    /// zeroed bytes of the given length.
    Zeroed(Seq<char>, u64, u64),
    Other(int),
}

/// What `value` holds.
pub uninterp spec fn value_of(value: Value) -> Operand;

/// What `ty` holds.
pub uninterp spec fn type_of(ty: Type) -> Width;

/// What `instr` holds.
pub uninterp spec fn instr_of(instr: Instr) -> Code;

/// The blocks of a function, flattened: for each block its label, then its
/// items.
pub uninterp spec fn function_lines(function: Function) -> Seq<Line>;

/// What `function` holds besides its blocks.
pub uninterp spec fn function_shape(function: Function) -> Shape;

/// The functions of a module, in the order in which they were added.
pub uninterp spec fn module_functions(module: Module) -> Seq<(Shape, Seq<Line>)>;

/// The data definitions of a module, in the order in which they were added.
pub uninterp spec fn module_data(module: Module) -> Seq<Data>;

/// The number of type definitions of a module.
pub uninterp spec fn module_types(module: Module) -> nat;

/// The text that `Module`'s `Display` writes for a module without type
/// definitions, with the given functions and data definitions.
pub uninterp spec fn module_text(functions: Seq<(Shape, Seq<Line>)>, data: Seq<Data>) -> Seq<char>;

/// The variant `Value::Temporary`.
#[verifier::external_body]
pub(crate) fn value_temporary(name: String) -> (value: Value)
    ensures
        value_of(value) == Operand::Temporary(name@),
{
    Value::Temporary(name)
}

/// The variant `Value::Global`.
#[verifier::external_body]
pub(crate) fn value_global(name: String) -> (value: Value)
    ensures
        value_of(value) == Operand::Global(name@),
{
    Value::Global(name)
}

/// The variant `Value::Const`.
#[verifier::external_body]
pub(crate) fn value_const(number: u64) -> (value: Value)
    ensures
        value_of(value) == Operand::Const(number),
{
    Value::Const(number)
}

/// The variant `Type::Word`.
#[verifier::external_body]
pub(crate) fn type_word() -> (ty: Type)
    ensures
        type_of(ty) == Width::Word,
{
    Type::Word
}

/// The variant `Type::Long`.
#[verifier::external_body]
pub(crate) fn type_long() -> (ty: Type)
    ensures
        type_of(ty) == Width::Long,
{
    Type::Long
}

/// The variant `Instr::Add`.
#[verifier::external_body]
pub(crate) fn instr_add(lhs: Value, rhs: Value) -> (instr: Instr)
    ensures
        instr_of(instr) == Code::Add(value_of(lhs), value_of(rhs)),
{
    Instr::Add(lhs, rhs)
}

/// The variant `Instr::Sub`.
#[verifier::external_body]
pub(crate) fn instr_sub(lhs: Value, rhs: Value) -> (instr: Instr)
    ensures
        instr_of(instr) == Code::Sub(value_of(lhs), value_of(rhs)),
{
    Instr::Sub(lhs, rhs)
}

/// The variant `Instr::Copy`.
#[verifier::external_body]
pub(crate) fn instr_copy(value: Value) -> (instr: Instr)
    ensures
        instr_of(instr) == Code::Copy(value_of(value)),
{
    Instr::Copy(value)
}

/// The variant `Instr::Ret`, with a value.
#[verifier::external_body]
pub(crate) fn instr_ret(value: Value) -> (instr: Instr)
    ensures
        instr_of(instr) == Code::Ret(Some(value_of(value))),
{
    Instr::Ret(Some(value))
}

/// The variant `Instr::Jnz`.
#[verifier::external_body]
pub(crate) fn instr_jnz(value: Value, if_nonzero: String, if_zero: String) -> (instr: Instr)
    ensures
        instr_of(instr) == Code::Jnz(value_of(value), if_nonzero@, if_zero@),
{
    Instr::Jnz(value, if_nonzero, if_zero)
}

/// The variant `Instr::Jmp`.
#[verifier::external_body]
pub(crate) fn instr_jmp(label: String) -> (instr: Instr)
    ensures
        instr_of(instr) == Code::Jmp(label@),
{
    Instr::Jmp(label)
}

/// The typed arguments of a call, each by what it holds.
pub open spec fn arguments_of(args: Seq<(Type, Value)>) -> Seq<(Width, Operand)> {
    Seq::new(args.len(), |i: int| (type_of(args[i].0), value_of(args[i].1)))
}

/// The variant `Instr::Call`, not variadic.
#[verifier::external_body]
pub(crate) fn instr_call(name: String, args: Vec<(Type, Value)>) -> (instr: Instr)
    ensures
        instr_of(instr) == Code::Call(name@, arguments_of(args@)),
{
    Instr::Call(name, args, None)
}

/// The variant `Instr::Alloc8`.
#[verifier::external_body]
pub(crate) fn instr_alloc8(size: u64) -> (instr: Instr)
    ensures
        instr_of(instr) == Code::Alloc8(size),
{
    Instr::Alloc8(size)
}

/// The variant `Instr::Store`: type, destination, value.
#[verifier::external_body]
pub(crate) fn instr_store(ty: Type, destination: Value, value: Value) -> (instr: Instr)
    ensures
        instr_of(instr) == Code::Store(type_of(ty), value_of(destination), value_of(value)),
{
    Instr::Store(ty, destination, value)
}

/// The variant `Instr::Load`: type, source.
#[verifier::external_body]
pub(crate) fn instr_load(ty: Type, source: Value) -> (instr: Instr)
    ensures
        instr_of(instr) == Code::Load(type_of(ty), value_of(source)),
{
    Instr::Load(ty, source)
}

/// The variant `Instr::DbgLoc`, with a column.
#[verifier::external_body]
pub(crate) fn instr_dbgloc(line: u64, column: u64) -> (instr: Instr)
    ensures
        instr_of(instr) == Code::DbgLoc(line, Some(column)),
{
    Instr::DbgLoc(line, Some(column))
}

/// The variant `Instr::Extsw`.
#[verifier::external_body]
pub(crate) fn instr_extsw(value: Value) -> (instr: Instr)
    ensures
        instr_of(instr) == Code::Extsw(value_of(value)),
{
    Instr::Extsw(value)
}

/// `Function::new` with public linkage, no parameters and a word as return
/// type: the function has no block yet.
#[verifier::external_body]
pub(crate) fn function_new(name: String) -> (function: Function)
    ensures
        function_shape(function) == Shape::Exported(name@),
        function_lines(function) == Seq::<Line>::empty(),
{
    Function::new(qbe::Linkage::public(), name, Vec::new(), Some(Type::Word))
}

/// `Function::add_block`: a new, empty block behind the others.
#[verifier::external_body]
pub(crate) fn add_block(function: &mut Function, label: String)
    ensures
        function_lines(*final(function)) == function_lines(*old(function)).push(
            Line::Label(label@),
        ),
        function_shape(*final(function)) == function_shape(*old(function)),
{
    function.add_block(label);
}

/// `Function::add_instr`: the instruction goes to the end of the last block.
/// Without a block the call panics.
#[verifier::external_body]
pub(crate) fn add_instr(function: &mut Function, instr: Instr)
    requires
        function_lines(*old(function)).len() > 0,
    ensures
        function_lines(*final(function)) == function_lines(*old(function)).push(
            Line::Plain(instr_of(instr)),
        ),
        function_shape(*final(function)) == function_shape(*old(function)),
{
    function.add_instr(instr);
}

/// `Function::assign_instr`: the assignment goes to the end of the last
/// block. Without a block the call panics. The type is stored as its base
/// type unless the instruction is a call: a word or a long is its own base
/// type, and only those are let in.
#[verifier::external_body]
pub(crate) fn assign_instr(function: &mut Function, temp: Value, ty: Type, instr: Instr)
    requires
        function_lines(*old(function)).len() > 0,
        type_of(ty) is Word || type_of(ty) is Long,
    ensures
        function_lines(*final(function)) == function_lines(*old(function)).push(
            Line::Assign(value_of(temp), type_of(ty), instr_of(instr)),
        ),
        function_shape(*final(function)) == function_shape(*old(function)),
{
    function.assign_instr(temp, ty, instr);
}

/// `Module::new`: a module that holds nothing.
#[verifier::external_body]
pub(crate) fn module_new() -> (module: Module)
    ensures
        module_functions(module) == Seq::<(Shape, Seq<Line>)>::empty(),
        module_data(module) == Seq::<Data>::empty(),
        module_types(module) == 0,
{
    Module::new()
}

/// `Module::add_data`, with a private definition of the given name and
/// alignment that holds one run of `size` zeroed bytes.
#[verifier::external_body]
pub(crate) fn add_zeroed_data(module: &mut Module, name: String, align: u64, size: u64)
    ensures
        module_data(*final(module)) == module_data(*old(module)).push(
            Data::Zeroed(name@, align, size),
        ),
        module_functions(*final(module)) == module_functions(*old(module)),
        module_types(*final(module)) == module_types(*old(module)),
{
    let items = vec![(Type::Zero, qbe::DataItem::Const(size))];
    module.add_data(qbe::DataDef::new(qbe::Linkage::private(), name, Some(align), items));
}

/// `Module::add_function`: the function goes behind the others.
#[verifier::external_body]
pub(crate) fn add_function(module: &mut Module, function: Function)
    ensures
        module_functions(*final(module)) == module_functions(*old(module)).push(
            (function_shape(function), function_lines(function)),
        ),
        module_data(*final(module)) == module_data(*old(module)),
        module_types(*final(module)) == module_types(*old(module)),
{
    module.add_function(function);
}

/// `Module`'s `to_string`: the text of the module. Writing a `Load` of a
/// byte or a halfword, a `Store` or `Load` of an aggregate, or an assignment
/// to anything but a temporary panics; a module must be free of them.
#[verifier::external_body]
pub(crate) fn module_to_string(module: &Module) -> (text: String)
    requires
        module_types(*module) == 0,
        forall|i: int, j: int|
            0 <= i < module_functions(*module).len() && 0 <= j < module_functions(
                *module,
            )[i].1.len() ==> writable(#[trigger] module_functions(*module)[i].1[j]),
    ensures
        text@ == module_text(module_functions(*module), module_data(*module)),
{
    module.to_string()
}

/// A line that `Display` writes without panicking, as far as this library
/// builds lines: loads and stores are of words and longs, and what is
/// assigned to is a temporary.
pub open spec fn writable(line: Line) -> bool {
    match line {
        Line::Label(_) => true,
        Line::Comment(_) => true,
        Line::Plain(code) => writable_code(code),
        Line::Assign(target, _, code) => target is Temporary && writable_code(code),
    }
}

/// An instruction that `Display` writes without panicking.
pub open spec fn writable_code(code: Code) -> bool {
    match code {
        Code::Store(ty, _, _) => ty is Word || ty is Long,
        Code::Load(ty, _) => ty is Word || ty is Long,
        Code::Other(_) => false,
        _ => true,
    }
}

} // verus!
