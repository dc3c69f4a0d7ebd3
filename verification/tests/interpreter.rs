use bfc::execute::interpret::{interpret, Stop};
use bfc::execute::machine::{Machine, RuntimeError};
use bfc::parse::ast::generate_ast;
use bfc::parse::opcodes::{OpCodes, Tokens};

fn run(source: &str, input: &[u8], size: usize) -> (Stop, String, usize, Machine) {
    let ast = generate_ast(&mut source.chars(), None, None);
    let mut machine = Machine::new(size);
    let mut consumed = 0usize;
    let mut output: Vec<char> = Vec::new();
    let stop = interpret(&ast, &mut machine, input, &mut consumed, &mut output, u64::MAX);
    (stop, output.into_iter().collect(), consumed, machine)
}

#[test]
fn hello_world_is_printed() {
    let source = "++++++++[>++++[>++>+++>+++>+<<<<-]>+>+>->>+[<]<-]>>.>---.+++++++..+++.>>.<-.<.+++.------.--------.>>+.>++.";
    let (stop, output, consumed, _) = run(source, &[], 30_000);
    assert_eq!(stop, Stop::Done);
    assert_eq!(output, "Hello World!\n");
    assert_eq!(consumed, 0);
}

#[test]
fn a_byte_read_is_written_back() {
    let (stop, output, consumed, _) = run(",.", &[65], 30_000);
    assert_eq!(stop, Stop::Done);
    assert_eq!(output, "A");
    assert_eq!(consumed, 1);
}

#[test]
fn reading_past_the_input_ends_the_run() {
    let (stop, output, consumed, machine) = run("+.,.", &[], 8);
    assert_eq!(stop, Stop::Fault(RuntimeError::EndOfInput));
    assert_eq!(output, "\u{1}");
    assert_eq!(consumed, 0);
    assert_eq!(machine.get_byte(), 1);
}

#[test]
fn a_surrogate_cannot_be_written() {
    let ast = vec![
        Tokens::new(OpCodes::Add(0xD800), (1, 1)),
        Tokens::new(OpCodes::Output, (1, 2)),
    ];
    let mut machine = Machine::new(4);
    let mut consumed = 0usize;
    let mut output: Vec<char> = Vec::new();
    let stop = interpret(&ast, &mut machine, &[], &mut consumed, &mut output, 10);
    assert_eq!(stop, Stop::Fault(RuntimeError::InvalidScalarValue));
    assert!(output.is_empty());
}

#[test]
fn a_loop_that_never_ends_runs_out_of_fuel() {
    let ast = generate_ast(&mut "+[]".chars(), None, None);
    let mut machine = Machine::new(4);
    let mut consumed = 0usize;
    let mut output: Vec<char> = Vec::new();
    let stop = interpret(&ast, &mut machine, &[], &mut consumed, &mut output, 1000);
    assert_eq!(stop, Stop::OutOfFuel);
}

#[test]
fn cells_wrap_modulo_two_to_the_thirty_two() {
    let mut machine = Machine::new(3);
    machine.sub(1);
    assert_eq!(machine.get_byte(), u32::MAX);
    machine.add(2);
    assert_eq!(machine.get_byte(), 1);
}

#[test]
fn the_pointer_wraps_at_both_ends() {
    let mut machine = Machine::new(5);
    machine.set_byte(7);
    machine.decrement(1);
    machine.set_byte(9);
    machine.increment(1);
    assert_eq!(machine.get_byte(), 7);
    machine.increment(4);
    assert_eq!(machine.get_byte(), 9);
    machine.increment(6);
    assert_eq!(machine.get_byte(), 7);
    machine.decrement(11);
    assert_eq!(machine.get_byte(), 9);
    machine.increment(usize::MAX);
    machine.decrement(usize::MAX);
    assert_eq!(machine.get_byte(), 9);
    assert_eq!(machine.get_size(), 5);
}

#[test]
fn a_fresh_machine_is_zeroed() {
    let mut machine = Machine::new(30_000);
    assert_eq!(machine.get_size(), 30_000);
    for _ in 0..30_000 {
        assert_eq!(machine.get_byte(), 0);
        machine.increment(1);
    }
}

#[test]
fn faults_are_told_in_words() {
    assert_eq!(
        RuntimeError::InvalidScalarValue.to_string(),
        "The cell holds no Unicode scalar value"
    );
    assert_eq!(RuntimeError::EndOfInput.to_string(), "The input has come to its end");
    assert_eq!(RuntimeError::IoError.to_string(), "Reading or writing has failed");
}

#[test]
fn every_scalar_value_and_nothing_else_can_be_written() {
    for (value, expected) in [
        (0u32, Ok('\0')),
        (65, Ok('A')),
        (0xD7FF, Ok('\u{d7ff}')),
        (0xD800, Err(RuntimeError::InvalidScalarValue)),
        (0xDFFF, Err(RuntimeError::InvalidScalarValue)),
        (0xE000, Ok('\u{e000}')),
        (0x10FFFF, Ok('\u{10ffff}')),
        (0x110000, Err(RuntimeError::InvalidScalarValue)),
        (u32::MAX, Err(RuntimeError::InvalidScalarValue)),
    ] {
        let mut machine = Machine::new(1);
        machine.set_byte(value);
        assert_eq!(machine.output(), expected);
    }
}

#[test]
fn a_byte_read_is_stored_zero_extended() {
    let mut machine = Machine::new(2);
    machine.set_byte(u32::MAX);
    machine.input(0xFF);
    assert_eq!(machine.get_byte(), 255);
}

#[test]
fn clear_sets_the_cell_to_zero() {
    let ast = vec![
        Tokens::new(OpCodes::Add(7), (1, 1)),
        Tokens::new(OpCodes::Clear, (1, 2)),
    ];
    let mut machine = Machine::new(2);
    let mut consumed = 0usize;
    let mut output: Vec<char> = Vec::new();
    assert_eq!(interpret(&ast, &mut machine, &[], &mut consumed, &mut output, 0), Stop::Done);
    assert_eq!(machine.get_byte(), 0);
}

#[test]
fn each_round_of_a_loop_takes_fuel() {
    let ast = generate_ast(&mut "+++[-]".chars(), None, None);
    for (fuel, expected) in [(2u64, Stop::OutOfFuel), (3, Stop::Done), (4, Stop::Done)] {
        let mut machine = Machine::new(2);
        let mut consumed = 0usize;
        let mut output: Vec<char> = Vec::new();
        let stop = interpret(&ast, &mut machine, &[], &mut consumed, &mut output, fuel);
        assert_eq!(stop, expected);
    }
}
