use bfc::args::args::{default_passes, Args, Commands, DEFAULT_TAPE_SIZE};
use bfc::execute::interpret::{interpret, Stop};
use bfc::execute::machine::{Machine, RuntimeError};
use bfc::execute::session::{Action, Session};
use bfc::parse::ast::{generate_ast, ParseError};
use bfc::parse::opcodes::{OpCodes, Tokens};
use bfc::parse::optimizer::{optimize, OptimizerStrategies};

fn parse(source: &str) -> Vec<Tokens> {
    generate_ast(&mut source.chars(), None, None)
}

fn drive(ast: Vec<Tokens>, input: &[u8], size: usize) -> (Action, String, usize) {
    let mut session = Session::new(ast, Machine::new(size));
    let mut output = String::new();
    let mut consumed = 0usize;
    loop {
        match session.resume(1000) {
            Action::Write(c) => output.push(c),
            Action::Read => {
                if consumed == input.len() {
                    return (Action::Fault(RuntimeError::EndOfInput), output, consumed);
                }
                assert!(session.feed(input[consumed]));
                consumed += 1;
            }
            Action::Pause => {}
            end => return (end, output, consumed),
        }
    }
}

const HELLO: &str = "++++++++[>++++[>++>+++>+++>+<<<<-]>+>+>->>+[<]<-]>>.>---.+++++++..+++.>>.<-.<.+++.------.--------.>>+.>++.";

#[test]
fn a_session_prints_hello_world() {
    let (end, output, consumed) = drive(parse(HELLO), &[], DEFAULT_TAPE_SIZE);
    assert_eq!(end, Action::Done);
    assert_eq!(output, "Hello World!\n");
    assert_eq!(consumed, 0);
}

#[test]
fn a_session_hands_a_byte_read_back() {
    let (end, output, consumed) = drive(parse(",."), &[65], DEFAULT_TAPE_SIZE);
    assert_eq!(end, Action::Done);
    assert_eq!(output, "A");
    assert_eq!(consumed, 1);
}

#[test]
fn a_session_stops_for_each_thing_to_do() {
    let mut session = Session::new(parse("+.,[.-]"), Machine::new(4));
    assert_eq!(session.resume(0), Action::Pause);
    assert!(!session.feed(9));
    assert_eq!(session.machine().get_byte(), 0);
    assert_eq!(session.resume(1), Action::Pause);
    assert_eq!(session.machine().get_byte(), 1);
    assert!(!session.feed(9));
    assert_eq!(session.resume(10), Action::Write('\u{1}'));
    assert_eq!(session.resume(10), Action::Read);
    assert_eq!(session.resume(10), Action::Read);
    assert!(session.feed(2));
    assert_eq!(session.machine().get_byte(), 2);
    assert_eq!(session.resume(10), Action::Write('\u{2}'));
    assert_eq!(session.resume(10), Action::Write('\u{1}'));
    assert_eq!(session.resume(10), Action::Done);
    assert_eq!(session.resume(10), Action::Done);
    assert_eq!(session.machine().get_byte(), 0);
}

#[test]
fn a_session_reports_a_cell_that_is_no_character() {
    let ast = vec![
        Tokens::new(OpCodes::Sub(1), (1, 1)),
        Tokens::new(OpCodes::Output, (1, 2)),
    ];
    let mut session = Session::new(ast, Machine::new(2));
    assert_eq!(session.resume(10), Action::Fault(RuntimeError::InvalidScalarValue));
    assert_eq!(session.resume(10), Action::Fault(RuntimeError::InvalidScalarValue));
}

#[test]
fn a_session_never_ends_a_loop_that_never_ends() {
    let mut session = Session::new(parse("+[]"), Machine::new(2));
    for _ in 0..100 {
        assert_eq!(session.resume(1000), Action::Pause);
    }
}

#[test]
fn a_session_and_the_interpreter_agree() {
    let programs = [HELLO, ",[.,]", "+[>+.<-]>>,.", "++[>+++[>++<-]<-]>>.", ",>,<[->+<]>."];
    let input = [3u8, 4, 0, 7];
    for source in programs {
        let ast = parse(source);
        let mut machine = Machine::new(64);
        let mut consumed = 0usize;
        let mut output: Vec<char> = Vec::new();
        let stop = interpret(&ast, &mut machine, &input, &mut consumed, &mut output, u64::MAX);
        let (end, written, read) = drive(ast, &input, 64);
        let expected = match stop {
            Stop::Done => Action::Done,
            Stop::Fault(fault) => Action::Fault(fault),
            Stop::OutOfFuel => Action::Pause,
        };
        assert_eq!(end, expected);
        assert_eq!(written, output.into_iter().collect::<String>());
        assert_eq!(read, consumed);
    }
}

#[test]
fn an_optimized_program_behaves_like_the_plain_one() {
    let programs = [HELLO, ",[.,]", "+-[-]+[>+.<-]>>,.>><<", "++[>+++[>++<-]<-]>>.>[]+", ",.[-]++"];
    let input = [3u8, 4, 0, 7];
    let all = [
        OptimizerStrategies::ClearLoop,
        OptimizerStrategies::DeadCode,
        OptimizerStrategies::Contractions,
        OptimizerStrategies::PureCode,
    ];
    for source in programs {
        let ast = parse(source);
        for passes in [&all[..], &default_passes()[..], &all[..1], &all[1..2], &all[2..3], &all[3..]] {
            let optimized = optimize(&ast, passes);
            assert_eq!(drive(optimized, &input, 32), drive(ast.clone(), &input, 32));
        }
    }
}

#[test]
fn the_error_names_both_counts() {
    let error = ParseError::UnbalancedBrackets { open: 12, close: 0 };
    assert_eq!(error.to_string(), "Could not balance brackets:\n'[': 12\n']': 0");
}

#[test]
fn commands_name_their_file() {
    let args = Args {
        cmd: Commands::Compile { emit_ir: true, dynamic: false, rest: "a.bf".to_string() },
    };
    assert_eq!(args.cmd.input_file(), Some(&"a.bf".to_string()));
    let run = Commands::Interpret { rest: "b.bf".to_string() };
    assert_eq!(run.input_file(), Some(&"b.bf".to_string()));
    assert_eq!(Commands::Shell {}.input_file(), None);
    assert_eq!(
        default_passes(),
        vec![
            OptimizerStrategies::Contractions,
            OptimizerStrategies::DeadCode,
            OptimizerStrategies::PureCode
        ]
    );
    assert_eq!(DEFAULT_TAPE_SIZE, 30_000);
}
