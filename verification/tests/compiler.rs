use bfc::execute::compile::{can_compile, compile, with_file_header};
use bfc::execute::machine::Machine;
use bfc::parse::ast::generate_ast;
use bfc::parse::opcodes::{OpCodes, Tokens};

fn parse(source: &str) -> Vec<Tokens> {
    generate_ast(&mut source.chars(), None, None)
}

#[test]
fn the_empty_program_returns_zero_and_needs_no_static_link() {
    let machine = Machine::new(30_000);
    let (text, link) = compile(&Vec::new(), &machine, &true, "empty.bf".to_string());
    assert_eq!(text, "export function w $main() {\n@start\n\tret 0\n}\n");
    assert!(!link);
}

#[test]
fn a_single_add_is_loaded_added_and_stored() {
    let machine = Machine::new(30_000);
    let ast = parse("+");
    assert!(can_compile(&ast));
    let (text, link) = compile(&ast, &machine, &false, "add.bf".to_string());
    let expected = "export function w $main() {\n\
@start\n\
\t%.1 =l alloc8 8\n\
\tstorel $tape, %.1\n\
\t%.2 =l loadl $stdout\n\
\t%.3 =l extsw 0\n\
\tcall $setbuf(l %.2, l %.3)\n\
\t%.4 =l loadl %.1\n\
\t%.5 =w loadw %.4\n\
\t%.6 =w add %.5, 1\n\
\tstorew %.6, %.4\n\
\tret 0\n\
}\n\
data $tape = align 8 { z 30000 }\n";
    assert_eq!(text, expected);
    assert!(link);
}

#[test]
fn nested_and_sibling_loops_get_labels_of_their_own() {
    let machine = Machine::new(16);
    let ast = parse("[[>]<],[.]");
    let (text, link) = compile(&ast, &machine, &false, String::new());
    let expected = "export function w $main() {\n\
@start\n\
\t%.1 =l alloc8 8\n\
\tstorel $tape, %.1\n\
\t%.2 =l loadl $stdout\n\
\t%.3 =l extsw 0\n\
\tcall $setbuf(l %.2, l %.3)\n\
@loop.1\n\
\t%.4 =l loadl %.1\n\
\t%.5 =w loadw %.4\n\
\tjnz %.5, @loop.2, @loop.3\n\
@loop.2\n\
\n\
@loop.4\n\
\t%.7 =l loadl %.1\n\
\t%.8 =w loadw %.7\n\
\tjnz %.8, @loop.5, @loop.6\n\
@loop.5\n\
\t%.10 =l loadl %.1\n\
\t%.11 =l add %.10, 4\n\
\tstorel %.11, %.1\n\
\tjmp @loop.4\n\
@loop.6\n\
\t%.12 =l loadl %.1\n\
\t%.13 =l sub %.12, 4\n\
\tstorel %.13, %.1\n\
\tjmp @loop.1\n\
@loop.3\n\
\t%.14 =w call $getchar()\n\
\t%.15 =l loadl %.1\n\
\tstorew %.14, %.15\n\
@loop.7\n\
\t%.16 =l loadl %.1\n\
\t%.17 =w loadw %.16\n\
\tjnz %.17, @loop.8, @loop.9\n\
@loop.8\n\
\t%.19 =l loadl %.1\n\
\t%.20 =w loadw %.19\n\
\t%.21 =w call $putchar(w %.20)\n\
\tjmp @loop.7\n\
@loop.9\n\
\tret 0\n\
}\n\
data $tape = align 8 { z 16 }\n";
    assert_eq!(text, expected);
    assert!(link);
}

#[test]
fn debugging_names_the_file_and_each_place() {
    let machine = Machine::new(8);
    let ast = vec![
        Tokens::new(OpCodes::Clear, (3, 7)),
        Tokens::new(OpCodes::Dec(2), (4, 1)),
    ];
    let (text, _) = compile(&ast, &machine, &true, "dir/prog.bf".to_string());
    let expected = "dbgfile \"dir/prog.bf\"\n\
export function w $main() {\n\
@start\n\
\t%.1 =l alloc8 8\n\
\tstorel $tape, %.1\n\
\t%.2 =l loadl $stdout\n\
\t%.3 =l extsw 0\n\
\tcall $setbuf(l %.2, l %.3)\n\
\tdbgloc 3, 7\n\
\t%.4 =l loadl %.1\n\
\t%.5 =w loadw %.4\n\
\t%.6 =w copy 0\n\
\tstorew %.6, %.4\n\
\tdbgloc 4, 1\n\
\t%.7 =l loadl %.1\n\
\t%.8 =l sub %.7, 8\n\
\tstorel %.8, %.1\n\
\tret 0\n\
}\n\
data $tape = align 8 { z 8 }\n";
    assert_eq!(text, expected);
}

#[test]
fn the_file_header_is_only_added_for_debugging() {
    assert_eq!(
        with_file_header("body".to_string(), true, "a.bf".to_string()),
        "dbgfile \"a.bf\"\nbody"
    );
    assert_eq!(with_file_header("body".to_string(), false, "a.bf".to_string()), "body");
}
