use bfc::parse::ast::{balance_brackets, generate_ast, ParseError};
use bfc::parse::opcodes::{OpCodes, Tokens};

fn parse(source: &str) -> Vec<Tokens> {
    generate_ast(&mut source.chars(), None, None)
}

#[test]
fn each_command_maps_to_its_instruction() {
    let ast = parse("><+-.,");
    let expected = vec![
        Tokens::new(OpCodes::Inc(1), (1, 1)),
        Tokens::new(OpCodes::Dec(1), (1, 2)),
        Tokens::new(OpCodes::Add(1), (1, 3)),
        Tokens::new(OpCodes::Sub(1), (1, 4)),
        Tokens::new(OpCodes::Output, (1, 5)),
        Tokens::new(OpCodes::Input, (1, 6)),
    ];
    assert_eq!(ast, expected);
}

#[test]
fn position_goes_on_behind_a_loop() {
    let ast = parse("+[\n-]\n.");
    let expected = vec![
        Tokens::new(OpCodes::Add(1), (1, 1)),
        Tokens::new(
            OpCodes::Loop(vec![Tokens::new(OpCodes::Sub(1), (2, 1))]),
            (1, 2),
        ),
        Tokens::new(OpCodes::Output, (3, 1)),
    ];
    assert_eq!(ast, expected);
}

#[test]
fn mismatched_brackets_are_reported_with_their_counts() {
    let source = "[[]";
    assert_eq!(
        balance_brackets(&source.chars()),
        Err(ParseError::UnbalancedBrackets { open: 2, close: 1 })
    );
    assert_eq!(balance_brackets(&"[[]]".chars()), Ok(()));
}

#[test]
fn the_balance_check_leaves_the_iterator_alone() {
    let source = "+[-]>";
    let chars = source.chars();
    assert_eq!(balance_brackets(&chars), Ok(()));
    assert_eq!(chars.as_str(), source);
}

#[test]
fn the_balance_check_counts_and_does_not_nest() {
    assert_eq!(balance_brackets(&"]][[".chars()), Ok(()));
    assert_eq!(
        balance_brackets(&"a]b".chars()),
        Err(ParseError::UnbalancedBrackets { open: 0, close: 1 })
    );
    assert_eq!(balance_brackets(&"".chars()), Ok(()));
}

#[test]
fn parsing_ends_at_a_bracket_that_closes_nothing() {
    let source = "+]-[.]";
    let mut chars = source.chars();
    let ast = generate_ast(&mut chars, None, None);
    assert_eq!(ast, vec![Tokens::new(OpCodes::Add(1), (1, 1))]);
    assert_eq!(chars.as_str(), "-[.]");
}

#[test]
fn a_loop_that_is_not_closed_runs_to_the_end_of_the_text() {
    let ast = parse("[[+]-");
    let expected = vec![Tokens::new(
        OpCodes::Loop(vec![
            Tokens::new(OpCodes::Loop(vec![Tokens::new(OpCodes::Add(1), (1, 3))]), (1, 2)),
            Tokens::new(OpCodes::Sub(1), (1, 5)),
        ]),
        (1, 1),
    )];
    assert_eq!(ast, expected);
}

#[test]
fn other_characters_are_skipped_and_counted() {
    let ast = parse("a+ b\n\n c-\u{e9}.");
    let expected = vec![
        Tokens::new(OpCodes::Add(1), (1, 2)),
        Tokens::new(OpCodes::Sub(1), (3, 3)),
        Tokens::new(OpCodes::Output, (3, 5)),
    ];
    assert_eq!(ast, expected);
}

#[test]
fn counting_starts_where_it_is_told_to() {
    let ast = generate_ast(&mut "+\n+".chars(), Some(10), Some(4));
    let expected = vec![
        Tokens::new(OpCodes::Add(1), (10, 5)),
        Tokens::new(OpCodes::Add(1), (11, 1)),
    ];
    assert_eq!(ast, expected);
}

#[test]
fn the_empty_text_is_the_empty_tree() {
    assert_eq!(parse(""), vec![]);
}
