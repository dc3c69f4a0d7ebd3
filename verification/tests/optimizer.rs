use bfc::parse::ast::generate_ast;
use bfc::parse::opcodes::{OpCodes, Tokens};
use bfc::parse::optimizer::{
    clear, clear_dead_code, contract, optimize, remove_pure, OptimizerStrategies,
};

fn parse(source: &str) -> Vec<Tokens> {
    generate_ast(&mut source.chars(), None, None)
}

fn at(code: OpCodes, column: u32) -> Tokens {
    Tokens::new(code, (1, column))
}

#[test]
fn contraction_adds_the_counts_of_a_pair() {
    let ast = vec![at(OpCodes::Add(3), 1), at(OpCodes::Add(4), 2)];
    assert_eq!(contract(&ast), vec![at(OpCodes::Add(7), 1)]);
    let ast = vec![at(OpCodes::Dec(1), 5), at(OpCodes::Dec(1), 6)];
    assert_eq!(contract(&ast), vec![at(OpCodes::Dec(2), 5)]);
}

#[test]
fn contraction_saturates_at_the_largest_count() {
    let ast = vec![at(OpCodes::Sub(u32::MAX), 1), at(OpCodes::Sub(1), 2)];
    assert_eq!(contract(&ast), vec![at(OpCodes::Sub(u32::MAX), 1)]);
    let ast = vec![
        at(OpCodes::Inc(u32::MAX - 1), 1),
        at(OpCodes::Inc(1), 2),
        at(OpCodes::Inc(5), 3),
    ];
    assert_eq!(contract(&ast), vec![at(OpCodes::Inc(u32::MAX), 1)]);
}

#[test]
fn contraction_merges_maximal_runs_at_every_level() {
    let ast = parse("+++>>[--<<<.]++-");
    let expected = vec![
        at(OpCodes::Add(3), 1),
        at(OpCodes::Inc(2), 4),
        at(
            OpCodes::Loop(vec![
                at(OpCodes::Sub(2), 7),
                at(OpCodes::Dec(3), 9),
                at(OpCodes::Output, 12),
            ]),
            6,
        ),
        at(OpCodes::Add(2), 14),
        at(OpCodes::Sub(1), 16),
    ];
    assert_eq!(contract(&ast), expected);
}

#[test]
fn a_loop_around_one_add_or_subtract_becomes_clear() {
    for n in [1u32, 2, 255, u32::MAX] {
        let add = vec![at(OpCodes::Loop(vec![at(OpCodes::Add(n), 2)]), 1)];
        assert_eq!(clear(&add), vec![at(OpCodes::Clear, 1)]);
        let sub = vec![at(OpCodes::Loop(vec![at(OpCodes::Sub(n), 2)]), 1)];
        assert_eq!(clear(&sub), vec![at(OpCodes::Clear, 1)]);
    }
}

#[test]
fn a_loop_around_one_output_stays_a_loop() {
    let ast = vec![at(OpCodes::Loop(vec![at(OpCodes::Output, 2)]), 1)];
    assert_eq!(clear(&ast), ast);
}

#[test]
fn clear_loops_are_folded_inside_other_loops() {
    let ast = parse("[[-]][>[+]<]");
    let expected = vec![
        at(OpCodes::Loop(vec![at(OpCodes::Clear, 2)]), 1),
        at(
            OpCodes::Loop(vec![
                at(OpCodes::Inc(1), 7),
                at(OpCodes::Clear, 8),
                at(OpCodes::Dec(1), 11),
            ]),
            6,
        ),
    ];
    assert_eq!(clear(&ast), expected);
}

#[test]
fn parsed_clear_loop_is_a_single_clear() {
    let ast = parse("[-]");
    let out = optimize(&ast, &[OptimizerStrategies::ClearLoop]);
    assert_eq!(out, vec![at(OpCodes::Clear, 1)]);
}

#[test]
fn an_empty_loop_disappears() {
    let ast = vec![at(OpCodes::Loop(vec![]), 1)];
    assert_eq!(clear_dead_code(&ast), vec![]);
    let ast = vec![at(OpCodes::Output, 1), at(OpCodes::Loop(vec![]), 2), at(OpCodes::Input, 4)];
    assert_eq!(clear_dead_code(&ast), vec![at(OpCodes::Output, 1), at(OpCodes::Input, 4)]);
}

#[test]
fn only_a_clear_that_opens_its_scope_disappears() {
    let ast = vec![at(OpCodes::Clear, 1), at(OpCodes::Output, 4), at(OpCodes::Clear, 5)];
    assert_eq!(
        clear_dead_code(&ast),
        vec![at(OpCodes::Output, 4), at(OpCodes::Clear, 5)]
    );
    let nested = vec![at(
        OpCodes::Loop(vec![at(OpCodes::Clear, 2), at(OpCodes::Inc(1), 5), at(OpCodes::Clear, 6)]),
        1,
    )];
    assert_eq!(
        clear_dead_code(&nested),
        vec![at(OpCodes::Loop(vec![at(OpCodes::Inc(1), 5), at(OpCodes::Clear, 6)]), 1)]
    );
}

#[test]
fn opposites_with_equal_counts_cancel() {
    let ast = vec![at(OpCodes::Add(5), 1), at(OpCodes::Sub(5), 2)];
    assert_eq!(clear_dead_code(&ast), vec![]);
    let ast = vec![at(OpCodes::Dec(2), 1), at(OpCodes::Inc(2), 2), at(OpCodes::Output, 3)];
    assert_eq!(clear_dead_code(&ast), vec![at(OpCodes::Output, 3)]);
}

#[test]
fn opposites_with_unequal_counts_both_stay() {
    let ast = vec![at(OpCodes::Add(5), 1), at(OpCodes::Sub(3), 2)];
    assert_eq!(clear_dead_code(&ast), ast);
    let ast = vec![at(OpCodes::Add(5), 1), at(OpCodes::Dec(5), 2)];
    assert_eq!(clear_dead_code(&ast), ast);
}

#[test]
fn cancelling_goes_from_left_to_right() {
    let ast = vec![at(OpCodes::Add(1), 1), at(OpCodes::Sub(1), 2), at(OpCodes::Add(1), 3)];
    assert_eq!(clear_dead_code(&ast), vec![at(OpCodes::Add(1), 3)]);
}

#[test]
fn the_pure_tail_goes_and_what_is_behind_the_last_effect_only() {
    let ast = parse("+.>+<-");
    assert_eq!(remove_pure(&ast), vec![at(OpCodes::Add(1), 1), at(OpCodes::Output, 2)]);
    let ast = parse("+>-<");
    assert_eq!(remove_pure(&ast), vec![]);
    let ast = parse(",[+>]");
    assert_eq!(remove_pure(&ast), ast);
}

#[test]
fn the_pure_tail_of_a_loop_body_stays() {
    let ast = parse("[.+]+");
    let expected = vec![at(
        OpCodes::Loop(vec![at(OpCodes::Output, 2), at(OpCodes::Add(1), 3)]),
        1,
    )];
    assert_eq!(remove_pure(&ast), expected);
}

#[test]
fn no_pass_changes_nothing() {
    let ast = parse("++[-]>[]<+-.");
    assert_eq!(optimize(&ast, &[]), ast);
}

#[test]
fn passes_run_in_their_fixed_order_whatever_the_order_asked_for() {
    let ast = parse("[-]+-[+]++.>>");
    let forward = [
        OptimizerStrategies::ClearLoop,
        OptimizerStrategies::DeadCode,
        OptimizerStrategies::Contractions,
        OptimizerStrategies::PureCode,
    ];
    let backward = [
        OptimizerStrategies::PureCode,
        OptimizerStrategies::Contractions,
        OptimizerStrategies::DeadCode,
        OptimizerStrategies::ClearLoop,
        OptimizerStrategies::PureCode,
    ];
    let expected = vec![at(OpCodes::Clear, 6), at(OpCodes::Add(2), 9), at(OpCodes::Output, 11)];
    assert_eq!(optimize(&ast, &forward), expected);
    assert_eq!(optimize(&ast, &backward), expected);
}

#[test]
fn opposite_swaps_add_with_subtract_and_forward_with_backward() {
    assert_eq!(OpCodes::Add(4).opposite(), Some(OpCodes::Sub(4)));
    assert_eq!(OpCodes::Sub(4).opposite(), Some(OpCodes::Add(4)));
    assert_eq!(OpCodes::Inc(9).opposite(), Some(OpCodes::Dec(9)));
    assert_eq!(OpCodes::Dec(9).opposite(), Some(OpCodes::Inc(9)));
    assert_eq!(OpCodes::Output.opposite(), None);
    assert_eq!(OpCodes::Input.opposite(), None);
    assert_eq!(OpCodes::Clear.opposite(), None);
    assert_eq!(OpCodes::Loop(vec![]).opposite(), None);
}

#[test]
fn tokens_give_back_what_they_were_made_of() {
    let token = Tokens::new(OpCodes::Inc(3), (7, 9));
    assert_eq!(token.get_type(), &OpCodes::Inc(3));
    assert_eq!(token.get_location(), (7, 9));
    assert_eq!(token.clone(), token);
}

#[test]
fn instructions_read_as_source_text() {
    assert_eq!(OpCodes::Add(3).to_string(), "+++");
    assert_eq!(OpCodes::Sub(2).to_string(), "--");
    assert_eq!(OpCodes::Inc(1).to_string(), ">");
    assert_eq!(OpCodes::Dec(4).to_string(), "<<<<");
    assert_eq!(OpCodes::Output.to_string(), ".");
    assert_eq!(OpCodes::Input.to_string(), ",");
    assert_eq!(OpCodes::Clear.to_string(), "[-]");
    let nested = OpCodes::Loop(parse(">[-]<+"));
    assert_eq!(nested.to_string(), "[>[-]<+]");
}
