use tape_lang::ir::{Code, AST};
use tape_lang::optimize::compile;
use tape_lang::parse::SourceError;

fn program(text: &str) -> AST {
    let source: Vec<char> = text.chars().collect();
    let mut ast = AST::new();
    ast.parse(&source).unwrap();
    ast
}

fn looped(codes: Vec<Code>) -> Code {
    Code::Loop(Box::new(AST { codes }))
}

#[test]
fn level_zero_is_a_copy() {
    let ast = program("++[->+<]>.");
    let copy = ast.optimize(0);
    assert_eq!(copy, ast);
}

#[test]
fn clone_copies_nested_loops() {
    let ast = program("+[[-]>[,.]]");
    assert_eq!(ast.clone(), ast);
}

#[test]
fn merge_sums_runs_of_additions_and_of_moves() {
    let merged = program("+++>>--<<<-+").optimize(1);
    assert_eq!(
        merged.codes,
        vec![Code::Add(3), Code::Move(2), Code::Add(-2), Code::Move(-3), Code::Add(0)]
    );
}

#[test]
fn merge_keeps_a_run_that_sums_to_zero() {
    let merged = program("+-").optimize(1);
    assert_eq!(merged.codes, vec![Code::Add(0)]);
    let merged = program("><").optimize(1);
    assert_eq!(merged.codes, vec![Code::Move(0)]);
}

#[test]
fn input_output_and_loops_break_a_run() {
    let merged = program("++.++,++[++]++").optimize(1);
    assert_eq!(
        merged.codes,
        vec![
            Code::Add(2),
            Code::Put,
            Code::Add(2),
            Code::Get,
            Code::Add(2),
            looped(vec![Code::Add(2)]),
            Code::Add(2),
        ]
    );
}

#[test]
fn merge_goes_into_every_loop_body() {
    let merged = program("[>>[--]<<]").optimize(1);
    assert_eq!(
        merged.codes,
        vec![looped(vec![Code::Move(2), looped(vec![Code::Add(-2)]), Code::Move(-2)])]
    );
}

#[test]
fn merge_wraps_sums_around() {
    let ast = AST { codes: vec![Code::Add(i32::MAX), Code::Add(1)] };
    assert_eq!(AST::_optimize_merge(&ast).codes, vec![Code::Add(i32::MIN)]);
    let ast = AST { codes: vec![Code::Move(isize::MIN), Code::Move(-1)] };
    assert_eq!(AST::_optimize_merge(&ast).codes, vec![Code::Move(isize::MAX)]);
}

#[test]
fn merge_leaves_assign_and_multiply_alone() {
    let ast = AST {
        codes: vec![Code::Add(1), Code::Assign(3), Code::Add(1), Code::Mull((1, 2)), Code::Add(1)],
    };
    assert_eq!(AST::_optimize_merge(&ast), ast);
}

#[test]
fn merging_twice_is_merging_once() {
    let once = program("++>><<[-->>+.+<<,]--[[++]]").optimize(1);
    let twice = once.optimize(1);
    assert_eq!(twice, once);
}

#[test]
fn clear_loop_becomes_assign_zero() {
    let reduced = program("+++++[-]").optimize(2);
    assert_eq!(reduced.codes, vec![Code::Add(5), Code::Assign(0)]);
}

#[test]
fn any_odd_step_clears() {
    assert_eq!(program("[+++]").optimize(2).codes, vec![Code::Assign(0)]);
    assert_eq!(program("[-----]").optimize(2).codes, vec![Code::Assign(0)]);
    assert_eq!(program("[><-]").optimize(2).codes, vec![Code::Assign(0)]);
}

#[test]
fn even_step_stays_a_loop() {
    let reduced = program("[--]").optimize(2);
    assert_eq!(reduced.codes, vec![looped(vec![Code::Add(-2)])]);
}

#[test]
fn multiply_loop_becomes_multiply_add_and_assign() {
    let reduced = program("++++[->++<]").optimize(2);
    assert_eq!(reduced.codes, vec![Code::Add(4), Code::Mull((1, 2)), Code::Assign(0)]);
}

#[test]
fn multiply_adds_come_in_order_of_first_touch() {
    let reduced = program("[>>+++<<<-->>+<-]").optimize(2);
    assert_eq!(
        reduced.codes,
        vec![Code::Mull((2, 3)), Code::Mull((-1, -2)), Code::Mull((1, 1)), Code::Assign(0)]
    );
}

#[test]
fn multiply_loop_skips_offsets_with_no_net_change() {
    let reduced = program("[->+-<>>+<<]").optimize(2);
    assert_eq!(reduced.codes, vec![Code::Mull((2, 1)), Code::Assign(0)]);
}

#[test]
fn multiply_loop_adds_up_visits_to_one_offset() {
    let reduced = program("[>+<->+<]").optimize(2);
    assert_eq!(reduced.codes, vec![Code::Mull((1, 2)), Code::Assign(0)]);
}

#[test]
fn guard_that_goes_down_by_two_stays_a_loop() {
    let reduced = program("[-->+<]").optimize(2);
    assert_eq!(
        reduced.codes,
        vec![looped(vec![Code::Add(-2), Code::Move(1), Code::Add(1), Code::Move(-1)])]
    );
}

#[test]
fn untouched_guard_stays_a_loop() {
    let reduced = program("[>+<]").optimize(2);
    assert_eq!(reduced.codes, vec![looped(vec![Code::Move(1), Code::Add(1), Code::Move(-1)])]);
}

#[test]
fn empty_loop_stays_a_loop() {
    let reduced = program("[]").optimize(2);
    assert_eq!(reduced.codes, vec![looped(vec![])]);
}

#[test]
fn unbalanced_loop_stays_a_loop() {
    let reduced = program("[>+]").optimize(2);
    assert_eq!(reduced.codes, vec![looped(vec![Code::Move(1), Code::Add(1)])]);
    let reduced = program("[->]").optimize(2);
    assert_eq!(reduced.codes, vec![looped(vec![Code::Add(-1), Code::Move(1)])]);
}

#[test]
fn loop_with_input_or_output_stays_a_loop() {
    assert_eq!(program("[-.]").optimize(2).codes, vec![looped(vec![Code::Add(-1), Code::Put])]);
    assert_eq!(program("[-,]").optimize(2).codes, vec![looped(vec![Code::Add(-1), Code::Get])]);
}

#[test]
fn reduced_inner_loop_is_spliced_into_its_parent() {
    let reduced = program("[>[-]<[->+<]>.<]").optimize(2);
    assert_eq!(
        reduced.codes,
        vec![looped(vec![
            Code::Move(1),
            Code::Assign(0),
            Code::Move(-1),
            Code::Mull((1, 1)),
            Code::Assign(0),
            Code::Move(1),
            Code::Put,
            Code::Move(-1),
        ])]
    );
}

#[test]
fn loop_around_a_reduced_loop_stays_a_loop() {
    let reduced = program("[[-]]").optimize(2);
    assert_eq!(reduced.codes, vec![looped(vec![Code::Assign(0)])]);
}

#[test]
fn whole_program_is_never_taken_for_a_loop_body() {
    assert_eq!(program("-").optimize(2).codes, vec![Code::Add(-1)]);
    assert_eq!(program("->+<").optimize(2).codes.len(), 4);
}

#[test]
fn levels_above_two_are_level_two() {
    let ast = program("++[->++<]>[.-]");
    assert_eq!(ast.optimize(3), ast.optimize(2));
    assert_eq!(ast.optimize(u32::MAX), ast.optimize(2));
}

#[test]
fn simple_loop_reports_whether_it_was_replaced() {
    let body = AST { codes: vec![Code::Add(-1)] };
    let (code, replaced) = AST::_optimize_simple_loop(&body);
    assert!(replaced);
    assert_eq!(code.codes, vec![Code::Assign(0)]);

    let body = AST { codes: vec![Code::Add(-1), Code::Put] };
    let (code, replaced) = AST::_optimize_simple_loop(&body);
    assert!(!replaced);
    assert_eq!(code, body);
}

#[test]
fn simple_loop_sums_wrap_around() {
    let body = AST { codes: vec![Code::Add(i32::MAX), Code::Add(i32::MAX), Code::Add(1)] };
    let (code, replaced) = AST::_optimize_simple_loop(&body);
    assert!(replaced);
    assert_eq!(code.codes, vec![Code::Assign(0)]);
}

#[test]
fn optimizer_takes_programs_that_hold_optimizer_instructions() {
    let body = AST { codes: vec![Code::Assign(1), Code::Mull((2, 3))] };
    let ast = AST { codes: vec![Code::Loop(Box::new(body))] };
    assert_eq!(ast.optimize(2), ast);
}

#[test]
fn optimize_does_not_change_its_input() {
    let ast = program("++[->++<]");
    let before = ast.clone();
    let _ = ast.optimize(2);
    assert_eq!(ast, before);
}

#[test]
fn push_and_extend_build_programs() {
    let mut ast = AST::new();
    ast.push(Code::Add(1));
    let mut tail = AST { codes: vec![Code::Put, Code::Get] };
    ast.extend(&mut tail);
    assert_eq!(ast.codes, vec![Code::Add(1), Code::Put, Code::Get]);
    assert_eq!(tail.codes, vec![]);
}

#[test]
fn compile_gives_the_parsed_and_the_optimized_program() {
    let source: Vec<char> = "++[->++<] a comment".chars().collect();
    let (raw, dst) = compile(&source, 2).unwrap();
    assert_eq!(raw, program("++[->++<]"));
    assert_eq!(dst.codes, vec![Code::Add(2), Code::Mull((1, 2)), Code::Assign(0)]);
    let (raw, dst) = compile(&source, 0).unwrap();
    assert_eq!(raw, dst);
}

#[test]
fn compile_fails_where_parsing_fails() {
    let source: Vec<char> = "+[".chars().collect();
    assert_eq!(compile(&source, 1).unwrap_err(), SourceError::UnmatchedOpen);
    let source: Vec<char> = "+]".chars().collect();
    assert_eq!(compile(&source, 1).unwrap_err(), SourceError::UnmatchedClose);
}
