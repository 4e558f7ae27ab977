use tape_lang::ir::{Code, AST};
use tape_lang::model::{CAPACITY, START};
use tape_lang::tape::Tape;

const PLENTY: u64 = 1_000_000;

fn program(text: &str) -> AST {
    let source: Vec<char> = text.chars().collect();
    let mut ast = AST::new();
    ast.parse(&source).unwrap();
    ast
}

fn run_at(ast: &AST, level: u32) -> Tape {
    let mut tape = Tape::new();
    assert!(tape.evaluate(&ast.optimize(level), PLENTY));
    tape
}

fn same_tapes(a: &Tape, b: &Tape) -> bool {
    a.cursor() == b.cursor() && a.output() == b.output() && (0..CAPACITY).all(|i| a.cell(i) == b.cell(i))
}

fn same_at_all_levels(text: &str) -> Tape {
    let ast = program(text);
    let plain = run_at(&ast, 0);
    assert!(same_tapes(&plain, &run_at(&ast, 1)));
    assert!(same_tapes(&plain, &run_at(&ast, 2)));
    plain
}

#[test]
fn fresh_tape_is_all_zero_with_the_cursor_at_start() {
    let tape = Tape::new();
    assert_eq!(tape.cursor(), START);
    assert_eq!(START, 4096);
    assert_eq!(CAPACITY, 1 << 20);
    assert!((0..CAPACITY).all(|i| tape.cell(i) == 0));
    assert!(tape.output().is_empty());
}

#[test]
fn add_changes_the_current_cell() {
    let tape = run_at(&program("+++"), 0);
    assert_eq!(tape.cell(START), 3);
    assert_eq!(tape.cursor(), START);
}

#[test]
fn add_wraps_below_zero_and_above_255() {
    let tape = run_at(&program("-"), 0);
    assert_eq!(tape.cell(START), 255);
    let up: String = "+".repeat(257);
    let tape = run_at(&program(&up), 0);
    assert_eq!(tape.cell(START), 1);
}

#[test]
fn add_of_a_large_delta_counts_modulo_256() {
    let mut tape = Tape::new();
    let ast = AST { codes: vec![Code::Add(1000), Code::Move(1), Code::Add(-1000), Code::Move(1), Code::Add(i32::MIN)] };
    assert!(tape.evaluate(&ast, 0));
    assert_eq!(tape.cell(START), 232);
    assert_eq!(tape.cell(START + 1), 24);
    assert_eq!(tape.cell(START + 2), 0);
}

#[test]
fn move_shifts_the_cursor() {
    let tape = run_at(&program(">>><"), 0);
    assert_eq!(tape.cursor(), START + 2);
}

#[test]
fn move_wraps_around_both_ends_of_the_tape() {
    let mut tape = Tape::new();
    let left = AST { codes: vec![Code::Move(-(START as isize) - 1)] };
    assert!(tape.evaluate(&left, 0));
    assert_eq!(tape.cursor(), CAPACITY - 1);
    let right = AST { codes: vec![Code::Move(1)] };
    assert!(tape.evaluate(&right, 0));
    assert_eq!(tape.cursor(), 0);
}

#[test]
fn move_by_the_capacity_comes_back() {
    let mut tape = Tape::new();
    let ast = AST { codes: vec![Code::Move(CAPACITY as isize), Code::Move(-3 * (CAPACITY as isize))] };
    assert!(tape.evaluate(&ast, 0));
    assert_eq!(tape.cursor(), START);
}

#[test]
fn move_by_the_extreme_offsets_stays_on_the_tape() {
    let mut tape = Tape::new();
    assert!(tape.evaluate(&AST { codes: vec![Code::Move(isize::MAX)] }, 0));
    assert_eq!(tape.cursor(), START - 1);
    let mut tape = Tape::new();
    assert!(tape.evaluate(&AST { codes: vec![Code::Move(isize::MIN)] }, 0));
    assert_eq!(tape.cursor(), START);
}

#[test]
fn long_run_of_moves_wraps_the_same_at_every_level() {
    let text: String = ">".repeat(CAPACITY + 5) + "+";
    let tape = same_at_all_levels(&text);
    assert_eq!(tape.cursor(), START + 5);
    assert_eq!(tape.cell(START + 5), 1);
}

#[test]
fn put_emits_in_program_order() {
    let tape = run_at(&program("+.+.>.<-."), 0);
    assert_eq!(tape.output(), &vec![1, 2, 0, 1]);
}

#[test]
fn put_char_appends_the_current_cell() {
    let mut tape = Tape::new();
    assert!(tape.evaluate(&program("+++"), 0));
    tape.put_char();
    tape.put_char();
    assert_eq!(tape.output(), &vec![3, 3]);
    assert_eq!(tape.cell(START), 3);
}

#[test]
fn get_stores_zero() {
    let tape = run_at(&program("+++,"), 0);
    assert_eq!(tape.cell(START), 0);
    let tape = same_at_all_levels("+++>++<,.>.");
    assert_eq!(tape.output(), &vec![0, 2]);
}

#[test]
fn get_char_zeroes_only_the_current_cell() {
    let mut tape = Tape::new();
    assert!(tape.evaluate(&program("++>+++"), 0));
    tape.get_char();
    assert_eq!(tape.cell(START + 1), 0);
    assert_eq!(tape.cell(START), 2);
    assert_eq!(tape.cursor(), START + 1);
}

#[test]
fn loop_is_skipped_when_the_cell_is_zero() {
    let tape = run_at(&program("[+.]"), 0);
    assert_eq!(tape.cell(START), 0);
    assert!(tape.output().is_empty());
}

#[test]
fn loop_runs_until_the_cell_is_zero() {
    let tape = run_at(&program("+++[.-]"), 0);
    assert_eq!(tape.output(), &vec![3, 2, 1]);
    assert_eq!(tape.cell(START), 0);
}

#[test]
fn assign_stores_the_literal() {
    let mut tape = Tape::new();
    let ast = AST { codes: vec![Code::Add(9), Code::Assign(200)] };
    assert!(tape.evaluate(&ast, 0));
    assert_eq!(tape.cell(START), 200);
}

#[test]
fn multiply_add_adds_the_product_and_keeps_the_guard() {
    let mut tape = Tape::new();
    let ast = AST { codes: vec![Code::Add(7), Code::Mull((2, 3)), Code::Mull((-1, -1))] };
    assert!(tape.evaluate(&ast, 0));
    assert_eq!(tape.cell(START), 7);
    assert_eq!(tape.cell(START + 2), 21);
    assert_eq!(tape.cell(START - 1), 249);
    assert_eq!(tape.cursor(), START);
}

#[test]
fn multiply_add_wraps_the_product_modulo_256() {
    let mut tape = Tape::new();
    let ast = AST { codes: vec![Code::Add(255), Code::Mull((1, i32::MAX)), Code::Mull((2, i32::MIN)), Code::Mull((3, 100))] };
    assert!(tape.evaluate(&ast, 0));
    assert_eq!(tape.cell(START + 1), 1);
    assert_eq!(tape.cell(START + 2), 0);
    assert_eq!(tape.cell(START + 3), 156);
}

#[test]
fn multiply_add_reaches_around_the_ends_of_the_tape() {
    let mut tape = Tape::new();
    let ast = AST { codes: vec![Code::Move(-(START as isize)), Code::Add(2), Code::Mull((-1, 5))] };
    assert!(tape.evaluate(&ast, 0));
    assert_eq!(tape.cursor(), 0);
    assert_eq!(tape.cell(CAPACITY - 1), 10);
}

#[test]
fn clear_loop_ends_with_the_cell_at_zero() {
    let tape = same_at_all_levels("+++++[-]");
    assert_eq!(tape.cell(START), 0);
    let tape = same_at_all_levels("++++++[+++]");
    assert_eq!(tape.cell(START), 0);
}

#[test]
fn multiply_loop_doubles_into_the_next_cell() {
    let tape = same_at_all_levels("++++[->++<]");
    assert_eq!(tape.cell(START), 0);
    assert_eq!(tape.cell(START + 1), 8);
}

#[test]
fn multiply_loop_with_several_targets() {
    let tape = same_at_all_levels("+++++>+<[->+++>++<<<->]");
    assert_eq!(tape.cell(START), 0);
    assert_eq!(tape.cell(START + 1), 16);
    assert_eq!(tape.cell(START + 2), 10);
    assert_eq!(tape.cell(START - 1), 251);
}

#[test]
fn loop_that_walks_away_is_the_same_at_every_level() {
    let tape = same_at_all_levels("+>>-<<[>+]");
    assert_eq!(tape.cursor(), START + 2);
    assert_eq!(tape.cell(START), 1);
    assert_eq!(tape.cell(START + 1), 1);
    assert_eq!(tape.cell(START + 2), 0);
}

#[test]
fn whole_program_that_looks_like_a_clear_body_keeps_its_meaning() {
    let tape = same_at_all_levels("-");
    assert_eq!(tape.cell(START), 255);
}

#[test]
fn greeting_is_the_same_at_every_level() {
    let text = "++++++++[>++++[>++>+++>+++>+<<<<-]>+>+>->>+[<]<-]>>.>---.+++++++..+++.\
                >>.<-.<.+++.------.--------.>>+.>++.";
    let tape = same_at_all_levels(text);
    assert_eq!(tape.output(), &b"Hello World!\n".to_vec());
}

#[test]
fn nested_loops_multiply() {
    let tape = same_at_all_levels("+++[>++++[>+++++<-]<-]>>.");
    assert_eq!(tape.output(), &vec![60]);
}

#[test]
fn budget_of_zero_runs_programs_whose_loops_are_skipped() {
    let mut tape = Tape::new();
    assert!(tape.evaluate(&program("[-]>+<[.]"), 0));
    assert_eq!(tape.cell(START + 1), 1);
}

#[test]
fn loop_beyond_the_budget_stops_the_run_where_it_stands() {
    let mut tape = Tape::new();
    assert!(!tape.evaluate(&program("+++[>+<].>-"), 5));
    assert_eq!(tape.cell(START), 3);
    assert_eq!(tape.cell(START + 1), 5);
    assert_eq!(tape.cursor(), START);
    assert!(tape.output().is_empty());
}

#[test]
fn budget_counts_each_entry_of_a_loop_afresh() {
    let mut tape = Tape::new();
    assert!(tape.evaluate(&program("+++[-]+++[-]++[>+++[-]<-]"), 3));
    assert_eq!(tape.cell(START), 0);
    let mut tape = Tape::new();
    assert!(!tape.evaluate(&program("++++[-]"), 3));
    assert_eq!(tape.cell(START), 1);
}

#[test]
fn inner_loop_beyond_the_budget_stops_the_outer_loop_too() {
    let mut tape = Tape::new();
    assert!(!tape.evaluate(&program("+[>++[.-]<-]."), 1));
    assert_eq!(tape.output(), &vec![2]);
    assert_eq!(tape.cursor(), START + 1);
    assert_eq!(tape.cell(START + 1), 1);
}

#[test]
fn reduced_loops_need_no_budget() {
    let ast = program("+++++[->++<]>[-]").optimize(2);
    let mut tape = Tape::new();
    assert!(tape.evaluate(&ast, 0));
    assert_eq!(tape.cell(START), 0);
    assert_eq!(tape.cell(START + 1), 0);
}

#[test]
fn clear_loop_with_an_odd_step_ends_within_255_rounds() {
    let ast = program("+[+++]");
    let mut tape = Tape::new();
    assert!(tape.evaluate(&ast, 255));
    assert_eq!(tape.cell(START), 0);
    let mut tape = Tape::new();
    assert!(!tape.evaluate(&ast, 84));
    let mut tape = Tape::new();
    assert!(tape.evaluate(&ast, 85));
}

#[test]
fn evaluate_continues_on_the_tape_it_is_given() {
    let mut tape = Tape::new();
    assert!(tape.evaluate(&program("++>"), 0));
    assert!(tape.evaluate(&program("+++.<."), 0));
    assert_eq!(tape.output(), &vec![3, 2]);
}

#[test]
fn guard_alias_through_the_ring_is_where_reducing_changes_the_meaning() {
    let lap = CAPACITY as isize;
    let body = AST { codes: vec![Code::Add(-1), Code::Move(lap), Code::Add(2), Code::Move(1 - lap), Code::Add(1), Code::Move(-1)] };
    let ast = AST { codes: vec![Code::Add(1), Code::Loop(Box::new(body))] };
    let mut plain = Tape::new();
    assert!(plain.evaluate(&ast, 255));
    assert_eq!(plain.cell(START + 1), 255);
    let mut reduced = Tape::new();
    assert!(reduced.evaluate(&ast.optimize(2), 255));
    assert_eq!(reduced.cell(START + 1), 3);
}

#[test]
fn text_of_two_laps_can_lead_back_to_the_guard() {
    let text = "+[-".to_string() + &">".repeat(CAPACITY) + "+" + &"<".repeat(CAPACITY) + "]";
    assert_eq!(text.len(), 2 * CAPACITY + 5);
    let ast = program(&text);
    let mut merged = Tape::new();
    assert!(!merged.evaluate(&ast.optimize(1), 255));
    assert_eq!(merged.cell(START), 1);
    let mut reduced = Tape::new();
    assert!(reduced.evaluate(&ast.optimize(2), 255));
    assert_eq!(reduced.cell(START), 0);
}

#[test]
fn larger_budget_changes_nothing_for_a_run_that_ends() {
    let ast = program("++++[>+++[>++<-]<-]>>.");
    let mut small = Tape::new();
    assert!(small.evaluate(&ast, 4));
    let mut large = Tape::new();
    assert!(large.evaluate(&ast, u64::MAX));
    assert!(same_tapes(&small, &large));
    assert_eq!(small.output(), &vec![24]);
}

fn next(seed: &mut u64) -> u64 {
    *seed ^= *seed << 13;
    *seed ^= *seed >> 7;
    *seed ^= *seed << 17;
    *seed
}

fn scribble(seed: &mut u64, depth: u32, text: &mut String) {
    let length = 1 + next(seed) % 8;
    for _ in 0..length {
        match next(seed) % 12 {
            0 | 1 | 2 => text.push('+'),
            3 | 4 | 5 => text.push('-'),
            6 | 7 => text.push('>'),
            8 | 9 => text.push('<'),
            10 => text.push('.'),
            _ => {
                if depth < 2 {
                    text.push('[');
                    scribble(seed, depth + 1, text);
                    text.push(']');
                } else {
                    text.push(',');
                }
            }
        }
    }
}

#[test]
fn scribbled_programs_have_the_same_outcome_at_every_level() {
    let mut seed: u64 = 0x2545_f491_4f6c_dd1d;
    let mut ended = 0;
    for _ in 0..40 {
        let mut text = String::from("+++>++<");
        scribble(&mut seed, 0, &mut text);
        let ast = program(&text);
        let mut plain = Tape::new();
        let halted = plain.evaluate(&ast, 255);
        for level in 1..3 {
            let mut tape = Tape::new();
            assert_eq!(tape.evaluate(&ast.optimize(level), 255), halted, "{}", text);
            assert!(same_tapes(&plain, &tape), "{}", text);
        }
        if halted {
            ended += 1;
        }
    }
    assert!(ended > 0);
}
