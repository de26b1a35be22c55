use brainfuck::eval::BrainfuckVM;
use brainfuck::eval::Instruction;
use brainfuck::eval::eval;
use brainfuck::eval::eval_by_vm;
use brainfuck::eval::parse;
use brainfuck::semantics::EvalStatus;

#[test]
fn test_parse() {}

#[test]
fn parse_atomic_symbols() {
    let insts = parse("+++.");
    assert_eq!(
        insts,
        vec![Instruction::Inc, Instruction::Inc, Instruction::Inc, Instruction::Putchar]
    );
}

#[test]
fn parse_all_symbols() {
    let insts = parse("><+-.,");
    assert_eq!(
        insts,
        vec![
            Instruction::MoveRight,
            Instruction::MoveLeft,
            Instruction::Inc,
            Instruction::Dec,
            Instruction::Putchar,
            Instruction::Getchar,
        ]
    );
}

#[test]
fn parse_ignores_comments() {
    let insts = parse("a + b . c\n");
    assert_eq!(insts, vec![Instruction::Inc, Instruction::Putchar]);
}

#[test]
fn parse_balanced_nesting() {
    let insts = parse("[[-]]");
    assert_eq!(insts.len(), 1);
    match &insts[0] {
        Instruction::WhileNotZero(inner) => {
            assert_eq!(inner.len(), 1);
            match &inner[0] {
                Instruction::WhileNotZero(body) => {
                    assert_eq!(body, &vec![Instruction::Dec]);
                }
                other => panic!("expected a nested loop, got {:?}", other),
            }
        }
        other => panic!("expected a loop, got {:?}", other),
    }
}

#[test]
fn parse_empty_loop_body() {
    let insts = parse("[]");
    assert_eq!(insts, vec![Instruction::WhileNotZero(Vec::new())]);
}

#[test]
fn parse_unmatched_close_ends_input() {
    assert_eq!(parse("]+"), Vec::new());
}

#[test]
fn parse_unmatched_open_rescans_suffix() {
    let insts = parse("[+");
    assert_eq!(
        insts,
        vec![Instruction::WhileNotZero(vec![Instruction::Inc]), Instruction::Inc]
    );
}

#[test]
fn new_machine_is_blank() {
    let vm = BrainfuckVM::new(10, 100);
    assert_eq!(vm.get_data(), 0);
    assert!(vm.output().is_empty());
    assert!(!vm.operation_limit_exceeded());
}

#[test]
fn cell_wraparound() {
    let mut vm = BrainfuckVM::new(10, 100);
    vm.dec();
    assert_eq!(vm.get_data(), 255);
    vm.inc();
    assert_eq!(vm.get_data(), 0);
}

#[test]
fn getchar_is_unsupported() {
    let vm = BrainfuckVM::new(10, 100);
    assert_eq!(vm.getchar(), EvalStatus::UnsupportedOperation);
}

#[test]
fn loop_terminates_and_clears_cell() {
    let insts = parse("+++[-]");
    let mut vm = BrainfuckVM::new(100, 1000);
    let status = eval_by_vm(&insts, &mut vm);
    assert_eq!(status, EvalStatus::Completed);
    assert_eq!(vm.get_data(), 0);
}

#[test]
fn operation_limit_aborts_run() {
    let insts = parse("+++++.");
    let mut vm = BrainfuckVM::new(100, 3);
    let status = eval_by_vm(&insts, &mut vm);
    assert_eq!(status, EvalStatus::OperationLimitExceeded);
    assert!(vm.output().is_empty());
}

#[test]
fn nothing_runs_after_limit_abort() {
    let insts = parse(".....");
    let mut vm = BrainfuckVM::new(100, 2);
    let status = eval_by_vm(&insts, &mut vm);
    assert_eq!(status, EvalStatus::OperationLimitExceeded);
    assert_eq!(vm.output(), &vec![0u8, 0u8, 0u8]);
}

#[test]
fn output_emits_letter_a() {
    let program = "+".repeat(65) + ".";
    let (out, status) = eval(program);
    assert_eq!(status, EvalStatus::Completed);
    assert_eq!(out, vec![65u8]);
    assert_eq!(out, b"A".to_vec());
}

#[test]
fn output_keeps_order() {
    let (out, status) = eval(String::from("+.+."));
    assert_eq!(status, EvalStatus::Completed);
    assert_eq!(out, vec![1u8, 2u8]);
}

#[test]
fn input_fails_fatally() {
    let (out, status) = eval(String::from("++,"));
    assert_eq!(status, EvalStatus::UnsupportedOperation);
    assert!(out.is_empty());
}

#[test]
fn input_alone_fails_fatally() {
    let (_, status) = eval(String::from(","));
    assert_eq!(status, EvalStatus::UnsupportedOperation);
}

#[test]
fn input_in_skipped_loop_is_never_reached() {
    let (out, status) = eval(String::from("[,]"));
    assert_eq!(status, EvalStatus::Completed);
    assert!(out.is_empty());
}

#[test]
fn moving_left_of_zero_is_a_bounds_error() {
    let (_, status) = eval(String::from("<"));
    assert_eq!(status, EvalStatus::CursorOutOfBounds);
}

#[test]
fn moving_right_off_the_tape_is_a_bounds_error() {
    let insts = parse(">");
    let mut vm = BrainfuckVM::new(1, 100);
    let status = eval_by_vm(&insts, &mut vm);
    assert_eq!(status, EvalStatus::CursorOutOfBounds);
}

#[test]
fn empty_program_completes() {
    let (out, status) = eval(String::new());
    assert_eq!(status, EvalStatus::Completed);
    assert!(out.is_empty());
}

#[test]
fn empty_loop_with_nonzero_cell_is_reported_stuck() {
    let (out, status) = eval(String::from("+[]"));
    assert_eq!(status, EvalStatus::InfiniteLoop);
    assert!(out.is_empty());
}
