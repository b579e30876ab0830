use bf_llvm::backend::{accepted, built, integer, linked};
use bf_llvm::codegen::{compile, lower, CompileError, TAPE_LEN};
use bf_llvm::ir::{BlockRole, Op};
use bf_llvm::parser::{parse, Instruction};
use inkwell::builder::BuilderError;

fn text_of(code: &str) -> String {
    compile(&parse(0, code).unwrap()).unwrap()
}

fn count(text: &str, what: &str) -> usize {
    text.matches(what).count()
}

#[test]
fn tape_has_a_cell_for_every_head() {
    assert_eq!(TAPE_LEN, 65536);
    assert_eq!(TAPE_LEN as usize, u16::MAX as usize + 1);
}

#[test]
fn moves_step_the_head() {
    assert_eq!(lower(&vec![Instruction::MoveLeft]), vec![Op::LoadHead, Op::HeadDown, Op::StoreHead]);
    assert_eq!(lower(&vec![Instruction::MoveRight]), vec![Op::LoadHead, Op::HeadUp, Op::StoreHead]);
}

#[test]
fn increments_step_the_cell() {
    assert_eq!(
        lower(&vec![Instruction::Increment]),
        vec![Op::LoadHead, Op::Locate, Op::LoadCell, Op::CellUp, Op::StoreCell]
    );
    assert_eq!(
        lower(&vec![Instruction::Decrement]),
        vec![Op::LoadHead, Op::Locate, Op::LoadCell, Op::CellDown, Op::StoreCell]
    );
}

#[test]
fn io_goes_through_the_primitives() {
    assert_eq!(lower(&vec![Instruction::Output]), vec![Op::LoadHead, Op::Locate, Op::LoadCell, Op::Put]);
    assert_eq!(lower(&vec![Instruction::Input]), vec![Op::LoadHead, Op::Locate, Op::Get, Op::StoreCell]);
}

#[test]
fn empty_program_has_no_steps() {
    assert_eq!(lower(&vec![]), vec![]);
}

#[test]
fn loop_tests_before_and_after_its_content() {
    assert_eq!(
        lower(&vec![Instruction::Loop(vec![Instruction::Decrement])]),
        vec![
            Op::LoadHead,
            Op::Locate,
            Op::LoadCell,
            Op::NewBlock(BlockRole::Body),
            Op::NewBlock(BlockRole::After),
            Op::TestZero,
            Op::Branch { on_set: 2, on_clear: 1 },
            Op::Enter(1),
            Op::LoadHead,
            Op::Locate,
            Op::LoadCell,
            Op::CellDown,
            Op::StoreCell,
            Op::LoadHead,
            Op::Locate,
            Op::LoadCell,
            Op::TestNonZero,
            Op::Branch { on_set: 1, on_clear: 2 },
            Op::Enter(2),
        ]
    );
}

#[test]
fn loops_number_their_blocks_in_order() {
    let plan = lower(&parse(0, "[[]][]").unwrap());
    let control: Vec<Op> = plan
        .iter()
        .filter(|op| matches!(op, Op::Branch { .. } | Op::Enter(_) | Op::NewBlock(_)))
        .map(|op| *op)
        .collect();
    assert_eq!(
        control,
        vec![
            Op::NewBlock(BlockRole::Body),
            Op::NewBlock(BlockRole::After),
            Op::Branch { on_set: 2, on_clear: 1 },
            Op::Enter(1),
            Op::NewBlock(BlockRole::Body),
            Op::NewBlock(BlockRole::After),
            Op::Branch { on_set: 4, on_clear: 3 },
            Op::Enter(3),
            Op::Branch { on_set: 3, on_clear: 4 },
            Op::Enter(4),
            Op::Branch { on_set: 1, on_clear: 2 },
            Op::Enter(2),
            Op::NewBlock(BlockRole::Body),
            Op::NewBlock(BlockRole::After),
            Op::Branch { on_set: 6, on_clear: 5 },
            Op::Enter(5),
            Op::Branch { on_set: 5, on_clear: 6 },
            Op::Enter(6),
        ]
    );
}

#[test]
fn every_loop_makes_two_blocks() {
    for (code, loops) in [("", 0), ("+-<>.,", 0), ("[]", 1), ("[+++++++++++]", 1), ("[[[]]]", 3), ("[][[][]]", 4)] {
        let plan = lower(&parse(0, code).unwrap());
        let made = plan.iter().filter(|op| matches!(op, Op::NewBlock(_))).count();
        let entered = plan.iter().filter(|op| matches!(op, Op::Enter(_))).count();
        assert_eq!(made, 2 * loops);
        assert_eq!(entered, 2 * loops);
        let text = text_of(code);
        assert_eq!(count(&text, "\nloop"), 2 * loops);
    }
}

#[test]
fn module_declares_primitives_and_storage() {
    let text = text_of("");
    assert!(text.contains("declare i16 @putchar(i8)"));
    assert!(text.contains("declare i8 @getchar()"));
    assert!(text.contains("define void @main()"));
    assert!(text.contains("entry:"));
    assert!(text.contains("%head = alloca i16"));
    assert!(text.contains("%tape = alloca [65536 x i8]"));
    assert!(text.contains("store i16 0, i16* %head"));
    assert!(text.contains("store [65536 x i8] zeroinitializer, [65536 x i8]* %tape"));
    assert!(text.contains("ret void"));
    assert_eq!(count(&text, "define "), 1);
    assert_eq!(count(&text, "declare "), 2);
}

#[test]
fn head_arithmetic_has_sixteen_bits() {
    let left = text_of("<");
    assert!(left.contains("%load_head = load i16, i16* %head"));
    assert!(left.contains("%new_head = sub i16 %load_head, 1"));
    assert!(left.contains("store i16 %new_head, i16* %head"));
    let right = text_of(">");
    assert!(right.contains("%new_head = add i16 %load_head, 1"));
    assert!(!left.contains("nsw") && !left.contains("nuw"));
    assert!(!right.contains("nsw") && !right.contains("nuw"));
}

#[test]
fn cell_arithmetic_has_eight_bits() {
    let up = text_of("+");
    assert!(up.contains("%cell_index = zext i16 %load_head to i64"));
    assert!(up.contains("%cell = load i8, i8* %cell_ptr"));
    assert!(up.contains("%cell_inc = add i8 %cell, 1"));
    assert!(up.contains("store i8 %cell_inc, i8* %cell_ptr"));
    let down = text_of("-");
    assert!(down.contains("%cell_dec = sub i8 %cell, 1"));
    assert!(down.contains("store i8 %cell_dec, i8* %cell_ptr"));
    assert!(!up.contains("nsw") && !up.contains("nuw"));
    assert!(!down.contains("nsw") && !down.contains("nuw"));
}

#[test]
fn io_calls_the_primitives() {
    let output = text_of(".");
    assert!(output.contains("call i16 @putchar(i8 %cell)"));
    let input = text_of(",");
    assert!(input.contains("%getchar = call i8 @getchar()"));
    assert!(input.contains("store i8 %getchar, i8* %cell_ptr"));
}

#[test]
fn loop_is_skipped_on_zero() {
    let text = text_of("[.]");
    assert!(text.contains("%cell_eq_zero = icmp eq i8 %cell, 0"));
    assert!(text.contains("br i1 %cell_eq_zero, label %loop_remain, label %loop\n"));
    assert!(text.contains("icmp ne i8"));
    assert!(text.contains(", label %loop, label %loop_remain\n"));
    let entry = text.find("entry:").unwrap();
    let body = text.find("\nloop:").unwrap();
    let after = text.find("\nloop_remain:").unwrap();
    let call = text.find("call i16 @putchar").unwrap();
    assert!(entry < body && body < call && call < after);
}

#[test]
fn steps_after_a_loop_follow_it() {
    let text = text_of("[-]+");
    let after = text.find("\nloop_remain:").unwrap();
    let increment = text.find("add i8").unwrap();
    assert!(after < increment);
    assert!(text[increment..].contains("ret void"));
}

#[test]
fn same_program_same_text() {
    let program = parse(0, "++[>+[-]<-]>.,").unwrap();
    let first = compile(&program).unwrap();
    let second = compile(&program).unwrap();
    assert_eq!(first, second);
    assert_eq!(lower(&program), lower(&program));
    let again = parse(0, "++ [ > + [-] < - ] > . ,").unwrap();
    assert_eq!(compile(&again).unwrap(), first);
}

#[test]
fn parsed_programs_compile() {
    for code in ["", "+", "[]", "[[]]", "+[-.,<>]", ",[.,]", "++++++++[>++++++++<-]>+."] {
        let program = parse(0, code).unwrap();
        assert!(compile(&program).is_ok());
    }
}

#[test]
fn builder_refusal_is_a_builder_error() {
    assert_eq!(
        built::<u8>(Err(BuilderError::UnsetPosition)),
        Err(CompileError::BuilderError(BuilderError::UnsetPosition))
    );
    assert_eq!(built(Ok(5u8)), Ok(5u8));
}

#[test]
fn missing_primitive_is_a_linkage_error() {
    assert_eq!(linked::<u8>(None), Err(CompileError::LibraryLinkageError));
    assert_eq!(linked(Some(5u8)), Ok(5u8));
}

#[test]
fn refused_routine_is_a_verify_error() {
    assert_eq!(accepted(false), Err(CompileError::FunctionVerifyError));
    assert_eq!(accepted(true), Ok(()));
    assert_eq!(integer::<u8>(None), Err(CompileError::FunctionVerifyError));
    assert_eq!(integer(Some(5u8)), Ok(5u8));
}

#[test]
fn errors_are_told_apart() {
    assert_ne!(CompileError::UnbalancedLoopError, CompileError::LibraryLinkageError);
    assert_ne!(CompileError::UnbalancedLoopError, CompileError::FunctionVerifyError);
    assert_ne!(
        CompileError::BuilderError(BuilderError::UnsetPosition),
        CompileError::BuilderError(BuilderError::GEPIndex)
    );
}

#[test]
fn deep_nesting_compiles() {
    let depth = 100;
    let code = format!("{}+{}", "[".repeat(depth), "]".repeat(depth));
    let program = parse(0, &code).unwrap();
    let plan = lower(&program);
    assert_eq!(plan.len(), 14 * depth + 5);
    assert_eq!(plan[6], Op::Branch { on_set: 2, on_clear: 1 });
    assert_eq!(plan[8 * depth - 1], Op::Enter(2 * depth - 1));
    assert_eq!(plan[plan.len() - 1], Op::Enter(2));
    let text = compile(&program).unwrap();
    assert_eq!(count(&text, "\nloop"), 2 * depth);
}
