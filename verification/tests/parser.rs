use bf_llvm::parser::{parse, Instruction, ParseError};

#[test]
fn test_parse() {
    assert_eq!(
        parse(0, "ABC><+-.,[]").unwrap(),
        vec![
            Instruction::MoveRight,
            Instruction::MoveLeft,
            Instruction::Increment,
            Instruction::Decrement,
            Instruction::Output,
            Instruction::Input,
            Instruction::Loop(Vec::default()),
        ]
    );
}

#[test]
fn test_parse_unmatched_jump() {
    assert_eq!(parse(0, "["), Err(ParseError::UndelimitedJump { position: 0 }));

    assert_eq!(parse(0, "++]"), Err(ParseError::UndelimitedJump { position: 2 }));
}

#[test]
fn each_symbol_is_one_instruction() {
    assert_eq!(parse(0, "<"), Ok(vec![Instruction::MoveLeft]));
    assert_eq!(parse(0, ">"), Ok(vec![Instruction::MoveRight]));
    assert_eq!(parse(0, "+"), Ok(vec![Instruction::Increment]));
    assert_eq!(parse(0, "-"), Ok(vec![Instruction::Decrement]));
    assert_eq!(parse(0, "."), Ok(vec![Instruction::Output]));
    assert_eq!(parse(0, ","), Ok(vec![Instruction::Input]));
}

#[test]
fn empty_text_is_empty_program() {
    assert_eq!(parse(0, ""), Ok(vec![]));
    assert_eq!(parse(7, ""), Ok(vec![]));
}

#[test]
fn other_characters_stand_for_nothing() {
    assert_eq!(parse(0, "ABC><"), parse(0, "><"));
    assert_eq!(parse(0, "ABC><"), Ok(vec![Instruction::MoveRight, Instruction::MoveLeft]));
    assert_eq!(parse(0, "a comment, with a comma"), Ok(vec![Instruction::Input]));
    assert_eq!(parse(0, " \n\t"), Ok(vec![]));
    assert_eq!(parse(0, "[ x ]"), Ok(vec![Instruction::Loop(vec![])]));
}

#[test]
fn other_characters_count_in_positions() {
    assert_eq!(parse(0, "ABC]"), Err(ParseError::UndelimitedJump { position: 3 }));
    assert_eq!(parse(0, "]"), Err(ParseError::UndelimitedJump { position: 0 }));
    assert_eq!(parse(0, "AB[C"), Err(ParseError::UndelimitedJump { position: 2 }));
    assert_eq!(parse(0, "[x]y]"), Err(ParseError::UndelimitedJump { position: 4 }));
}

#[test]
fn positions_count_characters_not_bytes() {
    assert_eq!(parse(0, "\u{e9}\u{4e16}]"), Err(ParseError::UndelimitedJump { position: 2 }));
    assert_eq!(parse(0, "\u{1f600}["), Err(ParseError::UndelimitedJump { position: 1 }));
    assert_eq!(
        parse(0, "\u{e9}[\u{4e16}+\u{1f600}]-"),
        Ok(vec![Instruction::Loop(vec![Instruction::Increment]), Instruction::Decrement])
    );
}

#[test]
fn balanced_nesting() {
    assert_eq!(parse(0, "[]"), Ok(vec![Instruction::Loop(vec![])]));
    assert_eq!(parse(0, "[[]]"), Ok(vec![Instruction::Loop(vec![Instruction::Loop(vec![])])]));
    assert_eq!(
        parse(0, "+[-[>]<[.],]+"),
        Ok(vec![
            Instruction::Increment,
            Instruction::Loop(vec![
                Instruction::Decrement,
                Instruction::Loop(vec![Instruction::MoveRight]),
                Instruction::MoveLeft,
                Instruction::Loop(vec![Instruction::Output]),
                Instruction::Input,
            ]),
            Instruction::Increment,
        ])
    );
    assert_eq!(
        parse(0, "[][]"),
        Ok(vec![Instruction::Loop(vec![]), Instruction::Loop(vec![])])
    );
}

#[test]
fn unmatched_open() {
    assert_eq!(parse(0, "["), Err(ParseError::UndelimitedJump { position: 0 }));
    assert_eq!(parse(0, "++["), Err(ParseError::UndelimitedJump { position: 2 }));
    assert_eq!(parse(0, "[]["), Err(ParseError::UndelimitedJump { position: 2 }));
}

#[test]
fn unmatched_close() {
    assert_eq!(parse(0, "++]"), Err(ParseError::UndelimitedJump { position: 2 }));
    assert_eq!(parse(0, "[]]"), Err(ParseError::UndelimitedJump { position: 2 }));
    assert_eq!(parse(0, "][]"), Err(ParseError::UndelimitedJump { position: 0 }));
}

#[test]
fn outer_open_is_reported() {
    assert_eq!(parse(0, "[++["), Err(ParseError::UndelimitedJump { position: 0 }));
    assert_eq!(parse(0, "[[]"), Err(ParseError::UndelimitedJump { position: 0 }));
    assert_eq!(parse(0, "+[[[]"), Err(ParseError::UndelimitedJump { position: 1 }));
}

#[test]
fn first_fault_is_reported() {
    assert_eq!(parse(0, "][")
        , Err(ParseError::UndelimitedJump { position: 0 }));
    assert_eq!(parse(0, "[]][")
        , Err(ParseError::UndelimitedJump { position: 2 }));
}

#[test]
fn offset_is_added_to_positions() {
    assert_eq!(parse(1, "["), Err(ParseError::UndelimitedJump { position: 1 }));
    assert_eq!(parse(5, "++["), Err(ParseError::UndelimitedJump { position: 7 }));
    assert_eq!(parse(10, "++]"), Err(ParseError::UndelimitedJump { position: 12 }));
    assert_eq!(parse(3, "[++["), Err(ParseError::UndelimitedJump { position: 3 }));
    assert_eq!(parse(3, "[-]"), parse(0, "[-]"));
}

#[test]
fn clone_keeps_the_program() {
    let program = parse(0, "+[-[>]<]").unwrap();
    let copy: Vec<Instruction> = program.iter().map(|instruction| instruction.clone()).collect();
    assert_eq!(copy, program);
}

#[test]
fn deep_nesting_parses() {
    let depth = 300;
    let code = format!("{}+{}", "[".repeat(depth), "]".repeat(depth));
    let mut expected = vec![Instruction::Increment];
    for _ in 0..depth {
        expected = vec![Instruction::Loop(expected)];
    }
    assert_eq!(parse(0, &code), Ok(expected));

    let open = format!("{}+{}", "[".repeat(depth), "]".repeat(depth - 1));
    assert_eq!(parse(0, &open), Err(ParseError::UndelimitedJump { position: 0 }));
    let closed = format!("{}+{}", "[".repeat(depth), "]".repeat(depth + 1));
    assert_eq!(parse(0, &closed), Err(ParseError::UndelimitedJump { position: 2 * depth + 1 }));
}
