use bf_engine::compiler::{compile, compile_structural, match_idiom, BracketError, CompileError};
use bf_engine::instruction::Instruction;
use bf_engine::token::{to_basic_opcode, tokenize, Token};

fn compiled(src: &str) -> Vec<Instruction> {
    let tokens = tokenize(src.as_bytes());
    compile(&tokens).unwrap().instructions().to_vec()
}

fn structural(src: &str) -> Vec<Instruction> {
    let tokens = tokenize(src.as_bytes());
    compile_structural(&tokens).unwrap().instructions().to_vec()
}

fn failure(src: &str) -> CompileError {
    let tokens = tokenize(src.as_bytes());
    match compile(&tokens) {
        Ok(_) => panic!("compiled"),
        Err(err) => err,
    }
}

#[test]
fn each_command_byte_has_its_token() {
    assert_eq!(to_basic_opcode(b'+'), Some(Token::Increment));
    assert_eq!(to_basic_opcode(b'-'), Some(Token::Decrement));
    assert_eq!(to_basic_opcode(b'>'), Some(Token::MoveRight));
    assert_eq!(to_basic_opcode(b'<'), Some(Token::MoveLeft));
    assert_eq!(to_basic_opcode(b'['), Some(Token::LoopOpen));
    assert_eq!(to_basic_opcode(b']'), Some(Token::LoopClose));
    assert_eq!(to_basic_opcode(b'.'), Some(Token::Output));
    assert_eq!(to_basic_opcode(b','), Some(Token::Input));
}

#[test]
fn every_other_byte_is_a_comment() {
    for c in 0..=255u8 {
        if !b"+-<>[].,".contains(&c) {
            assert_eq!(to_basic_opcode(c), None);
        }
    }
}

#[test]
fn tokenize_drops_comments_and_keeps_order() {
    assert_eq!(
        tokenize(b"a+ b-\n>x<[y].,"),
        vec![
            Token::Increment,
            Token::Decrement,
            Token::MoveRight,
            Token::MoveLeft,
            Token::LoopOpen,
            Token::LoopClose,
            Token::Output,
            Token::Input,
        ]
    );
    assert_eq!(tokenize(b""), vec![]);
    assert_eq!(tokenize(b"hello world"), vec![]);
}

#[test]
fn three_increments_are_one_add() {
    assert_eq!(compiled("+++"), vec![Instruction::AddCell(3)]);
}

#[test]
fn a_full_turn_of_increments_cancels() {
    assert_eq!(compiled(&"+".repeat(256)), vec![]);
}

#[test]
fn increments_wrap_to_negative_deltas() {
    assert_eq!(compiled(&"+".repeat(128)), vec![Instruction::AddCell(-128)]);
    assert_eq!(compiled(&"+".repeat(255)), vec![Instruction::AddCell(-1)]);
    assert_eq!(compiled(&"-".repeat(129)), vec![Instruction::AddCell(127)]);
}

#[test]
fn moves_coalesce_and_wrap() {
    assert_eq!(compiled(">>><"), vec![Instruction::MoveCursor(2)]);
    assert_eq!(compiled("<<"), vec![Instruction::MoveCursor(-2)]);
    assert_eq!(compiled(&">".repeat(32768)), vec![Instruction::MoveCursor(-32768)]);
    assert_eq!(compiled(&">".repeat(65536)), vec![]);
}

#[test]
fn opposite_tokens_cancel() {
    assert_eq!(compiled("+-"), vec![]);
    assert_eq!(compiled("><"), vec![]);
    assert_eq!(compiled("+><-"), vec![]);
    assert_eq!(compiled("+>><<+"), vec![Instruction::AddCell(2)]);
}

#[test]
fn adds_and_moves_do_not_merge_with_each_other() {
    assert_eq!(
        compiled("+>+"),
        vec![Instruction::AddCell(1), Instruction::MoveCursor(1), Instruction::AddCell(1)]
    );
}

#[test]
fn clear_idiom() {
    assert_eq!(compiled("[-]"), vec![Instruction::Clear]);
}

#[test]
fn add_to_idiom() {
    assert_eq!(compiled("[->+<]"), vec![Instruction::AddTo(1)]);
    assert_eq!(compiled("[-<<<+>>>]"), vec![Instruction::AddTo(-3)]);
}

#[test]
fn sub_to_idiom() {
    assert_eq!(compiled("[->-<]"), vec![Instruction::SubTo(1)]);
}

#[test]
fn seek_idiom() {
    assert_eq!(compiled("[>]"), vec![Instruction::Seek(1)]);
    assert_eq!(compiled("[<<]"), vec![Instruction::Seek(-2)]);
}

#[test]
fn a_fused_loop_takes_one_address() {
    assert_eq!(
        compiled("+[-]+"),
        vec![Instruction::AddCell(1), Instruction::Clear, Instruction::AddCell(1)]
    );
    assert_eq!(
        compiled("[[-]>]"),
        vec![
            Instruction::BranchZero(3),
            Instruction::Clear,
            Instruction::MoveCursor(1),
            Instruction::BranchNotZero(0),
        ]
    );
}

#[test]
fn near_idioms_stay_structural() {
    assert_eq!(
        compiled("[+]"),
        vec![
            Instruction::BranchZero(2),
            Instruction::AddCell(1),
            Instruction::BranchNotZero(0),
        ]
    );
    assert_eq!(
        compiled("[->+<<]"),
        vec![
            Instruction::BranchZero(5),
            Instruction::AddCell(-1),
            Instruction::MoveCursor(1),
            Instruction::AddCell(1),
            Instruction::MoveCursor(-2),
            Instruction::BranchNotZero(0),
        ]
    );
    assert_eq!(
        compiled("[]"),
        vec![Instruction::BranchZero(1), Instruction::BranchNotZero(0)]
    );
}

#[test]
fn structural_loops_carry_each_other_s_address() {
    assert_eq!(
        compiled(",[.,]"),
        vec![
            Instruction::Input,
            Instruction::BranchZero(4),
            Instruction::Output,
            Instruction::Input,
            Instruction::BranchNotZero(1),
        ]
    );
    assert_eq!(
        compiled("[.[.].]"),
        vec![
            Instruction::BranchZero(6),
            Instruction::Output,
            Instruction::BranchZero(4),
            Instruction::Output,
            Instruction::BranchNotZero(2),
            Instruction::Output,
            Instruction::BranchNotZero(0),
        ]
    );
}

#[test]
fn without_fusion_every_loop_is_structural() {
    assert_eq!(
        structural("[-]"),
        vec![
            Instruction::BranchZero(2),
            Instruction::AddCell(-1),
            Instruction::BranchNotZero(0),
        ]
    );
    assert_eq!(
        structural("[>]"),
        vec![
            Instruction::BranchZero(2),
            Instruction::MoveCursor(1),
            Instruction::BranchNotZero(0),
        ]
    );
    assert_eq!(structural("+++"), vec![Instruction::AddCell(3)]);
}

#[test]
fn an_open_bracket_alone_is_an_extra_open() {
    assert_eq!(failure("["), CompileError::UnbalancedBrackets(BracketError::ExtraOpen));
    assert_eq!(failure("[[-]"), CompileError::UnbalancedBrackets(BracketError::ExtraOpen));
}

#[test]
fn a_close_bracket_alone_is_an_extra_close() {
    assert_eq!(failure("]"), CompileError::UnbalancedBrackets(BracketError::ExtraClose));
    assert_eq!(failure("[-]]"), CompileError::UnbalancedBrackets(BracketError::ExtraClose));
}

#[test]
fn an_extra_close_is_reported_before_an_extra_open() {
    assert_eq!(failure("]["), CompileError::UnbalancedBrackets(BracketError::ExtraClose));
    assert_eq!(failure("[]]["), CompileError::UnbalancedBrackets(BracketError::ExtraClose));
}

#[test]
fn unbalanced_sources_fail_without_fusion_too() {
    let tokens = tokenize(b"[");
    assert_eq!(
        compile_structural(&tokens).err(),
        Some(CompileError::UnbalancedBrackets(BracketError::ExtraOpen))
    );
    let tokens = tokenize(b"]");
    assert_eq!(
        compile_structural(&tokens).err(),
        Some(CompileError::UnbalancedBrackets(BracketError::ExtraClose))
    );
}

#[test]
fn error_messages_name_the_bracket() {
    assert_eq!(
        CompileError::UnbalancedBrackets(BracketError::ExtraOpen).message(),
        "unbalanced brackets: extra ["
    );
    assert_eq!(
        CompileError::UnbalancedBrackets(BracketError::ExtraClose).message(),
        "unbalanced brackets: extra ]"
    );
}

#[test]
fn compiling_twice_gives_the_same_program() {
    let tokens = tokenize(b"++[>+++[->+<]<-]>>.[>],[.,]");
    let first = compile(&tokens).unwrap();
    let second = compile(&tokens).unwrap();
    assert_eq!(first.instructions(), second.instructions());
}

#[test]
fn idioms_are_matched_in_order() {
    assert_eq!(match_idiom(&[Instruction::AddCell(-1)]), Some(Instruction::Clear));
    assert_eq!(match_idiom(&[Instruction::MoveCursor(5)]), Some(Instruction::Seek(5)));
    assert_eq!(match_idiom(&[Instruction::MoveCursor(0)]), None);
    assert_eq!(match_idiom(&[Instruction::AddCell(1)]), None);
    assert_eq!(match_idiom(&[]), None);
    assert_eq!(
        match_idiom(&[
            Instruction::AddCell(-1),
            Instruction::MoveCursor(7),
            Instruction::AddCell(1),
            Instruction::MoveCursor(-7),
        ]),
        Some(Instruction::AddTo(7))
    );
    assert_eq!(
        match_idiom(&[
            Instruction::AddCell(-1),
            Instruction::MoveCursor(-7),
            Instruction::AddCell(-1),
            Instruction::MoveCursor(7),
        ]),
        Some(Instruction::SubTo(-7))
    );
    assert_eq!(
        match_idiom(&[
            Instruction::AddCell(-1),
            Instruction::MoveCursor(7),
            Instruction::AddCell(2),
            Instruction::MoveCursor(-7),
        ]),
        None
    );
    assert_eq!(
        match_idiom(&[
            Instruction::AddCell(-1),
            Instruction::MoveCursor(-32768),
            Instruction::AddCell(1),
            Instruction::MoveCursor(-32768),
        ]),
        Some(Instruction::AddTo(-32768))
    );
    assert_eq!(
        match_idiom(&[
            Instruction::AddCell(-1),
            Instruction::MoveCursor(0),
            Instruction::AddCell(1),
            Instruction::MoveCursor(0),
        ]),
        None
    );
}

#[test]
fn program_accessors_agree() {
    let tokens = tokenize(b"+>.");
    let program = compile(&tokens).unwrap();
    assert_eq!(program.len(), 3);
    assert!(!program.is_empty());
    assert_eq!(program.get(0), Some(Instruction::AddCell(1)));
    assert_eq!(program.get(2), Some(Instruction::Output));
    assert_eq!(program.get(3), None);
    let empty = compile(&[]).unwrap();
    assert!(empty.is_empty());
    assert_eq!(empty.len(), 0);
}
