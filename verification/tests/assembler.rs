use vm16::cpu::CPU;
use vm16::instructions::Instruction;
use vm16::parser::{lex, parse_file, parse_instruction, parse_operands, parse_value, AsmError};

#[test]
fn assemble_and_run_round_trip() {
    let program = parse_file("MOV 0,5\nMOV 1,3\nADD 0,1\nHALT").unwrap();
    let mut cpu = CPU::new();
    cpu.load_program(&program);
    assert!(cpu.run().is_ok());
    assert_eq!(cpu.registers[0], 8);
    assert_eq!(cpu.registers[1], 3);
}

#[test]
fn assemble_with_comma_space_and_letter_registers() {
    // `c` names register 2; comment and blank lines contribute nothing.
    let program = parse_file("MOV c, 200 ; set it\n\nPRINT c\n").unwrap();
    assert_eq!(
        program,
        vec![
            Instruction::MOV(2, 200),
            Instruction::PRINT(2),
            Instruction::HALT
        ]
    );
    let mut cpu = CPU::new();
    cpu.load_program(&program);
    let prints = cpu.run().unwrap();
    assert_eq!(cpu.registers[2], 200);
    assert_eq!(prints, vec![200]);
}

#[test]
fn trailing_halt_is_implicit() {
    let program = parse_file("MOV 0,1").unwrap();
    assert_eq!(program, vec![Instruction::MOV(0, 1), Instruction::HALT]);
}

#[test]
fn mnemonics_match_case_insensitively() {
    let program = parse_file("mov 0,7\nAdd 0,1\nhalt").unwrap();
    assert_eq!(
        program,
        vec![
            Instruction::MOV(0, 7),
            Instruction::ADD(0, 1),
            Instruction::HALT,
            Instruction::HALT
        ]
    );
}

#[test]
fn unknown_mnemonic_is_fatal_with_line() {
    let r = parse_file("MOV 0,1\nFROB 2,3\nHALT");
    assert_eq!(
        r,
        Err(AsmError::UnknownMnemonic {
            mnemonic: "FROB".to_string(),
            line: 2
        })
    );
}

#[test]
fn empty_after_lexing_is_fatal() {
    assert_eq!(parse_file(""), Err(AsmError::EmptySource));
    assert_eq!(parse_file("   \n\t\n"), Err(AsmError::EmptySource));
    assert_eq!(
        parse_file("; just a comment\n   ; another\n"),
        Err(AsmError::EmptySource)
    );
}

#[test]
fn whitespace_and_comments_lex_to_nothing() {
    let lexed = lex("   \n; comment only\n\t ; more\n");
    assert!(lexed.iter().all(|line| line.is_empty()));
}

#[test]
fn lex_splits_on_whitespace_and_commas() {
    let lexed = lex("MOV 1, 5\nADD 0,1 ; trailing words\n");
    assert_eq!(lexed.len(), 2);
    assert_eq!(lexed[0], vec!["MOV", "1", "5"]);
    assert_eq!(lexed[1], vec!["ADD", "0", "1"]);
}

#[test]
fn halt_fast_path_stops_parsing() {
    let program = parse_file("MOV 0,5\nHALT anything ; even junk after it\nFROB 1,2").unwrap();
    assert_eq!(program, vec![Instruction::MOV(0, 5), Instruction::HALT]);
}

#[test]
fn function_block_is_parsed_but_inert() {
    let program = parse_file(".setup\nMOV 0,9\n.end\nMOV 1,7\nHALT").unwrap();
    assert_eq!(program, vec![Instruction::MOV(1, 7), Instruction::HALT]);
}

#[test]
fn block_errors_are_fatal() {
    assert_eq!(
        parse_file(".a\n.b\n.end\nHALT"),
        Err(AsmError::NestedBlock { line: 2 })
    );
    assert_eq!(
        parse_file("MOV 0,1\n.end\nHALT"),
        Err(AsmError::StrayEnd { line: 2 })
    );
}

#[test]
fn bad_token_inside_block_is_still_fatal() {
    assert_eq!(
        parse_file(".a\nFROB 0,1\n.end\nHALT"),
        Err(AsmError::UnknownMnemonic {
            mnemonic: "FROB".to_string(),
            line: 2
        })
    );
}

#[test]
fn parse_value_binary_reads_from_third_character() {
    // The parse deliberately skips two characters: `b101` keeps only `01`.
    assert_eq!(parse_value("b101"), Ok(1));
    assert_eq!(parse_value("b0101"), Ok(5));
    assert_eq!(parse_value("b011111111111111111"), Ok(0xFFFF));
}

#[test]
fn parse_value_binary_errors() {
    assert_eq!(
        parse_value("b1x1"),
        Err(AsmError::InvalidBinary {
            token: "b1x1".to_string()
        })
    );
    // Nothing after the skipped prefix.
    assert_eq!(
        parse_value("b1"),
        Err(AsmError::InvalidBinary {
            token: "b1".to_string()
        })
    );
    // Wider than a 32-bit signed read.
    let wide = format!("b0{}", "1".repeat(32));
    assert_eq!(
        parse_value(&wide),
        Err(AsmError::InvalidBinary { token: wide })
    );
}

#[test]
fn parse_value_decimal_and_letters() {
    assert_eq!(parse_value("0"), Ok(0));
    assert_eq!(parse_value("123"), Ok(123));
    assert_eq!(parse_value("65535"), Ok(65535));
    // Too wide for the register: falls through to the default.
    assert_eq!(parse_value("65536"), Ok(0));
    assert_eq!(parse_value("a"), Ok(0));
    assert_eq!(parse_value("c"), Ok(2));
    assert_eq!(parse_value("Z"), Ok(25));
}

#[test]
fn parse_value_defaults_to_zero() {
    assert_eq!(parse_value(""), Ok(0));
    assert_eq!(parse_value("xyz"), Ok(0));
    assert_eq!(parse_value("1,2"), Ok(0));
    assert_eq!(parse_value("-3"), Ok(0));
    assert_eq!(parse_value("bx"), Ok(0));
}

#[test]
fn parse_operands_defaults_missing_tokens() {
    let toks = vec!["CLR".to_string()];
    assert_eq!(parse_operands(&toks), Ok((0, 0)));
    let toks = vec!["MOV".to_string(), "3".to_string()];
    assert_eq!(parse_operands(&toks), Ok((3, 0)));
    let toks = vec!["MOV".to_string(), "3".to_string(), "9".to_string()];
    assert_eq!(parse_operands(&toks), Ok((3, 9)));
}

#[test]
fn parse_instruction_builds_each_shape() {
    let line = vec!["add".to_string(), "1".to_string(), "2".to_string()];
    assert_eq!(parse_instruction(&line, 1), Ok(Instruction::ADD(1, 2)));
    let line = vec!["PRINT".to_string(), "4".to_string()];
    assert_eq!(parse_instruction(&line, 1), Ok(Instruction::PRINT(4)));
    let line = vec!["jmp".to_string(), "3".to_string()];
    assert_eq!(parse_instruction(&line, 1), Ok(Instruction::JMP(3)));
    let line = vec!["NOP".to_string()];
    assert_eq!(parse_instruction(&line, 1), Ok(Instruction::NOP));
    let line = vec!["bogus".to_string()];
    assert_eq!(
        parse_instruction(&line, 7),
        Err(AsmError::UnknownMnemonic {
            mnemonic: "bogus".to_string(),
            line: 7
        })
    );
}

#[test]
fn operand_error_reports_the_token() {
    assert_eq!(
        parse_file("MOV 0,b1z\nHALT"),
        Err(AsmError::InvalidBinary {
            token: "b1z".to_string()
        })
    );
}

#[test]
fn remove_comments_strips_and_trims() {
    let mut buf = "MOV 0,1 ; set\nADD 0,1;inc\n; gone\n".to_string();
    let r = vm16::parser::remove_comments(&mut buf);
    assert_eq!(r, "MOV 0,1 \nADD 0,1");
    assert_eq!(buf, r);
}

#[test]
fn remove_comments_of_blank_buffer_is_empty() {
    let mut buf = "; only a comment".to_string();
    let r = vm16::parser::remove_comments(&mut buf);
    assert_eq!(r, "");
    assert_eq!(buf, "");
}

#[test]
fn append_line_numbers_prefixes_each_line() {
    let r = vm16::parser::append_line_numbers("MOV 0,1\nADD 0,1\nHALT");
    assert_eq!(r, "1 MOV 0,1\n2 ADD 0,1\n3 HALT");
    assert_eq!(vm16::parser::append_line_numbers(""), "");
    let r = vm16::parser::append_line_numbers("a\n\nb");
    assert_eq!(r, "1 a\n2 \n3 b");
}

#[test]
fn default_sample_program_assembles_and_runs() {
    let program = parse_file("MOV 1, 5\nMOV 2, 3\nADD 0, 1\nSUB 1, 2\nMUL 1, 2").unwrap();
    assert_eq!(
        program,
        vec![
            Instruction::MOV(1, 5),
            Instruction::MOV(2, 3),
            Instruction::ADD(0, 1),
            Instruction::SUB(1, 2),
            Instruction::MUL(1, 2),
            Instruction::HALT
        ]
    );
    let mut cpu = CPU::new();
    cpu.load_program(&program);
    assert!(cpu.run().is_ok());
    assert_eq!(cpu.registers[0], 5);
    assert_eq!(cpu.registers[1], 6);
    assert_eq!(cpu.registers[2], 3);
}
