use mpp::instruction::Instruction;
use mpp::token::{Mnemonic, Port, Primitive, Register, Token, TokenKind, TokenizingError, EOL};
use mpp::{Assembly, AssemblyError, ErrorCode};

fn bytes_of(src: &str) -> Vec<u8> {
    Assembly::assemble(src.to_string()).unwrap().as_byte_code().to_vec()
}

fn error_of(src: &str) -> AssemblyError {
    match Assembly::assemble(src.to_string()) {
        Ok(a) => panic!("assembled to {:?}", a.as_byte_code()),
        Err(e) => e,
    }
}

#[test]
fn test_instructions() {
    assert_eq!(bytes_of("_start:\tjz\t_start"), [7, 5, 0, 0])
}

#[test]
fn immediate_to_accumulator() {
    assert_eq!(bytes_of("mov al, 0x2a"), [0x07, 0xC0, 0x2A]);
}

#[test]
fn register_to_accumulator() {
    assert_eq!(bytes_of("add al, bl"), [0x04]);
}

#[test]
fn accumulator_to_output_port() {
    // Mov sets the ALU field to 110 beside the flow `Acc -> Output` (011).
    assert_eq!(bytes_of("out0_write:  mov out0, al"), [0xC3]);
}

#[test]
fn return_turns_two_pages() {
    assert_eq!(bytes_of("ret"), [0x07, 0x07, 0x00]);
}

#[test]
fn forward_label_counts_the_address_slot() {
    assert_eq!(bytes_of("start:  jmp end \n  end:"), [0x07, 0x03, 0x00, 0x04]);
}

#[test]
fn forward_and_backward_references_agree() {
    let backward = bytes_of("top:\nadd al, bl\njmp top");
    assert_eq!(backward, [0x04, 0x07, 0x03, 0x00, 0x00]);
    let forward = bytes_of("jmp top\ntop:\nadd al, bl");
    assert_eq!(forward, [0x07, 0x03, 0x00, 0x04, 0x04]);
}

#[test]
fn case_does_not_matter() {
    assert_eq!(bytes_of("MoV AL, Bl"), bytes_of("mov al, bl"));
    assert_eq!(bytes_of("JZ Start\nstart:"), bytes_of("jz start\nstart:"));
}

#[test]
fn comments_are_ignored() {
    assert_eq!(bytes_of("add al, bl ; anything, at all: mov"), bytes_of("add al, bl"));
    assert_eq!(bytes_of("; only a comment"), Vec::<u8>::new());
}

#[test]
fn memory_operands() {
    // Acc -> RAM: flow 010, RAM word big-endian.
    assert_eq!(bytes_of("mov [0x10], al"), [0xC2, 0x00, 0x10]);
    // ROM -> RAM on page 1.
    assert_eq!(bytes_of("mov [5], 3"), [0x07, 0xC2, 0x03, 0x00, 0x05]);
    // DyRAM -> Acc on page 2, register C.
    assert_eq!(bytes_of("mov al, [cl]"), [0x07, 0x07, 0xC9]);
    // Input -> Acc, port 2.
    assert_eq!(bytes_of("mov al, in2"), [0xD6]);
}

#[test]
fn negative_and_char_literals() {
    assert_eq!(bytes_of("mov al, -1"), [0x07, 0xC0, 0xFF]);
    // Source text is lower-cased before it is read.
    assert_eq!(bytes_of("mov al, 'A'"), [0x07, 0xC0, 0x61]);
}

fn number_of(s: &str) -> Option<u8> {
    let chars: Vec<char> = s.chars().collect();
    match Primitive::parse(&chars) {
        Ok(Primitive::Number(n)) => Some(n),
        _ => None,
    }
}

#[test]
fn number_forms_agree() {
    for form in ["10d", "10", "0ah", "0x0a", "1010b", "0b1010"] {
        assert_eq!(number_of(form), Some(10), "{}", form);
    }
    assert_eq!(number_of("1010"), None);
    assert_eq!(number_of("256"), None);
    assert_eq!(number_of("255"), Some(255));
    assert_eq!(number_of("+7"), Some(7));
}

#[test]
fn label_definition_keeps_name() {
    let chars: Vec<char> = "loop_1:".chars().collect();
    match TokenKind::parse(&chars) {
        Ok(TokenKind::Label(text)) => assert_eq!(text, "loop_1:"),
        other => panic!("{:?}", other),
    }
}

#[test]
fn high_byte_is_rejected() {
    let e = error_of("mov al, ah");
    assert!(matches!(e.code, ErrorCode::Token(TokenizingError::HighByte)));
    assert_eq!(e.token.span, 8..10);
    assert_eq!(e.token.line, 1);
}

#[test]
fn too_few_operands() {
    let e = error_of("mov al");
    assert!(matches!(e.code, ErrorCode::NotEnoughOperands(1, 2)));
    assert_eq!(e.token.span, 0..3);
}

#[test]
fn too_many_operands() {
    let e = error_of("mov al, al, al");
    assert!(matches!(e.code, ErrorCode::ExcessiveOperands(2)));
    assert_eq!(e.token.span, 0..3);
}

#[test]
fn redefined_label() {
    let e = error_of("foo:  foo:");
    assert!(matches!(e.code, ErrorCode::RedefinedLabel));
    assert_eq!(e.token.span, 6..10);
}

#[test]
fn unknown_label() {
    let e = error_of("jmp nowhere");
    match e.code {
        ErrorCode::UnknownLabel(name) => assert_eq!(name, "nowhere"),
        other => panic!("{:?}", other),
    }
    assert_eq!(e.token.span, 4..11);
}

#[test]
fn register_to_register_is_a_bad_origin() {
    let e = error_of("mov bl, cl");
    assert!(matches!(e.code, ErrorCode::BadOrigin));
    assert_eq!(e.token.span, 8..10);
}

#[test]
fn leading_comma_has_no_mnemonic() {
    let e = error_of(", mov al, al");
    assert!(matches!(e.code, ErrorCode::NoMnemonic));
    assert_eq!(e.token.span, 0..1);
}

#[test]
fn other_errors() {
    assert!(matches!(error_of("mov al, bl al").code, ErrorCode::ExcessiveOperands(2)));
    assert!(matches!(error_of("mov mov").code, ErrorCode::MultipleMnemonics));
    assert!(matches!(error_of("jmp 5").code, ErrorCode::NoLabel));
    assert!(matches!(error_of("add , al").code, ErrorCode::UnexpectedComma));
    assert!(matches!(error_of("mov out1, 2").code, ErrorCode::BadDestination));
    assert!(matches!(error_of("mov al, 300").code, ErrorCode::Token(_)));
    assert!(matches!(error_of("mov al, in7").code, ErrorCode::Token(_)));
    assert!(matches!(error_of("mov al, rax").code, ErrorCode::Token(_)));
    assert!(matches!(error_of("mov al, [out1]").code, ErrorCode::Token(_)));
    assert!(matches!(error_of("9lives:").code, ErrorCode::Token(_)));
}

#[test]
fn parser_error_comes_before_lexer_error() {
    let e = error_of("jmp nowhere\nmov al, ah");
    assert!(matches!(e.code, ErrorCode::UnknownLabel(_)));
}

#[test]
fn logisim_container() {
    let mut a = Assembly::assemble("mov al, 0x2a".to_string()).unwrap();
    a.to_logisim();
    assert_eq!(a.as_byte_code(), b"v2.0 raw\r\n7 c0 2a ");
}

#[test]
fn hex_digits() {
    assert_eq!(mpp::assembly::byte_as_hexadecimal(0xA5), (b'a', b'5'));
    assert_eq!(mpp::assembly::nibble_to_ascii(9), b'9');
}

#[test]
fn save_path_can_be_set_and_cleared() {
    let mut a = Assembly::assemble("ret".to_string()).unwrap();
    a.then_save_as("out.bin".to_string());
    assert_eq!(a.path().map(|p| p.as_str()), Some("out.bin"));
    a.discard_save_path();
    assert!(a.path().is_none());
}

#[test]
fn help_messages() {
    assert_eq!(ErrorCode::ExcessiveOperands(2).help_msg(), vec!["only 2 operands are required"]);
    assert_eq!(ErrorCode::ExcessiveOperands(1).help_msg(), vec!["only 1 operand is required"]);
    assert_eq!(ErrorCode::NotEnoughOperands(0, 2).help_msg(), vec!["add 2 operands"]);
    assert_eq!(
        ErrorCode::UnknownLabel("x".to_string()).help_msg(),
        vec!["add this label somewhere either before a mnemonic, or alone, as `x:`"]
    );
    assert_eq!(ErrorCode::BadOrigin.help_msg().len(), 5);
    assert_eq!(mpp::error::decimal_string(1234), "1234");
}

#[test]
fn instruction_length_counts_every_part() {
    let inst = Instruction { decoder_page: 1, main: 0xC2, rom: Some(3), ram: Some(0x0105) };
    assert_eq!(inst.as_bytes(), vec![0x07, 0xC2, 0x03, 0x01, 0x05]);
    let bare = Instruction::new().encode_mnemonic(Mnemonic::Ret);
    assert_eq!(bare.as_bytes(), vec![0x07, 0x07, 0x00]);
}

#[test]
fn try_send_classifies_and_sends() {
    let mut channel: Vec<Result<Token, EOL>> = Vec::new();
    let word: Vec<char> = "mov".chars().collect();
    assert!(Token::try_send(&word, 3..6, 2, &mut channel).is_ok());
    assert_eq!(channel.len(), 1);
    match &channel[0] {
        Ok(t) => {
            assert!(matches!(t.kind, TokenKind::Mnemonic(Mnemonic::Mov)));
            assert_eq!((t.span.clone(), t.line), (3..6, 2));
        }
        Err(_) => panic!("end of line sent"),
    }
    assert!(Token::try_send(&[], 0..0, 2, &mut channel).is_ok());
    assert_eq!(channel.len(), 1);
    let bad: Vec<char> = "bh".chars().collect();
    match Token::try_send(&bad, 0..2, 1, &mut channel) {
        Err((t, e)) => {
            assert!(matches!(t.kind, TokenKind::Error));
            assert_eq!(e, TokenizingError::HighByte);
        }
        Ok(()) => panic!("high byte accepted"),
    }
    assert_eq!(channel.len(), 1);
}

#[test]
fn words_parse_through_from_str() {
    assert!(matches!("in2".parse::<Port>(), Ok(Port::Input(2))));
    assert!(matches!("out7".parse::<Port>(), Err(TokenizingError::BadPort)));
    assert!(matches!("dl".parse::<Register>(), Ok(Register::D)));
    assert!(matches!("JE".parse::<Mnemonic>(), Ok(Mnemonic::Jmpz)));
    assert!(matches!("jmpz".parse::<Mnemonic>(), Ok(Mnemonic::Jmpz)));
    assert!(matches!("JmpC".parse::<Mnemonic>(), Ok(Mnemonic::Jmpc)));
    assert!(matches!("jnz".parse::<Mnemonic>(), Err(())));
    assert!(matches!("[bl]".parse::<Primitive>(), Ok(Primitive::DynamicMemory(Register::B))));
    assert!(matches!(",".parse::<TokenKind>(), Ok(TokenKind::Comma)));
}

#[test]
fn tokens_after_the_last_end_of_line_are_left_out() {
    let ret = || Token { kind: TokenKind::Mnemonic(Mnemonic::Ret), span: 0..3, line: 1 };
    let stream = vec![Ok(ret()), Err(EOL), Ok(ret())];
    assert_eq!(mpp::parser::eval(stream).unwrap(), vec![0x07, 0x07, 0x00]);
}

#[test]
fn signed_words_are_numbers() {
    for word in ["-a", "+", "-", "+x1"] {
        assert!(matches!(word.parse::<Primitive>(), Err(TokenizingError::BadNumber)), "{}", word);
    }
    assert!(matches!("0x".parse::<Primitive>(), Err(TokenizingError::BadNumber)));
    // `0` followed by the binary suffix.
    assert_eq!(number_of("0b"), Some(0));
}

#[test]
fn hex_prefix_comes_before_suffixes() {
    assert_eq!(number_of("0x0b"), Some(11));
    assert_eq!(number_of("0x1d"), Some(29));
    assert_eq!(number_of("0xad"), Some(173));
    assert_eq!(number_of("11b"), Some(3));
}

#[test]
fn long_jump_spellings() {
    assert_eq!(bytes_of("x: jmpz x"), bytes_of("x: jz x"));
    assert_eq!(bytes_of("x: jmpc x"), bytes_of("x: jc x"));
}

#[test]
fn comma_after_all_operands_is_excessive() {
    let e = error_of("ret al, bl");
    assert!(matches!(e.code, ErrorCode::ExcessiveOperands(0)));
    assert_eq!(e.token.span, 0..3);
}

#[test]
fn register_origin_to_memory_is_a_bad_destination() {
    let e = error_of("mov [5], bl");
    assert!(matches!(e.code, ErrorCode::BadDestination));
    assert_eq!(e.token.span, 4..7);
}

#[test]
fn failed_statement_leaves_program_unchanged() {
    let label = Token { kind: TokenKind::Label("a:".to_string()), span: 0..2, line: 1 };
    let comma = Token { kind: TokenKind::Comma, span: 3..4, line: 1 };
    let mut prog = mpp::parser::Program::new();
    assert!(mpp::parser::translate_buffer(&vec![label, comma], &mut prog).is_err());
    assert!(prog.labels.is_empty());
    assert!(prog.byte_code.is_empty());
}
