use bfjit::code_memory::load;
use bfjit::jit_compiler::{compile, emit, has_valid_targets, prepare, relocate, Relocation};
use bfjit::tokenizer::{tokenize, Token, TokenKind};

fn tokens_of(source: &str) -> Vec<Token> {
    match tokenize(&source.as_bytes().to_vec()) {
        Ok(tokens) => tokens,
        Err(_) => panic!("unbalanced source"),
    }
}

const WRITE_CALL: [u8; 28] = [
    0x57, 0x48, 0xc7, 0xc0, 0x01, 0x00, 0x00, 0x00, 0x48, 0x89, 0xfe, 0x48, 0xc7, 0xc7, 0x01,
    0x00, 0x00, 0x00, 0x48, 0xc7, 0xc2, 0x01, 0x00, 0x00, 0x00, 0x0f, 0x05, 0x5f,
];

const READ_CALL: [u8; 28] = [
    0x57, 0x48, 0xc7, 0xc0, 0x00, 0x00, 0x00, 0x00, 0x48, 0x89, 0xfe, 0x48, 0xc7, 0xc7, 0x00,
    0x00, 0x00, 0x00, 0x48, 0xc7, 0xc2, 0x01, 0x00, 0x00, 0x00, 0x0f, 0x05, 0x5f,
];

#[test]
fn empty_program_is_a_bare_return() {
    assert_eq!(compile(&tokens_of("")), vec![0xc3u8]);
}

#[test]
fn pointer_moves_are_encoded_with_32_bit_operands() {
    assert_eq!(
        compile(&tokens_of(">")),
        vec![0x48u8, 0x81, 0xc7, 0x01, 0x00, 0x00, 0x00, 0xc3]
    );
    assert_eq!(
        compile(&tokens_of("<<<")),
        vec![0x48u8, 0x81, 0xef, 0x03, 0x00, 0x00, 0x00, 0xc3]
    );
    assert_eq!(
        compile(&tokens_of(&">".repeat(1000))),
        vec![0x48u8, 0x81, 0xc7, 0xe8, 0x03, 0x00, 0x00, 0xc3]
    );
    assert_eq!(
        compile(&tokens_of(&"<".repeat(65535))),
        vec![0x48u8, 0x81, 0xef, 0xff, 0xff, 0x00, 0x00, 0xc3]
    );
}

#[test]
fn cell_arithmetic_is_encoded_with_8_bit_operands() {
    assert_eq!(compile(&tokens_of("+")), vec![0x80u8, 0x07, 0x01, 0xc3]);
    assert_eq!(compile(&tokens_of("--")), vec![0x80u8, 0x2f, 0x02, 0xc3]);
    assert_eq!(compile(&tokens_of(&"+".repeat(255))), vec![0x80u8, 0x07, 0xff, 0xc3]);
    assert_eq!(compile(&tokens_of(&"+".repeat(258))), vec![0x80u8, 0x07, 0x02, 0xc3]);
}

#[test]
fn output_is_one_write_call_for_each_operator() {
    let mut expected = Vec::new();
    for _ in 0..3 {
        expected.extend_from_slice(&WRITE_CALL);
    }
    expected.push(0xc3);
    assert_eq!(compile(&tokens_of("...")), expected);
}

#[test]
fn input_is_one_read_call() {
    let mut expected = READ_CALL.to_vec();
    expected.push(0xc3);
    assert_eq!(compile(&tokens_of(",")), expected.clone());
    assert_eq!(compile(&tokens_of(",,,")), expected);
}

#[test]
fn loop_branches_carry_resolved_displacements() {
    assert_eq!(
        compile(&tokens_of("[-]")),
        vec![
            0x8au8, 0x07, 0x84, 0xc0, 0x0f, 0x84, 0x0d, 0x00, 0x00, 0x00, 0x80, 0x2f, 0x01, 0x8a,
            0x07, 0x84, 0xc0, 0x0f, 0x85, 0xf3, 0xff, 0xff, 0xff, 0xc3,
        ]
    );
}

#[test]
fn empty_loop_at_the_end_branches_to_the_return() {
    assert_eq!(
        compile(&tokens_of("[]")),
        vec![
            0x8au8, 0x07, 0x84, 0xc0, 0x0f, 0x84, 0x0a, 0x00, 0x00, 0x00, 0x8a, 0x07, 0x84, 0xc0,
            0x0f, 0x85, 0xf6, 0xff, 0xff, 0xff, 0xc3,
        ]
    );
}

fn displacement_at(code: &[u8], at: usize) -> i64 {
    i32::from_le_bytes([code[at], code[at + 1], code[at + 2], code[at + 3]]) as i64
}

#[test]
fn every_branch_lands_on_the_code_of_its_target() {
    let tokens = tokens_of("++[>+[-<+>]<[->>+..<<],>>.]+[[[]]][]");
    let emitted = emit(&tokens);
    let code = compile(&tokens);
    assert_eq!(code.len(), emitted.code.len() + 1);
    let mut table = emitted.addresses.clone();
    table.push(emitted.code.len());
    let mut seen = 0;
    for (i, token) in tokens.iter().enumerate() {
        let target = match *token.get_token_type() {
            TokenKind::JumpIfZero(t) => t,
            TokenKind::JumpIfNZero(t) => t,
            _ => continue,
        };
        seen += 1;
        let origin = table[i] + 10;
        assert_eq!(origin, table[i + 1]);
        let landing = origin as i64 + displacement_at(&code, table[i] + 6);
        assert_eq!(landing, table[target] as i64);
    }
    assert_eq!(seen, emitted.relocations.len());
}

#[test]
fn first_pass_leaves_placeholders_and_relocations() {
    let emitted = emit(&tokens_of("+[-]"));
    assert_eq!(
        emitted.code,
        vec![
            0x80u8, 0x07, 0x01, 0x8a, 0x07, 0x84, 0xc0, 0x0f, 0x84, 0x90, 0x90, 0x90, 0x90, 0x80,
            0x2f, 0x01, 0x8a, 0x07, 0x84, 0xc0, 0x0f, 0x85, 0x90, 0x90, 0x90, 0x90,
        ]
    );
    assert_eq!(emitted.addresses, vec![0usize, 3, 13, 16]);
    assert_eq!(
        emitted.relocations,
        vec![
            Relocation { placeholder: 9, origin: 13, target: 4 },
            Relocation { placeholder: 22, origin: 26, target: 2 },
        ]
    );
}

#[test]
fn address_table_follows_code_sizes() {
    let emitted = emit(&tokens_of(">+..,[<]-"));
    assert_eq!(emitted.addresses, vec![0usize, 7, 10, 66, 94, 104, 111, 121]);
    assert_eq!(emitted.code.len(), 124);
}

#[test]
fn relocation_writes_only_the_operands() {
    let mut code = vec![0xaau8; 12];
    let addresses = vec![0usize, 100, 4];
    let relocations = vec![
        Relocation { placeholder: 1, origin: 5, target: 1 },
        Relocation { placeholder: 8, origin: 12, target: 2 },
    ];
    relocate(&mut code, &addresses, &relocations);
    assert_eq!(
        code,
        vec![0xaau8, 95, 0, 0, 0, 0xaa, 0xaa, 0xaa, 0xf8, 0xff, 0xff, 0xff]
    );
}

#[test]
fn relocation_without_entries_changes_nothing() {
    let mut code = vec![1u8, 2, 3];
    relocate(&mut code, &vec![0], &Vec::new());
    assert_eq!(code, vec![1u8, 2, 3]);
}

#[test]
fn later_relocation_overwrites_an_earlier_one() {
    let mut code = vec![0u8; 6];
    let addresses = vec![0x0403_0201usize, 0x0807_0605];
    let relocations = vec![
        Relocation { placeholder: 0, origin: 0, target: 0 },
        Relocation { placeholder: 2, origin: 0, target: 1 },
    ];
    relocate(&mut code, &addresses, &relocations);
    assert_eq!(code, vec![1u8, 2, 5, 6, 7, 8]);
}

#[test]
fn tokenized_streams_have_valid_targets() {
    for source in ["", "+", "[]", "+[-[>]<]", "[[[]]]"] {
        assert!(has_valid_targets(&tokens_of(source)));
    }
}

#[test]
fn target_past_the_end_is_detected() {
    assert!(has_valid_targets(&vec![Token::new(TokenKind::JumpIfZero(1))]));
    assert!(!has_valid_targets(&vec![Token::new(TokenKind::JumpIfZero(2))]));
    assert!(!has_valid_targets(&vec![
        Token::new(TokenKind::Inc),
        Token::new(TokenKind::JumpIfNZero(3)),
    ]));
    assert!(has_valid_targets(&vec![
        Token::new(TokenKind::Inc),
        Token::new(TokenKind::JumpIfNZero(0)),
    ]));
}

#[test]
fn loaded_region_holds_the_code() {
    let code = compile(&tokens_of("+[-]>."));
    let region = load(&code).unwrap();
    assert_eq!(&region[..], &code[..]);
}

#[test]
fn loaded_region_differs_for_different_code() {
    let a = load(&vec![0x90u8, 0xc3]).unwrap();
    let b = load(&vec![0xc3u8]).unwrap();
    assert_eq!(a.len(), 2);
    assert_eq!(b.len(), 1);
    assert_eq!(a[1], b[0]);
    assert_ne!(a[0], b[0]);
}

#[test]
fn prepared_region_holds_the_compiled_routine() {
    let tokens = tokens_of("++[>+<-]>.");
    let region = prepare(&tokens).unwrap();
    assert_eq!(&region[..], &compile(&tokens)[..]);
    assert_eq!(region[region.len() - 1], 0xc3);
}

#[test]
fn two_increments_then_output_compile_to_add_and_write() {
    let mut expected = vec![0x80u8, 0x07, 0x02];
    expected.extend_from_slice(&WRITE_CALL);
    expected.push(0xc3);
    assert_eq!(compile(&tokens_of("++.")), expected);
}

#[test]
fn clearing_loop_compiles_to_two_branches_around_a_decrement() {
    assert_eq!(
        compile(&tokens_of("+[-]")),
        vec![
            0x80u8, 0x07, 0x01, 0x8a, 0x07, 0x84, 0xc0, 0x0f, 0x84, 0x0d, 0x00, 0x00, 0x00, 0x80,
            0x2f, 0x01, 0x8a, 0x07, 0x84, 0xc0, 0x0f, 0x85, 0xf3, 0xff, 0xff, 0xff, 0xc3,
        ]
    );
}

#[test]
fn echo_compiles_to_read_then_write() {
    let mut expected = READ_CALL.to_vec();
    expected.extend_from_slice(&WRITE_CALL);
    expected.push(0xc3);
    assert_eq!(compile(&tokens_of(",.")), expected);
}

#[test]
fn comments_leave_no_code() {
    assert_eq!(compile(&tokens_of("a comment\n")), vec![0xc3u8]);
    assert_eq!(compile(&tokens_of("+ +")), compile(&tokens_of("++")));
}

#[test]
fn seal_hands_on_a_refused_region() {
    let refused = std::io::Error::new(std::io::ErrorKind::OutOfMemory, "no memory");
    let sealed = bfjit::code_memory::seal(Err(refused), &vec![0xc3u8]);
    let e = sealed.err().unwrap();
    assert_eq!(e.kind(), std::io::ErrorKind::OutOfMemory);
    assert_eq!(e.to_string(), "no memory");
}

#[test]
fn seal_fills_a_granted_region() {
    let code = vec![0x80u8, 0x07, 0x01, 0xc3];
    let region = bfjit::code_memory::seal(memmap2::MmapMut::map_anon(code.len()), &code).unwrap();
    assert_eq!(&region[..], &code[..]);
}

#[test]
fn loading_no_code_gives_an_empty_region() {
    let region = load(&Vec::new()).unwrap();
    assert_eq!(region.len(), 0);
}
