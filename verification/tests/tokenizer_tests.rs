use bfjit::tokenizer::{is_valid_bf_op, tokenize, Token, TokenKind, MAX_RUN};

fn lex(source: &str) -> Vec<Token> {
    match tokenize(&source.as_bytes().to_vec()) {
        Ok(tokens) => tokens,
        Err(e) => panic!("unbalanced {} at {}", e.get_bracket(), e.get_offset()),
    }
}

fn pairs(tokens: &[Token]) -> Vec<(TokenKind, u16)> {
    tokens.iter().map(|t| (*t.get_token_type(), t.get_successive_count())).collect()
}

#[test]
fn empty_source_has_no_tokens() {
    assert!(lex("").is_empty());
}

#[test]
fn comments_only_have_no_tokens() {
    assert!(lex("hello world\n 123").is_empty());
}

#[test]
fn the_eight_operators_are_recognised() {
    for c in "><+-.,[]".bytes() {
        assert!(is_valid_bf_op(c));
    }
    for c in 0u8..=255 {
        let expected = matches!(c, b'>' | b'<' | b'+' | b'-' | b'.' | b',' | b'[' | b']');
        assert_eq!(is_valid_bf_op(c), expected);
    }
}

#[test]
fn each_operator_gives_its_kind() {
    assert_eq!(pairs(&lex(">")), vec![(TokenKind::Right, 1)]);
    assert_eq!(pairs(&lex("<")), vec![(TokenKind::Left, 1)]);
    assert_eq!(pairs(&lex("+")), vec![(TokenKind::Inc, 1)]);
    assert_eq!(pairs(&lex("-")), vec![(TokenKind::Dec, 1)]);
    assert_eq!(pairs(&lex(".")), vec![(TokenKind::Output, 1)]);
    assert_eq!(pairs(&lex(",")), vec![(TokenKind::Input, 1)]);
}

#[test]
fn new_token_counts_one() {
    let token = Token::new(TokenKind::Inc);
    assert_eq!(*token.get_token_type(), TokenKind::Inc);
    assert_eq!(token.get_successive_count(), 1);
}

#[test]
fn run_of_one_is_one_token() {
    assert_eq!(pairs(&lex("+")), vec![(TokenKind::Inc, 1)]);
}

#[test]
fn run_of_two_is_one_token() {
    assert_eq!(pairs(&lex(">>")), vec![(TokenKind::Right, 2)]);
}

#[test]
fn run_of_a_thousand_is_one_token() {
    for (op, kind) in [
        ('+', TokenKind::Inc),
        ('-', TokenKind::Dec),
        ('>', TokenKind::Right),
        ('<', TokenKind::Left),
        ('.', TokenKind::Output),
        (',', TokenKind::Input),
    ] {
        let source: String = std::iter::repeat(op).take(1000).collect();
        assert_eq!(pairs(&lex(&source)), vec![(kind, 1000)]);
    }
}

#[test]
fn different_operators_end_a_run() {
    assert_eq!(
        pairs(&lex("+++--><<<..,")),
        vec![
            (TokenKind::Inc, 3),
            (TokenKind::Dec, 2),
            (TokenKind::Right, 1),
            (TokenKind::Left, 3),
            (TokenKind::Output, 2),
            (TokenKind::Input, 1),
        ]
    );
}

#[test]
fn comments_do_not_end_a_run() {
    assert_eq!(pairs(&lex("+ +\n+")), vec![(TokenKind::Inc, 3)]);
    assert_eq!(pairs(&lex("a>b>c")), vec![(TokenKind::Right, 2)]);
    assert_eq!(
        pairs(&lex("+ - +")),
        vec![(TokenKind::Inc, 1), (TokenKind::Dec, 1), (TokenKind::Inc, 1)]
    );
}

#[test]
fn brackets_are_never_merged() {
    assert_eq!(
        pairs(&lex("[[]]")),
        vec![
            (TokenKind::JumpIfZero(4), 1),
            (TokenKind::JumpIfZero(3), 1),
            (TokenKind::JumpIfNZero(2), 1),
            (TokenKind::JumpIfNZero(1), 1),
        ]
    );
}

#[test]
fn full_run_continues_in_next_token() {
    let source: String = std::iter::repeat('+').take(65536).collect();
    assert_eq!(pairs(&lex(&source)), vec![(TokenKind::Inc, MAX_RUN), (TokenKind::Inc, 1)]);
    let source: String = std::iter::repeat('>').take(65535).collect();
    assert_eq!(pairs(&lex(&source)), vec![(TokenKind::Right, 65535)]);
}

#[test]
fn simple_loop_targets_point_past_each_other() {
    assert_eq!(
        pairs(&lex("+[-]")),
        vec![
            (TokenKind::Inc, 1),
            (TokenKind::JumpIfZero(4), 1),
            (TokenKind::Dec, 1),
            (TokenKind::JumpIfNZero(2), 1),
        ]
    );
}

#[test]
fn loop_at_end_targets_stream_length() {
    let tokens = lex("[]");
    assert_eq!(
        pairs(&tokens),
        vec![(TokenKind::JumpIfZero(2), 1), (TokenKind::JumpIfNZero(1), 1)]
    );
    assert_eq!(tokens.len(), 2);
}

#[test]
fn nested_and_sequential_loops_are_resolved() {
    assert_eq!(
        pairs(&lex("[>[+]<]-[.]")),
        vec![
            (TokenKind::JumpIfZero(7), 1),
            (TokenKind::Right, 1),
            (TokenKind::JumpIfZero(5), 1),
            (TokenKind::Inc, 1),
            (TokenKind::JumpIfNZero(3), 1),
            (TokenKind::Left, 1),
            (TokenKind::JumpIfNZero(1), 1),
            (TokenKind::Dec, 1),
            (TokenKind::JumpIfZero(11), 1),
            (TokenKind::Output, 1),
            (TokenKind::JumpIfNZero(9), 1),
        ]
    );
}

#[test]
fn every_jump_and_its_partner_point_past_each_other() {
    let tokens = lex("++[>+[-<+>]<[->>+<<]>>.]+[[[]]][]");
    let mut jumps = 0;
    for (i, token) in tokens.iter().enumerate() {
        match *token.get_token_type() {
            TokenKind::JumpIfZero(t) => {
                jumps += 1;
                assert!(t > i + 1 && t <= tokens.len());
                assert_eq!(*tokens[t - 1].get_token_type(), TokenKind::JumpIfNZero(i + 1));
            }
            TokenKind::JumpIfNZero(t) => {
                jumps += 1;
                assert!(t >= 1 && t <= i);
                assert_eq!(*tokens[t - 1].get_token_type(), TokenKind::JumpIfZero(i + 1));
            }
            _ => {}
        }
    }
    assert_eq!(jumps, 14);
}

#[test]
fn loops_in_the_stream_do_not_cross() {
    let tokens = lex("[[][[]]][[]]");
    let mut open: Vec<usize> = Vec::new();
    for (i, token) in tokens.iter().enumerate() {
        match *token.get_token_type() {
            TokenKind::JumpIfZero(_) => open.push(i),
            TokenKind::JumpIfNZero(t) => {
                assert_eq!(open.pop(), Some(t - 1));
            }
            _ => {}
        }
    }
    assert!(open.is_empty());
}

#[test]
fn unclosed_loop_is_reported_with_last_bracket_offset() {
    let e = tokenize(&b"[[+]".to_vec()).unwrap_err();
    assert_eq!(e.get_bracket(), '[');
    assert_eq!(e.get_offset(), 3);
}

#[test]
fn stray_close_is_reported_with_its_offset() {
    let e = tokenize(&b"+]".to_vec()).unwrap_err();
    assert_eq!(e.get_bracket(), ']');
    assert_eq!(e.get_offset(), 1);
}

#[test]
fn single_open_bracket_is_unclosed_at_its_own_offset() {
    let e = tokenize(&b"++[--".to_vec()).unwrap_err();
    assert_eq!(e.get_bracket(), '[');
    assert_eq!(e.get_offset(), 2);
}

#[test]
fn first_stray_close_wins_over_later_faults() {
    let e = tokenize(&b"[]] ] [".to_vec()).unwrap_err();
    assert_eq!(e.get_bracket(), ']');
    assert_eq!(e.get_offset(), 2);
}

#[test]
fn offsets_count_comment_bytes() {
    let e = tokenize(&b"ab\n ]".to_vec()).unwrap_err();
    assert_eq!(e.get_bracket(), ']');
    assert_eq!(e.get_offset(), 4);
    let e = tokenize(&b"x[y[z]w".to_vec()).unwrap_err();
    assert_eq!(e.get_bracket(), '[');
    assert_eq!(e.get_offset(), 5);
}

#[test]
fn balanced_sources_are_accepted() {
    for source in ["", "[]", "[[]]", "[][]", "+[-[>]<]", "no brackets"] {
        assert!(tokenize(&source.as_bytes().to_vec()).is_ok());
    }
}

#[test]
fn errors_compare_by_bracket_and_offset() {
    let a = tokenize(&b"]".to_vec()).unwrap_err();
    let b = tokenize(&b"]]".to_vec()).unwrap_err();
    let c = tokenize(&b" ]".to_vec()).unwrap_err();
    assert_eq!(a, b);
    assert_ne!(a, c);
}
