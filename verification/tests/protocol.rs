use presence::protocol::{
    is_valid_utf8, parse_command, render_response, tokenize, Command, ErrorCode, Response,
};

#[test]
fn render_ok_line() {
    assert_eq!(render_response(&Response::Accepted), b"OK\n".to_vec());
}

#[test]
fn render_error_lines() {
    assert_eq!(
        render_response(&Response::Rejected(ErrorCode::NilCmd)),
        b"ERR NIL_CMD\n".to_vec()
    );
    assert_eq!(
        render_response(&Response::Rejected(ErrorCode::UnkCmd)),
        b"ERR UNK_CMD\n".to_vec()
    );
    assert_eq!(
        render_response(&Response::Rejected(ErrorCode::NilNick)),
        b"ERR NIL_NICK\n".to_vec()
    );
    assert_eq!(
        render_response(&Response::Rejected(ErrorCode::AlrReg)),
        b"ERR ALR_REG\n".to_vec()
    );
    assert_eq!(
        render_response(&Response::Rejected(ErrorCode::Tkn)),
        b"ERR TKN\n".to_vec()
    );
}

#[test]
fn tokenize_splits_on_whitespace() {
    let ts = tokenize(b"REG alice");
    assert_eq!(ts, vec![b"REG".to_vec(), b"alice".to_vec()]);
}

#[test]
fn tokenize_collapses_runs_and_edges() {
    let ts = tokenize(b"  REG \t\r\n alice  ");
    assert_eq!(ts, vec![b"REG".to_vec(), b"alice".to_vec()]);
}

#[test]
fn tokenize_empty_and_blank() {
    assert_eq!(tokenize(b""), Vec::<Vec<u8>>::new());
    assert_eq!(tokenize(b" \t \n "), Vec::<Vec<u8>>::new());
}

#[test]
fn parse_unknown_command() {
    assert!(matches!(parse_command(b"FOO bar"), Command::Unknown));
}

#[test]
fn parse_is_case_sensitive() {
    assert!(matches!(parse_command(b"reg alice"), Command::Unknown));
}

#[test]
fn parse_blank_chunk_is_empty_command() {
    assert!(matches!(parse_command(b"   "), Command::Empty));
    assert!(matches!(parse_command(b""), Command::Empty));
}

#[test]
fn parse_reg_without_nickname() {
    assert!(matches!(parse_command(b"REG"), Command::MissingNick));
    assert!(matches!(parse_command(b"  REG  "), Command::MissingNick));
}

#[test]
fn parse_reg_with_nickname() {
    match parse_command(b"REG alice") {
        Command::Reg(nick) => assert_eq!(nick, b"alice".to_vec()),
        _ => panic!("expected a registration command"),
    }
}

#[test]
fn parse_reg_ignores_extra_arguments() {
    match parse_command(b"REG alice bob") {
        Command::Reg(nick) => assert_eq!(nick, b"alice".to_vec()),
        _ => panic!("expected a registration command"),
    }
}

#[test]
fn utf8_validation_accepts_text() {
    assert!(is_valid_utf8(b""));
    assert!(is_valid_utf8(b"REG alice"));
    assert!(is_valid_utf8("z\u{00fc}rich \u{4e16}\u{754c} \u{1f600}".as_bytes()));
}

#[test]
fn utf8_validation_rejects_malformed_bytes() {
    assert!(!is_valid_utf8(b"\x80"));
    assert!(!is_valid_utf8(b"\xc3"));
    assert!(!is_valid_utf8(b"\xc0\xaf"));
    assert!(!is_valid_utf8(b"\xed\xa0\x80"));
    assert!(!is_valid_utf8(b"\xf5\x80\x80\x80"));
    assert!(!is_valid_utf8(b"REG b\xc3"));
}

#[test]
fn utf8_validation_matches_the_standard_decoder() {
    let mut cases: Vec<Vec<u8>> = Vec::new();
    for a in 0..=255u8 {
        cases.push(vec![a]);
    }
    for a in [0x41u8, 0x7f, 0x80, 0xbf, 0xc2, 0xdf, 0xe0, 0xed, 0xf0, 0xf4, 0xf5, 0xff] {
        for b in [0x41u8, 0x80, 0x9f, 0xa0, 0xbf, 0xc0] {
            cases.push(vec![a, b]);
            for c in [0x41u8, 0x80, 0xbf, 0xc0] {
                cases.push(vec![a, b, c]);
                for d in [0x80u8, 0xc0] {
                    cases.push(vec![a, b, c, d]);
                }
            }
        }
    }
    for case in cases {
        assert_eq!(
            is_valid_utf8(&case),
            std::str::from_utf8(&case).is_ok(),
            "disagreement on {case:?}"
        );
    }
}
