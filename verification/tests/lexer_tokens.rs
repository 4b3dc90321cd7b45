use sonara::lexer::{Lexer, Token};

fn lex(src: &str) -> Vec<Token> {
    Lexer::new(src).tokenize().unwrap()
}

fn lex_no_eof(src: &str) -> Vec<Token> {
    let mut t = lex(src);
    t.retain(|tok| tok != &Token::Eof && tok != &Token::Newline);
    t
}

#[test]
fn keywords_recognized() {
    let tokens = lex_no_eof("tempo scale section chords bass melody drums");
    assert_eq!(tokens, vec![
        Token::Tempo, Token::Scale, Token::Section,
        Token::Chords, Token::Bass, Token::Melody, Token::Drums,
    ]);
}

#[test]
fn number_parsed() {
    let tokens = lex_no_eof("120");
    assert_eq!(tokens, vec![Token::Number(120)]);
}

#[test]
fn identifier_parsed() {
    let tokens = lex_no_eof("C_major");
    assert_eq!(tokens, vec![Token::Ident("C_major".into())]);
}

#[test]
fn note_with_sharp_parsed_as_ident() {
    let tokens = lex_no_eof("F#4");
    assert_eq!(tokens, vec![Token::Ident("F#4".into())]);
}

#[test]
fn symbols_parsed() {
    let tokens = lex_no_eof("{ } |");
    assert_eq!(tokens, vec![Token::LBrace, Token::RBrace, Token::Pipe]);
}

#[test]
fn comment_skipped() {
    let tokens = lex_no_eof("tempo // this is a comment\n120");
    assert_eq!(tokens, vec![Token::Tempo, Token::Number(120)]);
}

#[test]
fn multiple_newlines_collapsed() {
    let tokens = lex("a\n\n\nb");
    let newlines = tokens.iter().filter(|t| *t == &Token::Newline).count();
    assert_eq!(newlines, 1);
}

#[test]
fn unknown_char_returns_error() {
    let result = Lexer::new("@").tokenize();
    assert!(result.is_err());
}

#[test]
fn empty_input_returns_eof() {
    let tokens = lex("");
    assert_eq!(tokens, vec![Token::Eof]);
}

#[test]
fn full_header_tokenized() {
    let tokens = lex_no_eof("tempo 120\nscale C_major");
    assert_eq!(tokens, vec![
        Token::Tempo, Token::Number(120),
        Token::Scale, Token::Ident("C_major".into()),
    ]);
}

// ── further cases ─────────────────────────────────────────────────────────

#[test]
fn exact_token_stream_with_line_breaks() {
    assert_eq!(
        lex("tempo 90\r\n\r\nscale A_minor\n"),
        vec![
            Token::Tempo, Token::Number(90), Token::Newline,
            Token::Scale, Token::Ident("A_minor".into()), Token::Newline, Token::Eof,
        ]
    );
}

#[test]
fn blank_line_with_spaces_gives_two_line_breaks() {
    assert_eq!(
        lex("a\n \nb"),
        vec![
            Token::Ident("a".into()), Token::Newline, Token::Newline,
            Token::Ident("b".into()), Token::Eof,
        ]
    );
}

#[test]
fn comment_at_end_of_input() {
    assert_eq!(lex("kick // the end"), vec![Token::Ident("kick".into()), Token::Eof]);
    assert_eq!(lex("// only\n\nx"), vec![Token::Newline, Token::Ident("x".into()), Token::Eof]);
}

#[test]
fn import_is_a_keyword() {
    assert_eq!(lex("import drums2"), vec![Token::Import, Token::Ident("drums2".into()), Token::Eof]);
}

#[test]
fn digits_then_letters_split() {
    assert_eq!(lex("4C"), vec![Token::Number(4), Token::Ident("C".into()), Token::Eof]);
}

#[test]
fn underscore_starts_identifier() {
    assert_eq!(lex("_ hh"), vec![Token::Ident("_".into()), Token::Ident("hh".into()), Token::Eof]);
}

#[test]
fn unicode_letters_form_identifiers() {
    assert_eq!(lex("Ré4"), vec![Token::Ident("Ré4".into()), Token::Eof]);
}

#[test]
fn unknown_char_message() {
    assert_eq!(Lexer::new("tempo @").tokenize(), Err("unexpected char: '@'".to_string()));
    assert_eq!(Lexer::new("C4 + 2").tokenize(), Err("unexpected char: '+'".to_string()));
}

#[test]
fn largest_number_fits() {
    assert_eq!(lex("4294967295"), vec![Token::Number(4294967295), Token::Eof]);
    assert_eq!(lex("000120"), vec![Token::Number(120), Token::Eof]);
}

#[test]
fn number_too_large_is_reported_by_checked_tokenize() {
    assert_eq!(Lexer::new("tempo 4294967296").tokenize_checked(), None);
    assert_eq!(
        Lexer::new("tempo 12").tokenize_checked(),
        Some(Ok(vec![Token::Tempo, Token::Number(12), Token::Eof]))
    );
}

#[test]
fn tokenize_twice_gives_eof() {
    let mut l = Lexer::new("a b");
    assert_eq!(l.tokenize().unwrap().len(), 3);
    assert_eq!(l.tokenize().unwrap(), vec![Token::Eof]);
}

#[test]
fn debug_text_matches_derived_debug() {
    let toks = vec![
        Token::Tempo, Token::Scale, Token::Section, Token::Chords, Token::Bass, Token::Melody,
        Token::Drums, Token::Import, Token::LBrace, Token::RBrace, Token::Pipe,
        Token::Number(0), Token::Number(4294967295), Token::Ident("C_major".into()),
        Token::Ident("say \"hi\"\\".into()), Token::Ident("é\t".into()), Token::Newline, Token::Eof,
    ];
    for t in toks {
        assert_eq!(t.debug_text(), format!("{:?}", t));
    }
}

#[test]
fn display_text() {
    assert_eq!(Token::Number(120).display_text(), "120");
    assert_eq!(Token::Ident("C_major".into()).display_text(), "C_major");
    assert_eq!(Token::LBrace.display_text(), "LBrace");
}

#[test]
fn transpose_and_minus_tokens() {
    assert_eq!(lex("transpose -2"), vec![Token::Transpose, Token::Minus, Token::Number(2), Token::Eof]);
    assert_eq!(lex("-"), vec![Token::Minus, Token::Eof]);
    assert_eq!(Token::Minus.debug_text(), "Minus");
    assert_eq!(Token::Transpose.debug_text(), "Transpose");
}

#[test]
fn velocity_stays_in_the_note_word() {
    assert_eq!(lex("A4:64 G4e:80"), vec![Token::Ident("A4:64".into()), Token::Ident("G4e:80".into()), Token::Eof]);
    // a `:` stays in a word only where a digit follows it
    assert_eq!(Lexer::new("C:maj").tokenize(), Err("unexpected char: ':'".to_string()));
    assert_eq!(Lexer::new("C4:").tokenize(), Err("unexpected char: ':'".to_string()));
    assert_eq!(Lexer::new("C4:+9").tokenize(), Err("unexpected char: ':'".to_string()));
    assert_eq!(lex("C4:6:4"), vec![Token::Ident("C4:6:4".into()), Token::Eof]);
}

#[test]
fn ascii_letters_alone_start_identifiers() {
    assert_eq!(lex("Zz9_#"), vec![Token::Ident("Zz9_#".into()), Token::Eof]);
    assert_eq!(Lexer::new("9").tokenize(), Ok(vec![Token::Number(9), Token::Eof]));
    assert_eq!(Lexer::new(":x").tokenize(), Err("unexpected char: ':'".to_string()));
    assert_eq!(Lexer::new("\u{b}").tokenize(), Err("unexpected char: '\\u{b}'".to_string()));
}
