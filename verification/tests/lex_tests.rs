use psh::lex::{LexError, Lexer, Pos, Token};

fn tokens(input: &str) -> Vec<Token> {
    Lexer::new(input)
        .tokenize_all()
        .unwrap()
        .into_iter()
        .map(|s| s.token)
        .filter(|t| !matches!(t, Token::Eof))
        .collect()
}

#[test]
fn simple_command() {
    assert_eq!(
        tokens("echo hello world"),
        vec![
            Token::Word("echo".into()),
            Token::Word("hello".into()),
            Token::Word("world".into()),
        ]
    );
}

#[test]
fn pipeline() {
    assert_eq!(
        tokens("ls | grep foo"),
        vec![
            Token::Word("ls".into()),
            Token::Pipe,
            Token::Word("grep".into()),
            Token::Word("foo".into()),
        ]
    );
}

#[test]
fn variable() {
    assert_eq!(
        tokens("echo $x"),
        vec![Token::Word("echo".into()), Token::Dollar, Token::Word("x".into())]
    );
}

#[test]
fn quoted_string() {
    assert_eq!(
        tokens("echo 'hello world'"),
        vec![Token::Word("echo".into()), Token::Word("hello world".into())]
    );
}

#[test]
fn escaped_quote() {
    assert_eq!(
        tokens("echo 'it''s'"),
        vec![Token::Word("echo".into()), Token::Word("it's".into())]
    );
}

#[test]
fn assignment() {
    assert_eq!(
        tokens("x = hello"),
        vec![Token::Word("x".into()), Token::Equals, Token::Word("hello".into())]
    );
}

#[test]
fn list_assignment() {
    assert_eq!(
        tokens("x = (a b c)"),
        vec![
            Token::Word("x".into()),
            Token::Equals,
            Token::LParen,
            Token::Word("a".into()),
            Token::Word("b".into()),
            Token::Word("c".into()),
            Token::RParen,
        ]
    );
}

#[test]
fn redirection() {
    assert_eq!(
        tokens("cmd > file"),
        vec![Token::Word("cmd".into()), Token::Great, Token::Word("file".into())]
    );
}

#[test]
fn append_redirection() {
    assert_eq!(
        tokens("cmd >> file"),
        vec![Token::Word("cmd".into()), Token::GreatGreat, Token::Word("file".into())]
    );
}

#[test]
fn background() {
    assert_eq!(tokens("cmd &"), vec![Token::Word("cmd".into()), Token::Amp]);
}

#[test]
fn coprocess() {
    assert_eq!(tokens("cmd |&"), vec![Token::Word("cmd".into()), Token::PipeAnd]);
}

#[test]
fn keywords() {
    assert_eq!(
        tokens("if fn for in switch case"),
        vec![Token::If, Token::Fn, Token::For, Token::In, Token::Switch, Token::Case]
    );
}

#[test]
fn comments() {
    assert_eq!(
        tokens("echo hello # this is a comment\necho world"),
        vec![
            Token::Word("echo".into()),
            Token::Word("hello".into()),
            Token::Newline,
            Token::Word("echo".into()),
            Token::Word("world".into()),
        ]
    );
}

#[test]
fn subshell() {
    assert_eq!(
        tokens("@{ cmd }"),
        vec![Token::AtLBrace, Token::Word("cmd".into()), Token::RBrace]
    );
}

#[test]
fn fn_with_discipline() {
    assert_eq!(
        tokens("fn x.get { echo hello }"),
        vec![
            Token::Fn,
            Token::Word("x.get".into()),
            Token::LBrace,
            Token::Word("echo".into()),
            Token::Word("hello".into()),
            Token::RBrace,
        ]
    );
}

#[test]
fn complex_pipeline() {
    assert_eq!(
        tokens("cat file | grep pattern | sort -u > output"),
        vec![
            Token::Word("cat".into()),
            Token::Word("file".into()),
            Token::Pipe,
            Token::Word("grep".into()),
            Token::Word("pattern".into()),
            Token::Pipe,
            Token::Word("sort".into()),
            Token::Word("-u".into()),
            Token::Great,
            Token::Word("output".into()),
        ]
    );
}

// ── Further cases ──────────────────────────────────────────

#[test]
fn lex_positions_are_line_and_column() {
    let toks = Lexer::new("a\n  b").tokenize_all().unwrap();
    assert_eq!(toks[0].pos, Pos { line: 1, col: 1 });
    assert_eq!(toks[1].token, Token::Newline);
    assert_eq!(toks[2].pos, Pos { line: 2, col: 3 });
    assert_eq!(toks[2].pos.display(), "2:3");
}

#[test]
fn lex_stream_ends_with_eof() {
    let toks = Lexer::new("echo hi").tokenize_all().unwrap();
    assert_eq!(toks.last().unwrap().token, Token::Eof);
    let empty = Lexer::new("").tokenize_all().unwrap();
    assert_eq!(empty.len(), 1);
    assert_eq!(empty[0].token, Token::Eof);
}

#[test]
fn lex_unterminated_quote_is_an_error() {
    let r = Lexer::new("echo 'abc").tokenize_all();
    assert_eq!(r, Err(LexError::UnterminatedQuote));
}

#[test]
fn lex_unexpected_char_is_an_error() {
    let r = Lexer::new("echo \"x").tokenize_all();
    match r {
        Err(LexError::UnexpectedChar { ch, pos }) => {
            assert_eq!(ch, '"');
            assert_eq!(pos, Pos { line: 1, col: 6 });
        }
        other => panic!("unexpected result {:?}", other),
    }
}

#[test]
fn lex_two_char_operators() {
    assert_eq!(
        tokens("a && b || !c $#d"),
        vec![
            Token::Word("a".into()),
            Token::And,
            Token::Word("b".into()),
            Token::Or,
            Token::Bang,
            Token::Word("c".into()),
            Token::DollarHash,
            Token::Word("d".into()),
        ]
    );
}

#[test]
fn lex_keyword_prefix_is_a_word() {
    assert_eq!(tokens("iffy fnord"), vec![Token::Word("iffy".into()), Token::Word("fnord".into())]);
}

#[test]
fn lex_token_display() {
    assert_eq!(Token::Word("abc".into()).display(), "'abc'");
    assert_eq!(Token::PipeAnd.display(), "|&");
    assert_eq!(Token::Eof.display(), "EOF");
}

#[test]
fn lex_quoted_keyword_is_a_word() {
    assert_eq!(tokens("'if'"), vec![Token::Word("if".into())]);
}

#[test]
fn lex_error_messages() {
    assert_eq!(LexError::UnterminatedQuote.message(), "unterminated quoted string");
    let e = LexError::UnexpectedChar { ch: '"', pos: Pos { line: 3, col: 14 } };
    assert_eq!(e.message(), "unexpected character '\"' at 3:14");
}

#[test]
fn lex_positions_strictly_increase() {
    let toks = Lexer::new("a  b # c\n  d 'e f'\ng").tokenize_all().unwrap();
    for w in toks.windows(2) {
        let (p, q) = (w[0].pos, w[1].pos);
        assert!(p.line < q.line || (p.line == q.line && p.col < q.col));
    }
}
