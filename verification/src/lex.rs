//! Lexer for psh.
//!
//! Tokenizes input into a stream for the parser. Handles rc's quoting
//! rules (single quotes only, '' to escape) and the context-sensitive
//! boundaries between words, operators, and whitespace.
//!
//! The lexer works on the bytes of its input.  Its behaviour is specified
//! by `token_at`, which says what token starts at a given byte offset,
//! and `tokens_from`, which says what the whole remaining input lexes to.

use vstd::prelude::*;
use vstd::string::StringSliceAdditionalSpecFns;

use crate::text::{push_char, push_decimal_u64, push_str, str_eq, to_owned_string, dec_nat};

verus! {

broadcast use vstd::string::group_string_axioms;

/// Source position for error reporting.
#[derive(Debug, Clone, Copy, PartialEq, Eq)]
pub struct Pos {
    pub line: u32,
    pub col: u32,
}

impl Pos {
    /// The position as `line:col`.
    pub fn display(&self) -> (r: String)
        ensures
            r@ == dec_nat(self.line as nat) + seq![':'] + dec_nat(self.col as nat),
    {
        let mut s = String::new();
        push_decimal_u64(&mut s, self.line as u64);
        push_char(&mut s, ':');
        push_decimal_u64(&mut s, self.col as u64);
        s
    }
}

/// A token in the psh grammar.
#[derive(Debug, Clone, PartialEq)]
pub enum Token {
    // Words and values
    Word(String),
    Dollar,
    DollarHash,
    Backtick,
    Caret,
    // Operators
    Pipe,
    PipeAnd,
    And,
    Or,
    Bang,
    Amp,
    // Redirections
    Less,
    Great,
    GreatGreat,
    // Grouping
    LBrace,
    RBrace,
    LParen,
    RParen,
    AtLBrace,
    // Assignment
    Equals,
    // Separators
    Semi,
    Newline,
    // Keywords
    If,
    Else,
    For,
    In,
    Switch,
    Case,
    Fn,
    While,
    Ref,
    // Special
    Eof,
}

/// The model of a token: a word's text, or the token itself for every
/// token that carries no text.
pub enum SpecToken {
    Word(Seq<char>),
    Punct(Token),
}

pub open spec fn token_model(t: Token) -> SpecToken {
    match t {
        Token::Word(s) => SpecToken::Word(s@),
        _ => SpecToken::Punct(t),
    }
}

impl View for Token {
    type V = SpecToken;

    open spec fn view(&self) -> SpecToken {
        token_model(*self)
    }
}

/// A positioned token.
#[derive(Debug, Clone, PartialEq)]
pub struct Spanned {
    pub token: Token,
    pub pos: Pos,
}

/// Why lexing stopped.
#[derive(Debug, Clone, Copy, PartialEq, Eq)]
pub enum LexError {
    /// A single quote was opened and never closed.
    UnterminatedQuote,
    /// A byte that starts no token.
    UnexpectedChar { ch: char, pos: Pos },
}

// ── Specification ─────────────────────────────────────────────

/// Bytes allowed in bare words.
pub open spec fn is_word_byte(b: u8) -> bool {
    (97 <= b <= 122) || (65 <= b <= 90) || (48 <= b <= 57) || b == 95 || b == 45 || b == 46 || b
        == 47 || b == 58 || b == 43 || b == 44 || b == 64 || b == 37 || b == 126 || b == 42 || b
        == 63 || b == 91 || b == 93
}

/// Line and column (both 1-based) of byte offset `k`.
pub open spec fn line_col(input: Seq<u8>, k: int) -> (int, int)
    decreases k,
{
    if k <= 0 {
        (1, 1)
    } else {
        let (l, c) = line_col(input, k - 1);
        if input[k - 1] == 10 {
            (l + 1, 1)
        } else {
            (l, c + 1)
        }
    }
}

/// Every position of the input has a line and column that fit in `u32`.
pub open spec fn positions_fit(input: Seq<u8>) -> bool {
    forall|k: int|
        0 <= k <= input.len() ==> #[trigger] line_col(input, k).0 <= u32::MAX && line_col(input, k).1
            <= u32::MAX
}

/// The end of a comment's text: the next newline, or the end of input.
pub open spec fn comment_end(input: Seq<u8>, k: int) -> int
    decreases input.len() - k,
{
    if k < 0 || k >= input.len() || input[k] == 10 {
        k
    } else {
        comment_end(input, k + 1)
    }
}

/// The offset after blanks (space, tab, CR) and comments.
pub open spec fn skip_ws(input: Seq<u8>, k: int) -> int
    decreases input.len() - k,
{
    if 0 <= k < input.len() && (input[k] == 32 || input[k] == 9 || input[k] == 13) {
        skip_ws(input, k + 1)
    } else if 0 <= k < input.len() && input[k] == 35 {
        comment_end(input, k + 1)
    } else {
        k
    }
}

/// The end of the bare word that starts at `k`.
pub open spec fn word_end(input: Seq<u8>, k: int) -> int
    decreases input.len() - k,
{
    if 0 <= k < input.len() && is_word_byte(input[k]) {
        word_end(input, k + 1)
    } else {
        k
    }
}

/// Bytes read as characters, one for one.
pub open spec fn bytes_text(s: Seq<u8>) -> Seq<char> {
    s.map_values(|b: u8| b as char)
}

/// The text of a quoted string whose body starts at `k` (after the
/// opening quote), with the offset after the closing quote; `''` stands
/// for one quote.  None when the quote is never closed.
pub open spec fn quote_scan(input: Seq<u8>, k: int) -> Option<(Seq<char>, int)>
    decreases input.len() - k,
{
    if k < 0 || k >= input.len() {
        None
    } else if input[k] == 39 {
        if k + 1 < input.len() && input[k + 1] == 39 {
            match quote_scan(input, k + 2) {
                Some((s, e)) => Some((seq!['\''] + s, e)),
                None => None,
            }
        } else {
            Some((Seq::empty(), k + 1))
        }
    } else {
        match quote_scan(input, k + 1) {
            Some((s, e)) => Some((seq![input[k] as char] + s, e)),
            None => None,
        }
    }
}

/// Keywords become keyword tokens; anything else is a word.
pub open spec fn classify(w: Seq<char>) -> SpecToken {
    if w == seq!['i', 'f'] {
        SpecToken::Punct(Token::If)
    } else if w == seq!['e', 'l', 's', 'e'] {
        SpecToken::Punct(Token::Else)
    } else if w == seq!['f', 'o', 'r'] {
        SpecToken::Punct(Token::For)
    } else if w == seq!['i', 'n'] {
        SpecToken::Punct(Token::In)
    } else if w == seq!['s', 'w', 'i', 't', 'c', 'h'] {
        SpecToken::Punct(Token::Switch)
    } else if w == seq!['c', 'a', 's', 'e'] {
        SpecToken::Punct(Token::Case)
    } else if w == seq!['f', 'n'] {
        SpecToken::Punct(Token::Fn)
    } else if w == seq!['w', 'h', 'i', 'l', 'e'] {
        SpecToken::Punct(Token::While)
    } else if w == seq!['r', 'e', 'f'] {
        SpecToken::Punct(Token::Ref)
    } else {
        SpecToken::Word(w)
    }
}

/// The token that starts at offset `k` (blanks already skipped), with the
/// offset after it.
pub open spec fn token_at(input: Seq<u8>, k: int) -> Result<(SpecToken, int), LexError> {
    let n = input.len();
    let next_is = |b: u8| k + 1 < n && input[k + 1] == b;
    if k < 0 || k >= n {
        Ok((SpecToken::Punct(Token::Eof), k))
    } else {
        let c = input[k];
        if c == 10 {
            Ok((SpecToken::Punct(Token::Newline), k + 1))
        } else if c == 39 {
            match quote_scan(input, k + 1) {
                Some((s, e)) => Ok((SpecToken::Word(s), e)),
                None => Err(LexError::UnterminatedQuote),
            }
        } else if c == 36 {
            if next_is(35) {
                Ok((SpecToken::Punct(Token::DollarHash), k + 2))
            } else {
                Ok((SpecToken::Punct(Token::Dollar), k + 1))
            }
        } else if c == 96 {
            Ok((SpecToken::Punct(Token::Backtick), k + 1))
        } else if c == 94 {
            Ok((SpecToken::Punct(Token::Caret), k + 1))
        } else if c == 124 {
            if next_is(124) {
                Ok((SpecToken::Punct(Token::Or), k + 2))
            } else if next_is(38) {
                Ok((SpecToken::Punct(Token::PipeAnd), k + 2))
            } else {
                Ok((SpecToken::Punct(Token::Pipe), k + 1))
            }
        } else if c == 38 {
            if next_is(38) {
                Ok((SpecToken::Punct(Token::And), k + 2))
            } else {
                Ok((SpecToken::Punct(Token::Amp), k + 1))
            }
        } else if c == 33 {
            Ok((SpecToken::Punct(Token::Bang), k + 1))
        } else if c == 60 {
            Ok((SpecToken::Punct(Token::Less), k + 1))
        } else if c == 62 {
            if next_is(62) {
                Ok((SpecToken::Punct(Token::GreatGreat), k + 2))
            } else {
                Ok((SpecToken::Punct(Token::Great), k + 1))
            }
        } else if c == 123 {
            Ok((SpecToken::Punct(Token::LBrace), k + 1))
        } else if c == 125 {
            Ok((SpecToken::Punct(Token::RBrace), k + 1))
        } else if c == 40 {
            Ok((SpecToken::Punct(Token::LParen), k + 1))
        } else if c == 41 {
            Ok((SpecToken::Punct(Token::RParen), k + 1))
        } else if c == 64 && next_is(123) {
            Ok((SpecToken::Punct(Token::AtLBrace), k + 2))
        } else if c == 61 {
            Ok((SpecToken::Punct(Token::Equals), k + 1))
        } else if c == 59 {
            Ok((SpecToken::Punct(Token::Semi), k + 1))
        } else if is_word_byte(c) {
            let e = word_end(input, k);
            Ok((classify(bytes_text(input.subrange(k, e))), e))
        } else {
            let (l, col) = line_col(input, k);
            Err(LexError::UnexpectedChar { ch: c as char, pos: Pos { line: l as u32, col: col as u32 } })
        }
    }
}

/// The whole token stream from offset `k`, each token with its position,
/// ending with the end-of-input token; or the first error.
pub open spec fn tokens_from(input: Seq<u8>, k: int) -> Result<Seq<(SpecToken, Pos)>, LexError>
    decreases input.len() - k,
{
    let s = skip_ws(input, k);
    let (l, c) = line_col(input, s);
    let pos = Pos { line: l as u32, col: c as u32 };
    match token_at(input, s) {
        Err(e) => Err(e),
        Ok((t, e)) => if t == SpecToken::Punct(Token::Eof) {
            Ok(seq![(t, pos)])
        } else if k < e <= input.len() {
            match tokens_from(input, e) {
                Ok(rest) => Ok(seq![(t, pos)] + rest),
                Err(err) => Err(err),
            }
        } else {
            Ok(seq![(t, pos)])
        },
    }
}

// ── Lemmas ────────────────────────────────────────────────────

pub proof fn lemma_comment_end(input: Seq<u8>, k: int)
    requires
        0 <= k <= input.len(),
    ensures
        k <= comment_end(input, k) <= input.len(),
        comment_end(input, k) == input.len() || input[comment_end(input, k)] == 10,
    decreases input.len() - k,
{
    if k < input.len() && input[k] != 10 {
        lemma_comment_end(input, k + 1);
    }
}

pub proof fn lemma_skip_ws(input: Seq<u8>, k: int)
    requires
        0 <= k <= input.len(),
    ensures
        k <= skip_ws(input, k) <= input.len(),
    decreases input.len() - k,
{
    if k < input.len() && (input[k] == 32 || input[k] == 9 || input[k] == 13) {
        lemma_skip_ws(input, k + 1);
    } else if k < input.len() && input[k] == 35 {
        lemma_comment_end(input, k + 1);
    }
}

pub proof fn lemma_word_end(input: Seq<u8>, k: int)
    requires
        0 <= k <= input.len(),
    ensures
        k <= word_end(input, k) <= input.len(),
        forall|j: int| k <= j < word_end(input, k) ==> is_word_byte(#[trigger] input[j]),
    decreases input.len() - k,
{
    if k < input.len() && is_word_byte(input[k]) {
        lemma_word_end(input, k + 1);
    }
}

pub proof fn lemma_quote_scan(input: Seq<u8>, k: int)
    requires
        0 <= k,
    ensures
        quote_scan(input, k) matches Some((s, e)) ==> k < e <= input.len(),
    decreases input.len() - k,
{
    if 0 <= k < input.len() {
        if input[k] == 39 {
            if k + 1 < input.len() && input[k + 1] == 39 {
                lemma_quote_scan(input, k + 2);
            }
        } else {
            lemma_quote_scan(input, k + 1);
        }
    }
}

/// Every token but the end of input consumes at least one byte.
pub proof fn lemma_token_at_progress(input: Seq<u8>, k: int)
    requires
        0 <= k <= input.len(),
    ensures
        token_at(input, k) matches Ok((t, e)) ==> (t == SpecToken::Punct(Token::Eof) ==> e == k)
            && (t != SpecToken::Punct(Token::Eof) ==> k < e <= input.len()),
{
    if k < input.len() {
        lemma_quote_scan(input, k + 1);
        lemma_word_end(input, k);
        lemma_word_end(input, k + 1);
        if is_word_byte(input[k]) {
            let w = bytes_text(input.subrange(k, word_end(input, k)));
            assert(classify(w) != SpecToken::Punct(Token::Eof));
        }
    }
}

pub proof fn lemma_line_col_bounds(input: Seq<u8>, k: int)
    requires
        0 <= k,
    ensures
        1 <= line_col(input, k).0 <= k + 1,
        1 <= line_col(input, k).1 <= k + 1,
    decreases k,
{
    if k > 0 {
        lemma_line_col_bounds(input, k - 1);
    }
}

// ── The lexer ─────────────────────────────────────────────────

/// Lexer state.
pub struct Lexer<'a> {
    input: &'a [u8],
    offset: usize,
    line: u32,
    col: u32,
}

impl<'a> Lexer<'a> {
    /// The bytes being lexed.
    pub closed spec fn bytes(&self) -> Seq<u8> {
        self.input@
    }

    /// How many bytes have been consumed.
    pub closed spec fn offset(&self) -> int {
        self.offset as int
    }

    /// The state is consistent: the offset lies within the input and the
    /// line and column are those of the offset.
    pub closed spec fn wf(&self) -> bool {
        &&& self.offset <= self.input@.len()
        &&& positions_fit(self.input@)
        &&& line_col(self.input@, self.offset as int) == (self.line as int, self.col as int)
    }

    pub fn new(input: &'a str) -> (r: Self)
        requires
            positions_fit(input.spec_bytes()),
        ensures
            r.wf(),
            r.bytes() == input.spec_bytes(),
            r.offset() == 0,
    {
        Lexer { input: input.as_bytes(), offset: 0, line: 1, col: 1 }
    }

    fn pos(&self) -> (r: Pos)
        requires
            self.wf(),
        ensures
            line_col(self.bytes(), self.offset()) == (r.line as int, r.col as int),
    {
        Pos { line: self.line, col: self.col }
    }

    fn peek(&self) -> (r: Option<u8>)
        ensures
            r == (if self.offset() < self.bytes().len() {
                Some(self.bytes()[self.offset()])
            } else {
                None::<u8>
            }),
    {
        if self.offset < self.input.len() {
            Some(self.input[self.offset])
        } else {
            None
        }
    }

    fn peek2(&self) -> (r: Option<u8>)
        requires
            self.wf(),
        ensures
            r == (if self.offset() + 1 < self.bytes().len() {
                Some(self.bytes()[self.offset() + 1])
            } else {
                None::<u8>
            }),
    {
        if self.offset < self.input.len() && self.offset + 1 < self.input.len() {
            Some(self.input[self.offset + 1])
        } else {
            None
        }
    }

    fn advance(&mut self) -> (r: Option<u8>)
        requires
            old(self).wf(),
        ensures
            final(self).wf(),
            final(self).bytes() == old(self).bytes(),
            old(self).offset() < old(self).bytes().len() ==> r == Some(
                old(self).bytes()[old(self).offset()],
            ) && final(self).offset() == old(self).offset() + 1,
            old(self).offset() >= old(self).bytes().len() ==> r is None && final(self).offset()
                == old(self).offset(),
    {
        if self.offset >= self.input.len() {
            return None;
        }
        let ch = self.input[self.offset];
        proof {
            let k = self.offset as int;
            assert(line_col(self.input@, k + 1).0 <= u32::MAX && line_col(self.input@, k + 1).1
                <= u32::MAX);
        }
        self.offset += 1;
        if ch == 10 {
            self.line += 1;
            self.col = 1;
        } else {
            self.col += 1;
        }
        Some(ch)
    }

    fn skip_whitespace_and_comments(&mut self)
        requires
            old(self).wf(),
        ensures
            final(self).wf(),
            final(self).bytes() == old(self).bytes(),
            final(self).offset() == skip_ws(old(self).bytes(), old(self).offset()),
    {
        loop
            invariant
                self.wf(),
                self.bytes() == old(self).bytes(),
                skip_ws(self.bytes(), self.offset()) == skip_ws(old(self).bytes(), old(self).offset()),
            decreases self.bytes().len() - self.offset(),
        {
            match self.peek() {
                Some(32u8) | Some(9u8) | Some(13u8) => {
                    self.advance();
                },
                Some(35u8) => {
                    self.advance();
                    let ghost start = self.offset();
                    proof { lemma_comment_end(self.bytes(), start); }
                    loop
                        invariant
                            self.wf(),
                            self.bytes() == old(self).bytes(),
                            start <= self.offset() <= comment_end(self.bytes(), start),
                            comment_end(self.bytes(), self.offset()) == comment_end(self.bytes(), start),
                        ensures
                            self.wf(),
                            self.bytes() == old(self).bytes(),
                            self.offset() == comment_end(self.bytes(), start),
                        decreases self.bytes().len() - self.offset(),
                    {
                        match self.peek() {
                            Some(ch) => {
                                if ch == 10u8 {
                                    break;
                                }
                                proof { lemma_comment_end(self.bytes(), self.offset() + 1); }
                                self.advance();
                            },
                            None => {
                                break;
                            },
                        }
                    }
                    proof {
                        lemma_comment_end(self.bytes(), start);
                        assert(skip_ws(self.bytes(), self.offset()) == self.offset());
                    }
                    return;
                },
                _ => {
                    return;
                },
            }
        }
    }

    /// Is the byte allowed in a bare word?
    fn is_word_char(ch: u8) -> (r: bool)
        ensures
            r == is_word_byte(ch),
    {
        (97u8 <= ch && ch <= 122u8) || (65u8 <= ch && ch <= 90u8) || (48u8 <= ch && ch <= 57u8)
            || ch == 95u8 || ch == 45u8 || ch == 46u8 || ch == 47u8 || ch == 58u8 || ch == 43u8 || ch
            == 44u8 || ch == 64u8 || ch == 37u8 || ch == 126u8 || ch == 42u8 || ch == 63u8 || ch
            == 91u8 || ch == 93u8
    }

    fn read_word(&mut self) -> (r: String)
        requires
            old(self).wf(),
        ensures
            final(self).wf(),
            final(self).bytes() == old(self).bytes(),
            final(self).offset() == word_end(old(self).bytes(), old(self).offset()),
            r@ == bytes_text(old(self).bytes().subrange(old(self).offset(), final(self).offset())),
    {
        let mut word = String::new();
        let ghost start = self.offset();
        loop
            invariant
                self.wf(),
                self.bytes() == old(self).bytes(),
                start == old(self).offset(),
                start <= self.offset(),
                word_end(self.bytes(), self.offset()) == word_end(self.bytes(), start),
                word@ == bytes_text(self.bytes().subrange(start, self.offset())),
            ensures
                self.wf(),
                self.bytes() == old(self).bytes(),
                self.offset() == word_end(self.bytes(), start),
                word@ == bytes_text(self.bytes().subrange(start, self.offset())),
            decreases self.bytes().len() - self.offset(),
        {
            let next = self.peek();
            if next.is_none() {
                break;
            }
            let ch = next.unwrap();
            if Self::is_word_char(ch) {
                push_char(&mut word, ch as char);
                let ghost k = self.offset();
                self.advance();
                proof {
                    assert(self.bytes().subrange(start, k + 1) == self.bytes().subrange(start, k).push(
                        ch,
                    ));
                }
            } else {
                break;
            }
        }
        word
    }

    fn read_quoted(&mut self) -> (r: Result<String, LexError>)
        requires
            old(self).wf(),
        ensures
            final(self).wf(),
            final(self).bytes() == old(self).bytes(),
            match quote_scan(old(self).bytes(), old(self).offset()) {
                Some((s, e)) => r is Ok && r->Ok_0@ == s && final(self).offset() == e,
                None => r == Err::<String, LexError>(LexError::UnterminatedQuote)
                    && final(self).offset() == old(self).bytes().len(),
            },
    {
        let mut s = String::new();
        let ghost start = self.offset();
        loop
            invariant
                self.wf(),
                self.bytes() == old(self).bytes(),
                start == old(self).offset(),
                quote_scan(self.bytes(), start) == (match quote_scan(self.bytes(), self.offset()) {
                    Some((t, e)) => Some((s@ + t, e)),
                    None => None,
                }),
            decreases self.bytes().len() - self.offset(),
        {
            let ghost k = self.offset();
            match self.advance() {
                Some(39u8) => {
                    if self.peek() == Some(39u8) {
                        self.advance();
                        let ghost old_s = s@;
                        push_char(&mut s, '\'');
                        proof {
                            match quote_scan(self.bytes(), k + 2) {
                                Some((t, e)) => {
                                    assert(old_s + (seq!['\''] + t) =~= s@ + t);
                                },
                                None => {},
                            }
                        }
                    } else {
                        proof { assert(s@ + Seq::<char>::empty() =~= s@); }
                        return Ok(s);
                    }
                },
                Some(ch) => {
                    let ghost old_s = s@;
                    push_char(&mut s, ch as char);
                    proof {
                        match quote_scan(self.bytes(), k + 1) {
                            Some((t, e)) => {
                                assert(old_s + (seq![ch as char] + t) =~= s@ + t);
                            },
                            None => {},
                        }
                    }
                },
                None => {
                    return Err(LexError::UnterminatedQuote);
                },
            }
        }
    }

    /// Tokenize the next token.
    pub fn next_token(&mut self) -> (r: Result<Spanned, LexError>)
        requires
            old(self).wf(),
        ensures
            final(self).wf(),
            final(self).bytes() == old(self).bytes(),
            ({
                let input = old(self).bytes();
                let s = skip_ws(input, old(self).offset());
                let (l, c) = line_col(input, s);
                match token_at(input, s) {
                    Ok((t, e)) => r is Ok && token_model(r->Ok_0.token) == t && r->Ok_0.pos == Pos {
                        line: l as u32,
                        col: c as u32,
                    } && final(self).offset() == e,
                    Err(err) => r == Err::<Spanned, LexError>(err),
                }
            }),
    {
        self.skip_whitespace_and_comments();
        let pos = self.pos();
        proof { lemma_skip_ws(self.bytes(), old(self).offset()); }
        let ch = match self.peek() {
            Some(ch) => ch,
            None => {
                return Ok(Spanned { token: Token::Eof, pos });
            },
        };
        let token = if ch == 10u8 {
            self.advance();
            Token::Newline
        } else if ch == 39u8 {
            self.advance();
            let s = self.read_quoted();
            match s {
                Ok(s) => Token::Word(s),
                Err(e) => {
                    return Err(e);
                },
            }
        } else if ch == 36u8 {
            self.advance();
            if self.peek() == Some(35u8) {
                self.advance();
                Token::DollarHash
            } else {
                Token::Dollar
            }
        } else if ch == 96u8 {
            self.advance();
            Token::Backtick
        } else if ch == 94u8 {
            self.advance();
            Token::Caret
        } else if ch == 124u8 {
            self.advance();
            let next = self.peek();
            if next == Some(124u8) {
                self.advance();
                Token::Or
            } else if next == Some(38u8) {
                self.advance();
                Token::PipeAnd
            } else {
                Token::Pipe
            }
        } else if ch == 38u8 {
            self.advance();
            if self.peek() == Some(38u8) {
                self.advance();
                Token::And
            } else {
                Token::Amp
            }
        } else if ch == 33u8 {
            self.advance();
            Token::Bang
        } else if ch == 60u8 {
            self.advance();
            Token::Less
        } else if ch == 62u8 {
            self.advance();
            if self.peek() == Some(62u8) {
                self.advance();
                Token::GreatGreat
            } else {
                Token::Great
            }
        } else if ch == 123u8 {
            self.advance();
            Token::LBrace
        } else if ch == 125u8 {
            self.advance();
            Token::RBrace
        } else if ch == 40u8 {
            self.advance();
            Token::LParen
        } else if ch == 41u8 {
            self.advance();
            Token::RParen
        } else if ch == 64u8 && self.peek2() == Some(123u8) {
            self.advance();
            self.advance();
            Token::AtLBrace
        } else if ch == 61u8 {
            self.advance();
            Token::Equals
        } else if ch == 59u8 {
            self.advance();
            Token::Semi
        } else if Self::is_word_char(ch) {
            let word = self.read_word();
            Self::classify_word(word.as_str())
        } else {
            self.advance();
            return Err(LexError::UnexpectedChar { ch: ch as char, pos });
        };
        Ok(Spanned { token, pos })
    }

    /// Tokenize all remaining input, ending with the end-of-input token.
    pub fn tokenize_all(&mut self) -> (r: Result<Vec<Spanned>, LexError>)
        requires
            old(self).wf(),
        ensures
            final(self).wf(),
            final(self).bytes() == old(self).bytes(),
            match tokens_from(old(self).bytes(), old(self).offset()) {
                Ok(ts) => r is Ok && spanned_models(r->Ok_0@) == ts,
                Err(e) => r == Err::<Vec<Spanned>, LexError>(e),
            },
    {
        let mut tokens: Vec<Spanned> = Vec::new();
        let ghost start = self.offset();
        loop
            invariant
                self.wf(),
                self.bytes() == old(self).bytes(),
                start == old(self).offset(),
                tokens_from(self.bytes(), start) == (match tokens_from(self.bytes(), self.offset()) {
                    Ok(ts) => Ok(spanned_models(tokens@) + ts),
                    Err(e) => Err(e),
                }),
            decreases self.bytes().len() - self.offset(),
        {
            let ghost k = self.offset();
            proof {
                lemma_skip_ws(self.bytes(), k);
                lemma_token_at_progress(self.bytes(), skip_ws(self.bytes(), k));
            }
            let spanned = self.next_token();
            match spanned {
                Err(e) => {
                    return Err(e);
                },
                Ok(sp) => {
                    let is_eof = match sp.token {
                        Token::Eof => true,
                        _ => false,
                    };
                    let ghost m = (token_model(sp.token), sp.pos);
                    let ghost prev = tokens@;
                    tokens.push(sp);
                    proof {
                        assert(spanned_models(tokens@) == spanned_models(prev).push(m));
                    }
                    if is_eof {
                        proof {
                            assert(spanned_models(prev) + seq![m] == spanned_models(prev).push(m));
                        }
                        return Ok(tokens);
                    }
                    proof {
                        match tokens_from(self.bytes(), self.offset()) {
                            Ok(ts) => {
                                assert(spanned_models(prev) + (seq![m] + ts) =~= spanned_models(
                                    tokens@,
                                ) + ts);
                            },
                            Err(e) => {},
                        }
                    }
                },
            }
        }
    }

    fn classify_word(word: &str) -> (r: Token)
        ensures
            token_model(r) == classify(word@),
    {
        proof {
            reveal_strlit("if");
            reveal_strlit("else");
            reveal_strlit("for");
            reveal_strlit("in");
            reveal_strlit("switch");
            reveal_strlit("case");
            reveal_strlit("fn");
            reveal_strlit("while");
            reveal_strlit("ref");
            assert("if"@ =~= seq!['i', 'f']);
            assert("else"@ =~= seq!['e', 'l', 's', 'e']);
            assert("for"@ =~= seq!['f', 'o', 'r']);
            assert("in"@ =~= seq!['i', 'n']);
            assert("switch"@ =~= seq!['s', 'w', 'i', 't', 'c', 'h']);
            assert("case"@ =~= seq!['c', 'a', 's', 'e']);
            assert("fn"@ =~= seq!['f', 'n']);
            assert("while"@ =~= seq!['w', 'h', 'i', 'l', 'e']);
            assert("ref"@ =~= seq!['r', 'e', 'f']);
        }
        if str_eq(word, "if") {
            Token::If
        } else if str_eq(word, "else") {
            Token::Else
        } else if str_eq(word, "for") {
            Token::For
        } else if str_eq(word, "in") {
            Token::In
        } else if str_eq(word, "switch") {
            Token::Switch
        } else if str_eq(word, "case") {
            Token::Case
        } else if str_eq(word, "fn") {
            Token::Fn
        } else if str_eq(word, "while") {
            Token::While
        } else if str_eq(word, "ref") {
            Token::Ref
        } else {
            Token::Word(to_owned_string(word))
        }
    }
}


/// The models of positioned tokens.
pub open spec fn spanned_models(s: Seq<Spanned>) -> Seq<(SpecToken, Pos)> {
    s.map_values(|x: Spanned| (token_model(x.token), x.pos))
}

/// How a token is printed.
pub open spec fn token_text(t: SpecToken) -> Seq<char> {
    match t {
        SpecToken::Word(s) => seq!['\''] + s + seq!['\''],
        SpecToken::Punct(p) => match p {
            Token::Word(s) => seq!['\''] + s@ + seq!['\''],
            Token::Dollar => "$"@,
            Token::DollarHash => "$#"@,
            Token::Backtick => "`"@,
            Token::Caret => "^"@,
            Token::Pipe => "|"@,
            Token::PipeAnd => "|&"@,
            Token::And => "&&"@,
            Token::Or => "||"@,
            Token::Bang => "!"@,
            Token::Amp => "&"@,
            Token::Less => "<"@,
            Token::Great => ">"@,
            Token::GreatGreat => ">>"@,
            Token::LBrace => "{"@,
            Token::RBrace => "}"@,
            Token::LParen => "("@,
            Token::RParen => ")"@,
            Token::AtLBrace => "@{"@,
            Token::Equals => "="@,
            Token::Semi => ";"@,
            Token::Newline => "\\n"@,
            Token::If => "if"@,
            Token::Else => "else"@,
            Token::For => "for"@,
            Token::In => "in"@,
            Token::Switch => "switch"@,
            Token::Case => "case"@,
            Token::Fn => "fn"@,
            Token::While => "while"@,
            Token::Ref => "ref"@,
            Token::Eof => "EOF"@,
        },
    }
}

impl Token {
    /// The printed form of the token: a word in single quotes, or the
    /// token's own spelling.
    pub fn display(&self) -> (r: String)
        ensures
            r@ == token_text(self@),
    {
        match self {
            Token::Word(s) => {
                let mut r = String::new();
                push_char(&mut r, '\'');
                push_str(&mut r, s.as_str());
                push_char(&mut r, '\'');
                assert(r@ =~= token_text(self@));
                r
            },
            Token::Dollar => to_owned_string("$"),
            Token::DollarHash => to_owned_string("$#"),
            Token::Backtick => to_owned_string("`"),
            Token::Caret => to_owned_string("^"),
            Token::Pipe => to_owned_string("|"),
            Token::PipeAnd => to_owned_string("|&"),
            Token::And => to_owned_string("&&"),
            Token::Or => to_owned_string("||"),
            Token::Bang => to_owned_string("!"),
            Token::Amp => to_owned_string("&"),
            Token::Less => to_owned_string("<"),
            Token::Great => to_owned_string(">"),
            Token::GreatGreat => to_owned_string(">>"),
            Token::LBrace => to_owned_string("{"),
            Token::RBrace => to_owned_string("}"),
            Token::LParen => to_owned_string("("),
            Token::RParen => to_owned_string(")"),
            Token::AtLBrace => to_owned_string("@{"),
            Token::Equals => to_owned_string("="),
            Token::Semi => to_owned_string(";"),
            Token::Newline => to_owned_string("\\n"),
            Token::If => to_owned_string("if"),
            Token::Else => to_owned_string("else"),
            Token::For => to_owned_string("for"),
            Token::In => to_owned_string("in"),
            Token::Switch => to_owned_string("switch"),
            Token::Case => to_owned_string("case"),
            Token::Fn => to_owned_string("fn"),
            Token::While => to_owned_string("while"),
            Token::Ref => to_owned_string("ref"),
            Token::Eof => to_owned_string("EOF"),
        }
    }
}

/// The message of a lexing error.
pub open spec fn lex_error_text(e: LexError) -> Seq<char> {
    match e {
        LexError::UnterminatedQuote => "unterminated quoted string"@,
        LexError::UnexpectedChar { ch, pos } => "unexpected character '"@ + seq![ch] + "' at "@
            + dec_nat(pos.line as nat) + seq![':'] + dec_nat(pos.col as nat),
    }
}

impl LexError {
    /// The human-readable message.
    pub fn message(&self) -> (r: String)
        ensures
            r@ == lex_error_text(*self),
    {
        match self {
            LexError::UnterminatedQuote => to_owned_string("unterminated quoted string"),
            LexError::UnexpectedChar { ch, pos } => {
                let mut r = to_owned_string("unexpected character '");
                push_char(&mut r, *ch);
                push_str(&mut r, "' at ");
                let p = pos.display();
                push_str(&mut r, p.as_str());
                assert(r@ =~= lex_error_text(*self));
                r
            },
        }
    }
}


// ── Laws ───────────────────────────────────────────────────────

/// The bytes of a quoted string's body: each quote byte doubled.
pub open spec fn escape_quotes(s: Seq<u8>) -> Seq<u8>
    decreases s.len(),
{
    if s.len() == 0 {
        Seq::empty()
    } else {
        (if s[0] == 39u8 {
            seq![39u8, 39u8]
        } else {
            seq![s[0]]
        }) + escape_quotes(s.drop_first())
    }
}

/// A byte string in single quotes, in rc's quoting.
pub open spec fn quoted_bytes(s: Seq<u8>) -> Seq<u8> {
    seq![39u8] + escape_quotes(s) + seq![39u8]
}

proof fn lemma_quote_scan_escaped(pre: Seq<u8>, s: Seq<u8>)
    ensures
        quote_scan(pre + escape_quotes(s) + seq![39u8], pre.len() as int) == Some(
            (bytes_text(s), (pre.len() + escape_quotes(s).len() + 1) as int),
        ),
    decreases s.len(),
{
    let input = pre + escape_quotes(s) + seq![39u8];
    let k = pre.len() as int;
    if s.len() == 0 {
        assert(input[k] == 39u8);
        assert(bytes_text(s) =~= Seq::<char>::empty());
    } else {
        let rest = s.drop_first();
        if s[0] == 39u8 {
            let pre2 = pre + seq![39u8, 39u8];
            assert(input =~= pre2 + escape_quotes(rest) + seq![39u8]);
            lemma_quote_scan_escaped(pre2, rest);
            assert(input[k] == 39u8 && input[k + 1] == 39u8);
            assert((39u8 as char) == '\'');
            assert(seq!['\''] + bytes_text(rest) =~= bytes_text(s));
        } else {
            let b = s[0];
            let pre2 = pre.push(b);
            assert(input =~= pre2 + escape_quotes(rest) + seq![39u8]);
            lemma_quote_scan_escaped(pre2, rest);
            assert(input[k] == b);
            assert(seq![input[k] as char] + bytes_text(rest) =~= bytes_text(s));
        }
    }
}

/// rc quoting round trip: any byte string, written in single quotes with
/// each quote doubled, lexes back to exactly that text as one word.
pub proof fn law_quoting_round_trip(s: Seq<u8>)
    ensures
        token_at(quoted_bytes(s), 0) == Ok::<(SpecToken, int), LexError>(
            (SpecToken::Word(bytes_text(s)), quoted_bytes(s).len() as int),
        ),
{
    let q = quoted_bytes(s);
    lemma_quote_scan_escaped(seq![39u8], s);
    assert(q[0] == 39u8);
}

proof fn lemma_word_end_all(w: Seq<u8>, k: int)
    requires
        0 <= k <= w.len(),
        forall|i: int| 0 <= i < w.len() ==> is_word_byte(#[trigger] w[i]),
    ensures
        word_end(w, k) == w.len(),
    decreases w.len() - k,
{
    if k < w.len() {
        lemma_word_end_all(w, k + 1);
    }
}

/// A bare word that is not a keyword lexes as a word with its own text,
/// consuming all of it.
pub proof fn law_bare_word(w: Seq<u8>)
    requires
        w.len() > 0,
        forall|i: int| 0 <= i < w.len() ==> is_word_byte(#[trigger] w[i]),
        !(w[0] == 64u8 && w.len() > 1 && w[1] == 123u8),
        classify(bytes_text(w)) == SpecToken::Word(bytes_text(w)),
    ensures
        token_at(w, 0) == Ok::<(SpecToken, int), LexError>((SpecToken::Word(bytes_text(w)), w.len() as int)),
{
    lemma_word_end_all(w, 0);
    assert(w.subrange(0, w.len() as int) =~= w);
    assert(is_word_byte(w[0]));
}

/// Lexing the whole input yields a stream that ends with exactly one
/// end-of-input token.
pub proof fn law_stream_ends_with_eof(input: Seq<u8>, k: int)
    requires
        0 <= k <= input.len(),
    ensures
        tokens_from(input, k) matches Ok(ts) ==> ts.len() > 0 && ts.last().0 == SpecToken::Punct(
            Token::Eof,
        ) && forall|i: int| 0 <= i < ts.len() - 1 ==> #[trigger] ts[i].0 != SpecToken::Punct(
            Token::Eof,
        ),
    decreases input.len() - k,
{
    let s = skip_ws(input, k);
    lemma_skip_ws(input, k);
    lemma_token_at_progress(input, s);
    match token_at(input, s) {
        Err(_) => {},
        Ok((t, e)) => {
            if t != SpecToken::Punct(Token::Eof) {
                law_stream_ends_with_eof(input, e);
                match tokens_from(input, e) {
                    Ok(rest) => {
                        let (l, c) = line_col(input, s);
                        let ts = seq![(t, Pos { line: l as u32, col: c as u32 })] + rest;
                        assert forall|i: int| 0 <= i < ts.len() - 1 implies #[trigger] ts[i].0
                            != SpecToken::Punct(Token::Eof) by {
                            if i > 0 {
                                assert(ts[i] == rest[i - 1]);
                            }
                        }
                    },
                    Err(_) => {},
                }
            }
        },
    }
}

/// Is line/column `a` strictly before `b`?
pub open spec fn lc_before(a: (int, int), b: (int, int)) -> bool {
    a.0 < b.0 || (a.0 == b.0 && a.1 < b.1)
}

/// Is position `a` strictly before `b` (by line, then column)?
pub open spec fn pos_before(a: Pos, b: Pos) -> bool {
    a.line < b.line || (a.line == b.line && a.col < b.col)
}

proof fn lemma_line_col_increases(input: Seq<u8>, a: int, b: int)
    requires
        0 <= a < b,
    ensures
        lc_before(line_col(input, a), line_col(input, b)),
    decreases b,
{
    if a < b - 1 {
        lemma_line_col_increases(input, a, b - 1);
    }
}

proof fn lemma_stream_positions(input: Seq<u8>, k: int)
    requires
        0 <= k <= input.len(),
        positions_fit(input),
    ensures
        tokens_from(input, k) matches Ok(ts) ==> (forall|i: int, j: int|
            0 <= i < j < ts.len() ==> pos_before(#[trigger] ts[i].1, #[trigger] ts[j].1)) && (forall|i: int|
            0 <= i < ts.len() ==> (#[trigger] ts[i]).1 == Pos {
                line: line_col(input, skip_ws(input, k)).0 as u32,
                col: line_col(input, skip_ws(input, k)).1 as u32,
            } || pos_before(
                Pos {
                    line: line_col(input, skip_ws(input, k)).0 as u32,
                    col: line_col(input, skip_ws(input, k)).1 as u32,
                },
                ts[i].1,
            )),
    decreases input.len() - k,
{
    let s = skip_ws(input, k);
    lemma_skip_ws(input, k);
    lemma_token_at_progress(input, s);
    let (l, c) = line_col(input, s);
    let pos = Pos { line: l as u32, col: c as u32 };
    lemma_line_col_bounds(input, s);
    assert(line_col(input, s).0 <= u32::MAX && line_col(input, s).1 <= u32::MAX);
    match token_at(input, s) {
        Err(_) => {},
        Ok((t, e)) => {
            if t != SpecToken::Punct(Token::Eof) && k < e <= input.len() {
                lemma_stream_positions(input, e);
                match tokens_from(input, e) {
                    Ok(rest) => {
                        let s2 = skip_ws(input, e);
                        lemma_skip_ws(input, e);
                        lemma_line_col_bounds(input, s2);
                        assert(line_col(input, s2).0 <= u32::MAX && line_col(input, s2).1 <= u32::MAX);
                        lemma_line_col_increases(input, s, s2);
                        let p2 = Pos { line: line_col(input, s2).0 as u32, col: line_col(input, s2).1 as u32 };
                        assert(pos_before(pos, p2));
                        let ts = seq![(t, pos)] + rest;
                        assert forall|i: int| 0 <= i < ts.len() implies (#[trigger] ts[i]).1 == pos
                            || pos_before(pos, ts[i].1) by {
                            if i > 0 {
                                assert(ts[i] == rest[i - 1]);
                            }
                        }
                        assert forall|i: int, j: int| 0 <= i < j < ts.len() implies pos_before(
                            #[trigger] ts[i].1,
                            #[trigger] ts[j].1,
                        ) by {
                            assert(ts[j] == rest[j - 1]);
                            if i > 0 {
                                assert(ts[i] == rest[i - 1]);
                            }
                        }
                    },
                    Err(_) => {},
                }
            }
        },
    }
}

/// Token positions strictly increase along the stream (by line, then
/// column).
pub proof fn law_stream_positions_increase(input: Seq<u8>, k: int)
    requires
        0 <= k <= input.len(),
        positions_fit(input),
    ensures
        tokens_from(input, k) matches Ok(ts) ==> forall|i: int, j: int|
            0 <= i < j < ts.len() ==> pos_before(#[trigger] ts[i].1, #[trigger] ts[j].1),
{
    lemma_stream_positions(input, k);
}

/// Lexing fails only with the error of a token that cannot be read: when
/// the stream from `k` is an error, some token start at or after `k`
/// gives exactly that error.
pub proof fn law_stream_error_from_a_token(input: Seq<u8>, k: int)
    requires
        0 <= k <= input.len(),
    ensures
        tokens_from(input, k) matches Err(e) ==> exists|j: int|
            k <= j <= input.len() && #[trigger] token_at(input, j) == Err::<(SpecToken, int), LexError>(e),
    decreases input.len() - k,
{
    let s = skip_ws(input, k);
    lemma_skip_ws(input, k);
    lemma_token_at_progress(input, s);
    match token_at(input, s) {
        Err(_) => {},
        Ok((t, e)) => {
            if t != SpecToken::Punct(Token::Eof) && k < e <= input.len() {
                law_stream_error_from_a_token(input, e);
            }
        },
    }
}

/// Each operator is tied to its characters: at a token start, '<' is an
/// input redirection, '>' an output redirection ('>>' appending), '|' a
/// pipe ('||' or, '|&' coprocess), '&' background ('&&' and), and the
/// other punctuation lexes to its own token; a one-character operator
/// consumes one byte, a two-character one two.
pub proof fn law_operator_tokens(input: Seq<u8>, k: int)
    requires
        0 <= k < input.len(),
    ensures
        ({
            let c = input[k];
            let next = if k + 1 < input.len() { input[k + 1] as int } else { -1 };
            let tok = |t: Token, len: int| Ok::<(SpecToken, int), LexError>((SpecToken::Punct(t), k + len));
            &&& c == 60u8 ==> token_at(input, k) == tok(Token::Less, 1)
            &&& c == 62u8 && next == 62 ==> token_at(input, k) == tok(Token::GreatGreat, 2)
            &&& c == 62u8 && next != 62 ==> token_at(input, k) == tok(Token::Great, 1)
            &&& c == 124u8 && next == 124 ==> token_at(input, k) == tok(Token::Or, 2)
            &&& c == 124u8 && next == 38 ==> token_at(input, k) == tok(Token::PipeAnd, 2)
            &&& c == 124u8 && next != 124 && next != 38 ==> token_at(input, k) == tok(Token::Pipe, 1)
            &&& c == 38u8 && next == 38 ==> token_at(input, k) == tok(Token::And, 2)
            &&& c == 38u8 && next != 38 ==> token_at(input, k) == tok(Token::Amp, 1)
            &&& c == 36u8 && next == 35 ==> token_at(input, k) == tok(Token::DollarHash, 2)
            &&& c == 36u8 && next != 35 ==> token_at(input, k) == tok(Token::Dollar, 1)
            &&& c == 64u8 && next == 123 ==> token_at(input, k) == tok(Token::AtLBrace, 2)
            &&& c == 10u8 ==> token_at(input, k) == tok(Token::Newline, 1)
            &&& c == 96u8 ==> token_at(input, k) == tok(Token::Backtick, 1)
            &&& c == 94u8 ==> token_at(input, k) == tok(Token::Caret, 1)
            &&& c == 33u8 ==> token_at(input, k) == tok(Token::Bang, 1)
            &&& c == 123u8 ==> token_at(input, k) == tok(Token::LBrace, 1)
            &&& c == 125u8 ==> token_at(input, k) == tok(Token::RBrace, 1)
            &&& c == 40u8 ==> token_at(input, k) == tok(Token::LParen, 1)
            &&& c == 41u8 ==> token_at(input, k) == tok(Token::RParen, 1)
            &&& c == 61u8 ==> token_at(input, k) == tok(Token::Equals, 1)
            &&& c == 59u8 ==> token_at(input, k) == tok(Token::Semi, 1)
        }),
{
}

/// In a token stream, a '<' at the place where a token starts is an input
/// redirection and a '>' not followed by '>' an output redirection.
pub proof fn law_stream_redirections(input: Seq<u8>, k: int)
    requires
        0 <= k <= input.len(),
    ensures
        ({
            let s = skip_ws(input, k);
            &&& s < input.len() && input[s] == 60u8 ==> (tokens_from(input, k) matches Ok(ts) ==> ts[0].0
                == SpecToken::Punct(Token::Less))
            &&& s < input.len() && input[s] == 62u8 && !(s + 1 < input.len() && input[s + 1] == 62u8) ==> (
            tokens_from(input, k) matches Ok(ts) ==> ts[0].0 == SpecToken::Punct(Token::Great))
        }),
{
    let s = skip_ws(input, k);
    lemma_skip_ws(input, k);
    if s < input.len() {
        law_operator_tokens(input, s);
    }
}

} // verus!
