//! Shell-level behaviour checked through the library operations that the
//! shell is built from: assignment and `let` go through the environment,
//! `$#`, `$x(n)`, `^` and `$"` through values, quoting through the lexer.

use psh::ast::TypeAnnotation;
use psh::env::Env;
use psh::lex::{Lexer, Token};
use psh::types::val_type_name;
use psh::value::Val;

const PID: u32 = 4242;

/// What `echo` prints for a value: its arguments separated by spaces.
fn echo_text(v: &Val) -> String {
    v.to_args().join(" ")
}

/// What `whatis name` prints.
fn whatis(env: &Env, name: &str) -> String {
    let v = env.get_value(name);
    format!("{} : {} = {}", name, val_type_name(&v), v.to_string())
}

/// `let name = word`, with the word's type inferred.
fn let_word(env: &mut Env, name: &str, word: &str, mutable: bool) -> Result<(), String> {
    env.let_value(name, Val::infer(word), mutable, false, None)
}

/// `let name : ann = (words)`, with each element's type inferred.
fn let_typed_list(env: &mut Env, name: &str, words: &[&str], ann: TypeAnnotation) -> Result<(), String> {
    let items: Vec<Val> = words.iter().map(|w| Val::infer(w)).collect();
    env.let_value(name, Val::List(items), false, false, Some(ann))
}

fn tokens(input: &str) -> Vec<Token> {
    Lexer::new(input)
        .tokenize_all()
        .unwrap()
        .into_iter()
        .map(|s| s.token)
        .filter(|t| !matches!(t, Token::Eof))
        .collect()
}

fn words(ws: &[&str]) -> Vec<Token> {
    ws.iter().map(|w| Token::Word(w.to_string())).collect()
}

// ── variables ─────────────────────────────────────────────

#[test]
fn bare_assignment() {
    let mut env = Env::new(PID);
    env.set_value("x", Val::scalar("hello")).unwrap();
    assert_eq!(echo_text(&env.get_value("x")), "hello");
}

#[test]
fn assignment_list() {
    let mut env = Env::new(PID);
    env.set_value("x", Val::list(&["a", "b", "c"])).unwrap();
    assert_eq!(echo_text(&env.get_value("x")), "a b c");
}

#[test]
fn assignment_overwrite() {
    let mut env = Env::new(PID);
    env.set_value("x", Val::scalar("first")).unwrap();
    env.set_value("x", Val::scalar("second")).unwrap();
    assert_eq!(echo_text(&env.get_value("x")), "second");
}

#[test]
fn expand_undefined_is_empty() {
    let env = Env::new(PID);
    assert_eq!(echo_text(&env.get_value("undefined_var_xyz")), "");
}

#[test]
fn variables_count_list() {
    let mut env = Env::new(PID);
    env.set_value("x", Val::list(&["a", "b", "c"])).unwrap();
    assert_eq!(env.get_value("x").count(), 3);
}

#[test]
fn count_scalar() {
    let mut env = Env::new(PID);
    env.set_value("x", Val::scalar("hello")).unwrap();
    assert_eq!(env.get_value("x").count(), 1);
}

#[test]
fn count_empty_list() {
    let mut env = Env::new(PID);
    env.set_value("x", Val::list(&[])).unwrap();
    assert_eq!(env.get_value("x").count(), 0);
}

#[test]
fn index_first() {
    let mut env = Env::new(PID);
    env.set_value("x", Val::list(&["a", "b", "c"])).unwrap();
    assert_eq!(echo_text(&env.get_value("x").index(1)), "a");
}

#[test]
fn index_last() {
    let mut env = Env::new(PID);
    env.set_value("x", Val::list(&["a", "b", "c"])).unwrap();
    assert_eq!(echo_text(&env.get_value("x").index(3)), "c");
}

#[test]
fn index_out_of_bounds() {
    let mut env = Env::new(PID);
    env.set_value("x", Val::list(&["a", "b", "c"])).unwrap();
    assert_eq!(echo_text(&env.get_value("x").index(5)), "");
}

#[test]
fn concat_scalars() {
    let mut env = Env::new(PID);
    env.set_value("x", Val::scalar("hello")).unwrap();
    assert_eq!(echo_text(&env.get_value("x").concat(&Val::scalar("world"))), "helloworld");
}

#[test]
fn concat_list_pairwise() {
    let mut env = Env::new(PID);
    env.set_value("a", Val::list(&["hello", "good"])).unwrap();
    env.set_value("b", Val::list(&["world", "bye"])).unwrap();
    let joined = env.get_value("a").concat(&env.get_value("b"));
    assert_eq!(echo_text(&joined), "helloworld goodbye");
}

#[test]
fn stringify_joins_list() {
    let mut env = Env::new(PID);
    env.set_value("x", Val::list(&["a", "b", "c"])).unwrap();
    assert_eq!(env.get_value("x").to_string(), "a b c");
}

#[test]
fn stringify_scalar() {
    let mut env = Env::new(PID);
    env.set_value("x", Val::scalar("hello")).unwrap();
    assert_eq!(env.get_value("x").to_string(), "hello");
}

// ── lists ─────────────────────────────────────────────────

#[test]
fn list_literal() {
    assert_eq!(echo_text(&Val::list(&["a", "b", "c"])), "a b c");
}

#[test]
fn list_count() {
    let mut env = Env::new(PID);
    env.set_value("x", Val::list(&["a", "b", "c", "d", "e"])).unwrap();
    assert_eq!(env.get_value("x").count(), 5);
}

#[test]
fn list_index_1() {
    let mut env = Env::new(PID);
    env.set_value("x", Val::list(&["a", "b", "c"])).unwrap();
    assert_eq!(echo_text(&env.get_value("x").index(1)), "a");
}

#[test]
fn list_index_2() {
    let mut env = Env::new(PID);
    env.set_value("x", Val::list(&["a", "b", "c"])).unwrap();
    assert_eq!(echo_text(&env.get_value("x").index(2)), "b");
}

#[test]
fn list_index_3() {
    let mut env = Env::new(PID);
    env.set_value("x", Val::list(&["a", "b", "c"])).unwrap();
    assert_eq!(echo_text(&env.get_value("x").index(3)), "c");
}

#[test]
fn lists_concat_pairwise() {
    let a = Val::list(&["hello", "good"]);
    let b = Val::list(&["world", "bye"]);
    assert_eq!(echo_text(&a.concat(&b)), "helloworld goodbye");
}

#[test]
fn concat_scalar_with_list() {
    let x = Val::list(&["a", "b", "c"]);
    assert_eq!(echo_text(&Val::scalar("pre-").concat(&x)), "pre-a pre-b pre-c");
}

#[test]
fn stringify_list() {
    assert_eq!(Val::list(&["hello", "world"]).to_string(), "hello world");
}

#[test]
fn for_over_list() {
    let x = Val::list(&["a", "b", "c"]);
    let mut lines = Vec::new();
    let mut it = x.iter_elements();
    while let Some(item) = it.next() {
        lines.push(echo_text(&Val::scalar("item=").concat(item)));
    }
    assert_eq!(lines.join("\n"), "item=a\nitem=b\nitem=c");
}

// ── typed values ──────────────────────────────────────────

#[test]
fn int_42() {
    let mut env = Env::new(PID);
    let_word(&mut env, "x", "42", false).unwrap();
    assert_eq!(whatis(&env, "x"), "x : Int = 42");
}

#[test]
fn int_negative() {
    let mut env = Env::new(PID);
    let_word(&mut env, "x", "-5", false).unwrap();
    assert_eq!(whatis(&env, "x"), "x : Int = -5");
}

#[test]
fn bool_true() {
    let mut env = Env::new(PID);
    let_word(&mut env, "x", "true", false).unwrap();
    assert_eq!(whatis(&env, "x"), "x : Bool = true");
}

#[test]
fn bool_false() {
    let mut env = Env::new(PID);
    let_word(&mut env, "x", "false", false).unwrap();
    assert_eq!(whatis(&env, "x"), "x : Bool = false");
}

#[test]
fn path_absolute() {
    let mut env = Env::new(PID);
    let_word(&mut env, "x", "/usr/bin", false).unwrap();
    assert_eq!(whatis(&env, "x"), "x : Path = /usr/bin");
}

#[test]
fn path_relative_dot() {
    let mut env = Env::new(PID);
    let_word(&mut env, "x", "./foo", false).unwrap();
    assert_eq!(whatis(&env, "x"), "x : Path = ./foo");
}

#[test]
fn str_plain() {
    let mut env = Env::new(PID);
    let_word(&mut env, "x", "hello", false).unwrap();
    assert_eq!(whatis(&env, "x"), "x : Str = hello");
}

#[test]
fn list_basic() {
    let mut env = Env::new(PID);
    env.let_value("x", Val::list(&["a", "b", "c"]), false, false, None).unwrap();
    assert_eq!(echo_text(&env.get_value("x")), "a b c");
}

#[test]
fn list_of_ints() {
    let mut env = Env::new(PID);
    let ann = TypeAnnotation::List(Some(Box::new(TypeAnnotation::Int)));
    let_typed_list(&mut env, "x", &["1", "2", "3"], ann).unwrap();
    assert_eq!(echo_text(&env.get_value("x")), "1 2 3");
}

#[test]
fn empty_list() {
    let mut env = Env::new(PID);
    env.set_value("x", Val::list(&[])).unwrap();
    assert_eq!(env.get_value("x").count(), 0);
}

// ── let bindings ──────────────────────────────────────────

#[test]
fn let_basic() {
    let mut env = Env::new(PID);
    let_word(&mut env, "x", "hello", false).unwrap();
    assert_eq!(echo_text(&env.get_value("x")), "hello");
}

#[test]
fn let_int_inference() {
    let mut env = Env::new(PID);
    let_word(&mut env, "x", "42", false).unwrap();
    assert_eq!(whatis(&env, "x"), "x : Int = 42");
}

#[test]
fn let_bool_inference() {
    let mut env = Env::new(PID);
    let_word(&mut env, "x", "true", false).unwrap();
    assert_eq!(whatis(&env, "x"), "x : Bool = true");
}

#[test]
fn let_path_inference() {
    let mut env = Env::new(PID);
    let_word(&mut env, "x", "/tmp", false).unwrap();
    assert_eq!(whatis(&env, "x"), "x : Path = /tmp");
}

#[test]
fn let_str_inference() {
    let mut env = Env::new(PID);
    let_word(&mut env, "x", "hello", false).unwrap();
    assert_eq!(whatis(&env, "x"), "x : Str = hello");
}

#[test]
fn let_immutable_rejects_reassign() {
    let mut env = Env::new(PID);
    let_word(&mut env, "x", "42", false).unwrap();
    assert!(env.set_value("x", Val::scalar("99")).is_err());
}

#[test]
fn let_mut_allows_reassign() {
    let mut env = Env::new(PID);
    let_word(&mut env, "x", "42", true).unwrap();
    assert!(env.set_value("x", Val::scalar("99")).is_ok());
}

#[test]
fn let_mut_updates_value() {
    let mut env = Env::new(PID);
    let_word(&mut env, "x", "first", true).unwrap();
    env.set_value("x", Val::scalar("second")).unwrap();
    assert_eq!(echo_text(&env.get_value("x")), "second");
}

#[test]
fn let_typed_int_accepts() {
    let mut env = Env::new(PID);
    assert!(env.let_value("x", Val::infer("42"), false, false, Some(TypeAnnotation::Int)).is_ok());
}

#[test]
fn let_typed_int_rejects() {
    let mut env = Env::new(PID);
    assert!(env.let_value("x", Val::infer("hello"), false, false, Some(TypeAnnotation::Int)).is_err());
}

#[test]
fn let_typed_bool_accepts() {
    let mut env = Env::new(PID);
    assert!(env.let_value("x", Val::infer("true"), false, false, Some(TypeAnnotation::Bool)).is_ok());
}

#[test]
fn let_typed_bool_rejects() {
    let mut env = Env::new(PID);
    assert!(env.let_value("x", Val::infer("42"), false, false, Some(TypeAnnotation::Bool)).is_err());
}

#[test]
fn let_typed_path_accepts() {
    let mut env = Env::new(PID);
    assert!(env.let_value("x", Val::infer("/tmp"), false, false, Some(TypeAnnotation::Path)).is_ok());
}

#[test]
fn let_typed_path_rejects() {
    let mut env = Env::new(PID);
    assert!(env.let_value("x", Val::infer("hello"), false, false, Some(TypeAnnotation::Path)).is_err());
    assert!(env.get("x").is_none());
}

#[test]
fn let_list_typed() {
    let mut env = Env::new(PID);
    let ann = TypeAnnotation::List(Some(Box::new(TypeAnnotation::Int)));
    assert!(let_typed_list(&mut env, "x", &["1", "2", "3"], ann).is_ok());
}

#[test]
fn let_list_typed_rejects_mixed() {
    let mut env = Env::new(PID);
    let ann = TypeAnnotation::List(Some(Box::new(TypeAnnotation::Int)));
    assert!(let_typed_list(&mut env, "x", &["1", "hello"], ann).is_err());
}

#[test]
fn let_leading_zero_stays_str() {
    let mut env = Env::new(PID);
    let_word(&mut env, "x", "042", false).unwrap();
    assert_eq!(whatis(&env, "x"), "x : Str = 042");
}

// ── namerefs ──────────────────────────────────────────────

#[test]
fn ref_basic() {
    let mut env = Env::new(PID);
    env.set_value("x", Val::scalar("hello")).unwrap();
    env.set_nameref("y", "x".into());
    assert_eq!(echo_text(&env.get_value("y")), "hello");
}

#[test]
fn ref_follows_updates() {
    let mut env = Env::new(PID);
    env.set_value("x", Val::scalar("first")).unwrap();
    env.set_nameref("y", "x".into());
    env.set_value("x", Val::scalar("second")).unwrap();
    assert_eq!(echo_text(&env.get_value("y")), "second");
}

#[test]
fn ref_write_through() {
    let mut env = Env::new(PID);
    let_word(&mut env, "x", "hello", true).unwrap();
    env.set_nameref("y", "x".into());
    env.set_value("y", Val::scalar("world")).unwrap();
    assert_eq!(echo_text(&env.get_value("x")), "world");
}

#[test]
fn ref_to_list() {
    let mut env = Env::new(PID);
    env.set_value("x", Val::list(&["a", "b", "c"])).unwrap();
    env.set_nameref("y", "x".into());
    assert_eq!(echo_text(&env.get_value("y")), "a b c");
}

#[test]
fn ref_count_through() {
    let mut env = Env::new(PID);
    env.set_value("x", Val::list(&["a", "b", "c"])).unwrap();
    env.set_nameref("y", "x".into());
    assert_eq!(env.get_value("y").count(), 3);
}

// ── quoting ───────────────────────────────────────────────

#[test]
fn single_quote_literal() {
    assert_eq!(tokens("echo 'hello world'"), words(&["echo", "hello world"]));
}

#[test]
fn single_quote_preserves_special() {
    assert_eq!(tokens("echo '$x'"), words(&["echo", "$x"]));
}

#[test]
fn single_quote_preserves_pipe() {
    assert_eq!(tokens("echo 'a|b'"), words(&["echo", "a|b"]));
}

#[test]
fn single_quote_preserves_semicolon() {
    assert_eq!(tokens("echo 'a;b'"), words(&["echo", "a;b"]));
}

#[test]
fn single_quote_preserves_ampersand() {
    assert_eq!(tokens("echo 'a&b'"), words(&["echo", "a&b"]));
}

#[test]
fn single_quote_preserves_parens() {
    assert_eq!(tokens("echo '(a b)'"), words(&["echo", "(a b)"]));
}

#[test]
fn single_quote_preserves_newline() {
    assert_eq!(tokens("echo 'line1\nline2'"), words(&["echo", "line1\nline2"]));
}

#[test]
fn rc_quote_escape() {
    assert_eq!(tokens("echo 'it''s'"), words(&["echo", "it's"]));
}

#[test]
fn quoted_no_expansion() {
    assert_eq!(
        tokens("x = hello\necho '$x'"),
        vec![
            Token::Word("x".into()),
            Token::Equals,
            Token::Word("hello".into()),
            Token::Newline,
            Token::Word("echo".into()),
            Token::Word("$x".into()),
        ]
    );
}

#[test]
fn empty_single_quote() {
    assert_eq!(tokens("echo ''"), words(&["echo", ""]));
}
