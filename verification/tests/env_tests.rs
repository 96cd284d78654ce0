use psh::ast::TypeAnnotation;
use psh::env::{Env, Scope, Var};
use psh::types::validate_type;
use psh::value::Val;

const PID: u32 = 4242;

#[test]
fn scope_resolution() {
    let mut env = Env::new(PID);
    let _ = env.set_value("x", Val::scalar("global"));
    assert_eq!(env.get_value("x"), Val::scalar("global"));

    env.push_scope();
    assert_eq!(env.get_value("x"), Val::scalar("global"));

    let _ = env.set_value("x", Val::scalar("local"));
    assert_eq!(env.get_value("x"), Val::scalar("local"));

    env.pop_scope();
    assert_eq!(env.get_value("x"), Val::scalar("local"));
}

#[test]
fn new_var_in_current_scope() {
    let mut env = Env::new(PID);
    env.push_scope();
    let _ = env.set_value("y", Val::scalar("inner"));
    assert_eq!(env.get_value("y"), Val::scalar("inner"));

    env.pop_scope();
    assert_eq!(env.get_value("y"), Val::empty());
}

#[test]
fn pid_is_set() {
    let env = Env::new(PID);
    let pid = env.get_value("pid");
    assert!(pid.is_true());
    assert!(!pid.as_str().is_empty());
}

#[test]
fn discipline_lookup() {
    let mut env = Env::new(PID);
    assert!(!env.has_discipline("x", "get"));

    env.define_fn("x.get".into(), vec![]);
    assert!(env.has_discipline("x", "get"));
    assert!(!env.has_discipline("x", "set"));
}

#[test]
fn readonly_scope_rejects_mutation() {
    let mut env = Env::new(PID);
    let _ = env.set_value("x", Val::scalar("original"));
    env.push_readonly_scope();
    let result = env.set_value("x", Val::scalar("changed"));
    assert!(result.is_err());
    env.pop_scope();
    assert_eq!(env.get_value("x"), Val::scalar("original"));
}

#[test]
fn readonly_var_rejects_mutation() {
    let mut env = Env::new(PID);
    let _ = env.set_value("ro", Val::scalar("frozen"));
    env.get_mut_var("ro").unwrap().readonly = true;
    let result = env.set_value("ro", Val::scalar("changed"));
    assert!(result.is_err());
    assert_eq!(env.get_value("ro"), Val::scalar("frozen"));
}

#[test]
fn nameref_resolves_read() {
    let mut env = Env::new(PID);
    let _ = env.set_value("target", Val::scalar("data"));
    env.set_nameref("alias", "target".into());
    assert_eq!(env.get_value("alias"), Val::scalar("data"));
}

#[test]
fn nameref_resolves_write() {
    let mut env = Env::new(PID);
    let _ = env.set_value("target", Val::scalar("old"));
    env.set_nameref("alias", "target".into());
    let _ = env.set_value("alias", Val::scalar("new"));
    assert_eq!(env.get_value("target"), Val::scalar("new"));
}

#[test]
fn nameref_chain_resolves() {
    let mut env = Env::new(PID);
    let _ = env.set_value("base", Val::scalar("value"));
    env.set_nameref("mid", "base".into());
    env.set_nameref("top", "mid".into());
    assert_eq!(env.get_value("top"), Val::scalar("value"));
}

#[test]
fn nameref_depth_limit() {
    let mut env = Env::new(PID);
    env.set_nameref("a", "b".into());
    env.set_nameref("b", "a".into());
    let _ = env.get_value("a");
}

// ── Type validation ─────────────────────────────────────

#[test]
fn validate_exit_code() {
    let val = Val::ExitCode(0);
    assert!(validate_type(&val, &TypeAnnotation::ExitCode).is_ok());
    assert!(validate_type(&val, &TypeAnnotation::Int).is_err());
}

#[test]
fn validate_exit_code_widens_to_str() {
    let val = Val::ExitCode(42);
    let result = validate_type(&val, &TypeAnnotation::Str).unwrap();
    assert_eq!(result, Val::Str("42".into()));
}

#[test]
fn validate_tuple_componentwise() {
    let val = Val::Tuple(vec![Val::Int(42), Val::Bool(true)]);
    let ann = TypeAnnotation::Tuple(vec![TypeAnnotation::Int, TypeAnnotation::Bool]);
    assert!(validate_type(&val, &ann).is_ok());
}

#[test]
fn validate_tuple_length_mismatch() {
    let val = Val::Tuple(vec![Val::Int(42)]);
    let ann = TypeAnnotation::Tuple(vec![TypeAnnotation::Int, TypeAnnotation::Bool]);
    assert!(validate_type(&val, &ann).is_err());
}

#[test]
fn validate_tuple_element_mismatch() {
    let val = Val::Tuple(vec![Val::Int(42), Val::Int(7)]);
    let ann = TypeAnnotation::Tuple(vec![TypeAnnotation::Int, TypeAnnotation::Bool]);
    assert!(validate_type(&val, &ann).is_err());
}

#[test]
fn validate_union_matches_any_branch() {
    let ann = TypeAnnotation::Union(vec![TypeAnnotation::Int, TypeAnnotation::Str]);
    assert!(validate_type(&Val::Int(42), &ann).is_ok());
    assert!(validate_type(&Val::scalar("hello"), &ann).is_ok());
    assert!(validate_type(&Val::Bool(true), &ann).is_ok());
    let narrow = TypeAnnotation::Union(vec![TypeAnnotation::Int, TypeAnnotation::Path]);
    assert!(validate_type(&Val::Bool(true), &narrow).is_err());
}

#[test]
fn validate_result_ok() {
    let val = Val::Sum("ok".into(), Box::new(Val::Int(42)));
    let ann = TypeAnnotation::Result(Box::new(TypeAnnotation::Int));
    let result = validate_type(&val, &ann).unwrap();
    assert_eq!(result, val);
}

#[test]
fn validate_result_err() {
    let val = Val::Sum("err".into(), Box::new(Val::ExitCode(1)));
    let ann = TypeAnnotation::Result(Box::new(TypeAnnotation::Int));
    assert!(validate_type(&val, &ann).is_ok());
}

#[test]
fn validate_result_wrong_tag() {
    let val = Val::Sum("bad".into(), Box::new(Val::Int(42)));
    let ann = TypeAnnotation::Result(Box::new(TypeAnnotation::Int));
    assert!(validate_type(&val, &ann).is_err());
}

#[test]
fn validate_maybe_ok() {
    let val = Val::Sum("ok".into(), Box::new(Val::scalar("hello")));
    let ann = TypeAnnotation::Maybe(Box::new(TypeAnnotation::Str));
    assert!(validate_type(&val, &ann).is_ok());
}

#[test]
fn validate_maybe_none() {
    let val = Val::Sum("none".into(), Box::new(Val::Unit));
    let ann = TypeAnnotation::Maybe(Box::new(TypeAnnotation::Str));
    assert!(validate_type(&val, &ann).is_ok());
}

#[test]
fn validate_maybe_wrong_tag() {
    let val = Val::Sum("err".into(), Box::new(Val::Unit));
    let ann = TypeAnnotation::Maybe(Box::new(TypeAnnotation::Str));
    assert!(validate_type(&val, &ann).is_err());
}

#[test]
fn var_error_field_defaults_none() {
    let var = Var::new(Val::Int(42));
    assert!(var.error.is_none());
}

// ── Further cases ───────────────────────────────────────

#[test]
fn env_pid_is_decimal_and_status_empty() {
    let env = Env::new(PID);
    assert_eq!(env.get_value("pid"), Val::scalar("4242"));
    assert_eq!(env.get_value("status"), Val::scalar(""));
}

#[test]
fn env_read_after_let() {
    let mut env = Env::new(PID);
    assert!(env.let_value("n", Val::Int(3), false, false, Some(TypeAnnotation::Int)).is_ok());
    assert_eq!(env.get_value("n"), Val::Int(3));
    // Immutable bindings refuse reassignment.
    assert!(env.set_value("n", Val::Int(4)).is_err());
    assert_eq!(env.get_value("n"), Val::Int(3));
}

#[test]
fn env_let_checks_type() {
    let mut env = Env::new(PID);
    assert!(env.let_value("n", Val::scalar("x"), true, false, Some(TypeAnnotation::Int)).is_err());
    assert_eq!(env.get_value("n"), Val::empty());
}

#[test]
fn env_set_respects_type_annotation() {
    let mut env = Env::new(PID);
    assert!(env.let_value("n", Val::Int(1), true, false, Some(TypeAnnotation::Int)).is_ok());
    assert!(env.set_value("n", Val::scalar("text")).is_err());
    assert!(env.set_value("n", Val::Int(2)).is_ok());
    assert_eq!(env.get_value("n"), Val::Int(2));
}

#[test]
fn env_get_fn_after_define() {
    let mut env = Env::new(PID);
    assert!(env.get_fn("f").is_none());
    env.define_fn("f".into(), vec![]);
    assert_eq!(env.get_fn("f").map(|b| b.len()), Some(0));
}

#[test]
fn env_pop_keeps_global_scope() {
    let mut env = Env::new(PID);
    env.pop_scope();
    assert_eq!(env.get_value("pid"), Val::scalar("4242"));
    assert!(!env.is_readonly());
    env.push_readonly_scope();
    assert!(env.is_readonly());
}

#[test]
fn env_nameref_target_and_unknown() {
    let mut env = Env::new(PID);
    env.set_nameref("alias", "target".into());
    assert_eq!(env.get_nameref_target("alias"), Some("target"));
    assert_eq!(env.get_nameref_target("target"), None);
    assert_eq!(env.get_value("alias"), Val::empty());
}

#[test]
fn env_process_env_exports_only() {
    let mut env = Env::new(PID);
    let _ = env.let_value("HOME", Val::scalar("/root"), true, true, None);
    let _ = env.set_value("local", Val::scalar("x"));
    let pe = env.to_process_env();
    assert!(pe.contains(&("HOME".to_string(), "/root".to_string())));
    assert!(!pe.iter().any(|(k, _)| k == "local"));
}

#[test]
fn env_import_vars_with_aliases() {
    let mut env = Env::new(PID);
    env.import_env_vars(vec![
        ("HOME".to_string(), "/home/u".to_string()),
        ("PATH".to_string(), "/bin:/usr/bin".to_string()),
    ]);
    assert_eq!(env.get_value("HOME"), Val::scalar("/home/u"));
    assert_eq!(env.get_value("home"), Val::scalar("/home/u"));
    assert_eq!(env.get_value("path"), Val::list(&["/bin", "/usr/bin"]));
}

#[test]
fn env_scope_set_get_remove() {
    let mut s = Scope::new();
    assert!(s.get("a").is_none());
    s.set("a".into(), Var::new(Val::Int(1)));
    assert_eq!(s.get("a").unwrap().value, Val::Int(1));
    s.set("a".into(), Var::exported(Val::Int(2)));
    assert_eq!(s.get("a").unwrap().value, Val::Int(2));
    assert_eq!(s.exported().len(), 1);
    assert!(s.remove("a").is_some());
    assert!(s.get("a").is_none());
    assert!(s.remove("a").is_none());
    assert!(Scope::readonly().readonly);
}

#[test]
fn env_split_on_colon() {
    assert_eq!(psh::env::split_on_colon("a:b::c"), vec!["a", "b", "", "c"]);
    assert_eq!(psh::env::split_on_colon(""), vec![""]);
}

#[test]
fn env_assign_leaves_other_reads() {
    let mut env = Env::new(PID);
    env.set_value("x", Val::scalar("1")).unwrap();
    env.set_value("y", Val::scalar("2")).unwrap();
    env.set_nameref("z", "y".into());
    env.set_value("x", Val::scalar("3")).unwrap();
    assert_eq!(env.get_value("y"), Val::scalar("2"));
    assert_eq!(env.get_value("z"), Val::scalar("2"));
    assert_eq!(env.get_value("pid"), Val::scalar("4242"));
}

#[test]
fn env_pop_discards_inner_bindings() {
    let mut env = Env::new(PID);
    env.set_value("x", Val::scalar("outer")).unwrap();
    env.push_scope();
    env.let_value("x", Val::scalar("inner"), true, false, None).unwrap();
    env.set_nameref("r", "x".into());
    env.set_value("fresh", Val::scalar("v")).unwrap();
    env.pop_scope();
    assert_eq!(env.get_value("x"), Val::scalar("outer"));
    assert_eq!(env.get_value("r"), Val::empty());
    assert_eq!(env.get_value("fresh"), Val::empty());
}

#[test]
fn env_new_exports_nothing() {
    let env = Env::new(PID);
    assert!(env.to_process_env().is_empty());
}
