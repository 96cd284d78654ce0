use psh::value::Val;
use std::path::PathBuf;

fn collect_elements(v: &Val) -> Vec<&Val> {
    let mut it = v.iter_elements();
    let mut out = Vec::new();
    while let Some(x) = it.next() {
        out.push(x);
    }
    out
}

// ── Truthiness ──────────────────────────────────────────

#[test]
fn unit_is_false() {
    assert!(!Val::Unit.is_true());
    assert!(!Val::empty().is_true());
}

#[test]
fn bool_truth() {
    assert!(Val::Bool(true).is_true());
    assert!(!Val::Bool(false).is_true());
}

#[test]
fn int_truth() {
    assert!(Val::Int(42).is_true());
    assert!(Val::Int(-1).is_true());
    assert!(!Val::Int(0).is_true());
}

#[test]
fn str_truth() {
    assert!(Val::scalar("hello").is_true());
    assert!(!Val::Str(String::new()).is_true());
}

#[test]
fn path_truth() {
    assert!(Val::Path("/tmp".into()).is_true());
}

#[test]
fn exit_code_truth_inverts_int() {
    assert!(Val::ExitCode(0).is_true());
    assert!(!Val::ExitCode(1).is_true());
    assert!(!Val::ExitCode(127).is_true());
    assert!(!Val::ExitCode(-1).is_true());
}

#[test]
fn list_truth() {
    assert!(Val::list(&["a"]).is_true());
    assert!(!Val::List(vec![]).is_true());
}

#[test]
fn tuple_always_true() {
    assert!(Val::Tuple(vec![Val::Int(0), Val::Int(0)]).is_true());
    assert!(Val::Tuple(vec![Val::Unit, Val::Unit]).is_true());
}

#[test]
fn sum_always_true() {
    assert!(Val::Sum("ok".into(), Box::new(Val::Unit)).is_true());
    assert!(Val::Sum("err".into(), Box::new(Val::ExitCode(1))).is_true());
}

// ── Count ───────────────────────────────────────────────

#[test]
fn count_scalars() {
    assert_eq!(Val::Unit.count(), 0);
    assert_eq!(Val::Int(42).count(), 1);
    assert_eq!(Val::scalar("x").count(), 1);
    assert_eq!(Val::ExitCode(0).count(), 1);
    assert_eq!(Val::Bool(true).count(), 1);
}

#[test]
fn value_count_list() {
    assert_eq!(Val::list(&["a", "b", "c"]).count(), 3);
}

#[test]
fn count_tuple() {
    assert_eq!(Val::Tuple(vec![Val::Int(1), Val::Int(2)]).count(), 2);
    assert_eq!(Val::Tuple(vec![Val::Int(1), Val::Int(2), Val::Int(3)]).count(), 3);
}

#[test]
fn count_sum() {
    assert_eq!(Val::Sum("ok".into(), Box::new(Val::Int(42))).count(), 1);
}

// ── Indexing ─────────────────────────────────────────────

#[test]
fn list_index_1_based() {
    let v = Val::list(&["a", "b", "c"]);
    assert_eq!(v.index(1), Val::scalar("a"));
    assert_eq!(v.index(2), Val::scalar("b"));
    assert_eq!(v.index(3), Val::scalar("c"));
    assert_eq!(v.index(0), Val::Unit);
    assert_eq!(v.index(4), Val::Unit);
}

#[test]
fn scalar_self_index() {
    let v = Val::Int(42);
    assert_eq!(v.index(1), Val::Int(42));
    assert_eq!(v.index(2), Val::Unit);
}

#[test]
fn tuple_index_via_method() {
    let t = Val::Tuple(vec![Val::Int(42), Val::scalar("hello")]);
    assert_eq!(t.tuple_index(0), Val::Int(42));
    assert_eq!(t.tuple_index(1), Val::scalar("hello"));
    assert_eq!(t.tuple_index(2), Val::Unit);
}

#[test]
fn tuple_index_1_based_via_index() {
    let t = Val::Tuple(vec![Val::Int(42), Val::scalar("hello")]);
    assert_eq!(t.index(1), Val::Int(42));
    assert_eq!(t.index(2), Val::scalar("hello"));
    assert_eq!(t.index(0), Val::Unit);
}

#[test]
fn exit_code_self_index() {
    let v = Val::ExitCode(0);
    assert_eq!(v.index(1), Val::ExitCode(0));
    assert_eq!(v.index(2), Val::Unit);
}

#[test]
fn sum_self_index() {
    let v = Val::Sum("ok".into(), Box::new(Val::Int(42)));
    assert_eq!(v.index(1), v);
    assert_eq!(v.index(2), Val::Unit);
}

// ── Concat ──────────────────────────────────────────────

#[test]
fn value_concat_pairwise() {
    let a = Val::list(&["x", "y"]);
    let b = Val::list(&["1", "2"]);
    assert_eq!(a.concat(&b), Val::list(&["x1", "y2"]));
}

#[test]
fn concat_broadcast_left() {
    let a = Val::scalar("prefix-");
    let b = Val::list(&["a", "b", "c"]);
    assert_eq!(a.concat(&b), Val::list(&["prefix-a", "prefix-b", "prefix-c"]));
}

#[test]
fn concat_broadcast_right() {
    let a = Val::list(&["a", "b", "c"]);
    let b = Val::scalar(".txt");
    assert_eq!(a.concat(&b), Val::list(&["a.txt", "b.txt", "c.txt"]));
}

#[test]
fn concat_mismatched_is_empty() {
    let a = Val::list(&["x", "y"]);
    let b = Val::list(&["1", "2", "3"]);
    assert_eq!(a.concat(&b), Val::Unit);
}

#[test]
fn concat_empty_is_empty() {
    let a = Val::list(&["x", "y"]);
    assert_eq!(a.concat(&Val::empty()), Val::Unit);
    assert_eq!(Val::empty().concat(&a), Val::Unit);
}

#[test]
fn concat_typed_coercion() {
    assert_eq!(Val::Int(42).concat(&Val::Str("px".into())), Val::Str("42px".into()));
}

#[test]
fn concat_exit_code_coerces() {
    assert_eq!(Val::ExitCode(1).concat(&Val::Str(" failed".into())), Val::Str("1 failed".into()));
}

#[test]
fn concat_tuple_coerces() {
    let t = Val::Tuple(vec![Val::Int(1), Val::Int(2)]);
    assert_eq!(t.concat(&Val::Str(" items".into())), Val::list(&["1 items", "2 items"]));
}

#[test]
fn concat_sum_coerces_payload_only() {
    let s = Val::Sum("ok".into(), Box::new(Val::Int(42)));
    assert_eq!(s.concat(&Val::Str("!".into())), Val::Str("42!".into()));
}

// ── Inference ───────────────────────────────────────────

#[test]
fn infer_int() {
    assert_eq!(Val::infer("42"), Val::Int(42));
    assert_eq!(Val::infer("0"), Val::Int(0));
    assert_eq!(Val::infer("-1"), Val::Int(-1));
}

#[test]
fn infer_leading_zero_stays_str() {
    assert_eq!(Val::infer("042"), Val::Str("042".into()));
}

#[test]
fn infer_bool() {
    assert_eq!(Val::infer("true"), Val::Bool(true));
    assert_eq!(Val::infer("false"), Val::Bool(false));
}

#[test]
fn infer_path() {
    assert_eq!(Val::infer("/tmp"), Val::Path("/tmp".into()));
    assert_eq!(Val::infer("./foo"), Val::Path("./foo".into()));
    assert_eq!(Val::infer("../bar"), Val::Path("../bar".into()));
    assert_eq!(Val::infer("~/bin"), Val::Path("~/bin".into()));
}

#[test]
fn infer_str() {
    assert_eq!(Val::infer("hello"), Val::Str("hello".into()));
    assert_eq!(Val::infer(""), Val::Str(String::new()));
}

#[test]
fn infer_never_produces_exit_code() {
    assert_eq!(Val::infer("0"), Val::Int(0));
    assert_eq!(Val::infer("1"), Val::Int(1));
    assert_eq!(Val::infer("127"), Val::Int(127));
}

// ── Display ─────────────────────────────────────────────

#[test]
fn display_atoms() {
    assert_eq!(Val::Unit.to_string(), "");
    assert_eq!(Val::Bool(true).to_string(), "true");
    assert_eq!(Val::Int(42).to_string(), "42");
    assert_eq!(Val::Str("hello".into()).to_string(), "hello");
    assert_eq!(Val::Path("/tmp".into()).to_string(), "/tmp");
    assert_eq!(Val::ExitCode(0).to_string(), "0");
    assert_eq!(Val::ExitCode(127).to_string(), "127");
}

#[test]
fn display_list() {
    assert_eq!(Val::list(&["a", "b"]).to_string(), "a b");
}

#[test]
fn display_tuple() {
    let t = Val::Tuple(vec![Val::Int(42), Val::Int(7)]);
    assert_eq!(t.to_string(), "42 7");
}

#[test]
fn display_sum_payload_only() {
    let s = Val::Sum("ok".into(), Box::new(Val::Int(42)));
    assert_eq!(s.to_string(), "42");
    let e = Val::Sum("err".into(), Box::new(Val::ExitCode(1)));
    assert_eq!(e.to_string(), "1");
}

// ── to_args ─────────────────────────────────────────────

#[test]
fn to_args_scalars() {
    assert_eq!(Val::Unit.to_args(), Vec::<String>::new());
    assert_eq!(Val::Int(42).to_args(), vec!["42"]);
    assert_eq!(Val::ExitCode(0).to_args(), vec!["0"]);
}

#[test]
fn to_args_list() {
    assert_eq!(Val::list(&["a", "b"]).to_args(), vec!["a", "b"]);
}

#[test]
fn to_args_tuple() {
    let t = Val::Tuple(vec![Val::Int(1), Val::Int(2)]);
    assert_eq!(t.to_args(), vec!["1", "2"]);
}

#[test]
fn to_args_sum() {
    let s = Val::Sum("ok".into(), Box::new(Val::Int(42)));
    assert_eq!(s.to_args(), vec!["42"]);
}

// ── iter_elements ───────────────────────────────────────

#[test]
fn iter_unit_is_empty() {
    assert_eq!(collect_elements(&Val::Unit).len(), 0);
}

#[test]
fn iter_scalar_yields_self() {
    let v = Val::Int(42);
    let elems = collect_elements(&v);
    assert_eq!(elems, vec![&Val::Int(42)]);
}

#[test]
fn iter_list_yields_elements() {
    let v = Val::List(vec![Val::Int(1), Val::Int(2)]);
    let elems = collect_elements(&v);
    assert_eq!(elems, vec![&Val::Int(1), &Val::Int(2)]);
}

#[test]
fn iter_tuple_yields_elements() {
    let v = Val::Tuple(vec![Val::Int(1), Val::Int(2)]);
    let elems = collect_elements(&v);
    assert_eq!(elems, vec![&Val::Int(1), &Val::Int(2)]);
}

#[test]
fn iter_sum_yields_self() {
    let v = Val::Sum("ok".into(), Box::new(Val::Int(42)));
    let elems = collect_elements(&v);
    assert_eq!(elems.len(), 1);
    assert_eq!(elems[0], &v);
}

#[test]
fn iter_exit_code_yields_self() {
    let v = Val::ExitCode(0);
    let elems = collect_elements(&v);
    assert_eq!(elems, vec![&Val::ExitCode(0)]);
}

// ── From impls ──────────────────────────────────────────

#[test]
fn from_string() {
    let v: Val = "hello".to_string().into();
    assert_eq!(v, Val::Str("hello".into()));
}

#[test]
fn from_str_ref() {
    let v: Val = "hello".into();
    assert_eq!(v, Val::Str("hello".into()));
}

#[test]
fn from_bool() {
    let v: Val = true.into();
    assert_eq!(v, Val::Bool(true));
}

#[test]
fn from_i64() {
    let v: Val = 42i64.into();
    assert_eq!(v, Val::Int(42));
}

#[test]
fn from_pathbuf() {
    let v: Val = PathBuf::from("/tmp").into();
    assert_eq!(v, Val::Path("/tmp".into()));
}

#[test]
fn from_vec_string() {
    let v: Val = vec!["a".to_string(), "b".to_string()].into();
    assert_eq!(v, Val::list(&["a", "b"]));

    let empty: Val = Vec::<String>::new().into();
    assert_eq!(empty, Val::Unit);
}

// ── as_str ──────────────────────────────────────────────

#[test]
fn as_str_returns_reference() {
    assert_eq!(Val::Unit.as_str(), "");
    assert_eq!(Val::Bool(true).as_str(), "true");
    assert_eq!(Val::Bool(false).as_str(), "false");
    assert_eq!(Val::scalar("hello").as_str(), "hello");
    assert_eq!(Val::Int(42).as_str(), "");
    assert_eq!(Val::ExitCode(0).as_str(), "");
    assert_eq!(Val::Tuple(vec![Val::Int(1), Val::Int(2)]).as_str(), "");
    assert_eq!(Val::Sum("ok".into(), Box::new(Val::Int(42))).as_str(), "");
}

// ── to_string_vec ───────────────────────────────────────

#[test]
fn to_string_vec_via_concat() {
    let ec = Val::ExitCode(42);
    assert_eq!(ec.concat(&Val::scalar("!")), Val::Str("42!".into()));

    let tuple = Val::Tuple(vec![Val::scalar("a"), Val::scalar("b")]);
    assert_eq!(tuple.concat(&Val::scalar("!")), Val::list(&["a!", "b!"]));
}

// ── Further cases ───────────────────────────────────────

#[test]
fn value_concat_unit_on_either_side() {
    assert_eq!(Val::Unit.concat(&Val::Int(1)), Val::Unit);
    assert_eq!(Val::Int(1).concat(&Val::Unit), Val::Unit);
}

#[test]
fn value_infer_out_of_range_int_stays_str() {
    assert_eq!(Val::infer("9223372036854775808"), Val::Str("9223372036854775808".into()));
    assert_eq!(Val::infer("-9223372036854775808"), Val::Int(i64::MIN));
    assert_eq!(Val::infer("+5"), Val::Int(5));
    assert_eq!(Val::infer("-0"), Val::Int(0));
}

#[test]
fn value_infer_reads_back_ints() {
    for n in [0i64, 7, -7, 1234567, i64::MAX, i64::MIN] {
        assert_eq!(Val::infer(&Val::Int(n).to_string()), Val::Int(n));
    }
}

#[test]
fn value_elements_match_count() {
    let vs = [
        Val::Unit,
        Val::Int(3),
        Val::list(&["a", "b", "c"]),
        Val::Tuple(vec![Val::Int(1), Val::Int(2)]),
        Val::Sum("ok".into(), Box::new(Val::Int(1))),
    ];
    for v in vs.iter() {
        assert_eq!(collect_elements(v).len(), v.count());
        assert_eq!(v.to_args().len(), v.count());
    }
}

#[test]
fn value_display_nested_list() {
    let v = Val::List(vec![Val::list(&["a", "b"]), Val::Int(3), Val::Bool(false)]);
    assert_eq!(v.to_string(), "a b 3 false");
}

#[test]
fn value_from_strings_single_is_list() {
    assert_eq!(Val::from_strings(vec!["x".to_string()]), Val::list(&["x"]));
}

#[test]
fn value_clone_is_equal() {
    let v = Val::Sum("ok".into(), Box::new(Val::list(&["a", "b"])));
    assert_eq!(v.clone(), v);
}

#[test]
fn value_infer_prints_back() {
    for s in ["hello", "42", "-7", "0", "/tmp", "./x", "true", "false", "042", "-042", "12ab", ""] {
        assert_eq!(Val::infer(s).to_string(), s);
    }
}

#[test]
fn value_concat_elementwise() {
    let a = Val::Tuple(vec![Val::Int(1), Val::Bool(true)]);
    let b = Val::scalar("x");
    let c = a.concat(&b);
    assert_eq!(c.count(), 2);
    assert_eq!(c.index(1), Val::scalar("1x"));
    assert_eq!(c.index(2), Val::scalar("truex"));
}
