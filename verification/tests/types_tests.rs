use psh::ast::TypeAnnotation;
use psh::types::{type_ann_name, val_type_name, validate_type};
use psh::value::Val;

#[test]
fn types_annotation_names() {
    assert_eq!(type_ann_name(&TypeAnnotation::Int), "Int");
    assert_eq!(type_ann_name(&TypeAnnotation::List(None)), "List");
    assert_eq!(type_ann_name(&TypeAnnotation::List(Some(Box::new(TypeAnnotation::Str)))), "List[Str]");
    assert_eq!(
        type_ann_name(&TypeAnnotation::Tuple(vec![TypeAnnotation::Int, TypeAnnotation::Bool])),
        "(Int, Bool)"
    );
    assert_eq!(
        type_ann_name(&TypeAnnotation::Union(vec![TypeAnnotation::Int, TypeAnnotation::Path])),
        "Int | Path"
    );
    assert_eq!(type_ann_name(&TypeAnnotation::Result(Box::new(TypeAnnotation::Int))), "Result[Int]");
    assert_eq!(type_ann_name(&TypeAnnotation::Maybe(Box::new(TypeAnnotation::Unit))), "Maybe[Unit]");
}

#[test]
fn types_value_sort_names() {
    assert_eq!(val_type_name(&Val::Unit), "Unit");
    assert_eq!(val_type_name(&Val::ExitCode(3)), "ExitCode");
    assert_eq!(val_type_name(&Val::Tuple(vec![Val::Unit, Val::Unit])), "Tuple");
    assert_eq!(val_type_name(&Val::Sum("ok".into(), Box::new(Val::Unit))), "Sum");
}

#[test]
fn types_mismatch_message() {
    assert_eq!(
        validate_type(&Val::Bool(true), &TypeAnnotation::Int),
        Err("type mismatch: expected Int, got Bool".to_string())
    );
    assert_eq!(
        validate_type(&Val::Bool(true), &TypeAnnotation::Union(vec![TypeAnnotation::Int, TypeAnnotation::Path])),
        Err("type mismatch: expected Int | Path, got Bool".to_string())
    );
}

#[test]
fn types_tuple_length_message() {
    let val = Val::Tuple(vec![Val::Int(42)]);
    let ann = TypeAnnotation::Tuple(vec![TypeAnnotation::Int, TypeAnnotation::Bool]);
    assert_eq!(validate_type(&val, &ann), Err("tuple length mismatch: expected 2, got 1".to_string()));
}

#[test]
fn types_element_error_is_located() {
    let val = Val::List(vec![Val::Int(1), Val::Bool(true)]);
    let ann = TypeAnnotation::List(Some(Box::new(TypeAnnotation::Int)));
    assert_eq!(
        validate_type(&val, &ann),
        Err("element 2: type mismatch: expected Int, got Bool".to_string())
    );
    let t = Val::Tuple(vec![Val::Int(1), Val::Int(2)]);
    let tann = TypeAnnotation::Tuple(vec![TypeAnnotation::Int, TypeAnnotation::Bool]);
    assert_eq!(
        validate_type(&t, &tann),
        Err("tuple element 1: type mismatch: expected Bool, got Int".to_string())
    );
}

#[test]
fn types_narrowing_from_str_is_refused() {
    assert_eq!(
        validate_type(&Val::scalar("99"), &TypeAnnotation::Int),
        Err("type mismatch: expected Int, got Str".to_string())
    );
    assert_eq!(
        validate_type(&Val::scalar("true"), &TypeAnnotation::Bool),
        Err("type mismatch: expected Bool, got Str".to_string())
    );
    assert_eq!(
        validate_type(&Val::scalar("/x"), &TypeAnnotation::Path),
        Err("type mismatch: expected Path, got Str".to_string())
    );
}

#[test]
fn types_widening_to_str() {
    assert_eq!(validate_type(&Val::Int(-7), &TypeAnnotation::Str), Ok(Val::scalar("-7")));
    assert_eq!(validate_type(&Val::Bool(false), &TypeAnnotation::Str), Ok(Val::scalar("false")));
    assert_eq!(validate_type(&Val::Path("/p".into()), &TypeAnnotation::Str), Ok(Val::scalar("/p")));
}

#[test]
fn types_sum_tag_messages() {
    let r = TypeAnnotation::Result(Box::new(TypeAnnotation::Int));
    assert_eq!(
        validate_type(&Val::Sum("bad".into(), Box::new(Val::Int(1))), &r),
        Err("type mismatch: Result expects ok/err tags, got \"bad\"".to_string())
    );
    assert_eq!(
        validate_type(&Val::Sum("ok".into(), Box::new(Val::Bool(true))), &r),
        Err("Result ok branch: type mismatch: expected Int, got Bool".to_string())
    );
    let m = TypeAnnotation::Maybe(Box::new(TypeAnnotation::Int));
    assert_eq!(
        validate_type(&Val::Sum("err".into(), Box::new(Val::Unit)), &m),
        Err("type mismatch: Maybe expects ok/none tags, got \"err\"".to_string())
    );
    assert_eq!(
        validate_type(&Val::Sum("none".into(), Box::new(Val::Int(1))), &m),
        Err("Maybe none branch: type mismatch: expected Unit, got Int".to_string())
    );
}

#[test]
fn types_validate_is_idempotent() {
    let val = Val::List(vec![Val::Int(1), Val::scalar("2")]);
    let ann = TypeAnnotation::List(Some(Box::new(TypeAnnotation::Str)));
    let once = validate_type(&val, &ann).unwrap();
    assert_eq!(once, Val::list(&["1", "2"]));
    assert_eq!(validate_type(&once, &ann), Ok(once.clone()));
    let u = TypeAnnotation::Union(vec![TypeAnnotation::Path, TypeAnnotation::Str]);
    let w = validate_type(&Val::Int(5), &u).unwrap();
    assert_eq!(w, Val::scalar("5"));
    assert_eq!(validate_type(&w, &u), Ok(w.clone()));
}

#[test]
fn types_union_takes_first_match() {
    let ann = TypeAnnotation::Union(vec![TypeAnnotation::Str, TypeAnnotation::Int]);
    assert_eq!(validate_type(&Val::Int(5), &ann), Ok(Val::scalar("5")));
}
