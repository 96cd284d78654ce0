//! Type annotations at binding sites: validation of values against
//! annotations (the Prism check) and the names of types.
//!
//! Coercion policy: widening (Int→Str, Bool→Str, Path→Str,
//! ExitCode→Str) is allowed; narrowing (a Str bound to Int, Bool or
//! Path) is rejected; List[T] validates each element; Tuple validates componentwise;
//! Union passes if any branch matches; Result[T] and Maybe[T] validate
//! as their desugared Sum forms.

use vstd::prelude::*;

use crate::ast::{SpecType, TypeAnnotation, types_model};
use crate::text::{dec_int, dec_nat, push_char, push_decimal_u64, push_str, str_eq, to_owned_string};
use crate::value::{SpecVal, Val, copy_val, display, lemma_vals_model, val_model, vals_model};

verus! {

broadcast use vstd::string::group_string_axioms;

// ── Names ──────────────────────────────────────────────────────

/// The name of a type annotation as written in source.
pub open spec fn ann_name(t: SpecType) -> Seq<char>
    decreases t,
{
    match t {
        SpecType::Unit => "Unit"@,
        SpecType::Bool => "Bool"@,
        SpecType::Int => "Int"@,
        SpecType::Str => "Str"@,
        SpecType::Path => "Path"@,
        SpecType::ExitCode => "ExitCode"@,
        SpecType::List(None) => "List"@,
        SpecType::List(Some(inner)) => "List["@ + ann_name(*inner) + "]"@,
        SpecType::Tuple(ts) => "("@ + type_names_joined(ts, ", "@) + ")"@,
        SpecType::Union(ts) => type_names_joined(ts, " | "@),
        SpecType::Result(inner) => "Result["@ + ann_name(*inner) + "]"@,
        SpecType::Maybe(inner) => "Maybe["@ + ann_name(*inner) + "]"@,
    }
}

/// The names of several types, separated by `sep`.
pub open spec fn type_names_joined(ts: Seq<SpecType>, sep: Seq<char>) -> Seq<char>
    decreases ts,
{
    if ts.len() == 0 {
        Seq::empty()
    } else if ts.len() == 1 {
        ann_name(ts[0])
    } else {
        type_names_joined(ts.drop_last(), sep) + sep + ann_name(ts.last())
    }
}

/// The name of the sort of a value.
pub open spec fn val_sort_name(v: SpecVal) -> Seq<char> {
    match v {
        SpecVal::Unit => "Unit"@,
        SpecVal::Bool(_) => "Bool"@,
        SpecVal::Int(_) => "Int"@,
        SpecVal::Str(_) => "Str"@,
        SpecVal::Path(_) => "Path"@,
        SpecVal::ExitCode(_) => "ExitCode"@,
        SpecVal::List(_) => "List"@,
        SpecVal::Tuple(_) => "Tuple"@,
        SpecVal::Sum(_, _) => "Sum"@,
        SpecVal::Thunk { .. } => "Thunk"@,
    }
}

// ── Validation ─────────────────────────────────────────────────

/// "type mismatch: expected T, got S"
pub open spec fn mismatch(v: SpecVal, t: SpecType) -> Seq<char> {
    "type mismatch: expected "@ + ann_name(t) + ", got "@ + val_sort_name(v)
}

/// The outcome of validating `v` against `t`: the (possibly coerced)
/// value, or the message explaining the rejection.
pub open spec fn validate_spec(v: SpecVal, t: SpecType) -> Result<SpecVal, Seq<char>>
    decreases v, t,
{
    match t {
        SpecType::Union(bs) => match validate_union(v, bs) {
            Some(w) => Ok(w),
            None => Err(mismatch(v, t)),
        },
        _ => match (v, t) {
            (SpecVal::Unit, SpecType::Unit) => Ok(SpecVal::Unit),
            (SpecVal::Bool(_), SpecType::Bool) => Ok(v),
            (SpecVal::Int(_), SpecType::Int) => Ok(v),
            (SpecVal::Str(_), SpecType::Str) => Ok(v),
            (SpecVal::Path(_), SpecType::Path) => Ok(v),
            (SpecVal::ExitCode(_), SpecType::ExitCode) => Ok(v),
            (SpecVal::List(_), SpecType::List(None)) => Ok(v),
            (SpecVal::List(items), SpecType::List(Some(elem))) => match validate_items(items, *elem) {
                Ok(ws) => Ok(SpecVal::List(ws)),
                Err((i, e)) => Err("element "@ + dec_nat(i + 1) + ": "@ + e),
            },
            (SpecVal::Tuple(items), SpecType::Tuple(anns)) => if items.len() != anns.len() {
                Err("tuple length mismatch: expected "@ + dec_nat(anns.len()) + ", got "@ + dec_nat(
                    items.len(),
                ))
            } else {
                match validate_tuple(items, anns) {
                    Ok(ws) => Ok(SpecVal::Tuple(ws)),
                    Err((i, e)) => Err("tuple element "@ + dec_nat(i) + ": "@ + e),
                }
            },
            (SpecVal::Sum(tag, payload), SpecType::Result(inner)) => if tag == "ok"@ {
                match validate_spec(*payload, *inner) {
                    Ok(w) => Ok(SpecVal::Sum("ok"@, Box::new(w))),
                    Err(e) => Err("Result ok branch: "@ + e),
                }
            } else if tag == "err"@ {
                match validate_spec(*payload, SpecType::ExitCode) {
                    Ok(w) => Ok(SpecVal::Sum("err"@, Box::new(w))),
                    Err(e) => Err("Result err branch: "@ + e),
                }
            } else {
                Err("type mismatch: Result expects ok/err tags, got \""@ + tag + "\""@)
            },
            (SpecVal::Sum(tag, payload), SpecType::Maybe(inner)) => if tag == "ok"@ {
                match validate_spec(*payload, *inner) {
                    Ok(w) => Ok(SpecVal::Sum("ok"@, Box::new(w))),
                    Err(e) => Err("Maybe ok branch: "@ + e),
                }
            } else if tag == "none"@ {
                match validate_spec(*payload, SpecType::Unit) {
                    Ok(w) => Ok(SpecVal::Sum("none"@, Box::new(w))),
                    Err(e) => Err("Maybe none branch: "@ + e),
                }
            } else {
                Err("type mismatch: Maybe expects ok/none tags, got \""@ + tag + "\""@)
            },
            (SpecVal::Int(n), SpecType::Str) => Ok(SpecVal::Str(dec_int(n as int))),
            (SpecVal::Bool(_), SpecType::Str) => Ok(SpecVal::Str(display(v))),
            (SpecVal::Path(p), SpecType::Str) => Ok(SpecVal::Str(p)),
            (SpecVal::ExitCode(c), SpecType::Str) => Ok(SpecVal::Str(dec_int(c as int))),
            _ => Err(mismatch(v, t)),
        },
    }
}

/// The first branch that accepts `v`, in order, with its result.
pub open spec fn validate_union(v: SpecVal, bs: Seq<SpecType>) -> Option<SpecVal>
    decreases v, bs,
{
    if bs.len() == 0 {
        None
    } else {
        match validate_spec(v, bs[0]) {
            Ok(w) => Some(w),
            Err(_) => validate_union(v, bs.drop_first()),
        }
    }
}

/// Every item validated against `elem`, or the 0-based index of the first
/// rejected item with its message.
pub open spec fn validate_items(items: Seq<SpecVal>, elem: SpecType) -> Result<Seq<SpecVal>, (nat, Seq<char>)>
    decreases items, elem,
{
    if items.len() == 0 {
        Ok(Seq::empty())
    } else {
        match validate_spec(items[0], elem) {
            Err(e) => Err((0, e)),
            Ok(w) => match validate_items(items.drop_first(), elem) {
                Ok(ws) => Ok(seq![w] + ws),
                Err((i, e)) => Err((i + 1, e)),
            },
        }
    }
}

/// Items validated componentwise against `anns`, or the 0-based index of
/// the first rejected component with its message.
pub open spec fn validate_tuple(items: Seq<SpecVal>, anns: Seq<SpecType>) -> Result<Seq<SpecVal>, (nat, Seq<char>)>
    decreases items, anns,
{
    if items.len() == 0 || anns.len() == 0 {
        Ok(Seq::empty())
    } else {
        match validate_spec(items[0], anns[0]) {
            Err(e) => Err((0, e)),
            Ok(w) => match validate_tuple(items.drop_first(), anns.drop_first()) {
                Ok(ws) => Ok(seq![w] + ws),
                Err((i, e)) => Err((i + 1, e)),
            },
        }
    }
}


// ── Executable ─────────────────────────────────────────────────

/// The name of a type annotation as written in source.
pub fn type_ann_name(ann: &TypeAnnotation) -> (r: String)
    ensures
        r@ == ann_name(ann@),
    decreases ann,
{
    match ann {
        TypeAnnotation::Unit => to_owned_string("Unit"),
        TypeAnnotation::Bool => to_owned_string("Bool"),
        TypeAnnotation::Int => to_owned_string("Int"),
        TypeAnnotation::Str => to_owned_string("Str"),
        TypeAnnotation::Path => to_owned_string("Path"),
        TypeAnnotation::ExitCode => to_owned_string("ExitCode"),
        TypeAnnotation::List(None) => to_owned_string("List"),
        TypeAnnotation::List(Some(inner)) => {
            let mut r = to_owned_string("List[");
            let n = type_ann_name(inner);
            push_str(&mut r, n.as_str());
            push_str(&mut r, "]");
            r
        },
        TypeAnnotation::Tuple(anns) => {
            let mut r = to_owned_string("(");
            let n = joined_names(anns, ", ");
            push_str(&mut r, n.as_str());
            push_str(&mut r, ")");
            r
        },
        TypeAnnotation::Union(branches) => joined_names(branches, " | "),
        TypeAnnotation::Result(inner) => {
            let mut r = to_owned_string("Result[");
            let n = type_ann_name(inner);
            push_str(&mut r, n.as_str());
            push_str(&mut r, "]");
            r
        },
        TypeAnnotation::Maybe(inner) => {
            let mut r = to_owned_string("Maybe[");
            let n = type_ann_name(inner);
            push_str(&mut r, n.as_str());
            push_str(&mut r, "]");
            r
        },
    }
}

/// The names of several annotations, separated by `sep`.
fn joined_names(anns: &Vec<TypeAnnotation>, sep: &str) -> (r: String)
    ensures
        r@ == type_names_joined(types_model(anns@), sep@),
    decreases anns,
{
    let mut r = String::new();
    let mut i: usize = 0;
    while i < anns.len()
        invariant
            i <= anns.len(),
            r@ == type_names_joined(types_model(anns@.take(i as int)), sep@),
        decreases anns.len() - i,
    {
        proof { assert(decreases_to!(anns => anns@[i as int])); }
        if i > 0 {
            push_str(&mut r, sep);
        }
        let n = type_ann_name(&anns[i]);
        push_str(&mut r, n.as_str());
        proof {
            let t = anns@.take(i + 1);
            assert(t.drop_last() == anns@.take(i as int));
            assert(types_model(t) == types_model(anns@.take(i as int)).push(anns@[i as int]@));
            assert(types_model(t).drop_last() =~= types_model(anns@.take(i as int)));
            assert(types_model(t).last() == anns@[i as int]@);
            if i == 0 {
                assert(types_model(t).len() == 1);
                assert(type_names_joined(types_model(t), sep@) == ann_name(types_model(t)[0]));
                assert(r@ =~= type_names_joined(types_model(t), sep@));
            }
        }
        i += 1;
    }
    proof { assert(anns@.take(anns.len() as int) == anns@); }
    r
}

/// The name of the sort of a value.
pub fn val_type_name(val: &Val) -> (r: &'static str)
    ensures
        r@ == val_sort_name(val@),
{
    match val {
        Val::Unit => "Unit",
        Val::Bool(_) => "Bool",
        Val::Int(_) => "Int",
        Val::Str(_) => "Str",
        Val::Path(_) => "Path",
        Val::ExitCode(_) => "ExitCode",
        Val::List(_) => "List",
        Val::Tuple(_) => "Tuple",
        Val::Sum(_, _) => "Sum",
        Val::Thunk { .. } => "Thunk",
    }
}

/// "type mismatch: expected T, got S"
fn mismatch_message(val: &Val, ann: &TypeAnnotation) -> (r: String)
    ensures
        r@ == mismatch(val@, ann@),
{
    let mut r = to_owned_string("type mismatch: expected ");
    let n = type_ann_name(ann);
    push_str(&mut r, n.as_str());
    push_str(&mut r, ", got ");
    push_str(&mut r, val_type_name(val));
    r
}

/// `prefix` followed by `e`.
fn prefixed(prefix: &str, e: String) -> (r: String)
    ensures
        r@ == prefix@ + e@,
{
    let mut r = to_owned_string(prefix);
    push_str(&mut r, e.as_str());
    r
}

/// `prefix`, the numeral of `n`, ": ", then `e`.
fn numbered(prefix: &str, n: u64, e: String) -> (r: String)
    ensures
        r@ == prefix@ + dec_nat(n as nat) + ": "@ + e@,
{
    let mut r = to_owned_string(prefix);
    push_decimal_u64(&mut r, n);
    push_str(&mut r, ": ");
    push_str(&mut r, e.as_str());
    r
}

/// `prefix`, the text `s`, then `suffix`.
fn around(prefix: &str, s: &str, suffix: &str) -> (r: String)
    ensures
        r@ == prefix@ + s@ + suffix@,
{
    let mut r = to_owned_string(prefix);
    push_str(&mut r, s);
    push_str(&mut r, suffix);
    r
}

/// Validate a value against a type annotation, returning the (possibly
/// coerced) value or the reason for rejection.
#[verifier::loop_isolation(false)]
pub fn validate_type(val: &Val, ann: &TypeAnnotation) -> (r: Result<Val, String>)
    ensures
        match validate_spec(val@, ann@) {
            Ok(w) => r is Ok && r->Ok_0@ == w,
            Err(e) => r is Err && r->Err_0@ == e,
        },
    decreases val, ann,
{
    proof {
        reveal_strlit("ok");
        reveal_strlit("err");
        reveal_strlit("none");
        reveal_strlit("true");
        reveal_strlit("false");
    }
    if let TypeAnnotation::Union(branches) = ann {
        let ghost bs = types_model(branches@);
        let mut j: usize = 0;
        proof { assert(bs.skip(0) == bs); }
        while j < branches.len()
            invariant
                j <= branches.len(),
                bs == types_model(branches@),
                validate_union(val@, bs) == validate_union(val@, bs.skip(j as int)),
            decreases branches.len() - j,
        {
            proof {
                assert(decreases_to!(branches => branches@[j as int]));
                lemma_types_model(branches@);
                assert(bs.skip(j as int)[0] == bs[j as int]);
                assert(bs.skip(j as int).drop_first() == bs.skip(j + 1));
            }
            match validate_type(val, &branches[j]) {
                Ok(w) => {
                    return Ok(w);
                },
                Err(_) => {},
            }
            j += 1;
        }
        proof { lemma_types_model(branches@); }
        return Err(mismatch_message(val, ann));
    }
    match (val, ann) {
        (Val::Unit, TypeAnnotation::Unit) => Ok(Val::Unit),
        (Val::Bool(_), TypeAnnotation::Bool) => Ok(copy_val(val)),
        (Val::Int(_), TypeAnnotation::Int) => Ok(copy_val(val)),
        (Val::Str(_), TypeAnnotation::Str) => Ok(copy_val(val)),
        (Val::Path(_), TypeAnnotation::Path) => Ok(copy_val(val)),
        (Val::ExitCode(_), TypeAnnotation::ExitCode) => Ok(copy_val(val)),
        (Val::List(_), TypeAnnotation::List(None)) => Ok(copy_val(val)),
        (Val::List(items), TypeAnnotation::List(Some(elem))) => {
            let ghost s = vals_model(items@);
            proof { lemma_vals_model(items@); }
            let mut validated: Vec<Val> = Vec::new();
            let mut i: usize = 0;
            proof { assert(s.skip(0) == s); assert(vals_model(validated@) =~= Seq::<SpecVal>::empty()); }
            while i < items.len()
                invariant
                    i <= items.len(),
                    s == vals_model(items@),
                    s.len() == items@.len(),
                    forall|k: int| 0 <= k < items@.len() ==> #[trigger] s[k] == val_model(items@[k]),
                    validate_items(s, elem@) == (match validate_items(s.skip(i as int), elem@) {
                        Ok(rest) => Ok(vals_model(validated@) + rest),
                        Err((j, e)) => Err(((j + i) as nat, e)),
                    }),
                decreases items.len() - i,
            {
                proof {
                    assert(decreases_to!(items => items@[i as int]));
                    assert(s.skip(i as int)[0] == s[i as int]);
                    assert(s.skip(i as int).drop_first() == s.skip(i + 1));
                }
                match validate_type(&items[i], elem) {
                    Ok(w) => {
                        let ghost prev = validated@;
                        validated.push(w);
                        proof {
                            assert(validated@.drop_last() == prev);
                            assert(vals_model(validated@) == vals_model(prev).push(val_model(validated@.last())));
                            match validate_items(s.skip(i + 1), elem@) {
                                Ok(rest) => {
                                    assert(vals_model(prev) + (seq![val_model(validated@.last())] + rest)
                                        =~= vals_model(validated@) + rest);
                                },
                                Err(_) => {},
                            }
                        }
                    },
                    Err(e) => {
                        return Err(numbered("element ", (i + 1) as u64, e));
                    },
                }
                i += 1;
            }
            proof {
                assert(s.skip(items.len() as int) =~= Seq::<SpecVal>::empty());
                assert(vals_model(validated@) + Seq::<SpecVal>::empty() =~= vals_model(validated@));
            }
            Ok(Val::List(validated))
        },
        (Val::Tuple(items), TypeAnnotation::Tuple(anns)) => {
            proof {
                lemma_vals_model(items@);
                lemma_types_model(anns@);
            }
            if items.len() != anns.len() {
                let mut r = to_owned_string("tuple length mismatch: expected ");
                push_decimal_u64(&mut r, anns.len() as u64);
                push_str(&mut r, ", got ");
                push_decimal_u64(&mut r, items.len() as u64);
                return Err(r);
            }
            let ghost s = vals_model(items@);
            let ghost ts = types_model(anns@);
            let mut validated: Vec<Val> = Vec::new();
            let mut i: usize = 0;
            proof {
                assert(s.skip(0) == s);
                assert(ts.skip(0) == ts);
                assert(vals_model(validated@) =~= Seq::<SpecVal>::empty());
            }
            while i < items.len()
                invariant
                    i <= items.len(),
                    items.len() == anns.len(),
                    s == vals_model(items@),
                    ts == types_model(anns@),
                    s.len() == items@.len(),
                    ts.len() == anns@.len(),
                    forall|k: int| 0 <= k < items@.len() ==> #[trigger] s[k] == val_model(items@[k]),
                    forall|k: int| 0 <= k < anns@.len() ==> #[trigger] ts[k] == anns@[k]@,
                    validate_tuple(s, ts) == (match validate_tuple(s.skip(i as int), ts.skip(i as int)) {
                        Ok(rest) => Ok(vals_model(validated@) + rest),
                        Err((j, e)) => Err(((j + i) as nat, e)),
                    }),
                decreases items.len() - i,
            {
                proof {
                    assert(decreases_to!(items => items@[i as int]));
                    assert(decreases_to!(anns => anns@[i as int]));
                    assert(s.skip(i as int)[0] == s[i as int]);
                    assert(s.skip(i as int).drop_first() == s.skip(i + 1));
                    assert(ts.skip(i as int)[0] == ts[i as int]);
                    assert(ts.skip(i as int).drop_first() == ts.skip(i + 1));
                }
                match validate_type(&items[i], &anns[i]) {
                    Ok(w) => {
                        let ghost prev = validated@;
                        validated.push(w);
                        proof {
                            assert(validated@.drop_last() == prev);
                            assert(vals_model(validated@) == vals_model(prev).push(val_model(validated@.last())));
                            match validate_tuple(s.skip(i + 1), ts.skip(i + 1)) {
                                Ok(rest) => {
                                    assert(vals_model(prev) + (seq![val_model(validated@.last())] + rest)
                                        =~= vals_model(validated@) + rest);
                                },
                                Err(_) => {},
                            }
                        }
                    },
                    Err(e) => {
                        return Err(numbered("tuple element ", i as u64, e));
                    },
                }
                i += 1;
            }
            proof {
                assert(s.skip(items.len() as int) =~= Seq::<SpecVal>::empty());
                assert(vals_model(validated@) + Seq::<SpecVal>::empty() =~= vals_model(validated@));
            }
            Ok(Val::Tuple(validated))
        },
        (Val::Sum(tag, payload), TypeAnnotation::Result(inner)) => {
            if str_eq(tag.as_str(), "ok") {
                match validate_type(payload, inner) {
                    Ok(w) => Ok(Val::Sum(to_owned_string("ok"), Box::new(w))),
                    Err(e) => Err(prefixed("Result ok branch: ", e)),
                }
            } else if str_eq(tag.as_str(), "err") {
                match validate_type(payload, &TypeAnnotation::ExitCode) {
                    Ok(w) => Ok(Val::Sum(to_owned_string("err"), Box::new(w))),
                    Err(e) => Err(prefixed("Result err branch: ", e)),
                }
            } else {
                Err(around("type mismatch: Result expects ok/err tags, got \"", tag.as_str(), "\""))
            }
        },
        (Val::Sum(tag, payload), TypeAnnotation::Maybe(inner)) => {
            if str_eq(tag.as_str(), "ok") {
                match validate_type(payload, inner) {
                    Ok(w) => Ok(Val::Sum(to_owned_string("ok"), Box::new(w))),
                    Err(e) => Err(prefixed("Maybe ok branch: ", e)),
                }
            } else if str_eq(tag.as_str(), "none") {
                match validate_type(payload, &TypeAnnotation::Unit) {
                    Ok(w) => Ok(Val::Sum(to_owned_string("none"), Box::new(w))),
                    Err(e) => Err(prefixed("Maybe none branch: ", e)),
                }
            } else {
                Err(around("type mismatch: Maybe expects ok/none tags, got \"", tag.as_str(), "\""))
            }
        },
        (Val::Int(_), TypeAnnotation::Str) => Ok(Val::Str(val.to_string())),
        (Val::Bool(_), TypeAnnotation::Str) => Ok(Val::Str(val.to_string())),
        (Val::Path(p), TypeAnnotation::Str) => Ok(Val::Str(p.clone())),
        (Val::ExitCode(_), TypeAnnotation::Str) => Ok(Val::Str(val.to_string())),
        _ => Err(mismatch_message(val, ann)),
    }
}

pub proof fn lemma_types_model(s: Seq<TypeAnnotation>)
    ensures
        types_model(s).len() == s.len(),
        forall|i: int| 0 <= i < s.len() ==> #[trigger] types_model(s)[i] == s[i]@,
    decreases s.len(),
{
    if s.len() > 0 {
        lemma_types_model(s.drop_last());
        assert forall|i: int| 0 <= i < s.len() implies #[trigger] types_model(s)[i] == s[i]@ by {
            if i < s.len() - 1 {
                assert(s.drop_last()[i] == s[i]);
            }
        }
    }
}


// ── Laws ───────────────────────────────────────────────────────

/// The annotation that the payload of a sum tagged `tag` is validated
/// against under `t` (a Result or Maybe), if the tag is one it allows.
pub open spec fn payload_ann(tag: Seq<char>, t: SpecType) -> Option<SpecType> {
    match t {
        SpecType::Result(inner) => if tag == "ok"@ {
            Some(*inner)
        } else if tag == "err"@ {
            Some(SpecType::ExitCode)
        } else {
            None
        },
        SpecType::Maybe(inner) => if tag == "ok"@ {
            Some(*inner)
        } else if tag == "none"@ {
            Some(SpecType::Unit)
        } else {
            None
        },
        _ => None,
    }
}

proof fn lemma_sum_validation(tag: Seq<char>, p: SpecVal, t: SpecType)
    requires
        t is Result || t is Maybe,
    ensures
        validate_spec(SpecVal::Sum(tag, Box::new(p)), t) is Ok <==> (payload_ann(tag, t) matches Some(
            pt,
        ) && validate_spec(p, pt) is Ok),
        validate_spec(SpecVal::Sum(tag, Box::new(p)), t) is Ok ==> validate_spec(
            SpecVal::Sum(tag, Box::new(p)),
            t,
        )->Ok_0 == SpecVal::Sum(tag, Box::new(validate_spec(p, payload_ann(tag, t)->0)->Ok_0)),
{
    reveal_strlit("ok");
    reveal_strlit("err");
    reveal_strlit("none");
}

/// If the first `i` branches reject `v` and branch `i` accepts it, the
/// union gives that branch's result.
proof fn lemma_union_at(v: SpecVal, bs: Seq<SpecType>, i: int)
    requires
        0 <= i < bs.len(),
        forall|j: int| 0 <= j < i ==> (#[trigger] validate_spec(v, bs[j])) is Err,
        validate_spec(v, bs[i]) is Ok,
    ensures
        validate_union(v, bs) == Some(validate_spec(v, bs[i])->Ok_0),
    decreases i,
{
    if i > 0 {
        let rest = bs.drop_first();
        assert(validate_spec(v, bs[0]) is Err);
        assert forall|j: int| 0 <= j < i - 1 implies (#[trigger] validate_spec(v, rest[j])) is Err by {
            assert(rest[j] == bs[j + 1]);
        }
        assert(rest[i - 1] == bs[i]);
        lemma_union_at(v, rest, i - 1);
    }
}

/// Validation only gives values that it would have accepted in the first
/// place: whatever accepts the validated value accepts the original.
proof fn lemma_accepts_origin(v: SpecVal, t: SpecType, t2: SpecType)
    requires
        validate_spec(v, t) is Ok,
        validate_spec(validate_spec(v, t)->Ok_0, t2) is Ok,
    ensures
        validate_spec(v, t2) is Ok,
    decreases v, t, t2,
{
    let w = validate_spec(v, t)->Ok_0;
    if let SpecType::Union(bs) = t {
        law_union_first_match(v, bs);
        let i = choose|i: int|
            0 <= i < bs.len() && (forall|j: int| 0 <= j < i ==> (#[trigger] validate_spec(v, bs[j])) is Err)
                && validate_spec(v, bs[i]) == validate_spec(v, SpecType::Union(bs));
        assert(decreases_to!(t => bs[i]));
        lemma_accepts_origin(v, bs[i], t2);
    } else if let SpecType::Union(bs2) = t2 {
        law_union_first_match(w, bs2);
        let j = choose|j: int| 0 <= j < bs2.len() && (#[trigger] validate_spec(w, bs2[j])) is Ok;
        assert(decreases_to!(t2 => bs2[j]));
        lemma_accepts_origin(v, t, bs2[j]);
        law_union_first_match(v, bs2);
    } else {
        match (v, t) {
            (SpecVal::List(items), SpecType::List(Some(elem))) => {
                if let SpecType::List(Some(elem2)) = t2 {
                    lemma_items_accept_origin(items, *elem, *elem2);
                }
            },
            (SpecVal::Tuple(items), SpecType::Tuple(anns)) => {
                if let SpecType::Tuple(anns2) = t2 {
                    lemma_tuple_len(items, anns);
                    lemma_tuple_accept_origin(items, anns, anns2);
                }
            },
            (SpecVal::Sum(tag, p), SpecType::Result(_)) => {
                lemma_sum_validation(tag, *p, t);
                if t2 is Result || t2 is Maybe {
                    let pt = payload_ann(tag, t)->0;
                    lemma_sum_validation(tag, validate_spec(*p, pt)->Ok_0, t2);
                    lemma_sum_validation(tag, *p, t2);
                    lemma_accepts_origin(*p, pt, payload_ann(tag, t2)->0);
                }
            },
            (SpecVal::Sum(tag, p), SpecType::Maybe(_)) => {
                lemma_sum_validation(tag, *p, t);
                if t2 is Result || t2 is Maybe {
                    let pt = payload_ann(tag, t)->0;
                    lemma_sum_validation(tag, validate_spec(*p, pt)->Ok_0, t2);
                    lemma_sum_validation(tag, *p, t2);
                    lemma_accepts_origin(*p, pt, payload_ann(tag, t2)->0);
                }
            },
            _ => {},
        }
    }
}

proof fn lemma_items_accept_origin(items: Seq<SpecVal>, e: SpecType, e2: SpecType)
    requires
        validate_items(items, e) is Ok,
        validate_items(validate_items(items, e)->Ok_0, e2) is Ok,
    ensures
        validate_items(items, e2) is Ok,
    decreases items, e, e2,
{
    if items.len() > 0 {
        let ws = validate_items(items, e)->Ok_0;
        let w = validate_spec(items[0], e)->Ok_0;
        let rest = validate_items(items.drop_first(), e)->Ok_0;
        assert(ws == seq![w] + rest);
        assert(ws[0] == w);
        assert(ws.drop_first() =~= rest);
        lemma_accepts_origin(items[0], e, e2);
        lemma_items_accept_origin(items.drop_first(), e, e2);
    }
}

proof fn lemma_tuple_len(items: Seq<SpecVal>, anns: Seq<SpecType>)
    requires
        items.len() == anns.len(),
        validate_tuple(items, anns) is Ok,
    ensures
        validate_tuple(items, anns)->Ok_0.len() == items.len(),
    decreases items, anns,
{
    if items.len() > 0 {
        lemma_tuple_len(items.drop_first(), anns.drop_first());
    }
}

proof fn lemma_tuple_accept_origin(items: Seq<SpecVal>, anns: Seq<SpecType>, anns2: Seq<SpecType>)
    requires
        items.len() == anns.len(),
        items.len() == anns2.len(),
        validate_tuple(items, anns) is Ok,
        validate_tuple(validate_tuple(items, anns)->Ok_0, anns2) is Ok,
    ensures
        validate_tuple(items, anns2) is Ok,
    decreases items, anns, anns2,
{
    if items.len() > 0 {
        let ws = validate_tuple(items, anns)->Ok_0;
        let w = validate_spec(items[0], anns[0])->Ok_0;
        let rest = validate_tuple(items.drop_first(), anns.drop_first())->Ok_0;
        assert(ws == seq![w] + rest);
        assert(ws[0] == w);
        assert(ws.drop_first() =~= rest);
        lemma_accepts_origin(items[0], anns[0], anns2[0]);
        lemma_tuple_accept_origin(items.drop_first(), anns.drop_first(), anns2.drop_first());
    }
}

/// Validation is idempotent: a value that passed validation passes
/// again, unchanged.
pub proof fn law_validate_idempotent(v: SpecVal, t: SpecType)
    requires
        validate_spec(v, t) is Ok,
    ensures
        validate_spec(validate_spec(v, t)->Ok_0, t) == validate_spec(v, t),
    decreases v, t,
{
    reveal_strlit("ok");
    reveal_strlit("err");
    reveal_strlit("none");
    reveal_strlit("true");
    reveal_strlit("false");
    if let SpecType::Union(bs) = t {
        law_union_first_match(v, bs);
        let i = choose|i: int|
            0 <= i < bs.len() && (forall|j: int| 0 <= j < i ==> (#[trigger] validate_spec(v, bs[j])) is Err)
                && validate_spec(v, bs[i]) == validate_spec(v, SpecType::Union(bs));
        let w = validate_spec(v, bs[i])->Ok_0;
        assert(decreases_to!(t => bs[i]));
        law_validate_idempotent(v, bs[i]);
        assert forall|j: int| 0 <= j < i implies (#[trigger] validate_spec(w, bs[j])) is Err by {
            assert(validate_spec(v, bs[j]) is Err);
            if validate_spec(w, bs[j]) is Ok {
                lemma_accepts_origin(v, bs[i], bs[j]);
            }
        }
        lemma_union_at(w, bs, i);
    } else {
        match (v, t) {
            (SpecVal::List(items), SpecType::List(Some(elem))) => {
                lemma_items_idempotent(items, *elem);
            },
            (SpecVal::Tuple(items), SpecType::Tuple(anns)) => {
                lemma_tuple_idempotent(items, anns);
            },
            (SpecVal::Sum(tag, payload), SpecType::Result(inner)) => {
                if tag == "ok"@ {
                    law_validate_idempotent(*payload, *inner);
                } else {
                    law_validate_idempotent(*payload, SpecType::ExitCode);
                }
            },
            (SpecVal::Sum(tag, payload), SpecType::Maybe(inner)) => {
                if tag == "ok"@ {
                    law_validate_idempotent(*payload, *inner);
                } else {
                    law_validate_idempotent(*payload, SpecType::Unit);
                }
            },
            _ => {},
        }
    }
}

proof fn lemma_items_idempotent(items: Seq<SpecVal>, elem: SpecType)
    requires
        validate_items(items, elem) is Ok,
    ensures
        validate_items(validate_items(items, elem)->Ok_0, elem) == validate_items(items, elem),
        validate_items(items, elem)->Ok_0.len() == items.len(),
    decreases items, elem,
{
    if items.len() > 0 {
        law_validate_idempotent(items[0], elem);
        lemma_items_idempotent(items.drop_first(), elem);
        let ws = validate_items(items, elem)->Ok_0;
        let w = validate_spec(items[0], elem)->Ok_0;
        let rest = validate_items(items.drop_first(), elem)->Ok_0;
        assert(ws == seq![w] + rest);
        assert(ws[0] == w);
        assert(ws.drop_first() =~= rest);
    }
}

proof fn lemma_tuple_idempotent(items: Seq<SpecVal>, anns: Seq<SpecType>)
    requires
        validate_tuple(items, anns) is Ok,
        items.len() == anns.len(),
    ensures
        validate_tuple(validate_tuple(items, anns)->Ok_0, anns) == validate_tuple(items, anns),
        validate_tuple(items, anns)->Ok_0.len() == items.len(),
    decreases items, anns,
{
    if items.len() > 0 {
        law_validate_idempotent(items[0], anns[0]);
        lemma_tuple_idempotent(items.drop_first(), anns.drop_first());
        let ws = validate_tuple(items, anns)->Ok_0;
        let w = validate_spec(items[0], anns[0])->Ok_0;
        let rest = validate_tuple(items.drop_first(), anns.drop_first())->Ok_0;
        assert(ws == seq![w] + rest);
        assert(ws[0] == w);
        assert(ws.drop_first() =~= rest);
    }
}

proof fn lemma_items_elementwise(items: Seq<SpecVal>, elem: SpecType)
    requires
        validate_items(items, elem) is Ok,
    ensures
        validate_items(items, elem)->Ok_0.len() == items.len(),
        forall|k: int|
            0 <= k < items.len() ==> (#[trigger] validate_spec(items[k], elem)) is Ok
                && validate_items(items, elem)->Ok_0[k] == validate_spec(items[k], elem)->Ok_0,
    decreases items.len(),
{
    if items.len() > 0 {
        let rest = items.drop_first();
        lemma_items_elementwise(rest, elem);
        let ws = validate_items(items, elem)->Ok_0;
        assert forall|k: int| 0 <= k < items.len() implies (#[trigger] validate_spec(items[k], elem)) is Ok
            && ws[k] == validate_spec(items[k], elem)->Ok_0 by {
            if k > 0 {
                assert(items[k] == rest[k - 1]);
            }
        }
    }
}

/// What validation gives, by annotation: a value of the annotated sort for
/// a simple annotation, and for `List[T]` a list of the same length whose
/// elements are the elements validated against `T`.
pub proof fn law_validate_shape(v: SpecVal, t: SpecType)
    requires
        validate_spec(v, t) is Ok,
    ensures
        (t is Unit || t is Bool || t is Int || t is Str || t is Path || t is ExitCode) ==> val_sort_name(
            validate_spec(v, t)->Ok_0,
        ) == ann_name(t),
        t matches SpecType::List(Some(e)) ==> (v matches SpecVal::List(items) && validate_spec(v, t)->Ok_0 matches SpecVal::List(ws)
            && ws.len() == items.len() && forall|k: int|
            0 <= k < items.len() ==> (#[trigger] validate_spec(items[k], *e)) is Ok && ws[k]
                == validate_spec(items[k], *e)->Ok_0),
{
    if let SpecType::List(Some(e)) = t {
        if let SpecVal::List(items) = v {
            lemma_items_elementwise(items, *e);
        }
    }
}

/// A union accepts a value exactly when one of its branches does, and
/// then gives the result of the first branch that does.
pub proof fn law_union_first_match(v: SpecVal, bs: Seq<SpecType>)
    ensures
        validate_spec(v, SpecType::Union(bs)) is Ok <==> exists|i: int|
            0 <= i < bs.len() && (#[trigger] validate_spec(v, bs[i])) is Ok,
        validate_spec(v, SpecType::Union(bs)) is Ok ==> exists|i: int|
            0 <= i < bs.len() && (forall|j: int| 0 <= j < i ==> (#[trigger] validate_spec(v, bs[j])) is Err)
                && validate_spec(v, bs[i]) == validate_spec(v, SpecType::Union(bs)),
    decreases bs.len(),
{
    if bs.len() > 0 {
        law_union_first_match(v, bs.drop_first());
        let rest = bs.drop_first();
        if validate_spec(v, bs[0]) is Ok {
            assert(validate_spec(v, bs[0]) == validate_spec(v, SpecType::Union(bs)));
            assert(forall|j: int| 0 <= j < 0 ==> (#[trigger] validate_spec(v, bs[j])) is Err);
        } else {
            assert(validate_union(v, bs) == validate_union(v, rest));
            if exists|i: int| 0 <= i < bs.len() && (#[trigger] validate_spec(v, bs[i])) is Ok {
                let i = choose|i: int| 0 <= i < bs.len() && (#[trigger] validate_spec(v, bs[i])) is Ok;
                assert(rest[i - 1] == bs[i]);
            }
            if validate_spec(v, SpecType::Union(rest)) is Ok {
                let i = choose|i: int|
                    0 <= i < rest.len() && (forall|j: int| 0 <= j < i ==> (#[trigger] validate_spec(v, rest[j])) is Err)
                        && validate_spec(v, rest[i]) == validate_spec(v, SpecType::Union(rest));
                assert(rest[i] == bs[i + 1]);
                assert forall|j: int| 0 <= j < i + 1 implies (#[trigger] validate_spec(v, bs[j])) is Err by {
                    if j > 0 {
                        assert(bs[j] == rest[j - 1]);
                    }
                }
            }
        }
    }
}

} // verus!
