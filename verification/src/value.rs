//! Runtime values for psh.
//!
//! A typed value model extending rc's list-of-strings heritage: atoms
//! (Unit, Bool, Int, Str, Path, ExitCode), lists, one product
//! constructor (Tuple), one coproduct constructor (Sum) and suspended
//! computations (Thunk).  Lists are first-class, concatenation is
//! pairwise or broadcast, and truth is non-emptiness.
//!
//! Paths are held as their text.

use vstd::prelude::*;

use crate::ast::{Command, SpecCommand, commands_model, copy_commands};
use crate::text::{
    chars_of, dec_int, dec_nat, lemma_dec_nat_digits, lemma_digits_canonical, lemma_parse_dec_int, parse_i64, parse_i64_spec,
    push_char, push_decimal_i64, push_str, str_eq, to_owned_string,
};

verus! {

broadcast use vstd::string::group_string_axioms;

/// A psh value — typed, with rc-heritage list semantics.
#[derive(Debug, PartialEq)]
pub enum Val {
    /// The empty value — false, zero-length, displays as "".
    Unit,
    /// Boolean value.
    Bool(bool),
    /// 64-bit signed integer.
    Int(i64),
    /// String value (the rc default).
    Str(String),
    /// Filesystem path, held as its text.
    Path(String),
    /// Reified computation outcome. ExitCode(0) is true (success).
    ExitCode(i32),
    /// Heterogeneous list.
    List(Vec<Val>),
    /// Product type: `(42, 7)`.
    Tuple(Vec<Val>),
    /// Coproduct type — tag + payload.
    Sum(String, Box<Val>),
    /// Suspended computation with named parameters and captured values.
    Thunk { params: Vec<String>, body: Vec<Command>, captures: Vec<(String, Val)> },
}

/// The mathematical model of a value.
pub enum SpecVal {
    Unit,
    Bool(bool),
    Int(i64),
    Str(Seq<char>),
    Path(Seq<char>),
    ExitCode(i32),
    List(Seq<SpecVal>),
    Tuple(Seq<SpecVal>),
    Sum(Seq<char>, Box<SpecVal>),
    Thunk { params: Seq<Seq<char>>, body: Seq<SpecCommand>, captures: Seq<(Seq<char>, SpecVal)> },
}

pub open spec fn strings_model(s: Seq<String>) -> Seq<Seq<char>> {
    s.map_values(|x: String| x@)
}

pub open spec fn val_model(v: Val) -> SpecVal
    decreases v,
{
    match v {
        Val::Unit => SpecVal::Unit,
        Val::Bool(b) => SpecVal::Bool(b),
        Val::Int(n) => SpecVal::Int(n),
        Val::Str(s) => SpecVal::Str(s@),
        Val::Path(p) => SpecVal::Path(p@),
        Val::ExitCode(c) => SpecVal::ExitCode(c),
        Val::List(vs) => SpecVal::List(vals_model(vs@)),
        Val::Tuple(vs) => SpecVal::Tuple(vals_model(vs@)),
        Val::Sum(t, p) => SpecVal::Sum(t@, Box::new(val_model(*p))),
        Val::Thunk { params, body, captures } => SpecVal::Thunk {
            params: strings_model(params@),
            body: commands_model(body@),
            captures: captures_model(captures@),
        },
    }
}

pub open spec fn vals_model(s: Seq<Val>) -> Seq<SpecVal>
    decreases s,
{
    if s.len() == 0 {
        Seq::empty()
    } else {
        vals_model(s.drop_last()).push(val_model(s.last()))
    }
}

pub open spec fn captures_model(s: Seq<(String, Val)>) -> Seq<(Seq<char>, SpecVal)>
    decreases s,
{
    if s.len() == 0 {
        Seq::empty()
    } else {
        captures_model(s.drop_last()).push((s.last().0@, val_model(s.last().1)))
    }
}

impl View for Val {
    type V = SpecVal;

    open spec fn view(&self) -> SpecVal {
        val_model(*self)
    }
}

pub proof fn lemma_vals_model(s: Seq<Val>)
    ensures
        vals_model(s).len() == s.len(),
        forall|i: int| 0 <= i < s.len() ==> #[trigger] vals_model(s)[i] == val_model(s[i]),
    decreases s.len(),
{
    if s.len() > 0 {
        lemma_vals_model(s.drop_last());
        assert forall|i: int| 0 <= i < s.len() implies #[trigger] vals_model(s)[i] == val_model(s[i]) by {
            if i < s.len() - 1 {
                assert(s.drop_last()[i] == s[i]);
            }
        }
    }
}

// ── Deep copies ────────────────────────────────────────────────

/// Deep copy of a value.
pub fn copy_val(v: &Val) -> (r: Val)
    ensures
        r@ == v@,
    decreases v,
{
    match v {
        Val::Unit => Val::Unit,
        Val::Bool(b) => Val::Bool(*b),
        Val::Int(n) => Val::Int(*n),
        Val::Str(s) => Val::Str(s.clone()),
        Val::Path(p) => Val::Path(p.clone()),
        Val::ExitCode(c) => Val::ExitCode(*c),
        Val::List(vs) => Val::List(copy_vals(vs)),
        Val::Tuple(vs) => Val::Tuple(copy_vals(vs)),
        Val::Sum(t, p) => Val::Sum(t.clone(), Box::new(copy_val(p))),
        Val::Thunk { params, body, captures } => Val::Thunk {
            params: copy_strings(params),
            body: copy_commands(body),
            captures: copy_captures(captures),
        },
    }
}

/// Deep copy of a vector of values.
pub fn copy_vals(v: &Vec<Val>) -> (r: Vec<Val>)
    ensures
        vals_model(r@) == vals_model(v@),
    decreases v,
{
    let mut out: Vec<Val> = Vec::new();
    let mut i: usize = 0;
    while i < v.len()
        invariant
            i <= v.len(),
            vals_model(out@) == vals_model(v@.take(i as int)),
        decreases v.len() - i,
    {
        proof { assert(decreases_to!(v => v@[i as int])); }
        let c = copy_val(&v[i]);
        let ghost prev = out@;
        out.push(c);
        proof {
            assert(out@.drop_last() == prev);
            assert(v@.take(i + 1).drop_last() == v@.take(i as int));
        }
        i += 1;
    }
    proof { assert(v@.take(v.len() as int) == v@); }
    out
}

/// Deep copy of captured bindings.
pub fn copy_captures(v: &Vec<(String, Val)>) -> (r: Vec<(String, Val)>)
    ensures
        captures_model(r@) == captures_model(v@),
    decreases v,
{
    let mut out: Vec<(String, Val)> = Vec::new();
    let mut i: usize = 0;
    while i < v.len()
        invariant
            i <= v.len(),
            captures_model(out@) == captures_model(v@.take(i as int)),
        decreases v.len() - i,
    {
        proof { assert(decreases_to!(v => v@[i as int])); }
        let c = (v[i].0.clone(), copy_val(&v[i].1));
        let ghost prev = out@;
        out.push(c);
        proof {
            assert(out@.drop_last() == prev);
            assert(v@.take(i + 1).drop_last() == v@.take(i as int));
        }
        i += 1;
    }
    proof { assert(v@.take(v.len() as int) == v@); }
    out
}

/// Copy of a vector of strings.
pub fn copy_strings(v: &Vec<String>) -> (r: Vec<String>)
    ensures
        r@ == v@,
{
    let mut out: Vec<String> = Vec::new();
    let mut i: usize = 0;
    while i < v.len()
        invariant
            i <= v.len(),
            out@ == v@.take(i as int),
        decreases v.len() - i,
    {
        out.push(v[i].clone());
        proof { assert(v@.take(i + 1) == v@.take(i as int).push(v@[i as int])); }
        i += 1;
    }
    proof { assert(v@.take(v.len() as int) == v@); }
    out
}

// ── Specifications of the value operations ────────────────────

/// The text of a value, as the shell prints it.
pub open spec fn display(v: SpecVal) -> Seq<char>
    decreases v,
{
    match v {
        SpecVal::Unit => Seq::empty(),
        SpecVal::Bool(b) => if b {
            seq!['t', 'r', 'u', 'e']
        } else {
            seq!['f', 'a', 'l', 's', 'e']
        },
        SpecVal::Int(n) => dec_int(n as int),
        SpecVal::Str(s) => s,
        SpecVal::Path(p) => p,
        SpecVal::ExitCode(c) => dec_int(c as int),
        SpecVal::List(vs) => join_display(vs),
        SpecVal::Tuple(vs) => join_display(vs),
        SpecVal::Sum(_, p) => display(*p),
        SpecVal::Thunk { params, .. } => seq!['f', 'n', '('] + join_spaced(params) + seq![
            ')',
            '{',
            '.',
            '.',
            '.',
            '}',
        ],
    }
}

/// The texts of a sequence of values, separated by single spaces.
pub open spec fn join_display(vs: Seq<SpecVal>) -> Seq<char>
    decreases vs,
{
    if vs.len() == 0 {
        Seq::empty()
    } else if vs.len() == 1 {
        display(vs[0])
    } else {
        join_display(vs.drop_last()) + seq![' '] + display(vs.last())
    }
}

/// Strings separated by single spaces.
pub open spec fn join_spaced(ss: Seq<Seq<char>>) -> Seq<char>
    decreases ss.len(),
{
    if ss.len() == 0 {
        Seq::empty()
    } else if ss.len() == 1 {
        ss[0]
    } else {
        join_spaced(ss.drop_last()) + seq![' '] + ss.last()
    }
}

/// Truthiness: non-empty and non-zero / non-false; ExitCode(0) is true.
pub open spec fn truthy(v: SpecVal) -> bool {
    match v {
        SpecVal::Unit => false,
        SpecVal::Bool(b) => b,
        SpecVal::Int(n) => n != 0,
        SpecVal::Str(s) => s.len() > 0,
        SpecVal::Path(p) => p.len() > 0,
        SpecVal::ExitCode(c) => c == 0,
        SpecVal::List(vs) => vs.len() > 0,
        SpecVal::Tuple(_) => true,
        SpecVal::Sum(_, _) => true,
        SpecVal::Thunk { .. } => true,
    }
}

/// Number of elements: 0 for Unit, the length of a list or tuple, 1
/// otherwise.
pub open spec fn count_of(v: SpecVal) -> nat {
    match v {
        SpecVal::Unit => 0,
        SpecVal::List(vs) => vs.len(),
        SpecVal::Tuple(vs) => vs.len(),
        _ => 1,
    }
}

/// 1-based element access: Unit when out of range; scalars index
/// themselves at 1.
pub open spec fn index_of(v: SpecVal, i: int) -> SpecVal {
    match v {
        SpecVal::List(vs) => if 1 <= i <= vs.len() {
            vs[i - 1]
        } else {
            SpecVal::Unit
        },
        SpecVal::Tuple(vs) => if 1 <= i <= vs.len() {
            vs[i - 1]
        } else {
            SpecVal::Unit
        },
        _ => if i == 1 {
            v
        } else {
            SpecVal::Unit
        },
    }
}

/// 0-based tuple projection: Unit when out of range or not a tuple.
pub open spec fn tuple_index_of(v: SpecVal, i: int) -> SpecVal {
    match v {
        SpecVal::Tuple(vs) => if 0 <= i < vs.len() {
            vs[i]
        } else {
            SpecVal::Unit
        },
        _ => SpecVal::Unit,
    }
}

/// The borrowed text of a value: the string itself, "true"/"false" for
/// booleans, and "" for everything else.
pub open spec fn as_str_of(v: SpecVal) -> Seq<char> {
    match v {
        SpecVal::Bool(b) => if b {
            seq!['t', 'r', 'u', 'e']
        } else {
            seq!['f', 'a', 'l', 's', 'e']
        },
        SpecVal::Str(s) => s,
        _ => Seq::empty(),
    }
}

/// The element texts that concatenation works on.
pub open spec fn text_items(v: SpecVal) -> Seq<Seq<char>> {
    match v {
        SpecVal::Unit => Seq::empty(),
        SpecVal::List(vs) => vs.map_values(|x: SpecVal| display(x)),
        SpecVal::Tuple(vs) => vs.map_values(|x: SpecVal| display(x)),
        _ => seq![display(v)],
    }
}

/// Process arguments: elements of lists and tuples, the payload of a sum,
/// the text of anything else, nothing for Unit.
pub open spec fn args_of(v: SpecVal) -> Seq<Seq<char>> {
    match v {
        SpecVal::Unit => Seq::empty(),
        SpecVal::List(vs) => vs.map_values(|x: SpecVal| display(x)),
        SpecVal::Tuple(vs) => vs.map_values(|x: SpecVal| display(x)),
        SpecVal::Sum(_, p) => seq![display(*p)],
        _ => seq![display(v)],
    }
}

/// A value made of strings: a single string stands alone, several form a
/// list.
pub open spec fn strs_value(ss: Seq<Seq<char>>) -> SpecVal {
    if ss.len() == 1 {
        SpecVal::Str(ss[0])
    } else {
        SpecVal::List(ss.map_values(|s: Seq<char>| SpecVal::Str(s)))
    }
}

/// rc's `^`: pairwise when the lengths agree, broadcast when one side is a
/// single string, Unit when either side is empty or the lengths clash.
pub open spec fn concat_of(a: SpecVal, b: SpecVal) -> SpecVal {
    let l = text_items(a);
    let r = text_items(b);
    if l.len() == 0 || r.len() == 0 {
        SpecVal::Unit
    } else if l.len() == r.len() {
        strs_value(Seq::new(l.len(), |i: int| l[i] + r[i]))
    } else if l.len() == 1 {
        strs_value(Seq::new(r.len(), |i: int| l[0] + r[i]))
    } else if r.len() == 1 {
        strs_value(Seq::new(l.len(), |i: int| l[i] + r[0]))
    } else {
        SpecVal::Unit
    }
}

/// The elements a for-loop visits: nothing for Unit, the elements of a
/// list or tuple, the value itself otherwise.
pub open spec fn elements_of(v: SpecVal) -> Seq<SpecVal> {
    match v {
        SpecVal::Unit => Seq::empty(),
        SpecVal::List(vs) => vs,
        SpecVal::Tuple(vs) => vs,
        _ => seq![v],
    }
}

/// Does `s` begin with `p`?
pub open spec fn has_prefix(s: Seq<char>, p: Seq<char>) -> bool {
    p.len() <= s.len() && s.take(p.len() as int) == p
}

/// Numerals with a superfluous leading zero ("042", "-042").
pub open spec fn leading_zero(s: Seq<char>) -> bool {
    if s.len() > 0 && s[0] == '-' {
        s.len() > 2 && s[1] == '0'
    } else {
        s.len() > 1 && s[0] == '0'
    }
}

/// Texts that read as paths: starting with "/", "./", "../" or "~/".
pub open spec fn path_like(s: Seq<char>) -> bool {
    has_prefix(s, seq!['/']) || has_prefix(s, seq!['.', '/']) || has_prefix(s, seq!['.', '.', '/'])
        || has_prefix(s, seq!['~', '/'])
}

/// Type inference for let bindings: "true"/"false" are booleans, numerals
/// without superfluous leading zeros are integers, path-like texts are
/// paths, and everything else is a string.
pub open spec fn infer_of(s: Seq<char>) -> SpecVal {
    if s == seq!['t', 'r', 'u', 'e'] {
        SpecVal::Bool(true)
    } else if s == seq!['f', 'a', 'l', 's', 'e'] {
        SpecVal::Bool(false)
    } else if parse_i64_spec(s) is Some && !leading_zero(s) {
        SpecVal::Int(parse_i64_spec(s)->0)
    } else if path_like(s) {
        SpecVal::Path(s)
    } else {
        SpecVal::Str(s)
    }
}

// ── Display ────────────────────────────────────────────────────

/// Appends the text of `v` to `out`.
pub fn push_display(out: &mut String, v: &Val)
    ensures
        final(out)@ == old(out)@ + display(v@),
    decreases v,
{
    match v {
        Val::Unit => {
            assert(final(out)@ =~= old(out)@ + display(v@));
        },
        Val::Bool(b) => {
            if *b {
                push_str(out, "true");
                proof { reveal_strlit("true"); }
            } else {
                push_str(out, "false");
                proof { reveal_strlit("false"); }
            }
            assert(final(out)@ =~= old(out)@ + display(v@));
        },
        Val::Int(n) => push_decimal_i64(out, *n),
        Val::Str(s) => push_str(out, s.as_str()),
        Val::Path(p) => push_str(out, p.as_str()),
        Val::ExitCode(c) => push_decimal_i64(out, *c as i64),
        Val::List(vs) => push_joined(out, vs),
        Val::Tuple(vs) => push_joined(out, vs),
        Val::Sum(_, p) => push_display(out, p),
        Val::Thunk { params, .. } => {
            push_str(out, "fn(");
            let mut i: usize = 0;
            let ghost start = out@;
            let ghost ps = strings_model(params@);
            while i < params.len()
                invariant
                    i <= params.len(),
                    ps == strings_model(params@),
                    out@ == start + join_spaced(ps.take(i as int)),
                decreases params.len() - i,
            {
                if i > 0 {
                    push_char(out, ' ');
                }
                push_str(out, params[i].as_str());
                proof {
                    assert(ps.take(i + 1).drop_last() == ps.take(i as int));
                    if i == 0 {
                        assert(join_spaced(ps.take(1)) == ps[0]);
                    }
                }
                i += 1;
            }
            proof { assert(ps.take(params.len() as int) == ps); }
            push_str(out, "){...}");
            proof {
                reveal_strlit("fn(");
                reveal_strlit("){...}");
            }
            assert(final(out)@ =~= old(out)@ + display(v@));
        },
    }
}

/// Appends the texts of `vs`, separated by single spaces.
pub fn push_joined(out: &mut String, vs: &Vec<Val>)
    ensures
        final(out)@ == old(out)@ + join_display(vals_model(vs@)),
    decreases vs,
{
    let ghost start = out@;
    let mut i: usize = 0;
    while i < vs.len()
        invariant
            i <= vs.len(),
            out@ == start + join_display(vals_model(vs@.take(i as int))),
        decreases vs.len() - i,
    {
        proof { assert(decreases_to!(vs => vs@[i as int])); }
        if i > 0 {
            push_char(out, ' ');
        }
        push_display(out, &vs[i]);
        proof {
            let t = vs@.take(i + 1);
            assert(t.drop_last() == vs@.take(i as int));
            lemma_vals_model(t);
            assert(vals_model(t).drop_last() == vals_model(vs@.take(i as int)));
            if i == 0 {
                assert(vals_model(t)[0] == val_model(vs@[0]));
            }
        }
        i += 1;
    }
    proof { assert(vs@.take(vs.len() as int) == vs@); }
}

impl Val {
    /// The empty value — false.
    pub fn empty() -> (r: Val)
        ensures
            r@ == SpecVal::Unit,
    {
        Val::Unit
    }

    /// A single string value.
    pub fn scalar(s: &str) -> (r: Val)
        ensures
            r@ == SpecVal::Str(s@),
    {
        Val::Str(to_owned_string(s))
    }

    /// A list of string values; Unit when there are none.
    pub fn list(items: &[&str]) -> (r: Val)
        ensures
            items@.len() == 0 ==> r@ == SpecVal::Unit,
            items@.len() > 0 ==> r@ == SpecVal::List(
                items@.map_values(|s: &str| SpecVal::Str(s@)),
            ),
    {
        let mut v: Vec<Val> = Vec::new();
        let mut i: usize = 0;
        let ghost target = items@.map_values(|s: &str| SpecVal::Str(s@));
        while i < items.len()
            invariant
                i <= items.len(),
                target == items@.map_values(|s: &str| SpecVal::Str(s@)),
                vals_model(v@) == target.take(i as int),
            decreases items.len() - i,
        {
            let ghost prev = v@;
            v.push(Val::Str(to_owned_string(items[i])));
            proof {
                assert(v@.drop_last() == prev);
                assert(vals_model(v@) == vals_model(prev).push(val_model(v@.last())));
                assert(target.take(i + 1) == target.take(i as int).push(target[i as int]));
            }
            i += 1;
        }
        proof { assert(target.take(items.len() as int) == target); }
        if v.len() == 0 {
            Val::Unit
        } else {
            Val::List(v)
        }
    }

    /// A list of owned strings; Unit when there are none.
    pub fn from_strings(items: Vec<String>) -> (r: Val)
        ensures
            items@.len() == 0 ==> r@ == SpecVal::Unit,
            items@.len() > 0 ==> r@ == SpecVal::List(
                strings_model(items@).map_values(|s: Seq<char>| SpecVal::Str(s)),
            ),
    {
        let mut v: Vec<Val> = Vec::new();
        let mut i: usize = 0;
        let ghost target = strings_model(items@).map_values(|s: Seq<char>| SpecVal::Str(s));
        while i < items.len()
            invariant
                i <= items.len(),
                target == strings_model(items@).map_values(|s: Seq<char>| SpecVal::Str(s)),
                vals_model(v@) == target.take(i as int),
            decreases items.len() - i,
        {
            let ghost prev = v@;
            v.push(Val::Str(items[i].clone()));
            proof {
                assert(v@.drop_last() == prev);
                assert(vals_model(v@) == vals_model(prev).push(val_model(v@.last())));
                assert(target.take(i + 1) == target.take(i as int).push(target[i as int]));
            }
            i += 1;
        }
        proof { assert(target.take(items.len() as int) == target); }
        if v.len() == 0 {
            Val::Unit
        } else {
            Val::List(v)
        }
    }

    /// Is this value true? Non-empty and non-zero/non-false = true;
    /// ExitCode(0) is true.
    pub fn is_true(&self) -> (r: bool)
        ensures
            r == truthy(self@),
    {
        match self {
            Val::Unit => false,
            Val::Bool(b) => *b,
            Val::Int(n) => *n != 0,
            Val::Str(s) => !s.as_str().is_empty(),
            Val::Path(p) => !p.as_str().is_empty(),
            Val::ExitCode(code) => *code == 0,
            Val::List(v) => {
                proof { lemma_vals_model(v@); }
                v.len() != 0
            },
            Val::Tuple(_) => true,
            Val::Sum(_, _) => true,
            Val::Thunk { .. } => true,
        }
    }

    /// Number of elements. Scalars return 1 (Unit returns 0).
    pub fn count(&self) -> (r: usize)
        ensures
            r == count_of(self@),
    {
        match self {
            Val::Unit => 0,
            Val::List(v) => {
                proof { lemma_vals_model(v@); }
                v.len()
            },
            Val::Tuple(v) => {
                proof { lemma_vals_model(v@); }
                v.len()
            },
            _ => 1,
        }
    }

    /// Index (1-based, rc convention). Returns Unit on out-of-bounds.
    /// Scalars self-index at 1.
    pub fn index(&self, i: usize) -> (r: Val)
        ensures
            r@ == index_of(self@, i as int),
    {
        match self {
            Val::List(v) | Val::Tuple(v) => {
                proof { lemma_vals_model(v@); }
                if 1 <= i && i <= v.len() {
                    copy_val(&v[i - 1])
                } else {
                    Val::Unit
                }
            },
            _ => {
                if i == 1 {
                    copy_val(self)
                } else {
                    Val::Unit
                }
            },
        }
    }

    /// 0-based tuple projection. Unit on out-of-bounds or non-Tuple.
    pub fn tuple_index(&self, i: usize) -> (r: Val)
        ensures
            r@ == tuple_index_of(self@, i as int),
    {
        match self {
            Val::Tuple(v) => {
                proof { lemma_vals_model(v@); }
                if i < v.len() {
                    copy_val(&v[i])
                } else {
                    Val::Unit
                }
            },
            _ => Val::Unit,
        }
    }

    /// As a single string (for contexts expecting a scalar).
    pub fn as_str(&self) -> (r: &str)
        ensures
            r@ == as_str_of(self@),
    {
        proof {
            reveal_strlit("");
            reveal_strlit("true");
            reveal_strlit("false");
        }
        match self {
            Val::Unit => "",
            Val::Bool(true) => "true",
            Val::Bool(false) => "false",
            Val::Str(s) => s.as_str(),
            _ => "",
        }
    }

    /// The text of the value.
    pub fn to_string(&self) -> (r: String)
        ensures
            r@ == display(self@),
    {
        let mut s = String::new();
        push_display(&mut s, self);
        s
    }
}


/// Concatenation of two strings.
fn join_two(a: &String, b: &String) -> (r: String)
    ensures
        r@ == a@ + b@,
{
    let mut r = a.clone();
    push_str(&mut r, b.as_str());
    r
}

/// A value made of strings: one stands alone, several form a list.
fn strs_to_val(ss: Vec<String>) -> (r: Val)
    requires
        ss@.len() > 0,
    ensures
        r@ == strs_value(strings_model(ss@)),
{
    if ss.len() == 1 {
        let mut ss = ss;
        let s = ss.pop().unwrap();
        return Val::Str(s);
    }
    let mut v: Vec<Val> = Vec::new();
    let mut i: usize = 0;
    let ghost target = strings_model(ss@).map_values(|s: Seq<char>| SpecVal::Str(s));
    while i < ss.len()
        invariant
            i <= ss.len(),
            target == strings_model(ss@).map_values(|s: Seq<char>| SpecVal::Str(s)),
            vals_model(v@) == target.take(i as int),
        decreases ss.len() - i,
    {
        let ghost prev = v@;
        v.push(Val::Str(ss[i].clone()));
        proof {
            assert(v@.drop_last() == prev);
            assert(vals_model(v@) == vals_model(prev).push(val_model(v@.last())));
            assert(target.take(i + 1) == target.take(i as int).push(target[i as int]));
        }
        i += 1;
    }
    proof { assert(target.take(ss.len() as int) == target); }
    Val::List(v)
}

/// The texts of the elements of a list or tuple.
fn texts_of_elements(vs: &Vec<Val>) -> (r: Vec<String>)
    ensures
        strings_model(r@) == vals_model(vs@).map_values(|x: SpecVal| display(x)),
{
    proof { lemma_vals_model(vs@); }
    let ghost target = vals_model(vs@).map_values(|x: SpecVal| display(x));
    let mut out: Vec<String> = Vec::new();
    let mut i: usize = 0;
    while i < vs.len()
        invariant
            i <= vs.len(),
            vals_model(vs@).len() == vs@.len(),
            forall|k: int| 0 <= k < vs@.len() ==> #[trigger] vals_model(vs@)[k] == val_model(vs@[k]),
            target == vals_model(vs@).map_values(|x: SpecVal| display(x)),
            out@.len() == i,
            forall|k: int| 0 <= k < i ==> #[trigger] out@[k]@ == target[k],
        decreases vs.len() - i,
    {
        out.push(vs[i].to_string());
        i += 1;
    }
    proof { assert(strings_model(out@) =~= target); }
    out
}

impl Val {
    /// Flatten to the element texts that concatenation works on.
    fn to_string_vec(&self) -> (r: Vec<String>)
        ensures
            strings_model(r@) == text_items(self@),
    {
        match self {
            Val::Unit => {
                let r: Vec<String> = Vec::new();
                proof { assert(strings_model(r@) =~= Seq::<Seq<char>>::empty()); }
                r
            },
            Val::List(v) => texts_of_elements(v),
            Val::Tuple(v) => texts_of_elements(v),
            _ => {
                let mut r: Vec<String> = Vec::new();
                r.push(self.to_string());
                proof { assert(strings_model(r@) =~= seq![display(self@)]); }
                r
            },
        }
    }

    /// Concatenate with another value (rc's ^ operator): pairwise when the
    /// element counts agree, broadcast when one side has one element,
    /// Unit when either side is empty or the counts clash.
    pub fn concat(&self, other: &Val) -> (r: Val)
        ensures
            r@ == concat_of(self@, other@),
    {
        let left = self.to_string_vec();
        let right = other.to_string_vec();
        let ghost l = strings_model(left@);
        let ghost rt = strings_model(right@);
        if left.len() == 0 || right.len() == 0 {
            return Val::Unit;
        }
        let n: usize = if left.len() == right.len() || right.len() == 1 {
            left.len()
        } else if left.len() == 1 {
            right.len()
        } else {
            return Val::Unit;
        };
        let ghost target: Seq<Seq<char>> = if left.len() == right.len() {
            Seq::new(l.len(), |i: int| l[i] + rt[i])
        } else if left.len() == 1 {
            Seq::new(rt.len(), |i: int| l[0] + rt[i])
        } else {
            Seq::new(l.len(), |i: int| l[i] + rt[0])
        };
        let mut out: Vec<String> = Vec::new();
        let mut i: usize = 0;
        while i < n
            invariant
                i <= n,
                l == strings_model(left@),
                rt == strings_model(right@),
                left.len() > 0,
                right.len() > 0,
                left.len() == right.len() ==> n == left.len(),
                left.len() != right.len() && left.len() == 1 ==> n == right.len(),
                left.len() != right.len() && left.len() != 1 ==> right.len() == 1 && n == left.len(),
                target.len() == n,
                left.len() == right.len() ==> target == Seq::new(l.len(), |k: int| l[k] + rt[k]),
                left.len() != right.len() && left.len() == 1 ==> target == Seq::new(
                    rt.len(),
                    |k: int| l[0] + rt[k],
                ),
                left.len() != right.len() && left.len() != 1 ==> target == Seq::new(
                    l.len(),
                    |k: int| l[k] + rt[0],
                ),
                out@.len() == i,
                forall|k: int| 0 <= k < i ==> #[trigger] out@[k]@ == target[k],
            decreases n - i,
        {
            let a: usize = if left.len() == 1 { 0 } else { i };
            let b: usize = if right.len() == 1 { 0 } else { i };
            let s = join_two(&left[a], &right[b]);
            out.push(s);
            i += 1;
        }
        proof { assert(strings_model(out@) =~= target); }
        strs_to_val(out)
    }

    /// Flatten to a list of strings for process argv.
    pub fn to_args(&self) -> (r: Vec<String>)
        ensures
            strings_model(r@) == args_of(self@),
    {
        match self {
            Val::Unit => {
                let r: Vec<String> = Vec::new();
                proof { assert(strings_model(r@) =~= Seq::<Seq<char>>::empty()); }
                r
            },
            Val::List(v) | Val::Tuple(v) => texts_of_elements(v),
            Val::Sum(_, payload) => {
                let mut r: Vec<String> = Vec::new();
                r.push(payload.to_string());
                proof { assert(strings_model(r@) =~= args_of(self@)); }
                r
            },
            _ => {
                let mut r: Vec<String> = Vec::new();
                r.push(self.to_string());
                proof { assert(strings_model(r@) =~= args_of(self@)); }
                r
            },
        }
    }

    /// Type inference for let bindings: "true"/"false" → Bool, numerals
    /// without superfluous leading zeros → Int, texts starting with /,
    /// ./, ../ or ~/ → Path, everything else → Str.  Never ExitCode.
    pub fn infer(s: &str) -> (r: Val)
        ensures
            r@ == infer_of(s@),
    {
        proof {
            reveal_strlit("true");
            reveal_strlit("false");
            assert("true"@ =~= seq!['t', 'r', 'u', 'e']);
            assert("false"@ =~= seq!['f', 'a', 'l', 's', 'e']);
        }
        if str_eq(s, "true") {
            return Val::Bool(true);
        }
        if str_eq(s, "false") {
            return Val::Bool(false);
        }
        let cs = chars_of(s);
        if cs.len() == 0 {
            proof { assert(s@ =~= Seq::<char>::empty()); }
            return Val::Str(String::new());
        }
        match parse_i64(cs.as_slice()) {
            Some(n) => {
                let lz = if cs[0] == '-' {
                    cs.len() > 2 && cs[1] == '0'
                } else {
                    cs.len() > 1 && cs[0] == '0'
                };
                if !lz {
                    return Val::Int(n);
                }
            },
            None => {},
        }
        let is_path = cs[0] == '/' || (cs.len() >= 2 && cs[0] == '.' && cs[1] == '/') || (cs.len() >= 3
            && cs[0] == '.' && cs[1] == '.' && cs[2] == '/') || (cs.len() >= 2 && cs[0] == '~' && cs[1]
            == '/');
        proof {
            let t = cs@;
            if t.len() >= 2 {
                assert(has_prefix(t, seq!['.', '/']) == (t[0] == '.' && t[1] == '/')) by {
                    if t[0] == '.' && t[1] == '/' {
                        assert(t.take(2) =~= seq!['.', '/']);
                    }
                    if has_prefix(t, seq!['.', '/']) {
                        assert(t.take(2)[0] == t[0] && t.take(2)[1] == t[1]);
                    }
                }
                assert(has_prefix(t, seq!['~', '/']) == (t[0] == '~' && t[1] == '/')) by {
                    if t[0] == '~' && t[1] == '/' {
                        assert(t.take(2) =~= seq!['~', '/']);
                    }
                    if has_prefix(t, seq!['~', '/']) {
                        assert(t.take(2)[0] == t[0] && t.take(2)[1] == t[1]);
                    }
                }
            }
            if t.len() >= 3 {
                assert(has_prefix(t, seq!['.', '.', '/']) == (t[0] == '.' && t[1] == '.' && t[2]
                    == '/')) by {
                    if t[0] == '.' && t[1] == '.' && t[2] == '/' {
                        assert(t.take(3) =~= seq!['.', '.', '/']);
                    }
                    if has_prefix(t, seq!['.', '.', '/']) {
                        assert(t.take(3)[0] == t[0] && t.take(3)[1] == t[1] && t.take(3)[2] == t[2]);
                    }
                }
            }
            assert(has_prefix(t, seq!['/']) == (t[0] == '/')) by {
                if t[0] == '/' {
                    assert(t.take(1) =~= seq!['/']);
                }
                if has_prefix(t, seq!['/']) {
                    assert(t.take(1)[0] == t[0]);
                }
            }
        }
        if is_path {
            Val::Path(to_owned_string(s))
        } else {
            Val::Str(to_owned_string(s))
        }
    }

    /// The elements a for-loop visits: none for Unit, the elements of a
    /// list or tuple, the value itself otherwise.
    pub fn iter_elements(&self) -> (r: ValIter<'_>)
        ensures
            r.wf(),
            r.remaining() == elements_of(self@),
    {
        match self {
            Val::Unit => ValIter::Empty,
            Val::List(v) | Val::Tuple(v) => {
                proof { assert(vals_model(v@).skip(0) == vals_model(v@)); }
                ValIter::List(v, 0)
            },
            _ => ValIter::Scalar(Some(self)),
        }
    }
}

/// Iterator over the elements of a value.
pub enum ValIter<'a> {
    Empty,
    Scalar(Option<&'a Val>),
    List(&'a Vec<Val>, usize),
}

impl<'a> ValIter<'a> {
    /// The position of a list iterator lies within its list.
    pub open spec fn wf(&self) -> bool {
        match *self {
            ValIter::List(vs, i) => i <= vs@.len(),
            _ => true,
        }
    }

    /// The elements still to come.
    pub open spec fn remaining(&self) -> Seq<SpecVal> {
        match *self {
            ValIter::Empty => Seq::empty(),
            ValIter::Scalar(None) => Seq::empty(),
            ValIter::Scalar(Some(v)) => seq![val_model(*v)],
            ValIter::List(vs, i) => vals_model(vs@).skip(i as int),
        }
    }

    /// The next element, if any.
    pub fn next(&mut self) -> (r: Option<&'a Val>)
        requires
            old(self).wf(),
        ensures
            final(self).wf(),
            old(self).remaining().len() == 0 ==> r is None && final(self).remaining().len() == 0,
            old(self).remaining().len() > 0 ==> r is Some && val_model(*r->0) == old(self).remaining()[0]
                && final(self).remaining() == old(self).remaining().drop_first(),
    {
        match self {
            ValIter::Empty => None,
            ValIter::Scalar(opt) => {
                let r = *opt;
                *opt = None;
                r
            },
            ValIter::List(vs, i) => {
                proof { lemma_vals_model(vs@); }
                if *i < vs.len() {
                    let r = &vs[*i];
                    *i = *i + 1;
                    proof {
                        assert(vals_model(vs@).skip(*i as int) =~= vals_model(vs@).skip(*i - 1).drop_first());
                    }
                    Some(r)
                } else {
                    None
                }
            },
        }
    }
}

impl Clone for Val {
    fn clone(&self) -> (r: Self)
        ensures
            r@ == self@,
    {
        copy_val(self)
    }
}

impl From<String> for Val {
    fn from(s: String) -> (r: Val) {
        Val::Str(s)
    }
}

impl vstd::std_specs::convert::FromSpecImpl<String> for Val {
    open spec fn obeys_from_spec() -> bool {
        true
    }

    open spec fn from_spec(s: String) -> Val {
        Val::Str(s)
    }
}

impl From<bool> for Val {
    fn from(b: bool) -> (r: Val) {
        Val::Bool(b)
    }
}

impl vstd::std_specs::convert::FromSpecImpl<bool> for Val {
    open spec fn obeys_from_spec() -> bool {
        true
    }

    open spec fn from_spec(b: bool) -> Val {
        Val::Bool(b)
    }
}

impl From<i64> for Val {
    fn from(n: i64) -> (r: Val) {
        Val::Int(n)
    }
}

impl vstd::std_specs::convert::FromSpecImpl<i64> for Val {
    open spec fn obeys_from_spec() -> bool {
        true
    }

    open spec fn from_spec(n: i64) -> Val {
        Val::Int(n)
    }
}

impl<'a> From<&'a str> for Val {
    fn from(s: &'a str) -> (r: Val)
        ensures
            r@ == SpecVal::Str(s@),
    {
        Val::scalar(s)
    }
}

impl<'a> vstd::std_specs::convert::FromSpecImpl<&'a str> for Val {
    /// The owned string a slice turns into has no spec-level
    /// constructor; the impl's own `ensures` states the result.
    open spec fn obeys_from_spec() -> bool {
        false
    }

    open spec fn from_spec(s: &'a str) -> Val {
        choose|r: Val| r@ == SpecVal::Str(s@)
    }
}

/// `std::path::PathBuf`, carried through as an opaque value.
#[verifier::external_type_specification]
#[verifier::external_body]
pub struct ExPathBuf(std::path::PathBuf);

/// The text of a path, as `Path::to_string_lossy` gives it: its bytes,
/// with any that are not valid UTF-8 replaced by U+FFFD.
pub uninterp spec fn path_text_of(p: std::path::PathBuf) -> Seq<char>;

/// `Path::to_string_lossy`, made owned: the text of the path, which
/// depends on the path alone.
#[verifier::external_body]
fn path_text(p: std::path::PathBuf) -> (r: String)
    ensures
        r@ == path_text_of(p),
{
    p.to_string_lossy().into_owned()
}

impl From<std::path::PathBuf> for Val {
    /// A path value holding the path's text.
    fn from(p: std::path::PathBuf) -> (r: Val)
        ensures
            r@ == SpecVal::Path(path_text_of(p)),
    {
        Val::Path(path_text(p))
    }
}

impl vstd::std_specs::convert::FromSpecImpl<std::path::PathBuf> for Val {
    /// The owned text has no spec-level constructor; the impl's own
    /// `ensures` states the result.
    open spec fn obeys_from_spec() -> bool {
        false
    }

    open spec fn from_spec(p: std::path::PathBuf) -> Val {
        choose|r: Val| #[trigger] r@ == SpecVal::Path(path_text_of(p))
    }
}

impl From<Vec<String>> for Val {
    fn from(v: Vec<String>) -> (r: Val)
        ensures
            v@.len() == 0 ==> r@ == SpecVal::Unit,
            v@.len() > 0 ==> r@ == SpecVal::List(
                strings_model(v@).map_values(|s: Seq<char>| SpecVal::Str(s)),
            ),
    {
        Val::from_strings(v)
    }
}

impl vstd::std_specs::convert::FromSpecImpl<Vec<String>> for Val {
    /// A value holding a vector has no spec-level constructor; the impl's
    /// own `ensures` states the result.
    open spec fn obeys_from_spec() -> bool {
        false
    }

    open spec fn from_spec(v: Vec<String>) -> Val {
        choose|r: Val| r@ == (if v@.len() == 0 {
            SpecVal::Unit
        } else {
            SpecVal::List(strings_model(v@).map_values(|s: Seq<char>| SpecVal::Str(s)))
        })
    }
}

// ── Laws ───────────────────────────────────────────────────────

/// The elements a for-loop visits are exactly `count` many.
pub proof fn law_elements_match_count(v: SpecVal)
    ensures
        elements_of(v).len() == count_of(v),
{
}

/// A value flattens to exactly `count` process arguments.
pub proof fn law_args_match_count(v: SpecVal)
    ensures
        args_of(v).len() == count_of(v),
{
}

/// The empty value annihilates concatenation on either side.
pub proof fn law_concat_unit(v: SpecVal)
    ensures
        concat_of(v, SpecVal::Unit) == SpecVal::Unit,
        concat_of(SpecVal::Unit, v) == SpecVal::Unit,
{
}

/// Inference never produces an ExitCode: exit codes enter values only
/// through `try`.
pub proof fn law_infer_never_exit_code(s: Seq<char>)
    ensures
        !(infer_of(s) is ExitCode),
{
}

/// Inference reads the printed form of every integer back as that
/// integer.
pub proof fn law_infer_reads_back_int(n: i64)
    ensures
        infer_of(display(SpecVal::Int(n))) == SpecVal::Int(n),
{
    let s = dec_int(n as int);
    lemma_parse_dec_int(n);
    let m: nat = if n < 0 { (-n) as nat } else { n as nat };
    lemma_dec_nat_digits(m);
    if n < 0 {
        assert(s[1] == dec_nat(m)[0]);
        assert(s[0] == '-');
    }
    assert(s != seq!['t', 'r', 'u', 'e']) by {
        if n < 0 {
            assert(s[0] == '-');
        } else {
            assert(crate::text::is_digit(s[0]));
        }
    }
    assert(s != seq!['f', 'a', 'l', 's', 'e']) by {
        if n < 0 {
            assert(s[0] == '-');
        } else {
            assert(crate::text::is_digit(s[0]));
        }
    }
}

/// Exit codes invert the truth of integers: code 0 is success (true)
/// while the integer 0 is false.
pub proof fn law_exit_code_truth_inverts_int(n: i32)
    ensures
        truthy(SpecVal::ExitCode(n)) == !truthy(SpecVal::Int(n as i64)),
{
}

/// Inference prints back its input: a word that does not start with '+'
/// and is not "-0" displays, once inferred, as the word itself.  The
/// inferred value is a Bool, Int, Path or Str, and it is an Int exactly
/// when the word is an in-range numeral without a superfluous leading
/// zero.
pub proof fn law_infer_prints_back(s: Seq<char>)
    requires
        !(s.len() > 0 && s[0] == '+'),
        s != seq!['-', '0'],
    ensures
        display(infer_of(s)) == s,
        infer_of(s) is Bool || infer_of(s) is Int || infer_of(s) is Path || infer_of(s) is Str,
        infer_of(s) is Int <==> (parse_i64_spec(s) is Some && !leading_zero(s)),
{
    let body = crate::text::numeral_body(s);
    if parse_i64_spec(s) is Some {
        assert(body.len() > 0 && crate::text::all_digits(body));
        assert(s != seq!['t', 'r', 'u', 'e']) by {
            if s.len() > 0 && s[0] == '-' {
            } else {
                assert(crate::text::is_digit(body[0]));
            }
        }
        assert(s != seq!['f', 'a', 'l', 's', 'e']) by {
            if s.len() > 0 && s[0] == '-' {
            } else {
                assert(crate::text::is_digit(body[0]));
            }
        }
        if !leading_zero(s) {
            if s[0] == '-' {
                assert(body == s.skip(1));
                assert(body[0] == s[1]);
                if body.len() == 1 && body[0] == '0' {
                    assert(s =~= seq!['-', '0']);
                }
                lemma_digits_canonical(body);
                assert(s =~= seq!['-'] + body);
            } else {
                assert(body == s);
                lemma_digits_canonical(body);
            }
        }
    }
}

proof fn lemma_text_items(v: SpecVal)
    ensures
        text_items(v).len() == count_of(v),
        forall|i: int| 0 <= i < count_of(v) ==> #[trigger] text_items(v)[i] == display(index_of(v, i + 1)),
{
}

/// The 1-based element of an operand of `^` that meets element `i` of the
/// result: the single element when there is one, element `i` otherwise.
pub open spec fn concat_pick(count: nat, i: int) -> int {
    if count == 1 {
        1
    } else {
        i
    }
}

/// rc's `^` element by element: the result is Unit exactly when a side is
/// empty or the counts clash (neither 1 nor equal); otherwise it has as
/// many elements as the longer side, is a single Str when that is one and
/// a list otherwise, and its element `i` is the text of the meeting
/// elements side by side.
pub proof fn law_concat_elementwise(a: SpecVal, b: SpecVal)
    ensures
        ({
            let la = count_of(a);
            let lb = count_of(b);
            let n = if la == lb || lb == 1 { la } else { lb };
            &&& (concat_of(a, b) is Unit <==> (la == 0 || lb == 0 || (la != lb && la != 1 && lb != 1)))
            &&& !(la == 0 || lb == 0 || (la != lb && la != 1 && lb != 1)) ==> {
                &&& count_of(concat_of(a, b)) == n
                &&& (n == 1 ==> concat_of(a, b) is Str)
                &&& (n != 1 ==> concat_of(a, b) is List)
                &&& forall|i: int|
                    1 <= i <= n ==> #[trigger] index_of(concat_of(a, b), i) == SpecVal::Str(
                        display(index_of(a, concat_pick(la, i))) + display(index_of(b, concat_pick(lb, i))),
                    )
            }
        }),
{
    lemma_text_items(a);
    lemma_text_items(b);
    let la = count_of(a);
    let lb = count_of(b);
    let l = text_items(a);
    let r = text_items(b);
    if !(la == 0 || lb == 0 || (la != lb && la != 1 && lb != 1)) {
        let n = if la == lb || lb == 1 { la } else { lb };
        let parts = Seq::new(n, |i: int| l[concat_pick(la, i + 1) - 1] + r[concat_pick(lb, i + 1) - 1]);
        if la == lb {
            assert(Seq::new(l.len(), |i: int| l[i] + r[i]) =~= parts);
        } else if la == 1 {
            assert(Seq::new(r.len(), |i: int| l[0] + r[i]) =~= parts);
        } else {
            assert(Seq::new(l.len(), |i: int| l[i] + r[0]) =~= parts);
        }
        assert(concat_of(a, b) == strs_value(parts));
        assert forall|i: int| 1 <= i <= n implies #[trigger] index_of(concat_of(a, b), i) == SpecVal::Str(
            display(index_of(a, concat_pick(la, i))) + display(index_of(b, concat_pick(lb, i))),
        ) by {
            assert(l[concat_pick(la, i) - 1] == display(index_of(a, concat_pick(la, i))));
            assert(r[concat_pick(lb, i) - 1] == display(index_of(b, concat_pick(lb, i))));
        }
    }
}

/// Indexing gives the element itself, not its text: for a list or tuple
/// element `i` (1-based) of the elements when in range and Unit outside;
/// a scalar is its own only element.
pub proof fn law_index_is_element(v: SpecVal, i: int)
    ensures
        v matches SpecVal::List(vs) ==> (1 <= i <= vs.len() ==> index_of(v, i) == vs[i - 1]) && (!(1 <= i
            <= vs.len()) ==> index_of(v, i) == SpecVal::Unit),
        v matches SpecVal::Tuple(vs) ==> (1 <= i <= vs.len() ==> index_of(v, i) == vs[i - 1]) && (!(1 <= i
            <= vs.len()) ==> index_of(v, i) == SpecVal::Unit),
        !(v is List || v is Tuple) ==> index_of(v, i) == (if i == 1 {
            v
        } else {
            SpecVal::Unit
        }),
        v matches SpecVal::Tuple(vs) ==> (0 <= i < vs.len() ==> tuple_index_of(v, i) == vs[i]),
        count_of(v) == (match v {
            SpecVal::Unit => 0,
            SpecVal::List(vs) => vs.len(),
            SpecVal::Tuple(vs) => vs.len(),
            _ => 1nat,
        }),
{
}

/// Inference by the shape of the word: "true" and "false" are the
/// booleans; an in-range numeral without a superfluous leading zero is an
/// integer; otherwise a word is a Path exactly when it begins with "/",
/// "./", "../" or "~/", and a Str in every other case.  In particular a
/// word with a '/' further in (such as a URL) is a Str.
pub proof fn law_infer_by_shape(s: Seq<char>)
    ensures
        infer_of(s) == SpecVal::Bool(true) <==> s == seq!['t', 'r', 'u', 'e'],
        infer_of(s) == SpecVal::Bool(false) <==> s == seq!['f', 'a', 'l', 's', 'e'],
        infer_of(s) is Int ==> parse_i64_spec(s) is Some && infer_of(s) == SpecVal::Int(parse_i64_spec(s)->0),
        !(infer_of(s) is Bool) && !(infer_of(s) is Int) ==> ({
            let starts_path = (s.len() >= 1 && s[0] == '/') || (s.len() >= 2 && s[0] == '.' && s[1] == '/')
                || (s.len() >= 3 && s[0] == '.' && s[1] == '.' && s[2] == '/') || (s.len() >= 2 && s[0]
                == '~' && s[1] == '/');
            &&& starts_path ==> infer_of(s) == SpecVal::Path(s)
            &&& !starts_path ==> infer_of(s) == SpecVal::Str(s)
        }),
{
    let p1 = s.len() >= 1 && s[0] == '/';
    let p2 = s.len() >= 2 && s[0] == '.' && s[1] == '/';
    let p3 = s.len() >= 3 && s[0] == '.' && s[1] == '.' && s[2] == '/';
    let p4 = s.len() >= 2 && s[0] == '~' && s[1] == '/';
    if has_prefix(s, seq!['/']) {
        assert(s.take(1)[0] == s[0]);
    }
    if has_prefix(s, seq!['.', '/']) {
        assert(s.take(2)[0] == s[0] && s.take(2)[1] == s[1]);
    }
    if has_prefix(s, seq!['.', '.', '/']) {
        assert(s.take(3)[0] == s[0] && s.take(3)[1] == s[1] && s.take(3)[2] == s[2]);
    }
    if has_prefix(s, seq!['~', '/']) {
        assert(s.take(2)[0] == s[0] && s.take(2)[1] == s[1]);
    }
    if p1 {
        assert(s.take(1) =~= seq!['/']);
    }
    if p2 {
        assert(s.take(2) =~= seq!['.', '/']);
    }
    if p3 {
        assert(s.take(3) =~= seq!['.', '.', '/']);
    }
    if p4 {
        assert(s.take(2) =~= seq!['~', '/']);
    }
}

} // verus!
