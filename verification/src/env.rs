//! Variable environment for psh.
//!
//! Variables are values (rc heritage: lists of strings, here typed).
//! Each variable can have discipline functions (ksh93 heritage): `.get`
//! fires on read, `.set` fires on write.  The environment is a stack of
//! scopes, searched from the innermost outwards, plus one global table of
//! functions.
//!
//! A scope holds its bindings in insertion order with each name at most
//! once; its model is the map from names to variables.

use vstd::prelude::*;

use crate::ast::{Command, SpecCommand, SpecType, TypeAnnotation, commands_model, copy_type};
use crate::text::{push_str, str_eq, to_owned_string};
use crate::types::{validate_spec, validate_type};
use crate::value::{SpecVal, Val, copy_val, display};

verus! {

broadcast use vstd::string::group_string_axioms;

/// A discipline function pair: the function names called on read and on
/// write.
#[derive(Debug, PartialEq)]
pub struct Discipline {
    /// Function name to call on read (e.g., "x.get").
    pub get: Option<String>,
    /// Function name to call on write (e.g., "x.set").
    pub set: Option<String>,
}

/// A single variable binding.
#[derive(Debug)]
pub struct Var {
    /// The stored value.
    pub value: Val,
    /// Stderr from the last failed `try` evaluation, if any.
    pub error: Option<String>,
    /// Whether this variable is exported to child processes.
    pub exported: bool,
    /// Whether this variable is read-only.
    pub readonly: bool,
    /// Whether this variable can be reassigned.
    pub mutable: bool,
    /// Type annotation from `let x : Type = val`.
    pub type_ann: Option<TypeAnnotation>,
    /// Discipline functions, if any.
    pub discipline: Option<Discipline>,
    /// Nameref target: accesses resolve through this name instead.
    pub nameref: Option<String>,
}

pub struct SpecDiscipline {
    pub get: Option<Seq<char>>,
    pub set: Option<Seq<char>>,
}

/// The model of a variable.
pub struct SpecVar {
    pub value: SpecVal,
    pub error: Option<Seq<char>>,
    pub exported: bool,
    pub readonly: bool,
    pub mutable: bool,
    pub type_ann: Option<SpecType>,
    pub discipline: Option<SpecDiscipline>,
    pub nameref: Option<Seq<char>>,
}

pub open spec fn opt_text(o: Option<String>) -> Option<Seq<char>> {
    match o {
        Some(s) => Some(s@),
        None => None,
    }
}

pub open spec fn var_model(v: Var) -> SpecVar {
    SpecVar {
        value: v.value@,
        error: opt_text(v.error),
        exported: v.exported,
        readonly: v.readonly,
        mutable: v.mutable,
        type_ann: match v.type_ann {
            Some(t) => Some(t@),
            None => None,
        },
        discipline: match v.discipline {
            Some(d) => Some(SpecDiscipline { get: opt_text(d.get), set: opt_text(d.set) }),
            None => None,
        },
        nameref: opt_text(v.nameref),
    }
}

impl View for Var {
    type V = SpecVar;

    open spec fn view(&self) -> SpecVar {
        var_model(*self)
    }
}

/// A plain variable holding `value`: mutable, not exported, not
/// read-only, with no annotation, discipline or nameref.
pub open spec fn plain_var(value: SpecVal, exported: bool) -> SpecVar {
    SpecVar {
        value,
        error: None,
        exported,
        readonly: false,
        mutable: true,
        type_ann: None,
        discipline: None,
        nameref: None,
    }
}

impl Var {
    pub fn new(value: Val) -> (r: Var)
        ensures
            r@ == plain_var(value@, false),
    {
        Var {
            value,
            error: None,
            exported: false,
            readonly: false,
            mutable: true,
            type_ann: None,
            discipline: None,
            nameref: None,
        }
    }

    pub fn exported(value: Val) -> (r: Var)
        ensures
            r@ == plain_var(value@, true),
    {
        Var {
            value,
            error: None,
            exported: true,
            readonly: false,
            mutable: true,
            type_ann: None,
            discipline: None,
            nameref: None,
        }
    }

    /// Create a nameref variable pointing to `target`.
    pub fn nameref(target: String) -> (r: Var)
        ensures
            r@ == (SpecVar { nameref: Some(target@), ..plain_var(SpecVal::Unit, false) }),
    {
        Var {
            value: Val::empty(),
            error: None,
            exported: false,
            readonly: false,
            mutable: true,
            type_ann: None,
            discipline: None,
            nameref: Some(target),
        }
    }
}

// ── Scopes ─────────────────────────────────────────────────────

/// The map that a list of named entries denotes.
pub open spec fn entries_map<V>(s: Seq<(String, V)>) -> Map<Seq<char>, V>
    decreases s.len(),
{
    if s.len() == 0 {
        Map::empty()
    } else {
        entries_map(s.drop_last()).insert(s.last().0@, s.last().1)
    }
}

/// No name is bound twice.
pub open spec fn distinct_names<V>(s: Seq<(String, V)>) -> bool {
    forall|i: int, j: int| 0 <= i < j < s.len() ==> (#[trigger] s[i]).0@ != (#[trigger] s[j]).0@
}

pub proof fn lemma_entries_map<V>(s: Seq<(String, V)>)
    requires
        distinct_names(s),
    ensures
        forall|k: Seq<char>| #[trigger]
            entries_map(s).contains_key(k) <==> exists|i: int| 0 <= i < s.len() && (#[trigger] s[i]).0@ == k,
        forall|i: int| 0 <= i < s.len() ==> #[trigger] entries_map(s)[s[i].0@] == s[i].1,
    decreases s.len(),
{
    if s.len() > 0 {
        let t = s.drop_last();
        assert(distinct_names(t)) by {
            assert forall|i: int, j: int| 0 <= i < j < t.len() implies (#[trigger] t[i]).0@ != (
            #[trigger] t[j]).0@ by {
                assert(t[i] == s[i] && t[j] == s[j]);
            }
        }
        lemma_entries_map(t);
        assert(entries_map(s) == entries_map(t).insert(s[s.len() - 1].0@, s[s.len() - 1].1));
        assert forall|k: Seq<char>| #[trigger]
            entries_map(s).contains_key(k) <==> exists|i: int| 0 <= i < s.len() && (#[trigger] s[i]).0@ == k by {
            if entries_map(s).contains_key(k) {
                if k != s[s.len() - 1].0@ {
                    assert(entries_map(t).contains_key(k));
                    let i = choose|i: int| 0 <= i < t.len() && (#[trigger] t[i]).0@ == k;
                    assert(s[i] == t[i]);
                } else {
                    assert(s[s.len() - 1].0@ == k);
                }
            }
            if exists|i: int| 0 <= i < s.len() && (#[trigger] s[i]).0@ == k {
                let i = choose|i: int| 0 <= i < s.len() && (#[trigger] s[i]).0@ == k;
                if i < s.len() - 1 {
                    assert(t[i] == s[i]);
                }
            }
        }
        assert forall|i: int| 0 <= i < s.len() implies #[trigger] entries_map(s)[s[i].0@] == s[i].1 by {
            if i < s.len() - 1 {
                assert(t[i] == s[i]);
                assert(s[i].0@ != s[s.len() - 1].0@);
                assert(entries_map(t)[t[i].0@] == t[i].1);
            }
        }
    }
}

/// Two duplicate-free binding lists that bind the same names to the same
/// variables denote the same map.
pub proof fn lemma_entries_map_ext<V>(s: Seq<(String, V)>, m: Map<Seq<char>, V>)
    requires
        distinct_names(s),
        forall|k: Seq<char>| #[trigger] m.contains_key(k) <==> exists|i: int| 0 <= i < s.len() && (#[trigger] s[i]).0@ == k,
        forall|i: int| 0 <= i < s.len() ==> #[trigger] m[s[i].0@] == s[i].1,
    ensures
        entries_map(s) == m,
{
    lemma_entries_map(s);
    assert forall|k: Seq<char>| #[trigger] m.contains_key(k) implies entries_map(s)[k] == m[k] by {
        let i = choose|i: int| 0 <= i < s.len() && (#[trigger] s[i]).0@ == k;
    }
    assert(entries_map(s) =~= m);
}

/// Replacing the variable of one binding replaces it in the map.
pub proof fn lemma_entries_update<V>(s: Seq<(String, V)>, i: int)
    requires
        distinct_names(s),
        0 <= i < s.len(),
    ensures
        forall|v: V|
            #![trigger s.update(i, (s[i].0, v))]
            distinct_names(s.update(i, (s[i].0, v))) && entries_map(s.update(i, (s[i].0, v)))
                == entries_map(s).insert(s[i].0@, v),
{
    lemma_entries_map(s);
    assert forall|v: V| #![trigger s.update(i, (s[i].0, v))]
        distinct_names(s.update(i, (s[i].0, v))) && entries_map(s.update(i, (s[i].0, v)))
            == entries_map(s).insert(s[i].0@, v) by {
        let s2 = s.update(i, (s[i].0, v));
        assert(distinct_names(s2)) by {
            assert forall|a: int, b: int| 0 <= a < b < s2.len() implies (#[trigger] s2[a]).0@ != (
            #[trigger] s2[b]).0@ by {
                assert(s2[a].0@ == s[a].0@ && s2[b].0@ == s[b].0@);
            }
        }
        let m = entries_map(s).insert(s[i].0@, v);
        assert forall|k: Seq<char>| #[trigger] m.contains_key(k) <==> exists|j: int|
            0 <= j < s2.len() && (#[trigger] s2[j]).0@ == k by {
            if m.contains_key(k) {
                if k != s[i].0@ {
                    let j = choose|j: int| 0 <= j < s.len() && (#[trigger] s[j]).0@ == k;
                    assert(s2[j].0@ == k);
                } else {
                    assert(s2[i].0@ == k);
                }
            }
            if exists|j: int| 0 <= j < s2.len() && (#[trigger] s2[j]).0@ == k {
                let j = choose|j: int| 0 <= j < s2.len() && (#[trigger] s2[j]).0@ == k;
                assert(s2[j].0@ == s[j].0@);
            }
        }
        assert forall|j: int| 0 <= j < s2.len() implies #[trigger] m[s2[j].0@] == s2[j].1 by {
            if j != i {
                assert(s[j].0@ != s[i].0@);
            }
        }
        lemma_entries_map_ext(s2, m);
    }
}

/// Replacing a variable replaces its model in the map of models.
pub proof fn lemma_var_entries_update(s: Seq<(String, Var)>, i: int)
    requires
        distinct_names(s),
        0 <= i < s.len(),
    ensures
        forall|v: Var|
            #![trigger s.update(i, (s[i].0, v))]
            distinct_names(s.update(i, (s[i].0, v))) && entries_map(s.update(i, (s[i].0, v))).map_values(
                |x: Var| x@,
            ) == entries_map(s).map_values(|x: Var| x@).insert(s[i].0@, v@),
{
    lemma_entries_update(s, i);
    assert forall|v: Var|
        #![trigger s.update(i, (s[i].0, v))]
        distinct_names(s.update(i, (s[i].0, v))) && entries_map(s.update(i, (s[i].0, v))).map_values(
            |x: Var| x@,
        ) == entries_map(s).map_values(|x: Var| x@).insert(s[i].0@, v@) by {
        assert(entries_map(s.update(i, (s[i].0, v))).map_values(|x: Var| x@) =~= entries_map(
            s,
        ).map_values(|x: Var| x@).insert(s[i].0@, v@));
    }
}

/// Adding an entry under a fresh name adds it to the map.
pub proof fn lemma_entries_push<V>(s: Seq<(String, V)>, e: (String, V))
    requires
        distinct_names(s),
        !entries_map(s).contains_key(e.0@),
    ensures
        distinct_names(s.push(e)),
        entries_map(s.push(e)) == entries_map(s).insert(e.0@, e.1),
{
    lemma_entries_map(s);
    let s2 = s.push(e);
    assert(s2.drop_last() == s);
    assert forall|a: int, b: int| 0 <= a < b < s2.len() implies (#[trigger] s2[a]).0@ != (
    #[trigger] s2[b]).0@ by {
        if b == s2.len() - 1 {
            assert(s2[a] == s[a]);
            if s[a].0@ == e.0@ {
                assert(entries_map(s).contains_key(s[a].0@));
            }
        } else {
            assert(s2[a] == s[a] && s2[b] == s[b]);
        }
    }
}

/// Removing the entry at `i` removes its name from the map.
pub proof fn lemma_entries_remove<V>(s: Seq<(String, V)>, i: int)
    requires
        distinct_names(s),
        0 <= i < s.len(),
    ensures
        distinct_names(s.remove(i)),
        entries_map(s.remove(i)) == entries_map(s).remove(s[i].0@),
{
    lemma_entries_map(s);
    let s2 = s.remove(i);
    assert forall|a: int, b: int| 0 <= a < b < s2.len() implies (#[trigger] s2[a]).0@ != (
    #[trigger] s2[b]).0@ by {
        let a0 = if a < i { a } else { a + 1 };
        let b0 = if b < i { b } else { b + 1 };
        assert(s2[a] == s[a0] && s2[b] == s[b0]);
    }
    let m = entries_map(s).remove(s[i].0@);
    assert forall|k: Seq<char>| #[trigger] m.contains_key(k) <==> exists|j: int|
        0 <= j < s2.len() && (#[trigger] s2[j]).0@ == k by {
        if m.contains_key(k) {
            let j = choose|j: int| 0 <= j < s.len() && (#[trigger] s[j]).0@ == k;
            assert(j != i);
            let j2 = if j < i { j } else { j - 1 };
            assert(s2[j2] == s[j]);
        }
        if exists|j: int| 0 <= j < s2.len() && (#[trigger] s2[j]).0@ == k {
            let j = choose|j: int| 0 <= j < s2.len() && (#[trigger] s2[j]).0@ == k;
            let j0 = if j < i { j } else { j + 1 };
            assert(s2[j] == s[j0]);
            assert(s[j0].0@ == k);
            assert(j0 != i);
        }
    }
    assert forall|j: int| 0 <= j < s2.len() implies #[trigger] m[s2[j].0@] == s2[j].1 by {
        let j0 = if j < i { j } else { j + 1 };
        assert(s2[j] == s[j0]);
        assert(j0 != i);
        assert(s[j0].0@ != s[i].0@);
    }
    lemma_entries_map_ext(s2, m);
}

/// The exported bindings, as (name, value) pairs in insertion order.
pub open spec fn exported_entries(s: Seq<(String, Var)>) -> Seq<(Seq<char>, SpecVal)>
    decreases s.len(),
{
    if s.len() == 0 {
        Seq::empty()
    } else if s.last().1.exported {
        exported_entries(s.drop_last()).push((s.last().0@, s.last().1.value@))
    } else {
        exported_entries(s.drop_last())
    }
}

/// `ex` lists exactly the exported bindings of `vars`, with their values,
/// each name once.
pub open spec fn lists_exports(ex: Seq<(Seq<char>, SpecVal)>, vars: Map<Seq<char>, SpecVar>) -> bool {
    &&& forall|k: int|
        0 <= k < ex.len() ==> vars.contains_key((#[trigger] ex[k]).0) && vars[ex[k].0].exported
            && vars[ex[k].0].value == ex[k].1
    &&& forall|n: Seq<char>|
        vars.contains_key(n) && (#[trigger] vars[n]).exported ==> exists|k: int|
            0 <= k < ex.len() && (#[trigger] ex[k]).0 == n
    &&& forall|i: int, j: int| 0 <= i < j < ex.len() ==> (#[trigger] ex[i]).0 != (#[trigger] ex[j]).0
}

proof fn lemma_exported_entries(s: Seq<(String, Var)>)
    requires
        distinct_names(s),
    ensures
        forall|k: int|
            0 <= k < exported_entries(s).len() ==> exists|i: int|
                0 <= i < s.len() && (#[trigger] s[i]).0@ == (#[trigger] exported_entries(s)[k]).0
                    && s[i].1.exported && s[i].1.value@ == exported_entries(s)[k].1,
        forall|i: int|
            0 <= i < s.len() && (#[trigger] s[i]).1.exported ==> exists|k: int|
                0 <= k < exported_entries(s).len() && (#[trigger] exported_entries(s)[k]).0 == s[i].0@,
        forall|i: int, j: int|
            0 <= i < j < exported_entries(s).len() ==> (#[trigger] exported_entries(s)[i]).0 != (
            #[trigger] exported_entries(s)[j]).0,
    decreases s.len(),
{
    if s.len() > 0 {
        let t = s.drop_last();
        assert(distinct_names(t)) by {
            assert forall|i: int, j: int| 0 <= i < j < t.len() implies (#[trigger] t[i]).0@ != (
            #[trigger] t[j]).0@ by {
                assert(t[i] == s[i] && t[j] == s[j]);
            }
        }
        lemma_exported_entries(t);
        let et = exported_entries(t);
        let es = exported_entries(s);
        let last = s[s.len() - 1];
        assert forall|k: int| 0 <= k < es.len() implies exists|i: int|
            0 <= i < s.len() && (#[trigger] s[i]).0@ == (#[trigger] es[k]).0 && s[i].1.exported
                && s[i].1.value@ == es[k].1 by {
            if k < et.len() {
                assert(es[k] == et[k]);
                let i = choose|i: int|
                    0 <= i < t.len() && (#[trigger] t[i]).0@ == et[k].0 && t[i].1.exported && t[i].1.value@
                        == et[k].1;
                assert(s[i] == t[i]);
            } else {
                assert(s[s.len() - 1] == last);
            }
        }
        assert forall|i: int| 0 <= i < s.len() && (#[trigger] s[i]).1.exported implies exists|k: int|
            0 <= k < es.len() && (#[trigger] es[k]).0 == s[i].0@ by {
            if i < t.len() {
                assert(t[i] == s[i]);
                let k = choose|k: int| 0 <= k < et.len() && (#[trigger] et[k]).0 == t[i].0@;
                assert(es[k] == et[k]);
            } else {
                assert(es[es.len() - 1].0 == last.0@);
            }
        }
        assert forall|i: int, j: int| 0 <= i < j < es.len() implies (#[trigger] es[i]).0 != (
        #[trigger] es[j]).0 by {
            if j < et.len() {
                assert(es[i] == et[i] && es[j] == et[j]);
            } else {
                assert(es[i] == et[i]);
                let m = choose|m: int|
                    0 <= m < t.len() && (#[trigger] t[m]).0@ == et[i].0 && t[m].1.exported && t[m].1.value@
                        == et[i].1;
                assert(s[m] == t[m]);
                assert(s[m].0@ != s[s.len() - 1].0@);
            }
        }
    }
}

/// A scope in the environment stack.
#[derive(Debug)]
pub struct Scope {
    vars: Vec<(String, Var)>,
    /// When true, mutations through this scope are rejected.
    pub readonly: bool,
}

/// The model of a scope: its bindings and whether it is read-only.
pub struct SpecScope {
    pub vars: Map<Seq<char>, SpecVar>,
    pub readonly: bool,
}

impl Default for Scope {
    /// An empty, writable scope.
    fn default() -> (r: Scope)
        ensures
            r.wf(),
            r.model().vars == Map::<Seq<char>, SpecVar>::empty(),
            !r.model().readonly,
    {
        Scope::new()
    }
}

impl Scope {
    /// No name is bound twice.
    pub closed spec fn wf(&self) -> bool {
        distinct_names(self.vars@)
    }

    /// The bindings in insertion order.
    pub closed spec fn entries(&self) -> Seq<(String, Var)> {
        self.vars@
    }

    pub closed spec fn model(&self) -> SpecScope {
        SpecScope { vars: entries_map(self.entries()).map_values(|v: Var| v@), readonly: self.readonly }
    }

    /// The export list of a scope (`exported`) holds exactly its exported
    /// bindings, with their values, each name once.
    pub proof fn lemma_exports(&self)
        requires
            self.wf(),
        ensures
            lists_exports(exported_entries(self.entries()), self.model().vars),
    {
        let s = self.vars@;
        lemma_entries_map(s);
        lemma_exported_entries(s);
        let ex = exported_entries(s);
        let vars = self.model().vars;
        assert forall|k: int| 0 <= k < ex.len() implies vars.contains_key((#[trigger] ex[k]).0)
            && vars[ex[k].0].exported && vars[ex[k].0].value == ex[k].1 by {
            let i = choose|i: int|
                0 <= i < s.len() && (#[trigger] s[i]).0@ == ex[k].0 && s[i].1.exported && s[i].1.value@
                    == ex[k].1;
            assert(entries_map(s)[s[i].0@] == s[i].1);
        }
        assert forall|n: Seq<char>| vars.contains_key(n) && (#[trigger] vars[n]).exported implies exists|k: int|
            0 <= k < ex.len() && (#[trigger] ex[k]).0 == n by {
            assert(entries_map(s).contains_key(n));
            let i = choose|i: int| 0 <= i < s.len() && (#[trigger] s[i]).0@ == n;
            assert(entries_map(s)[s[i].0@] == s[i].1);
        }
    }

    pub fn new() -> (r: Scope)
        ensures
            r.wf(),
            r.model().vars == Map::<Seq<char>, SpecVar>::empty(),
            !r.model().readonly,
    {
        let r = Scope { vars: Vec::new(), readonly: false };
        assert(r.model().vars =~= Map::<Seq<char>, SpecVar>::empty());
        r
    }

    /// Create a readonly scope (.get discipline purity enforcement).
    pub fn readonly() -> (r: Scope)
        ensures
            r.wf(),
            r.model().vars == Map::<Seq<char>, SpecVar>::empty(),
            r.model().readonly,
    {
        let r = Scope { vars: Vec::new(), readonly: true };
        assert(r.model().vars =~= Map::<Seq<char>, SpecVar>::empty());
        r
    }

    /// The position of `name` among the bindings.
    fn find(&self, name: &str) -> (r: Option<usize>)
        requires
            self.wf(),
        ensures
            r is None ==> !self.model().vars.contains_key(name@),
            r matches Some(i) ==> i < self.entries().len() && self.entries()[i as int].0@ == name@,
    {
        proof { lemma_entries_map(self.vars@); }
        let mut i: usize = 0;
        while i < self.vars.len()
            invariant
                i <= self.vars.len(),
                forall|j: int| 0 <= j < i ==> (#[trigger] self.vars@[j]).0@ != name@,
            decreases self.vars.len() - i,
        {
            if str_eq(self.vars[i].0.as_str(), name) {
                return Some(i);
            }
            i += 1;
        }
        None
    }

    pub fn get(&self, name: &str) -> (r: Option<&Var>)
        requires
            self.wf(),
        ensures
            r is Some <==> self.model().vars.contains_key(name@),
            r matches Some(v) ==> v@ == self.model().vars[name@],
    {
        proof { lemma_entries_map(self.vars@); }
        match self.find(name) {
            Some(i) => Some(&self.vars[i].1),
            None => None,
        }
    }

    pub fn get_mut(&mut self, name: &str) -> (r: Option<&mut Var>)
        requires
            old(self).wf(),
        ensures
            r is Some <==> old(self).model().vars.contains_key(name@),
            match r {
                Some(v) => v@ == old(self).model().vars[name@] && final(self).wf() && final(self).model()
                    == (SpecScope {
                    vars: old(self).model().vars.insert(name@, final(v)@),
                    readonly: old(self).model().readonly,
                }),
                None => *final(self) == *old(self),
            },
    {
        proof { lemma_entries_map(self.vars@); }
        match self.find(name) {
            Some(i) => {
                proof { lemma_var_entries_update(self.vars@, i as int); }
                let entry = &mut self.vars[i];
                let r = &mut entry.1;
                Some(r)
            },
            None => None,
        }
    }
}


impl Scope {
    /// Bind `name` to `var`, replacing any earlier binding of the name.
    pub fn set(&mut self, name: String, var: Var)
        requires
            old(self).wf(),
        ensures
            final(self).wf(),
            final(self).model() == (SpecScope {
                vars: old(self).model().vars.insert(name@, var@),
                readonly: old(self).model().readonly,
            }),
    {
        match self.find(name.as_str()) {
            Some(i) => {
                proof {
                    lemma_entries_update(self.vars@, i as int);
                    assert(self.vars@[i as int].0@ == name@);
                }
                self.vars[i].1 = var;
                proof {
                    assert(self.model().vars =~= old(self).model().vars.insert(name@, var@));
                }
            },
            None => {
                proof { lemma_entries_push(self.vars@, (name, var)); }
                let ghost nv = name@;
                let ghost vv = var@;
                self.vars.push((name, var));
                proof {
                    assert(self.model().vars =~= old(self).model().vars.insert(nv, vv));
                }
            },
        }
    }

    /// Remove the binding of `name`, returning its variable.
    pub fn remove(&mut self, name: &str) -> (r: Option<Var>)
        requires
            old(self).wf(),
        ensures
            final(self).wf(),
            r is Some <==> old(self).model().vars.contains_key(name@),
            r matches Some(v) ==> v@ == old(self).model().vars[name@],
            final(self).model() == (SpecScope {
                vars: old(self).model().vars.remove(name@),
                readonly: old(self).model().readonly,
            }),
    {
        proof { lemma_entries_map(self.vars@); }
        match self.find(name) {
            Some(i) => {
                proof { lemma_entries_remove(self.vars@, i as int); }
                let (_, v) = self.vars.remove(i);
                proof {
                    assert(self.model().vars =~= old(self).model().vars.remove(name@));
                }
                Some(v)
            },
            None => {
                proof { assert(old(self).model().vars.remove(name@) =~= old(self).model().vars); }
                None
            },
        }
    }

    /// All exported variables in this scope, in the order they were bound.
    pub fn exported(&self) -> (r: Vec<(&str, &Val)>)
        ensures
            r@.map_values(|p: (&str, &Val)| (p.0@, p.1@)) == exported_entries(self.entries()),
    {
        let mut out: Vec<(&str, &Val)> = Vec::new();
        let mut i: usize = 0;
        while i < self.vars.len()
            invariant
                i <= self.vars.len(),
                out@.map_values(|p: (&str, &Val)| (p.0@, p.1@)) == exported_entries(self.vars@.take(i as int)),
            decreases self.vars.len() - i,
        {
            let ghost prev = out@;
            if self.vars[i].1.exported {
                out.push((self.vars[i].0.as_str(), &self.vars[i].1.value));
                proof {
                    assert(out@.map_values(|p: (&str, &Val)| (p.0@, p.1@)) =~= prev.map_values(
                        |p: (&str, &Val)| (p.0@, p.1@),
                    ).push((self.vars@[i as int].0@, self.vars@[i as int].1.value@)));
                }
            }
            proof {
                assert(self.vars@.take(i + 1).drop_last() == self.vars@.take(i as int));
            }
            i += 1;
        }
        proof { assert(self.vars@.take(self.vars.len() as int) == self.vars@); }
        out
    }
}


// ── The environment ────────────────────────────────────────────

/// The innermost binding of `name`, searching scopes from the top.
pub open spec fn lookup(ss: Seq<SpecScope>, name: Seq<char>) -> Option<SpecVar>
    decreases ss.len(),
{
    if ss.len() == 0 {
        None
    } else if ss.last().vars.contains_key(name) {
        Some(ss.last().vars[name])
    } else {
        lookup(ss.drop_last(), name)
    }
}

/// The index of the innermost scope that binds `name`, or -1.
pub open spec fn innermost(ss: Seq<SpecScope>, name: Seq<char>) -> int
    decreases ss.len(),
{
    if ss.len() == 0 {
        -1
    } else if ss.last().vars.contains_key(name) {
        ss.len() - 1
    } else {
        innermost(ss.drop_last(), name)
    }
}

/// Follow namerefs from `name`, at most `fuel` steps.
pub open spec fn resolve(ss: Seq<SpecScope>, name: Seq<char>, fuel: nat) -> Seq<char>
    decreases fuel,
{
    if fuel == 0 {
        name
    } else {
        match lookup(ss, name) {
            Some(v) => match v.nameref {
                Some(t) => resolve(ss, t, (fuel - 1) as nat),
                None => name,
            },
            None => name,
        }
    }
}

/// How many nameref steps a read or write follows (ksh93 convention).
pub open spec fn nameref_depth() -> nat {
    8
}

/// The value read through `name`: namerefs followed, Unit when unbound.
pub open spec fn value_of(ss: Seq<SpecScope>, name: Seq<char>) -> SpecVal {
    match lookup(ss, resolve(ss, name, nameref_depth())) {
        Some(v) => v.value,
        None => SpecVal::Unit,
    }
}

/// `ss` with the variable `name` of scope `i` replaced by `v`.
pub open spec fn rebind(ss: Seq<SpecScope>, i: int, name: Seq<char>, v: SpecVar) -> Seq<SpecScope> {
    ss.update(i, SpecScope { vars: ss[i].vars.insert(name, v), readonly: ss[i].readonly })
}

/// The outcome of `x = value` (rc assignment): the scopes afterwards, or
/// the message of the refusal.
pub open spec fn assign_outcome(ss: Seq<SpecScope>, name: Seq<char>, value: SpecVal) -> Result<
    Seq<SpecScope>,
    Seq<char>,
> {
    if ss.last().readonly {
        Err(name + ": readonly scope"@)
    } else {
        let r = resolve(ss, name, nameref_depth());
        let i = innermost(ss, r);
        if i < 0 {
            Ok(rebind(ss, ss.len() - 1, r, plain_var(value, false)))
        } else {
            let v = ss[i].vars[r];
            if v.readonly {
                Err(r + ": readonly variable"@)
            } else if !v.mutable {
                Err(r + ": immutable variable (use let mut)"@)
            } else {
                match v.type_ann {
                    Some(t) => match validate_spec(value, t) {
                        Ok(w) => Ok(rebind(ss, i, r, SpecVar { value: w, ..v })),
                        Err(e) => Err(e),
                    },
                    None => Ok(rebind(ss, i, r, SpecVar { value, ..v })),
                }
            }
        }
    }
}

/// The variable a `let` binding creates.
pub open spec fn let_var(value: SpecVal, mutable: bool, exported: bool, t: Option<SpecType>) -> SpecVar {
    SpecVar {
        value,
        error: None,
        exported,
        readonly: false,
        mutable,
        type_ann: t,
        discipline: None,
        nameref: None,
    }
}

/// The pieces of `s` between ':' separators (at least one piece).
pub open spec fn split_colon(s: Seq<char>) -> Seq<Seq<char>>
    decreases s.len(),
{
    if s.len() == 0 {
        seq![Seq::empty()]
    } else if s.last() == ':' {
        split_colon(s.drop_last()).push(Seq::empty())
    } else {
        let p = split_colon(s.drop_last());
        p.update(p.len() - 1, p.last().push(s.last()))
    }
}

/// A colon-separated search path as a list of directory strings.
pub open spec fn dirs_value(value: Seq<char>) -> SpecVal {
    SpecVal::List(split_colon(value).map_values(|d: Seq<char>| SpecVal::Str(d)))
}

proof fn lemma_alias_literals()
    ensures
        "HOME"@ != "PATH"@,
        "HOME"@ != "USER"@,
        "PATH"@ != "USER"@,
        "home"@ != "path"@,
        "home"@ != "user"@,
        "path"@ != "user"@,
{
    reveal_strlit("HOME");
    reveal_strlit("PATH");
    reveal_strlit("USER");
    reveal_strlit("home");
    reveal_strlit("path");
    reveal_strlit("user");
    assert("HOME"@[0] != "PATH"@[0]);
    assert("HOME"@[0] != "USER"@[0]);
    assert("PATH"@[0] != "USER"@[0]);
    assert("home"@[0] != "path"@[0]);
    assert("home"@[0] != "user"@[0]);
    assert("path"@[0] != "user"@[0]);
}

/// Does the imported variable `key` get an rc-style alias?
pub open spec fn has_alias(key: Seq<char>) -> bool {
    key == "HOME"@ || key == "PATH"@ || key == "USER"@
}

/// The rc-style alias name of HOME, PATH and USER.
pub open spec fn alias_name(key: Seq<char>) -> Seq<char> {
    if key == "HOME"@ {
        "home"@
    } else if key == "PATH"@ {
        "path"@
    } else {
        "user"@
    }
}

/// The alias variable: unexported, `path` as the list of the directories
/// between colons, the others as the text itself.
pub open spec fn alias_var(key: Seq<char>, value: Seq<char>) -> SpecVar {
    if key == "PATH"@ {
        plain_var(dirs_value(value), false)
    } else {
        plain_var(SpecVal::Str(value), false)
    }
}

/// The global bindings after importing one process variable: the
/// variable itself, exported, and the rc-style lowercase alias of HOME,
/// PATH (as a list of directories) and USER.
pub open spec fn import_one(m: Map<Seq<char>, SpecVar>, key: Seq<char>, value: Seq<char>) -> Map<
    Seq<char>,
    SpecVar,
> {
    let m1 = m.insert(key, plain_var(SpecVal::Str(value), true));
    if has_alias(key) {
        m1.insert(alias_name(key), alias_var(key, value))
    } else {
        m1
    }
}

/// The global bindings after importing process variables in order.
pub open spec fn import_all(m: Map<Seq<char>, SpecVar>, vars: Seq<(String, String)>) -> Map<Seq<char>, SpecVar>
    decreases vars.len(),
{
    if vars.len() == 0 {
        m
    } else {
        import_one(import_all(m, vars.drop_last()), vars.last().0@, vars.last().1@)
    }
}

/// The exported variables of all scopes, outermost first, as
/// (name, text) pairs.
pub open spec fn process_env_of(ss: Seq<Seq<(Seq<char>, SpecVal)>>) -> Seq<(Seq<char>, Seq<char>)>
    decreases ss.len(),
{
    if ss.len() == 0 {
        Seq::empty()
    } else {
        process_env_of(ss.drop_last()) + ss.last().map_values(
            |p: (Seq<char>, SpecVal)| (p.0, crate::value::display(p.1)),
        )
    }
}

/// The full variable environment — a stack of scopes — and the table of
/// functions.
#[derive(Debug)]
pub struct Env {
    scopes: Vec<Scope>,
    functions: Vec<(String, Vec<Command>)>,
}

impl Env {
    /// The scopes, outermost (global) first.
    pub closed spec fn scopes(&self) -> Seq<SpecScope> {
        self.scopes@.map_values(|s: Scope| s.model())
    }

    /// The function table.
    pub closed spec fn functions(&self) -> Map<Seq<char>, Vec<Command>> {
        entries_map(self.functions@)
    }

    /// The exported bindings of each scope, in binding order.
    pub closed spec fn exported_by_scope(&self) -> Seq<Seq<(Seq<char>, SpecVal)>> {
        self.scopes@.map_values(|s: Scope| exported_entries(s.entries()))
    }

    /// There is a global scope, and no scope or table binds a name twice.
    pub closed spec fn wf(&self) -> bool {
        &&& self.scopes@.len() >= 1
        &&& forall|i: int| 0 <= i < self.scopes@.len() ==> (#[trigger] self.scopes@[i]).wf()
        &&& distinct_names(self.functions@)
    }

    /// A well-formed environment has a global scope, and the export list
    /// of each scope holds exactly that scope's exported bindings.
    pub proof fn lemma_wf(&self)
        requires
            self.wf(),
        ensures
            self.scopes().len() >= 1,
            self.exported_by_scope().len() == self.scopes().len(),
            forall|i: int|
                0 <= i < self.scopes().len() ==> lists_exports(
                    #[trigger] self.exported_by_scope()[i],
                    self.scopes()[i].vars,
                ),
    {
        assert forall|i: int| 0 <= i < self.scopes().len() implies lists_exports(
            #[trigger] self.exported_by_scope()[i],
            self.scopes()[i].vars,
        ) by {
            self.scopes@[i].lemma_exports();
        }
    }

    /// The global bindings of a fresh environment: `pid` and an empty
    /// `status`.
    pub open spec fn new_globals(pid: u32) -> Map<Seq<char>, SpecVar> {
        Map::<Seq<char>, SpecVar>::empty().insert(
            "pid"@,
            plain_var(SpecVal::Str(crate::text::dec_nat(pid as nat)), false),
        ).insert("status"@, plain_var(SpecVal::Str(Seq::empty()), false))
    }

    /// A fresh environment whose global scope holds `pid` (the shell's
    /// process id) and an empty `status`.
    pub fn new(pid: u32) -> (r: Env)
        ensures
            r.wf(),
            r.scopes() == seq![SpecScope { vars: Env::new_globals(pid), readonly: false }],
            r.functions() == Map::<Seq<char>, Vec<Command>>::empty(),
    {
        let mut global = Scope::new();
        let mut p = String::new();
        crate::text::push_decimal_u64(&mut p, pid as u64);
        global.set(to_owned_string("pid"), Var::new(Val::Str(p)));
        global.set(to_owned_string("status"), Var::new(Val::scalar("")));
        proof { reveal_strlit(""); assert(""@ =~= Seq::<char>::empty()); }
        let mut scopes: Vec<Scope> = Vec::new();
        scopes.push(global);
        let r = Env { scopes, functions: Vec::new() };
        proof {
            assert(r.scopes() =~= seq![r.scopes@[0].model()]);
            assert(r.functions() =~= Map::<Seq<char>, Vec<Command>>::empty());
        }
        r
    }

    /// Push a new scope (function call).
    pub fn push_scope(&mut self)
        requires
            old(self).wf(),
        ensures
            final(self).wf(),
            final(self).scopes() == old(self).scopes().push(
                SpecScope { vars: Map::empty(), readonly: false },
            ),
            final(self).functions() == old(self).functions(),
    {
        let s = Scope::new();
        self.scopes.push(s);
        proof {
            assert(self.scopes() =~= old(self).scopes().push(
                SpecScope { vars: Map::empty(), readonly: false },
            ));
        }
    }

    /// Push a readonly scope (.get discipline body).
    pub fn push_readonly_scope(&mut self)
        requires
            old(self).wf(),
        ensures
            final(self).wf(),
            final(self).scopes() == old(self).scopes().push(
                SpecScope { vars: Map::empty(), readonly: true },
            ),
            final(self).functions() == old(self).functions(),
    {
        let s = Scope::readonly();
        self.scopes.push(s);
        proof {
            assert(self.scopes() =~= old(self).scopes().push(
                SpecScope { vars: Map::empty(), readonly: true },
            ));
        }
    }

    /// Pop the innermost scope (function return); the global scope stays.
    pub fn pop_scope(&mut self)
        requires
            old(self).wf(),
        ensures
            final(self).wf(),
            old(self).scopes().len() > 1 ==> final(self).scopes() == old(self).scopes().drop_last(),
            old(self).scopes().len() <= 1 ==> final(self).scopes() == old(self).scopes(),
            final(self).functions() == old(self).functions(),
    {
        if self.scopes.len() > 1 {
            self.scopes.pop();
            proof { assert(self.scopes() =~= old(self).scopes().drop_last()); }
        }
    }

    /// Whether the current (topmost) scope is readonly.
    pub fn is_readonly(&self) -> (r: bool)
        requires
            self.wf(),
        ensures
            r == self.scopes().last().readonly,
    {
        let n = self.scopes.len();
        self.scopes[n - 1].readonly
    }

    /// The index of the innermost scope binding `name`.
    fn find_scope(&self, name: &str) -> (r: Option<usize>)
        requires
            self.wf(),
        ensures
            r is None ==> innermost(self.scopes(), name@) == -1 && lookup(self.scopes(), name@) is None,
            r matches Some(i) ==> i < self.scopes@.len() && innermost(self.scopes(), name@) == i
                && self.scopes()[i as int].vars.contains_key(name@)
                && lookup(self.scopes(), name@) == Some(self.scopes()[i as int].vars[name@]),
    {
        let mut i: usize = self.scopes.len();
        proof { assert(self.scopes().take(i as int) =~= self.scopes()); }
        while i > 0
            invariant
                i <= self.scopes@.len(),
                self.wf(),
                innermost(self.scopes(), name@) == innermost(self.scopes().take(i as int), name@),
                lookup(self.scopes(), name@) == lookup(self.scopes().take(i as int), name@),
            decreases i,
        {
            let ghost t = self.scopes().take(i as int);
            proof {
                assert(t.drop_last() == self.scopes().take(i - 1));
                assert(t.last() == self.scopes@[i - 1].model());
            }
            match self.scopes[i - 1].get(name) {
                Some(_) => {
                    return Some(i - 1);
                },
                None => {},
            }
            i -= 1;
        }
        proof { assert(self.scopes().take(0) =~= Seq::<SpecScope>::empty()); }
        None
    }

    /// Look up a variable by name, walking scopes from top to bottom.
    pub fn get(&self, name: &str) -> (r: Option<&Var>)
        requires
            self.wf(),
        ensures
            match lookup(self.scopes(), name@) {
                Some(v) => r is Some && r->0@ == v,
                None => r is None,
            },
    {
        match self.find_scope(name) {
            Some(i) => self.scopes[i].get(name),
            None => None,
        }
    }

    /// Resolve a nameref chain, following at most 8 links so that circular
    /// namerefs terminate.
    fn resolve_nameref<'b>(&'b self, name: &'b str) -> (r: &'b str)
        requires
            self.wf(),
        ensures
            r@ == resolve(self.scopes(), name@, nameref_depth()),
    {
        let mut current: &'b str = name;
        let mut i: usize = 0;
        while i < 8
            invariant
                i <= 8,
                self.wf(),
                resolve(self.scopes(), name@, nameref_depth()) == resolve(
                    self.scopes(),
                    current@,
                    (8 - i) as nat,
                ),
            decreases 8 - i,
        {
            match self.get(current) {
                Some(var) => match &var.nameref {
                    Some(target) => {
                        current = target.as_str();
                    },
                    None => {
                        return current;
                    },
                },
                None => {
                    return current;
                },
            }
            i += 1;
        }
        current
    }

    /// Get the value of a variable, or empty if not found. Follows
    /// namerefs up to 8 levels deep.
    pub fn get_value(&self, name: &str) -> (r: Val)
        requires
            self.wf(),
        ensures
            r@ == value_of(self.scopes(), name@),
    {
        let resolved = self.resolve_nameref(name);
        match self.get(resolved) {
            Some(v) => copy_val(&v.value),
            None => Val::empty(),
        }
    }

    /// Get the nameref target for a variable, if it is a nameref.
    pub fn get_nameref_target(&self, name: &str) -> (r: Option<&str>)
        requires
            self.wf(),
        ensures
            match lookup(self.scopes(), name@) {
                Some(v) => match v.nameref {
                    Some(t) => r is Some && r->0@ == t,
                    None => r is None,
                },
                None => r is None,
            },
    {
        match self.get(name) {
            Some(v) => match &v.nameref {
                Some(t) => Some(t.as_str()),
                None => None,
            },
            None => None,
        }
    }

    /// Create a nameref variable in the current scope.
    pub fn set_nameref(&mut self, name: &str, target: String)
        requires
            old(self).wf(),
        ensures
            final(self).wf(),
            final(self).scopes() == rebind(
                old(self).scopes(),
                old(self).scopes().len() - 1,
                name@,
                SpecVar { nameref: Some(target@), ..plain_var(SpecVal::Unit, false) },
            ),
            final(self).functions() == old(self).functions(),
    {
        let n = self.scopes.len();
        let v = Var::nameref(target);
        self.scopes[n - 1].set(to_owned_string(name), v);
        proof {
            assert forall|i: int| 0 <= i < self.scopes@.len() implies (#[trigger] self.scopes@[i]).wf() by {
                if i != n - 1 {
                    assert(self.scopes@[i] == old(self).scopes@[i]);
                }
            }
            assert(self.scopes() =~= rebind(
                old(self).scopes(),
                old(self).scopes().len() - 1,
                name@,
                v@,
            ));
        }
    }
}


/// Replacing one well-formed scope by another keeps every scope
/// well-formed and replaces that scope's model.
proof fn lemma_scopes_update(ss: Seq<Scope>, i: int)
    requires
        0 <= i < ss.len(),
        forall|j: int| 0 <= j < ss.len() ==> (#[trigger] ss[j]).wf(),
    ensures
        forall|s: Scope|
            #![trigger ss.update(i, s)]
            s.wf() ==> (forall|j: int| 0 <= j < ss.len() ==> (#[trigger] ss.update(i, s)[j]).wf())
                && ss.update(i, s).map_values(|x: Scope| x.model()) == ss.map_values(
                |x: Scope| x.model(),
            ).update(i, s.model()),
{
    assert forall|s: Scope|
        #![trigger ss.update(i, s)]
        s.wf() implies (forall|j: int| 0 <= j < ss.len() ==> (#[trigger] ss.update(i, s)[j]).wf())
            && ss.update(i, s).map_values(|x: Scope| x.model()) == ss.map_values(
            |x: Scope| x.model(),
        ).update(i, s.model()) by {
        assert forall|j: int| 0 <= j < ss.len() implies (#[trigger] ss.update(i, s)[j]).wf() by {
            if j != i {
                assert(ss.update(i, s)[j] == ss[j]);
            }
        }
        assert(ss.update(i, s).map_values(|x: Scope| x.model()) =~= ss.map_values(
            |x: Scope| x.model(),
        ).update(i, s.model()));
    }
}

/// `name` followed by `suffix`.
fn suffixed(name: &str, suffix: &str) -> (r: String)
    ensures
        r@ == name@ + suffix@,
{
    let mut m = to_owned_string(name);
    push_str(&mut m, suffix);
    m
}

impl Env {
    /// Set a variable (rc assignment). If it exists in any scope it is
    /// updated in place; otherwise it is created in the current scope.
    /// Namerefs are followed first.  Refused, with a message, in a
    /// readonly scope, for readonly or immutable variables, and for values
    /// that fail the variable's type annotation.
    pub fn set_value(&mut self, name: &str, value: Val) -> (r: Result<(), String>)
        requires
            old(self).wf(),
        ensures
            final(self).wf(),
            final(self).functions() == old(self).functions(),
            match assign_outcome(old(self).scopes(), name@, value@) {
                Ok(ss) => r is Ok && final(self).scopes() == ss,
                Err(e) => r is Err && r->Err_0@ == e && final(self).scopes() == old(self).scopes(),
            },
    {
        if self.is_readonly() {
            return Err(suffixed(name, ": readonly scope"));
        }
        let resolved = to_owned_string(self.resolve_nameref(name));
        match self.find_scope(resolved.as_str()) {
            None => {
                let n = self.scopes.len();
                let ghost vv = value@;
                self.scopes[n - 1].set(resolved, Var::new(value));
                proof {
                    assert forall|i: int| 0 <= i < self.scopes@.len() implies (#[trigger] self.scopes@[i]).wf() by {
                        if i != n - 1 {
                            assert(self.scopes@[i] == old(self).scopes@[i]);
                        }
                    }
                    assert(self.scopes() =~= rebind(
                        old(self).scopes(),
                        old(self).scopes().len() - 1,
                        resolve(old(self).scopes(), name@, nameref_depth()),
                        plain_var(vv, false),
                    ));
                }
                Ok(())
            },
            Some(i) => {
                let (ro, mu) = {
                    let v = self.scopes[i].get(resolved.as_str()).unwrap();
                    (v.readonly, v.mutable)
                };
                if ro {
                    return Err(suffixed(resolved.as_str(), ": readonly variable"));
                }
                if !mu {
                    return Err(suffixed(resolved.as_str(), ": immutable variable (use let mut)"));
                }
                let newval = match &self.scopes[i].get(resolved.as_str()).unwrap().type_ann {
                    Some(ann) => match validate_type(&value, ann) {
                        Ok(w) => w,
                        Err(e) => {
                            return Err(e);
                        },
                    },
                    None => value,
                };
                let ghost nv = newval@;
                let scope = &mut self.scopes[i];
                match scope.get_mut(resolved.as_str()) {
                    Some(var) => {
                        var.value = newval;
                    },
                    None => {},
                }
                proof {
                    assert forall|j: int| 0 <= j < self.scopes@.len() implies (#[trigger] self.scopes@[j]).wf() by {
                        if j != i {
                            assert(self.scopes@[j] == old(self).scopes@[j]);
                        }
                    }
                    let ss = old(self).scopes();
                    let rr = resolve(ss, name@, nameref_depth());
                    assert(self.scopes() =~= rebind(ss, i as int, rr, SpecVar { value: nv, ..ss[i as int].vars[rr] }));
                }
                Ok(())
            },
        }
    }

    /// Create a let-bound variable in the current (topmost) scope,
    /// validating the value against the annotation when there is one.
    pub fn let_value(
        &mut self,
        name: &str,
        value: Val,
        mutable: bool,
        exported: bool,
        type_ann: Option<TypeAnnotation>,
    ) -> (r: Result<(), String>)
        requires
            old(self).wf(),
        ensures
            final(self).wf(),
            final(self).functions() == old(self).functions(),
            match type_ann {
                Some(t) => match validate_spec(value@, t@) {
                    Ok(w) => r is Ok && final(self).scopes() == rebind(
                        old(self).scopes(),
                        old(self).scopes().len() - 1,
                        name@,
                        let_var(w, mutable, exported, Some(t@)),
                    ),
                    Err(e) => r is Err && r->Err_0@ == e && final(self).scopes() == old(self).scopes(),
                },
                None => r is Ok && final(self).scopes() == rebind(
                    old(self).scopes(),
                    old(self).scopes().len() - 1,
                    name@,
                    let_var(value@, mutable, exported, None),
                ),
            },
    {
        let validated = match &type_ann {
            Some(ann) => match validate_type(&value, ann) {
                Ok(w) => w,
                Err(e) => {
                    return Err(e);
                },
            },
            None => value,
        };
        let var = Var {
            value: validated,
            error: None,
            exported,
            readonly: false,
            mutable,
            type_ann,
            discipline: None,
            nameref: None,
        };
        let n = self.scopes.len();
        let ghost vv = var@;
        self.scopes[n - 1].set(to_owned_string(name), var);
        proof {
            assert forall|i: int| 0 <= i < self.scopes@.len() implies (#[trigger] self.scopes@[i]).wf() by {
                if i != n - 1 {
                    assert(self.scopes@[i] == old(self).scopes@[i]);
                }
            }
            assert(self.scopes() =~= rebind(old(self).scopes(), old(self).scopes().len() - 1, name@, vv));
        }
        Ok(())
    }

    /// A mutable reference to the innermost variable named `name`.
    pub fn get_mut_var(&mut self, name: &str) -> (r: Option<&mut Var>)
        requires
            old(self).wf(),
        ensures
            match r {
                Some(v) => innermost(old(self).scopes(), name@) >= 0 && lookup(old(self).scopes(), name@)
                    == Some(v@) && final(self).wf() && final(self).functions() == old(self).functions()
                    && final(self).scopes() == rebind(
                    old(self).scopes(),
                    innermost(old(self).scopes(), name@),
                    name@,
                    final(v)@,
                ),
                None => lookup(old(self).scopes(), name@) is None && *final(self) == *old(self),
            },
    {
        match self.find_scope(name) {
            Some(i) => {
                proof { lemma_scopes_update(self.scopes@, i as int); }
                let scope = &mut self.scopes[i];
                let r = scope.get_mut(name);
                r
            },
            None => None,
        }
    }

    /// Define a function, replacing any earlier definition of the name.
    #[verifier::loop_isolation(false)]
    pub fn define_fn(&mut self, name: String, body: Vec<Command>)
        requires
            old(self).wf(),
        ensures
            final(self).wf(),
            final(self).scopes() == old(self).scopes(),
            final(self).functions() == old(self).functions().insert(name@, body),
    {
        proof { lemma_entries_map(self.functions@); }
        let mut i: usize = 0;
        while i < self.functions.len()
            invariant
                i <= self.functions.len(),
                self.functions@ == old(self).functions@,
                self.scopes@ == old(self).scopes@,
                forall|j: int| 0 <= j < i ==> (#[trigger] self.functions@[j]).0@ != name@,
            decreases self.functions.len() - i,
        {
            if str_eq(self.functions[i].0.as_str(), name.as_str()) {
                proof { lemma_entries_update(self.functions@, i as int); }
                self.functions[i].1 = body;
                return;
            }
            i += 1;
        }
        proof {
            lemma_entries_map(self.functions@);
            lemma_entries_push(self.functions@, (name, body));
        }
        self.functions.push((name, body));
    }

    /// Look up a function by name.
    #[verifier::loop_isolation(false)]
    pub fn get_fn(&self, name: &str) -> (r: Option<&Vec<Command>>)
        requires
            self.wf(),
        ensures
            r is Some <==> self.functions().contains_key(name@),
            r matches Some(b) ==> *b == self.functions()[name@],
    {
        proof { lemma_entries_map(self.functions@); }
        let mut i: usize = 0;
        while i < self.functions.len()
            invariant
                i <= self.functions.len(),
                forall|j: int| 0 <= j < i ==> (#[trigger] self.functions@[j]).0@ != name@,
            decreases self.functions.len() - i,
        {
            if str_eq(self.functions[i].0.as_str(), name) {
                return Some(&self.functions[i].1);
            }
            i += 1;
        }
        None
    }

    /// Whether a discipline function `name.kind` is defined.
    pub fn has_discipline(&self, name: &str, kind: &str) -> (r: bool)
        requires
            self.wf(),
        ensures
            r == self.functions().contains_key(name@ + "."@ + kind@),
    {
        let mut fn_name = to_owned_string(name);
        push_str(&mut fn_name, ".");
        push_str(&mut fn_name, kind);
        self.get_fn(fn_name.as_str()).is_some()
    }

    /// The exported environment for a child process: the exported
    /// variables of every scope, outermost first, with their texts.
    pub fn to_process_env(&self) -> (r: Vec<(String, String)>)
        requires
            self.wf(),
        ensures
            r@.map_values(|p: (String, String)| (p.0@, p.1@)) == process_env_of(self.exported_by_scope()),
    {
        let mut result: Vec<(String, String)> = Vec::new();
        let mut i: usize = 0;
        let ghost ex = self.exported_by_scope();
        while i < self.scopes.len()
            invariant
                i <= self.scopes.len(),
                ex == self.exported_by_scope(),
                ex.len() == self.scopes@.len(),
                result@.map_values(|p: (String, String)| (p.0@, p.1@)) == process_env_of(ex.take(i as int)),
            decreases self.scopes.len() - i,
        {
            let pairs = self.scopes[i].exported();
            let ghost before = result@.map_values(|p: (String, String)| (p.0@, p.1@));
            let ghost target = ex[i as int].map_values(
                |p: (Seq<char>, SpecVal)| (p.0, crate::value::display(p.1)),
            );
            let mut k: usize = 0;
            let ghost start_len = result@.len();
            while k < pairs.len()
                invariant
                    k <= pairs.len(),
                    pairs@.map_values(|p: (&str, &Val)| (p.0@, p.1@)) == ex[i as int],
                    target == ex[i as int].map_values(
                        |p: (Seq<char>, SpecVal)| (p.0, crate::value::display(p.1)),
                    ),
                    result@.len() == start_len + k,
                    result@.map_values(|p: (String, String)| (p.0@, p.1@)) == before + target.take(k as int),
                decreases pairs.len() - k,
            {
                let (n, v) = pairs[k];
                let ghost prev = result@;
                result.push((to_owned_string(n), v.to_string()));
                proof {
                    assert(pairs@.map_values(|p: (&str, &Val)| (p.0@, p.1@))[k as int] == (n@, v@));
                    assert(ex[i as int][k as int] == (n@, v@));
                    assert(target[k as int] == (n@, crate::value::display(v@)));
                    assert(result@.map_values(|p: (String, String)| (p.0@, p.1@)) =~= prev.map_values(
                        |p: (String, String)| (p.0@, p.1@),
                    ).push((n@, crate::value::display(v@))));
                    assert(target.take(k + 1) =~= target.take(k as int).push(target[k as int]));
                    assert(result@.map_values(|p: (String, String)| (p.0@, p.1@)) =~= before + target.take(
                        k + 1,
                    ));
                }
                k += 1;
            }
            proof {
                assert(target.take(pairs.len() as int) =~= target);
                assert(ex.take(i + 1).drop_last() =~= ex.take(i as int));
            }
            i += 1;
        }
        proof { assert(ex.take(self.scopes.len() as int) =~= ex); }
        result
    }
}


/// The pieces of `s` between ':' separators (rc keeps $path as a list).
pub fn split_on_colon(s: &str) -> (r: Vec<String>)
    ensures
        r@.map_values(|x: String| x@) == split_colon(s@),
{
    let cs = crate::text::chars_of(s);
    let mut pieces: Vec<String> = Vec::new();
    let mut cur = String::new();
    let mut i: usize = 0;
    proof { assert(cs@.take(0) =~= Seq::<char>::empty()); }
    while i < cs.len()
        invariant
            i <= cs.len(),
            cs@ == s@,
            pieces@.map_values(|x: String| x@).push(cur@) == split_colon(cs@.take(i as int)),
        decreases cs.len() - i,
    {
        let c = cs[i];
        let ghost t = cs@.take(i + 1);
        proof {
            assert(t.drop_last() == cs@.take(i as int));
            assert(t.last() == c);
        }
        if c == ':' {
            let done = cur;
            let ghost prevp = pieces@;
            pieces.push(done);
            cur = String::new();
            proof {
                assert(pieces@.map_values(|x: String| x@) =~= prevp.map_values(|x: String| x@).push(done@));
                assert(pieces@.map_values(|x: String| x@).push(cur@) =~= split_colon(t));
            }
        } else {
            let ghost prevc = cur@;
            crate::text::push_char(&mut cur, c);
            proof {
                let p = split_colon(cs@.take(i as int));
                assert(p.last() == prevc);
                assert(pieces@.map_values(|x: String| x@).push(cur@) =~= p.update(p.len() - 1, p.last().push(c)));
            }
        }
        i += 1;
    }
    proof { assert(cs@.take(cs.len() as int) == cs@); }
    let ghost prevp = pieces@;
    pieces.push(cur);
    proof {
        assert(pieces@.map_values(|x: String| x@) =~= prevp.map_values(|x: String| x@).push(cur@));
    }
    pieces
}

impl Env {
    /// Import process environment variables (name, value), in order, as
    /// exported variables of the global scope, with rc-style lowercase
    /// aliases: $home = $HOME, $path = $PATH split on ':' into a list,
    /// $user = $USER.
    #[verifier::loop_isolation(false)]
    pub fn import_env_vars(&mut self, vars: Vec<(String, String)>)
        requires
            old(self).wf(),
        ensures
            final(self).wf(),
            final(self).functions() == old(self).functions(),
            final(self).scopes() == old(self).scopes().update(
                0,
                SpecScope {
                    vars: import_all(old(self).scopes()[0].vars, vars@),
                    readonly: old(self).scopes()[0].readonly,
                },
            ),
    {
        proof {
            reveal_strlit("HOME");
            reveal_strlit("PATH");
            reveal_strlit("USER");
            reveal_strlit("home");
            reveal_strlit("path");
            reveal_strlit("user");
            lemma_alias_literals();
            assert(vars@.take(0) =~= Seq::<(String, String)>::empty());
            assert(old(self).scopes().update(0, SpecScope {
                vars: import_all(old(self).scopes()[0].vars, vars@.take(0)),
                readonly: old(self).scopes()[0].readonly,
            }) =~= old(self).scopes());
        }
        let mut i: usize = 0;
        while i < vars.len()
            invariant
                i <= vars.len(),
                self.wf(),
                self.functions() == old(self).functions(),
                self.scopes() == old(self).scopes().update(
                    0,
                    SpecScope {
                        vars: import_all(old(self).scopes()[0].vars, vars@.take(i as int)),
                        readonly: old(self).scopes()[0].readonly,
                    },
                ),
            decreases vars.len() - i,
        {
            let key = &vars[i].0;
            let value = &vars[i].1;
            let ghost before = self.scopes();
            proof { lemma_scopes_update(self.scopes@, 0); }
            let global = &mut self.scopes[0];
            global.set(key.clone(), Var::exported(Val::Str(value.clone())));
            if str_eq(key.as_str(), "HOME") {
                global.set(to_owned_string("home"), Var::new(Val::Str(value.clone())));
            } else if str_eq(key.as_str(), "PATH") {
                let dirs = split_on_colon(value.as_str());
                let ghost d = dirs@;
                let lv = Val::from_strings(dirs);
                proof {
                    crate::text::lemma_split_nonempty(value@);
                    assert(lv@ == dirs_value(value@)) by {
                        assert(crate::value::strings_model(d).map_values(|x: Seq<char>| SpecVal::Str(x)) =~= split_colon(value@).map_values(|d: Seq<char>| SpecVal::Str(d)));
                    }
                }
                global.set(to_owned_string("path"), Var::new(lv));
            } else if str_eq(key.as_str(), "USER") {
                global.set(to_owned_string("user"), Var::new(Val::Str(value.clone())));
            }
            proof {
                assert(vars@.take(i + 1).drop_last() == vars@.take(i as int));
                assert(vars@.take(i + 1).last() == vars@[i as int]);
                assert(self.scopes()[0].vars =~= import_one(before[0].vars, key@, value@));
                assert(self.scopes() =~= before.update(
                    0,
                    SpecScope {
                        vars: import_one(before[0].vars, key@, value@),
                        readonly: before[0].readonly,
                    },
                ));
            }
            i += 1;
        }
        proof { assert(vars@.take(vars.len() as int) == vars@); }
    }
}


// ── Laws ───────────────────────────────────────────────────────

proof fn lemma_lookup_rebind(ss: Seq<SpecScope>, i: int, r: Seq<char>, nv: SpecVar, x: Seq<char>)
    requires
        0 <= i < ss.len(),
        forall|j: int| i < j < ss.len() ==> !(#[trigger] ss[j]).vars.contains_key(r),
    ensures
        lookup(rebind(ss, i, r, nv), x) == (if x == r {
            Some(nv)
        } else {
            lookup(ss, x)
        }),
    decreases ss.len(),
{
    let ss2 = rebind(ss, i, r, nv);
    if i == ss.len() - 1 {
        assert(ss2.drop_last() =~= ss.drop_last());
    } else {
        assert(ss2.last() == ss.last());
        assert(!ss.last().vars.contains_key(r));
        assert(ss2.drop_last() =~= rebind(ss.drop_last(), i, r, nv));
        assert forall|j: int| i < j < ss.drop_last().len() implies !(#[trigger] ss.drop_last()[j]).vars.contains_key(r) by {
            assert(ss.drop_last()[j] == ss[j]);
        }
        lemma_lookup_rebind(ss.drop_last(), i, r, nv, x);
    }
}

proof fn lemma_innermost(ss: Seq<SpecScope>, r: Seq<char>)
    ensures
        -1 <= innermost(ss, r) < ss.len(),
        innermost(ss, r) >= 0 ==> ss[innermost(ss, r)].vars.contains_key(r) && lookup(ss, r) == Some(
            ss[innermost(ss, r)].vars[r],
        ),
        innermost(ss, r) < 0 ==> lookup(ss, r) is None,
        forall|j: int| innermost(ss, r) < j < ss.len() ==> !(#[trigger] ss[j]).vars.contains_key(r),
    decreases ss.len(),
{
    if ss.len() > 0 && !ss.last().vars.contains_key(r) {
        lemma_innermost(ss.drop_last(), r);
        assert forall|j: int| innermost(ss, r) < j < ss.len() implies !(#[trigger] ss[j]).vars.contains_key(r) by {
            if j < ss.len() - 1 {
                assert(ss.drop_last()[j] == ss[j]);
            }
        }
        if innermost(ss, r) >= 0 {
            assert(ss.drop_last()[innermost(ss, r)] == ss[innermost(ss, r)]);
        }
    }
}

/// Two scope stacks that agree on every lookup resolve namerefs alike.
proof fn lemma_resolve_same(ss: Seq<SpecScope>, ss2: Seq<SpecScope>, name: Seq<char>, fuel: nat)
    requires
        forall|x: Seq<char>| #[trigger] lookup(ss2, x) == lookup(ss, x),
    ensures
        resolve(ss2, name, fuel) == resolve(ss, name, fuel),
    decreases fuel,
{
    if fuel > 0 {
        assert(lookup(ss2, name) == lookup(ss, name));
        match lookup(ss, name) {
            Some(v) => match v.nameref {
                Some(t) => lemma_resolve_same(ss, ss2, t, (fuel - 1) as nat),
                None => {},
            },
            None => {},
        }
    }
}

/// Rebinding `r` changes no nameref other than possibly `r`'s, so as long
/// as `r` keeps its nameref, resolution is unchanged.
proof fn lemma_resolve_rebind(ss: Seq<SpecScope>, i: int, r: Seq<char>, nv: SpecVar, name: Seq<char>, fuel: nat)
    requires
        0 <= i < ss.len(),
        forall|j: int| i < j < ss.len() ==> !(#[trigger] ss[j]).vars.contains_key(r),
        match lookup(ss, r) {
            Some(v) => v.nameref == nv.nameref,
            None => nv.nameref is None,
        },
    ensures
        resolve(rebind(ss, i, r, nv), name, fuel) == resolve(ss, name, fuel),
    decreases fuel,
{
    let ss2 = rebind(ss, i, r, nv);
    if fuel > 0 {
        lemma_lookup_rebind(ss, i, r, nv, name);
        match lookup(ss2, name) {
            Some(v2) => match v2.nameref {
                Some(t) => {
                    lemma_resolve_rebind(ss, i, r, nv, t, (fuel - 1) as nat);
                },
                None => {},
            },
            None => {},
        }
    }
}

/// What a successful assignment stores: the value itself, or its
/// validated form when the variable carries a type annotation.
pub open spec fn stored_value(ss: Seq<SpecScope>, name: Seq<char>, value: SpecVal) -> SpecVal {
    match lookup(ss, resolve(ss, name, nameref_depth())) {
        Some(v) => match v.type_ann {
            Some(t) => validate_spec(value, t)->Ok_0,
            None => value,
        },
        None => value,
    }
}

/// Read after write: once an assignment succeeds, reading the same name
/// gives back the value written (as validated by the variable's
/// annotation, if it has one).
pub proof fn law_read_after_assign(ss: Seq<SpecScope>, name: Seq<char>, value: SpecVal)
    requires
        ss.len() >= 1,
        assign_outcome(ss, name, value) is Ok,
    ensures
        value_of(assign_outcome(ss, name, value)->Ok_0, name) == stored_value(ss, name, value),
{
    let r = resolve(ss, name, nameref_depth());
    let i = innermost(ss, r);
    lemma_innermost(ss, r);
    let ss2 = assign_outcome(ss, name, value)->Ok_0;
    if i < 0 {
        let nv = plain_var(value, false);
        assert forall|j: int| ss.len() - 1 < j < ss.len() implies !(#[trigger] ss[j]).vars.contains_key(r) by {}
        lemma_resolve_rebind(ss, ss.len() - 1, r, nv, name, nameref_depth());
        lemma_lookup_rebind(ss, ss.len() - 1, r, nv, r);
    } else {
        let v = ss[i].vars[r];
        let nv = match v.type_ann {
            Some(t) => SpecVar { value: validate_spec(value, t)->Ok_0, ..v },
            None => SpecVar { value, ..v },
        };
        assert(ss2 == rebind(ss, i, r, nv));
        lemma_resolve_rebind(ss, i, r, nv, name, nameref_depth());
        lemma_lookup_rebind(ss, i, r, nv, r);
    }
}

/// Read after let: a let binding is visible at once through its name,
/// holding the bound (validated) value.
pub proof fn law_read_after_let(
    ss: Seq<SpecScope>,
    name: Seq<char>,
    value: SpecVal,
    mutable: bool,
    exported: bool,
    t: Option<SpecType>,
)
    requires
        ss.len() >= 1,
    ensures
        value_of(rebind(ss, ss.len() - 1, name, let_var(value, mutable, exported, t)), name) == value,
{
    let ss2 = rebind(ss, ss.len() - 1, name, let_var(value, mutable, exported, t));
    assert(ss2.last().vars.contains_key(name));
    assert(lookup(ss2, name) == Some(let_var(value, mutable, exported, t)));
    assert(resolve(ss2, name, nameref_depth()) == name);
}

/// An inner scope sees every binding of the outer ones: pushing a fresh
/// scope changes no read.
pub proof fn law_inner_scope_sees_outer(ss: Seq<SpecScope>, ro: bool, name: Seq<char>)
    ensures
        value_of(ss.push(SpecScope { vars: Map::empty(), readonly: ro }), name) == value_of(ss, name),
{
    let ss2 = ss.push(SpecScope { vars: Map::empty(), readonly: ro });
    assert forall|x: Seq<char>| #[trigger] lookup(ss2, x) == lookup(ss, x) by {
        assert(ss2.drop_last() == ss);
    }
    lemma_resolve_same(ss, ss2, name, nameref_depth());
}

/// Pushing a scope and popping it again restores the scope stack.
pub proof fn law_push_pop(ss: Seq<SpecScope>, s: SpecScope)
    ensures
        ss.push(s).drop_last() == ss,
{
    assert(ss.push(s).drop_last() =~= ss);
}

/// A readonly scope refuses every assignment.
pub proof fn law_readonly_scope_refuses(ss: Seq<SpecScope>, name: Seq<char>, value: SpecVal)
    requires
        ss.len() >= 1,
        ss.last().readonly,
    ensures
        assign_outcome(ss, name, value) is Err,
{
}

/// A nameref reads through to its target: after `ref alias = target`,
/// reading `alias` gives the value of `target` (when `target` is an
/// ordinary variable), and assignments through `alias` land on `target`.
pub proof fn law_nameref_reads_target(ss: Seq<SpecScope>, alias: Seq<char>, target: Seq<char>)
    requires
        ss.len() >= 1,
        alias != target,
        lookup(ss, target) matches Some(v) && v.nameref is None,
    ensures
        ({
            let ss2 = rebind(
                ss,
                ss.len() - 1,
                alias,
                SpecVar { nameref: Some(target), ..plain_var(SpecVal::Unit, false) },
            );
            &&& value_of(ss2, alias) == lookup(ss, target)->0.value
            &&& resolve(ss2, alias, nameref_depth()) == target
        }),
{
    let nv = SpecVar { nameref: Some(target), ..plain_var(SpecVal::Unit, false) };
    let ss2 = rebind(ss, ss.len() - 1, alias, nv);
    assert forall|j: int| ss.len() - 1 < j < ss.len() implies !(#[trigger] ss[j]).vars.contains_key(alias) by {}
    lemma_lookup_rebind(ss, ss.len() - 1, alias, nv, alias);
    lemma_lookup_rebind(ss, ss.len() - 1, alias, nv, target);
    assert(resolve(ss2, target, 7) == target);
    assert(resolve(ss2, alias, 8) == resolve(ss2, target, 7));
}

/// The process environment holds exactly the exported bindings: a pair
/// `(n, t)` is in it when some scope exports `n` with a value whose text
/// is `t`, and only then.  Scopes come outermost first, so for a name
/// exported by several scopes the innermost one's pair comes last.
pub proof fn law_process_env_is_exports(es: Seq<Seq<(Seq<char>, SpecVal)>>, ss: Seq<SpecScope>)
    requires
        es.len() == ss.len(),
        forall|i: int| 0 <= i < ss.len() ==> lists_exports(#[trigger] es[i], ss[i].vars),
    ensures
        forall|p: (Seq<char>, Seq<char>)|
            process_env_of(es).contains(p) <==> exists|i: int|
                0 <= i < ss.len() && (#[trigger] ss[i]).vars.contains_key(p.0) && ss[i].vars[p.0].exported
                    && display(ss[i].vars[p.0].value) == p.1,
    decreases es.len(),
{
    if es.len() > 0 {
        let et = es.drop_last();
        let st = ss.drop_last();
        assert forall|i: int| 0 <= i < st.len() implies lists_exports(#[trigger] et[i], st[i].vars) by {
            assert(et[i] == es[i] && st[i] == ss[i]);
        }
        law_process_env_is_exports(et, st);
        let last = es.last();
        let sc = ss.last();
        assert(lists_exports(es[es.len() - 1], ss[ss.len() - 1].vars));
        let m = last.map_values(|q: (Seq<char>, SpecVal)| (q.0, display(q.1)));
        let head = process_env_of(et);
        assert(process_env_of(es) == head + m);
        assert forall|p: (Seq<char>, Seq<char>)| process_env_of(es).contains(p) <==> exists|i: int|
            0 <= i < ss.len() && (#[trigger] ss[i]).vars.contains_key(p.0) && ss[i].vars[p.0].exported
                && display(ss[i].vars[p.0].value) == p.1 by {
            let all = head + m;
            if all.contains(p) {
                let k = choose|k: int| 0 <= k < all.len() && all[k] == p;
                if k < head.len() {
                    assert(head[k] == p);
                    assert(head.contains(p));
                    let i = choose|i: int|
                        0 <= i < st.len() && (#[trigger] st[i]).vars.contains_key(p.0) && st[i].vars[p.0].exported
                            && display(st[i].vars[p.0].value) == p.1;
                    assert(ss[i] == st[i]);
                } else {
                    let kk = k - head.len();
                    assert(m[kk] == p);
                    assert(last[kk].0 == p.0);
                    assert(ss[ss.len() - 1] == sc);
                }
            }
            if exists|i: int|
                0 <= i < ss.len() && (#[trigger] ss[i]).vars.contains_key(p.0) && ss[i].vars[p.0].exported
                    && display(ss[i].vars[p.0].value) == p.1 {
                let i = choose|i: int|
                    0 <= i < ss.len() && (#[trigger] ss[i]).vars.contains_key(p.0) && ss[i].vars[p.0].exported
                        && display(ss[i].vars[p.0].value) == p.1;
                if i < st.len() {
                    assert(st[i] == ss[i]);
                    assert(head.contains(p));
                    let k = choose|k: int| 0 <= k < head.len() && head[k] == p;
                    assert(all[k] == head[k]);
                } else {
                    assert(sc.vars.contains_key(p.0) && sc.vars[p.0].exported);
                    let k = choose|k: int| 0 <= k < last.len() && (#[trigger] last[k]).0 == p.0;
                    assert(m[k] == p);
                    assert(all[head.len() + k] == m[k]);
                }
            }
        }
    }
}

/// A fresh environment exports nothing: its global scope binds only the
/// unexported `pid` and `status`.
pub proof fn law_fresh_env_exports_nothing(pid: u32, ex: Seq<(Seq<char>, SpecVal)>)
    requires
        lists_exports(ex, Env::new_globals(pid)),
    ensures
        ex.len() == 0,
{
    if ex.len() > 0 {
        assert(Env::new_globals(pid).contains_key(ex[0].0));
    }
}

/// An assignment changes no other read: after `name = value` succeeds,
/// every name that does not resolve to the assigned variable reads as
/// before, name resolution itself is unchanged, and the number of scopes
/// stays the same.
pub proof fn law_assign_leaves_other_reads(ss: Seq<SpecScope>, name: Seq<char>, value: SpecVal, m: Seq<char>)
    requires
        ss.len() >= 1,
        assign_outcome(ss, name, value) is Ok,
        resolve(ss, m, nameref_depth()) != resolve(ss, name, nameref_depth()),
    ensures
        assign_outcome(ss, name, value)->Ok_0.len() == ss.len(),
        resolve(assign_outcome(ss, name, value)->Ok_0, m, nameref_depth()) == resolve(ss, m, nameref_depth()),
        value_of(assign_outcome(ss, name, value)->Ok_0, m) == value_of(ss, m),
{
    let r = resolve(ss, name, nameref_depth());
    let i = innermost(ss, r);
    let rm = resolve(ss, m, nameref_depth());
    lemma_innermost(ss, r);
    if i < 0 {
        let nv = plain_var(value, false);
        assert forall|j: int| ss.len() - 1 < j < ss.len() implies !(#[trigger] ss[j]).vars.contains_key(r) by {}
        lemma_resolve_rebind(ss, ss.len() - 1, r, nv, m, nameref_depth());
        lemma_lookup_rebind(ss, ss.len() - 1, r, nv, rm);
    } else {
        let v = ss[i].vars[r];
        let nv = match v.type_ann {
            Some(t) => SpecVar { value: validate_spec(value, t)->Ok_0, ..v },
            None => SpecVar { value, ..v },
        };
        lemma_resolve_rebind(ss, i, r, nv, m, nameref_depth());
        lemma_lookup_rebind(ss, i, r, nv, rm);
    }
}

/// `after` differs from `before` at most in the innermost scope.
pub open spec fn changes_only_innermost(before: Seq<SpecScope>, after: Seq<SpecScope>) -> bool {
    &&& before.len() >= 1
    &&& after.len() == before.len()
    &&& after.drop_last() == before.drop_last()
}

/// Binding a name in the innermost scope (as `let`, `ref`, and an
/// assignment that creates a variable do) changes only that scope.
pub proof fn law_innermost_binding_changes_only_innermost(ss: Seq<SpecScope>, n: Seq<char>, v: SpecVar)
    requires
        ss.len() >= 1,
    ensures
        changes_only_innermost(ss, rebind(ss, ss.len() - 1, n, v)),
{
    assert(rebind(ss, ss.len() - 1, n, v).drop_last() =~= ss.drop_last());
}

/// Changes of the innermost scope compose.
pub proof fn law_innermost_changes_compose(a: Seq<SpecScope>, b: Seq<SpecScope>, c: Seq<SpecScope>)
    requires
        changes_only_innermost(a, b),
        changes_only_innermost(b, c),
    ensures
        changes_only_innermost(a, c),
{
}

/// Push, then any changes of the innermost scope, then pop restores the
/// scopes, and with them every read and the readonly flag.
pub proof fn law_pop_undoes_push(ss: Seq<SpecScope>, t: SpecScope, after: Seq<SpecScope>)
    requires
        changes_only_innermost(ss.push(t), after),
    ensures
        after.drop_last() == ss,
        forall|n: Seq<char>| #[trigger] value_of(after.drop_last(), n) == value_of(ss, n),
        forall|n: Seq<char>| #[trigger] lookup(after.drop_last(), n) == lookup(ss, n),
{
    assert(ss.push(t).drop_last() =~= ss);
}

/// An assignment to a name bound nowhere binds it in the innermost scope
/// and nowhere else.
pub proof fn law_creating_assignment_binds_innermost(ss: Seq<SpecScope>, name: Seq<char>, value: SpecVal)
    requires
        ss.len() >= 1,
        !ss.last().readonly,
        lookup(ss, resolve(ss, name, nameref_depth())) is None,
    ensures
        assign_outcome(ss, name, value) == Ok::<Seq<SpecScope>, Seq<char>>(
            rebind(ss, ss.len() - 1, resolve(ss, name, nameref_depth()), plain_var(value, false)),
        ),
{
    lemma_innermost(ss, resolve(ss, name, nameref_depth()));
}

/// No process variable is itself named like one of the aliases.
pub open spec fn no_alias_names(vars: Seq<(String, String)>) -> bool {
    forall|k: int|
        0 <= k < vars.len() ==> (#[trigger] vars[k]).0@ != "home"@ && vars[k].0@ != "path"@ && vars[k].0@
            != "user"@
}

/// Importing process variables with distinct names binds each one,
/// exported, to its text, and binds the alias of HOME, PATH and USER
/// (unexported; `path` as the list of the directories between colons).
pub proof fn law_import_binds_each(m: Map<Seq<char>, SpecVar>, vars: Seq<(String, String)>)
    requires
        distinct_names(vars),
        no_alias_names(vars),
    ensures
        forall|k: int|
            0 <= k < vars.len() ==> import_all(m, vars).contains_key((#[trigger] vars[k]).0@) && import_all(
                m,
                vars,
            )[vars[k].0@] == plain_var(SpecVal::Str(vars[k].1@), true),
        forall|k: int|
            0 <= k < vars.len() && has_alias((#[trigger] vars[k]).0@) ==> import_all(m, vars).contains_key(
                alias_name(vars[k].0@),
            ) && import_all(m, vars)[alias_name(vars[k].0@)] == alias_var(vars[k].0@, vars[k].1@),
    decreases vars.len(),
{
    reveal_strlit("HOME");
    reveal_strlit("PATH");
    reveal_strlit("USER");
    reveal_strlit("home");
    reveal_strlit("path");
    reveal_strlit("user");
    lemma_alias_literals();
    if vars.len() > 0 {
        let t = vars.drop_last();
        assert(distinct_names(t)) by {
            assert forall|i: int, j: int| 0 <= i < j < t.len() implies (#[trigger] t[i]).0@ != (
            #[trigger] t[j]).0@ by {
                assert(t[i] == vars[i] && t[j] == vars[j]);
            }
        }
        assert(no_alias_names(t)) by {
            assert forall|k: int| 0 <= k < t.len() implies (#[trigger] t[k]).0@ != "home"@ && t[k].0@
                != "path"@ && t[k].0@ != "user"@ by {
                assert(t[k] == vars[k]);
            }
        }
        law_import_binds_each(m, t);
        let last = vars[vars.len() - 1];
        assert(last.0@ != "home"@ && last.0@ != "path"@ && last.0@ != "user"@);
        let mt = import_all(m, t);
        let mr = import_all(m, vars);
        assert(mr == import_one(mt, last.0@, last.1@));
        assert forall|k: int| 0 <= k < vars.len() implies mr.contains_key((#[trigger] vars[k]).0@)
            && mr[vars[k].0@] == plain_var(SpecVal::Str(vars[k].1@), true) by {
            if k < t.len() {
                assert(t[k] == vars[k]);
                assert(vars[k].0@ != last.0@);
                assert(vars[k].0@ != "home"@ && vars[k].0@ != "path"@ && vars[k].0@ != "user"@);
            }
        }
        assert forall|k: int| 0 <= k < vars.len() && has_alias((#[trigger] vars[k]).0@) implies mr.contains_key(
            alias_name(vars[k].0@),
        ) && mr[alias_name(vars[k].0@)] == alias_var(vars[k].0@, vars[k].1@) by {
            if k < t.len() {
                assert(t[k] == vars[k]);
                assert(vars[k].0@ != last.0@);
                if has_alias(last.0@) {
                    assert(alias_name(last.0@) != alias_name(vars[k].0@));
                }
            }
        }
    }
}

/// Does scope `s` export `n`?
pub open spec fn exports(s: SpecScope, n: Seq<char>) -> bool {
    s.vars.contains_key(n) && s.vars[n].exported
}

/// For a name exported by several scopes, the last pair for it in the
/// process environment comes from the innermost scope that exports it.
pub proof fn law_process_env_innermost_wins(
    es: Seq<Seq<(Seq<char>, SpecVal)>>,
    ss: Seq<SpecScope>,
    n: Seq<char>,
    i: int,
)
    requires
        es.len() == ss.len(),
        forall|j: int| 0 <= j < ss.len() ==> lists_exports(#[trigger] es[j], ss[j].vars),
        0 <= i < ss.len(),
        exports(ss[i], n),
        forall|j: int| i < j < ss.len() ==> !exports(#[trigger] ss[j], n),
    ensures
        exists|k: int|
            0 <= k < process_env_of(es).len() && #[trigger] process_env_of(es)[k] == (
                n,
                display(ss[i].vars[n].value),
            ) && forall|k2: int| k < k2 < process_env_of(es).len() ==> #[trigger] process_env_of(es)[k2].0 != n,
    decreases es.len(),
{
    let et = es.drop_last();
    let st = ss.drop_last();
    let last = es.last();
    let m = last.map_values(|q: (Seq<char>, SpecVal)| (q.0, display(q.1)));
    let head = process_env_of(et);
    let pe = process_env_of(es);
    assert(pe == head + m);
    assert(lists_exports(es[es.len() - 1], ss[ss.len() - 1].vars));
    if i == ss.len() - 1 {
        let k = choose|k: int| 0 <= k < last.len() && (#[trigger] last[k]).0 == n;
        assert(pe[head.len() + k] == m[k]);
        assert forall|k2: int| head.len() + k < k2 < pe.len() implies #[trigger] pe[k2].0 != n by {
            assert(pe[k2] == m[k2 - head.len()]);
            assert(last[k2 - head.len()].0 != last[k].0);
        }
    } else {
        assert forall|j: int| 0 <= j < st.len() implies lists_exports(#[trigger] et[j], st[j].vars) by {
            assert(et[j] == es[j] && st[j] == ss[j]);
        }
        assert forall|j: int| i < j < st.len() implies !exports(#[trigger] st[j], n) by {
            assert(st[j] == ss[j]);
        }
        assert(st[i] == ss[i]);
        law_process_env_innermost_wins(et, st, n, i);
        let k = choose|k: int|
            0 <= k < head.len() && #[trigger] head[k] == (n, display(st[i].vars[n].value)) && forall|k2: int|
                k < k2 < head.len() ==> #[trigger] head[k2].0 != n;
        assert(!exports(ss[ss.len() - 1], n));
        assert(pe[k] == head[k]);
        assert forall|k2: int| k < k2 < pe.len() implies #[trigger] pe[k2].0 != n by {
            if k2 < head.len() {
                assert(pe[k2] == head[k2]);
            } else {
                assert(pe[k2] == m[k2 - head.len()]);
            }
        }
    }
}

} // verus!
