//! Abstract syntax of psh programs.
//!
//! Four node families: words and values (producers), expressions
//! (commands with redirections wrapped around them), bindings (which
//! extend the context) and commands (cuts and control flow).
//!
//! Every node type has a mathematical model (`Spec*`) in which owned
//! strings become `Seq<char>` and vectors become `Seq`; the `View`
//! of a node is its model.  The `copy_*` functions produce deep copies
//! whose model equals that of the node copied.

use vstd::prelude::*;

use crate::text::{push_char, push_str};

verus! {

/// A word in the shell — the smallest unit of value.
#[derive(Debug, PartialEq)]
pub enum Word {
    /// Literal string: hello
    Literal(String),
    /// Quoted string: 'text'
    Quoted(String),
    /// Variable reference: $x
    Var(String),
    /// Indexed variable: $x(n)
    Index(String, Box<Word>),
    /// Count: $#x
    Count(String),
    /// Command substitution: `{ cmd }
    CommandSub(Vec<Command>),
    /// Process substitution: <{cmd}
    ProcessSub(Vec<Command>),
    /// Concatenation: a^b
    Concat(Vec<Word>),
    /// Stringify: $"x
    Stringify(String),
}

/// A list value — rc's first-class lists.
#[derive(Debug, PartialEq)]
pub enum Value {
    /// Single word
    Word(Word),
    /// List literal: (a b c)
    List(Vec<Word>),
}

/// A simple command: name and arguments, all words.
#[derive(Debug, PartialEq)]
pub struct SimpleCommand {
    /// The command name (first word).
    pub name: Word,
    /// Arguments (remaining words).
    pub args: Vec<Word>,
    /// Assignments that precede the command: x=val cmd
    pub assignments: Vec<(String, Value)>,
}

/// File descriptor redirection target.
#[derive(Debug, PartialEq)]
pub enum RedirectTarget {
    /// Redirect to/from a file path.
    File(Word),
    /// Here-document with delimiter.
    HereDoc(String),
    /// Here-string.
    HereString(Word),
}

/// A single fd operation.
#[derive(Debug, PartialEq)]
pub enum RedirectOp {
    /// >[fd] target
    Output { fd: u32, target: RedirectTarget, append: bool },
    /// <[fd] target
    Input { fd: u32, target: RedirectTarget },
    /// >[dst=src]
    Dup { dst: u32, src: u32 },
    /// >[fd=]
    Close { fd: u32 },
}

/// An expression — a command or composition of commands.
#[derive(Debug, PartialEq)]
pub enum Expr {
    Simple(SimpleCommand),
    Redirect(Box<Expr>, RedirectOp),
    Pipeline(Vec<Expr>),
    And(Box<Expr>, Box<Expr>),
    Or(Box<Expr>, Box<Expr>),
    Not(Box<Expr>),
    Background(Box<Expr>),
    Block(Vec<Command>),
    Subshell(Vec<Command>),
    Coprocess(Box<Expr>),
}

/// Pattern for match arms and ~ matching.
#[derive(Debug, PartialEq)]
pub enum Pattern {
    Literal(String),
    Glob(String),
    Star,
    Tagged { tag: String, binding: String },
}

/// Type annotation for let bindings.
#[derive(Debug, PartialEq)]
pub enum TypeAnnotation {
    Unit,
    Bool,
    Int,
    Str,
    Path,
    ExitCode,
    List(Option<Box<TypeAnnotation>>),
    Tuple(Vec<TypeAnnotation>),
    Union(Vec<TypeAnnotation>),
    Result(Box<TypeAnnotation>),
    Maybe(Box<TypeAnnotation>),
}

/// A binding — extends the context with a new name.
#[derive(Debug, PartialEq)]
pub enum Binding {
    Assignment(String, Value),
    Let {
        name: String,
        value: Value,
        mutable: bool,
        export: bool,
        type_ann: Option<TypeAnnotation>,
    },
    Fn { name: String, body: Vec<Command> },
    Ref { name: String, target: String },
}

/// A command — the top-level sequencing unit.
#[derive(Debug, PartialEq)]
pub enum Command {
    Bind(Binding),
    Exec(Expr),
    If { condition: Expr, then_body: Vec<Command>, else_body: Option<Vec<Command>> },
    For { var: String, list: Value, body: Vec<Command> },
    Match { value: Value, arms: Vec<(Vec<Pattern>, Vec<Command>)> },
    While { condition: Expr, body: Vec<Command> },
    Return(Option<Value>),
}

/// A complete psh program — a sequence of commands.
#[derive(Debug, PartialEq)]
pub struct Program {
    pub commands: Vec<Command>,
}

// ── Models ─────────────────────────────────────────────────────

pub enum SpecWord {
    Literal(Seq<char>),
    Quoted(Seq<char>),
    Var(Seq<char>),
    Index(Seq<char>, Box<SpecWord>),
    Count(Seq<char>),
    CommandSub(Seq<SpecCommand>),
    ProcessSub(Seq<SpecCommand>),
    Concat(Seq<SpecWord>),
    Stringify(Seq<char>),
}

pub enum SpecValue {
    Word(SpecWord),
    List(Seq<SpecWord>),
}

pub struct SpecSimpleCommand {
    pub name: SpecWord,
    pub args: Seq<SpecWord>,
    pub assignments: Seq<(Seq<char>, SpecValue)>,
}

pub enum SpecRedirectTarget {
    File(SpecWord),
    HereDoc(Seq<char>),
    HereString(SpecWord),
}

pub enum SpecRedirectOp {
    Output { fd: u32, target: SpecRedirectTarget, append: bool },
    Input { fd: u32, target: SpecRedirectTarget },
    Dup { dst: u32, src: u32 },
    Close { fd: u32 },
}

pub enum SpecExpr {
    Simple(SpecSimpleCommand),
    Redirect(Box<SpecExpr>, SpecRedirectOp),
    Pipeline(Seq<SpecExpr>),
    And(Box<SpecExpr>, Box<SpecExpr>),
    Or(Box<SpecExpr>, Box<SpecExpr>),
    Not(Box<SpecExpr>),
    Background(Box<SpecExpr>),
    Block(Seq<SpecCommand>),
    Subshell(Seq<SpecCommand>),
    Coprocess(Box<SpecExpr>),
}

pub enum SpecPattern {
    Literal(Seq<char>),
    Glob(Seq<char>),
    Star,
    Tagged { tag: Seq<char>, binding: Seq<char> },
}

pub enum SpecType {
    Unit,
    Bool,
    Int,
    Str,
    Path,
    ExitCode,
    List(Option<Box<SpecType>>),
    Tuple(Seq<SpecType>),
    Union(Seq<SpecType>),
    Result(Box<SpecType>),
    Maybe(Box<SpecType>),
}

pub enum SpecBinding {
    Assignment(Seq<char>, SpecValue),
    Let {
        name: Seq<char>,
        value: SpecValue,
        mutable: bool,
        export: bool,
        type_ann: Option<SpecType>,
    },
    Fn { name: Seq<char>, body: Seq<SpecCommand> },
    Ref { name: Seq<char>, target: Seq<char> },
}

pub enum SpecCommand {
    Bind(SpecBinding),
    Exec(SpecExpr),
    If { condition: SpecExpr, then_body: Seq<SpecCommand>, else_body: Option<Seq<SpecCommand>> },
    For { var: Seq<char>, list: SpecValue, body: Seq<SpecCommand> },
    Match { value: SpecValue, arms: Seq<(Seq<SpecPattern>, Seq<SpecCommand>)> },
    While { condition: SpecExpr, body: Seq<SpecCommand> },
    Return(Option<SpecValue>),
}

pub open spec fn pattern_model(p: Pattern) -> SpecPattern {
    match p {
        Pattern::Literal(s) => SpecPattern::Literal(s@),
        Pattern::Glob(s) => SpecPattern::Glob(s@),
        Pattern::Star => SpecPattern::Star,
        Pattern::Tagged { tag, binding } => SpecPattern::Tagged { tag: tag@, binding: binding@ },
    }
}

pub open spec fn patterns_model(s: Seq<Pattern>) -> Seq<SpecPattern> {
    s.map_values(|p: Pattern| pattern_model(p))
}

pub open spec fn word_model(w: Word) -> SpecWord
    decreases w,
{
    match w {
        Word::Literal(s) => SpecWord::Literal(s@),
        Word::Quoted(s) => SpecWord::Quoted(s@),
        Word::Var(s) => SpecWord::Var(s@),
        Word::Index(s, b) => SpecWord::Index(s@, Box::new(word_model(*b))),
        Word::Count(s) => SpecWord::Count(s@),
        Word::CommandSub(c) => SpecWord::CommandSub(commands_model(c@)),
        Word::ProcessSub(c) => SpecWord::ProcessSub(commands_model(c@)),
        Word::Concat(ws) => SpecWord::Concat(words_model(ws@)),
        Word::Stringify(s) => SpecWord::Stringify(s@),
    }
}

pub open spec fn words_model(s: Seq<Word>) -> Seq<SpecWord>
    decreases s,
{
    if s.len() == 0 {
        Seq::empty()
    } else {
        words_model(s.drop_last()).push(word_model(s.last()))
    }
}

pub open spec fn value_model(v: Value) -> SpecValue
    decreases v,
{
    match v {
        Value::Word(w) => SpecValue::Word(word_model(w)),
        Value::List(ws) => SpecValue::List(words_model(ws@)),
    }
}

pub open spec fn assignments_model(s: Seq<(String, Value)>) -> Seq<(Seq<char>, SpecValue)>
    decreases s,
{
    if s.len() == 0 {
        Seq::empty()
    } else {
        assignments_model(s.drop_last()).push((s.last().0@, value_model(s.last().1)))
    }
}

pub open spec fn simple_model(c: SimpleCommand) -> SpecSimpleCommand
    decreases c,
{
    SpecSimpleCommand {
        name: word_model(c.name),
        args: words_model(c.args@),
        assignments: assignments_model(c.assignments@),
    }
}

pub open spec fn target_model(t: RedirectTarget) -> SpecRedirectTarget
    decreases t,
{
    match t {
        RedirectTarget::File(w) => SpecRedirectTarget::File(word_model(w)),
        RedirectTarget::HereDoc(s) => SpecRedirectTarget::HereDoc(s@),
        RedirectTarget::HereString(w) => SpecRedirectTarget::HereString(word_model(w)),
    }
}

pub open spec fn redirect_model(r: RedirectOp) -> SpecRedirectOp
    decreases r,
{
    match r {
        RedirectOp::Output { fd, target, append } => SpecRedirectOp::Output {
            fd,
            target: target_model(target),
            append,
        },
        RedirectOp::Input { fd, target } => SpecRedirectOp::Input { fd, target: target_model(target) },
        RedirectOp::Dup { dst, src } => SpecRedirectOp::Dup { dst, src },
        RedirectOp::Close { fd } => SpecRedirectOp::Close { fd },
    }
}

pub open spec fn expr_model(e: Expr) -> SpecExpr
    decreases e,
{
    match e {
        Expr::Simple(c) => SpecExpr::Simple(simple_model(c)),
        Expr::Redirect(b, r) => SpecExpr::Redirect(Box::new(expr_model(*b)), redirect_model(r)),
        Expr::Pipeline(es) => SpecExpr::Pipeline(exprs_model(es@)),
        Expr::And(a, b) => SpecExpr::And(Box::new(expr_model(*a)), Box::new(expr_model(*b))),
        Expr::Or(a, b) => SpecExpr::Or(Box::new(expr_model(*a)), Box::new(expr_model(*b))),
        Expr::Not(a) => SpecExpr::Not(Box::new(expr_model(*a))),
        Expr::Background(a) => SpecExpr::Background(Box::new(expr_model(*a))),
        Expr::Block(c) => SpecExpr::Block(commands_model(c@)),
        Expr::Subshell(c) => SpecExpr::Subshell(commands_model(c@)),
        Expr::Coprocess(a) => SpecExpr::Coprocess(Box::new(expr_model(*a))),
    }
}

pub open spec fn exprs_model(s: Seq<Expr>) -> Seq<SpecExpr>
    decreases s,
{
    if s.len() == 0 {
        Seq::empty()
    } else {
        exprs_model(s.drop_last()).push(expr_model(s.last()))
    }
}

pub open spec fn type_model(t: TypeAnnotation) -> SpecType
    decreases t,
{
    match t {
        TypeAnnotation::Unit => SpecType::Unit,
        TypeAnnotation::Bool => SpecType::Bool,
        TypeAnnotation::Int => SpecType::Int,
        TypeAnnotation::Str => SpecType::Str,
        TypeAnnotation::Path => SpecType::Path,
        TypeAnnotation::ExitCode => SpecType::ExitCode,
        TypeAnnotation::List(None) => SpecType::List(None),
        TypeAnnotation::List(Some(b)) => SpecType::List(Some(Box::new(type_model(*b)))),
        TypeAnnotation::Tuple(ts) => SpecType::Tuple(types_model(ts@)),
        TypeAnnotation::Union(ts) => SpecType::Union(types_model(ts@)),
        TypeAnnotation::Result(b) => SpecType::Result(Box::new(type_model(*b))),
        TypeAnnotation::Maybe(b) => SpecType::Maybe(Box::new(type_model(*b))),
    }
}

pub open spec fn types_model(s: Seq<TypeAnnotation>) -> Seq<SpecType>
    decreases s,
{
    if s.len() == 0 {
        Seq::empty()
    } else {
        types_model(s.drop_last()).push(type_model(s.last()))
    }
}

pub open spec fn binding_model(b: Binding) -> SpecBinding
    decreases b,
{
    match b {
        Binding::Assignment(n, v) => SpecBinding::Assignment(n@, value_model(v)),
        Binding::Let { name, value, mutable, export, type_ann } => SpecBinding::Let {
            name: name@,
            value: value_model(value),
            mutable,
            export,
            type_ann: match type_ann {
                Some(t) => Some(type_model(t)),
                None => None,
            },
        },
        Binding::Fn { name, body } => SpecBinding::Fn { name: name@, body: commands_model(body@) },
        Binding::Ref { name, target } => SpecBinding::Ref { name: name@, target: target@ },
    }
}

pub open spec fn command_model(c: Command) -> SpecCommand
    decreases c,
{
    match c {
        Command::Bind(b) => SpecCommand::Bind(binding_model(b)),
        Command::Exec(e) => SpecCommand::Exec(expr_model(e)),
        Command::If { condition, then_body, else_body } => SpecCommand::If {
            condition: expr_model(condition),
            then_body: commands_model(then_body@),
            else_body: match else_body {
                Some(b) => Some(commands_model(b@)),
                None => None,
            },
        },
        Command::For { var, list, body } => SpecCommand::For {
            var: var@,
            list: value_model(list),
            body: commands_model(body@),
        },
        Command::Match { value, arms } => SpecCommand::Match {
            value: value_model(value),
            arms: arms_model(arms@),
        },
        Command::While { condition, body } => SpecCommand::While {
            condition: expr_model(condition),
            body: commands_model(body@),
        },
        Command::Return(None) => SpecCommand::Return(None),
        Command::Return(Some(v)) => SpecCommand::Return(Some(value_model(v))),
    }
}

pub open spec fn commands_model(s: Seq<Command>) -> Seq<SpecCommand>
    decreases s,
{
    if s.len() == 0 {
        Seq::empty()
    } else {
        commands_model(s.drop_last()).push(command_model(s.last()))
    }
}

pub open spec fn arms_model(s: Seq<(Vec<Pattern>, Vec<Command>)>) -> Seq<(Seq<SpecPattern>, Seq<SpecCommand>)>
    decreases s,
{
    if s.len() == 0 {
        Seq::empty()
    } else {
        arms_model(s.drop_last()).push((patterns_model(s.last().0@), commands_model(s.last().1@)))
    }
}

impl View for Word {
    type V = SpecWord;

    open spec fn view(&self) -> SpecWord {
        word_model(*self)
    }
}

impl View for Command {
    type V = SpecCommand;

    open spec fn view(&self) -> SpecCommand {
        command_model(*self)
    }
}

impl View for TypeAnnotation {
    type V = SpecType;

    open spec fn view(&self) -> SpecType {
        type_model(*self)
    }
}

impl View for Value {
    type V = SpecValue;

    open spec fn view(&self) -> SpecValue {
        value_model(*self)
    }
}


/// Deep copy of a vector of nodes.
pub fn copy_words(v: &Vec<Word>) -> (r: Vec<Word>)
    ensures
        words_model(r@) == words_model(v@),
    decreases v,
{
    let mut out: Vec<Word> = Vec::new();
    let mut i: usize = 0;
    while i < v.len()
        invariant
            i <= v.len(),
            words_model(out@) == words_model(v@.take(i as int)),
        decreases v.len() - i,
    {
        proof { assert(decreases_to!(v => v@[i as int])); }
        let c = copy_word(&v[i]);
        let ghost prev = out@;
        out.push(c);
        proof {
            assert(out@.drop_last() == prev);
            assert(v@.take(i + 1).drop_last() == v@.take(i as int));
        }
        i += 1;
    }
    proof { assert(v@.take(v.len() as int) == v@); }
    out
}

/// Deep copy of a vector of nodes.
pub fn copy_exprs(v: &Vec<Expr>) -> (r: Vec<Expr>)
    ensures
        exprs_model(r@) == exprs_model(v@),
    decreases v,
{
    let mut out: Vec<Expr> = Vec::new();
    let mut i: usize = 0;
    while i < v.len()
        invariant
            i <= v.len(),
            exprs_model(out@) == exprs_model(v@.take(i as int)),
        decreases v.len() - i,
    {
        proof { assert(decreases_to!(v => v@[i as int])); }
        let c = copy_expr(&v[i]);
        let ghost prev = out@;
        out.push(c);
        proof {
            assert(out@.drop_last() == prev);
            assert(v@.take(i + 1).drop_last() == v@.take(i as int));
        }
        i += 1;
    }
    proof { assert(v@.take(v.len() as int) == v@); }
    out
}

/// Deep copy of a vector of nodes.
pub fn copy_types(v: &Vec<TypeAnnotation>) -> (r: Vec<TypeAnnotation>)
    ensures
        types_model(r@) == types_model(v@),
    decreases v,
{
    let mut out: Vec<TypeAnnotation> = Vec::new();
    let mut i: usize = 0;
    while i < v.len()
        invariant
            i <= v.len(),
            types_model(out@) == types_model(v@.take(i as int)),
        decreases v.len() - i,
    {
        proof { assert(decreases_to!(v => v@[i as int])); }
        let c = copy_type(&v[i]);
        let ghost prev = out@;
        out.push(c);
        proof {
            assert(out@.drop_last() == prev);
            assert(v@.take(i + 1).drop_last() == v@.take(i as int));
        }
        i += 1;
    }
    proof { assert(v@.take(v.len() as int) == v@); }
    out
}

/// Deep copy of a vector of nodes.
pub fn copy_commands(v: &Vec<Command>) -> (r: Vec<Command>)
    ensures
        commands_model(r@) == commands_model(v@),
    decreases v,
{
    let mut out: Vec<Command> = Vec::new();
    let mut i: usize = 0;
    while i < v.len()
        invariant
            i <= v.len(),
            commands_model(out@) == commands_model(v@.take(i as int)),
        decreases v.len() - i,
    {
        proof { assert(decreases_to!(v => v@[i as int])); }
        let c = copy_command(&v[i]);
        let ghost prev = out@;
        out.push(c);
        proof {
            assert(out@.drop_last() == prev);
            assert(v@.take(i + 1).drop_last() == v@.take(i as int));
        }
        i += 1;
    }
    proof { assert(v@.take(v.len() as int) == v@); }
    out
}

/// Deep copy of a vector of nodes.
pub fn copy_assignments(v: &Vec<(String, Value)>) -> (r: Vec<(String, Value)>)
    ensures
        assignments_model(r@) == assignments_model(v@),
    decreases v,
{
    let mut out: Vec<(String, Value)> = Vec::new();
    let mut i: usize = 0;
    while i < v.len()
        invariant
            i <= v.len(),
            assignments_model(out@) == assignments_model(v@.take(i as int)),
        decreases v.len() - i,
    {
        proof { assert(decreases_to!(v => v@[i as int])); }
        let c = (v[i].0.clone(), copy_value(&v[i].1));
        let ghost prev = out@;
        out.push(c);
        proof {
            assert(out@.drop_last() == prev);
            assert(v@.take(i + 1).drop_last() == v@.take(i as int));
        }
        i += 1;
    }
    proof { assert(v@.take(v.len() as int) == v@); }
    out
}

/// Deep copy of a vector of nodes.
pub fn copy_arms(v: &Vec<(Vec<Pattern>, Vec<Command>)>) -> (r: Vec<(Vec<Pattern>, Vec<Command>)>)
    ensures
        arms_model(r@) == arms_model(v@),
    decreases v,
{
    let mut out: Vec<(Vec<Pattern>, Vec<Command>)> = Vec::new();
    let mut i: usize = 0;
    while i < v.len()
        invariant
            i <= v.len(),
            arms_model(out@) == arms_model(v@.take(i as int)),
        decreases v.len() - i,
    {
        proof { assert(decreases_to!(v => v@[i as int])); }
        let c = (copy_patterns(&v[i].0), copy_commands(&v[i].1));
        let ghost prev = out@;
        out.push(c);
        proof {
            assert(out@.drop_last() == prev);
            assert(v@.take(i + 1).drop_last() == v@.take(i as int));
        }
        i += 1;
    }
    proof { assert(v@.take(v.len() as int) == v@); }
    out
}

/// Deep copy of a pattern.
pub fn copy_pattern(p: &Pattern) -> (r: Pattern)
    ensures
        r == *p,
{
    match p {
        Pattern::Literal(s) => Pattern::Literal(s.clone()),
        Pattern::Glob(s) => Pattern::Glob(s.clone()),
        Pattern::Star => Pattern::Star,
        Pattern::Tagged { tag, binding } => Pattern::Tagged { tag: tag.clone(), binding: binding.clone() },
    }
}

/// Deep copy of a vector of patterns.
pub fn copy_patterns(v: &Vec<Pattern>) -> (r: Vec<Pattern>)
    ensures
        r@ == v@,
{
    let mut out: Vec<Pattern> = Vec::new();
    let mut i: usize = 0;
    while i < v.len()
        invariant
            i <= v.len(),
            out@ == v@.take(i as int),
        decreases v.len() - i,
    {
        out.push(copy_pattern(&v[i]));
        i += 1;
    }
    proof { assert(v@.take(v.len() as int) == v@); }
    out
}

/// Deep copy of a word.
pub fn copy_word(w: &Word) -> (r: Word)
    ensures
        r@ == w@,
    decreases w,
{
    match w {
        Word::Literal(s) => Word::Literal(s.clone()),
        Word::Quoted(s) => Word::Quoted(s.clone()),
        Word::Var(s) => Word::Var(s.clone()),
        Word::Index(s, b) => Word::Index(s.clone(), Box::new(copy_word(b))),
        Word::Count(s) => Word::Count(s.clone()),
        Word::CommandSub(c) => Word::CommandSub(copy_commands(c)),
        Word::ProcessSub(c) => Word::ProcessSub(copy_commands(c)),
        Word::Concat(ws) => Word::Concat(copy_words(ws)),
        Word::Stringify(s) => Word::Stringify(s.clone()),
    }
}

/// Deep copy of a value.
pub fn copy_value(v: &Value) -> (r: Value)
    ensures
        r@ == v@,
    decreases v,
{
    match v {
        Value::Word(w) => Value::Word(copy_word(w)),
        Value::List(ws) => Value::List(copy_words(ws)),
    }
}

/// Deep copy of a simple command.
pub fn copy_simple(c: &SimpleCommand) -> (r: SimpleCommand)
    ensures
        simple_model(r) == simple_model(*c),
    decreases c,
{
    SimpleCommand {
        name: copy_word(&c.name),
        args: copy_words(&c.args),
        assignments: copy_assignments(&c.assignments),
    }
}

/// Deep copy of a redirection target.
pub fn copy_target(t: &RedirectTarget) -> (r: RedirectTarget)
    ensures
        target_model(r) == target_model(*t),
    decreases t,
{
    match t {
        RedirectTarget::File(w) => RedirectTarget::File(copy_word(w)),
        RedirectTarget::HereDoc(s) => RedirectTarget::HereDoc(s.clone()),
        RedirectTarget::HereString(w) => RedirectTarget::HereString(copy_word(w)),
    }
}

/// Deep copy of a redirection.
pub fn copy_redirect(o: &RedirectOp) -> (r: RedirectOp)
    ensures
        redirect_model(r) == redirect_model(*o),
    decreases o,
{
    match o {
        RedirectOp::Output { fd, target, append } => RedirectOp::Output {
            fd: *fd,
            target: copy_target(target),
            append: *append,
        },
        RedirectOp::Input { fd, target } => RedirectOp::Input { fd: *fd, target: copy_target(target) },
        RedirectOp::Dup { dst, src } => RedirectOp::Dup { dst: *dst, src: *src },
        RedirectOp::Close { fd } => RedirectOp::Close { fd: *fd },
    }
}

/// Deep copy of an expression.
pub fn copy_expr(e: &Expr) -> (r: Expr)
    ensures
        expr_model(r) == expr_model(*e),
    decreases e,
{
    match e {
        Expr::Simple(c) => Expr::Simple(copy_simple(c)),
        Expr::Redirect(b, o) => Expr::Redirect(Box::new(copy_expr(b)), copy_redirect(o)),
        Expr::Pipeline(es) => Expr::Pipeline(copy_exprs(es)),
        Expr::And(a, b) => Expr::And(Box::new(copy_expr(a)), Box::new(copy_expr(b))),
        Expr::Or(a, b) => Expr::Or(Box::new(copy_expr(a)), Box::new(copy_expr(b))),
        Expr::Not(a) => Expr::Not(Box::new(copy_expr(a))),
        Expr::Background(a) => Expr::Background(Box::new(copy_expr(a))),
        Expr::Block(c) => Expr::Block(copy_commands(c)),
        Expr::Subshell(c) => Expr::Subshell(copy_commands(c)),
        Expr::Coprocess(a) => Expr::Coprocess(Box::new(copy_expr(a))),
    }
}

/// Deep copy of a type annotation.
pub fn copy_type(t: &TypeAnnotation) -> (r: TypeAnnotation)
    ensures
        r@ == t@,
    decreases t,
{
    match t {
        TypeAnnotation::Unit => TypeAnnotation::Unit,
        TypeAnnotation::Bool => TypeAnnotation::Bool,
        TypeAnnotation::Int => TypeAnnotation::Int,
        TypeAnnotation::Str => TypeAnnotation::Str,
        TypeAnnotation::Path => TypeAnnotation::Path,
        TypeAnnotation::ExitCode => TypeAnnotation::ExitCode,
        TypeAnnotation::List(None) => TypeAnnotation::List(None),
        TypeAnnotation::List(Some(b)) => TypeAnnotation::List(Some(Box::new(copy_type(b)))),
        TypeAnnotation::Tuple(ts) => TypeAnnotation::Tuple(copy_types(ts)),
        TypeAnnotation::Union(ts) => TypeAnnotation::Union(copy_types(ts)),
        TypeAnnotation::Result(b) => TypeAnnotation::Result(Box::new(copy_type(b))),
        TypeAnnotation::Maybe(b) => TypeAnnotation::Maybe(Box::new(copy_type(b))),
    }
}

/// Deep copy of a binding.
pub fn copy_binding(b: &Binding) -> (r: Binding)
    ensures
        binding_model(r) == binding_model(*b),
    decreases b,
{
    match b {
        Binding::Assignment(n, v) => Binding::Assignment(n.clone(), copy_value(v)),
        Binding::Let { name, value, mutable, export, type_ann } => Binding::Let {
            name: name.clone(),
            value: copy_value(value),
            mutable: *mutable,
            export: *export,
            type_ann: match type_ann {
                Some(t) => Some(copy_type(t)),
                None => None,
            },
        },
        Binding::Fn { name, body } => Binding::Fn { name: name.clone(), body: copy_commands(body) },
        Binding::Ref { name, target } => Binding::Ref { name: name.clone(), target: target.clone() },
    }
}

/// Deep copy of a command.
pub fn copy_command(c: &Command) -> (r: Command)
    ensures
        r@ == c@,
    decreases c,
{
    match c {
        Command::Bind(b) => Command::Bind(copy_binding(b)),
        Command::Exec(e) => Command::Exec(copy_expr(e)),
        Command::If { condition, then_body, else_body } => Command::If {
            condition: copy_expr(condition),
            then_body: copy_commands(then_body),
            else_body: match else_body {
                Some(b) => Some(copy_commands(b)),
                None => None,
            },
        },
        Command::For { var, list, body } => Command::For {
            var: var.clone(),
            list: copy_value(list),
            body: copy_commands(body),
        },
        Command::Match { value, arms } => Command::Match { value: copy_value(value), arms: copy_arms(arms) },
        Command::While { condition, body } => Command::While {
            condition: copy_expr(condition),
            body: copy_commands(body),
        },
        Command::Return(None) => Command::Return(None),
        Command::Return(Some(v)) => Command::Return(Some(copy_value(v))),
    }
}

// ── Writing words back ─────────────────────────────────────────

/// How a word is written: literals as they are, quoted strings between
/// single quotes, variable forms with their sigils, substitutions
/// abbreviated, and concatenations as their parts side by side.
pub open spec fn word_text(w: Word) -> Seq<char>
    decreases w,
{
    match w {
        Word::Literal(s) => s@,
        Word::Quoted(s) => seq!['\''] + s@ + seq!['\''],
        Word::Var(name) => seq!['$'] + name@,
        Word::Index(name, idx) => seq!['$'] + name@ + seq!['('] + word_text(*idx) + seq![')'],
        Word::Count(name) => seq!['$', '#'] + name@,
        Word::CommandSub(_) => seq!['`', '{', '.', '.', '.', '}'],
        Word::ProcessSub(_) => seq!['<', '{', '.', '.', '.', '}'],
        Word::Concat(parts) => words_text(parts@),
        Word::Stringify(name) => seq!['$', '"'] + name@,
    }
}

/// The texts of words written side by side.
pub open spec fn words_text(ws: Seq<Word>) -> Seq<char>
    decreases ws,
{
    if ws.len() == 0 {
        Seq::empty()
    } else {
        words_text(ws.drop_last()) + word_text(ws.last())
    }
}

/// Appends the text of `w` to `out`.
fn push_word_text(out: &mut String, w: &Word)
    ensures
        final(out)@ == old(out)@ + word_text(*w),
    decreases w,
{
    match w {
        Word::Literal(s) => {
            push_str(out, s.as_str());
        },
        Word::Quoted(s) => {
            push_char(out, '\'');
            push_str(out, s.as_str());
            push_char(out, '\'');
        },
        Word::Var(name) => {
            push_char(out, '$');
            push_str(out, name.as_str());
        },
        Word::Index(name, idx) => {
            push_char(out, '$');
            push_str(out, name.as_str());
            push_char(out, '(');
            push_word_text(out, idx);
            push_char(out, ')');
        },
        Word::Count(name) => {
            push_char(out, '$');
            push_char(out, '#');
            push_str(out, name.as_str());
        },
        Word::CommandSub(_) => {
            push_char(out, '`');
            push_char(out, '{');
            push_char(out, '.');
            push_char(out, '.');
            push_char(out, '.');
            push_char(out, '}');
        },
        Word::ProcessSub(_) => {
            push_char(out, '<');
            push_char(out, '{');
            push_char(out, '.');
            push_char(out, '.');
            push_char(out, '.');
            push_char(out, '}');
        },
        Word::Concat(parts) => {
            push_words_text(out, parts);
        },
        Word::Stringify(name) => {
            push_char(out, '$');
            push_char(out, '"');
            push_str(out, name.as_str());
        },
    }
    proof { assert(final(out)@ =~= old(out)@ + word_text(*w)); }
}

/// Appends the texts of `ws`, side by side, to `out`.
fn push_words_text(out: &mut String, ws: &Vec<Word>)
    ensures
        final(out)@ == old(out)@ + words_text(ws@),
    decreases ws,
{
    let ghost start = out@;
    let mut i: usize = 0;
    proof { assert(ws@.take(0) =~= Seq::<Word>::empty()); }
    while i < ws.len()
        invariant
            i <= ws.len(),
            out@ == start + words_text(ws@.take(i as int)),
        decreases ws.len() - i,
    {
        proof {
            assert(decreases_to!(ws => ws@[i as int]));
            assert(ws@.take(i + 1).drop_last() == ws@.take(i as int));
        }
        push_word_text(out, &ws[i]);
        i += 1;
    }
    proof { assert(ws@.take(ws.len() as int) == ws@); }
}

impl Word {
    /// The text of the word as it is written.
    pub fn to_string(&self) -> (r: String)
        ensures
            r@ == word_text(*self),
    {
        let mut out = String::new();
        push_word_text(&mut out, self);
        out
    }
}

} // verus!
