//! Parser infrastructure for psh: character classes, trivia (horizontal
//! whitespace, comments, line continuations) and the keyword and name
//! primitives that the grammar is built from.
//!
//! Each primitive reads a character sequence from a position and tells
//! where it stops (`Some`) or that it does not apply there (`None`), in
//! which case nothing is consumed.  The grammar productions themselves
//! are not written yet: `PshParser::parse` reports that.
//!
//! The character sets follow rc.

use vstd::prelude::*;

use crate::text::{chars_of, push_char};

verus! {

broadcast use vstd::string::group_string_axioms;

// ── Character classes ──────────────────────────────────────────

/// An ASCII letter or digit.
pub open spec fn ascii_alnum(c: char) -> bool {
    ('a' <= c && c <= 'z') || ('A' <= c && c <= 'Z') || ('0' <= c && c <= '9')
}

/// var_char = [a-zA-Z0-9_*]: rc's variable-name alphabet.
pub open spec fn var_char(c: char) -> bool {
    ascii_alnum(c) || c == '_' || c == '*'
}

/// word_char = [a-zA-Z0-9_\-./+:,%*?@]: the bare-word alphabet.
pub open spec fn word_char(c: char) -> bool {
    ascii_alnum(c) || c == '_' || c == '-' || c == '.' || c == '/' || c == '+' || c == ':' || c
        == ',' || c == '%' || c == '*' || c == '?' || c == '@'
}

/// Characters that can start a word atom (rc's free-caret rule).
pub open spec fn atom_start(c: char) -> bool {
    c == '$' || c == '\'' || c == '`' || word_char(c)
}

/// Horizontal whitespace: space, tab, carriage return.
pub open spec fn horizontal_space(c: char) -> bool {
    c == ' ' || c == '\t' || c == '\r'
}

/// The class of variable-name characters, as a predicate.
pub open spec fn var_chars() -> spec_fn(char) -> bool {
    |c: char| var_char(c)
}

/// The class of bare-word characters, as a predicate.
pub open spec fn word_chars() -> spec_fn(char) -> bool {
    |c: char| word_char(c)
}

fn ascii_alphanumeric(c: char) -> (r: bool)
    ensures
        r == ascii_alnum(c),
{
    ('a' <= c && c <= 'z') || ('A' <= c && c <= 'Z') || ('0' <= c && c <= '9')
}

/// var_char = [a-zA-Z0-9_*]
///
/// rc's variable-name alphabet (used after `$`, `$#`, `$"`).  Variable
/// names end at the first character not in this set.
pub fn is_var_char(c: char) -> (r: bool)
    ensures
        r == var_char(c),
{
    ascii_alphanumeric(c) || c == '_' || c == '*'
}

/// word_char = [a-zA-Z0-9_\-./+:,%*?@]
///
/// Bare-word alphabet for literals, function names and other name
/// positions.  Includes `.` (discipline function names such as
/// `x.set`) and `/` (paths); square brackets are not included.
pub fn is_word_char(c: char) -> (r: bool)
    ensures
        r == word_char(c),
{
    ascii_alphanumeric(c) || c == '_' || c == '-' || c == '.' || c == '/' || c == '+' || c == ':'
        || c == ',' || c == '%' || c == '*' || c == '?' || c == '@'
}

/// Can the character start a new word atom?  Adjacent atoms concatenate
/// implicitly when the next character can start an atom.
pub fn can_start_atom(c: char) -> (r: bool)
    ensures
        r == atom_start(c),
{
    c == '$' || c == '\'' || c == '`' || is_word_char(c)
}

// ── Positions reached by the primitives ────────────────────────

/// The position of the first newline at or after `i`, or the end.
pub open spec fn line_end(s: Seq<char>, i: int) -> int
    decreases s.len() - i,
{
    if i < 0 || i >= s.len() {
        s.len() as int
    } else if s[i] == '\n' {
        i
    } else {
        line_end(s, i + 1)
    }
}

/// Where one item of trivia that starts at `i` ends: a horizontal
/// space, a comment up to (not including) the newline, a backslash
/// before a newline, or — when `newlines` — a newline.
pub open spec fn trivia_item(s: Seq<char>, i: int, newlines: bool) -> Option<int> {
    if 0 <= i < s.len() && horizontal_space(s[i]) {
        Some(i + 1)
    } else if 0 <= i < s.len() && s[i] == '#' {
        Some(line_end(s, i + 1))
    } else if 0 <= i && i + 1 < s.len() && s[i] == '\\' && s[i + 1] == '\n' {
        Some(i + 2)
    } else if newlines && 0 <= i < s.len() && s[i] == '\n' {
        Some(i + 1)
    } else {
        None
    }
}

/// Where a run of trivia items that starts at `i` ends.
pub open spec fn trivia_end(s: Seq<char>, i: int, newlines: bool) -> int
    decreases s.len() - i,
{
    match trivia_item(s, i, newlines) {
        Some(j) => if i < j <= s.len() {
            trivia_end(s, j, newlines)
        } else {
            i
        },
        None => i,
    }
}

/// Where the longest run of characters satisfying `p` from `i` ends.
pub open spec fn run_end(s: Seq<char>, i: int, p: spec_fn(char) -> bool) -> int
    decreases s.len() - i,
{
    if 0 <= i < s.len() && p(s[i]) {
        run_end(s, i + 1, p)
    } else {
        i
    }
}

/// Does the keyword `kw` stand at `i`, followed by a word boundary (no
/// variable-name character)?
pub open spec fn keyword_at(s: Seq<char>, i: int, kw: Seq<char>) -> bool {
    &&& 0 <= i
    &&& i + kw.len() <= s.len()
    &&& s.subrange(i, i + kw.len()) == kw
    &&& !(i + kw.len() < s.len() && var_char(s[i + kw.len()]))
}

pub proof fn lemma_line_end(s: Seq<char>, i: int)
    requires
        0 <= i <= s.len(),
    ensures
        i <= line_end(s, i) <= s.len(),
        line_end(s, i) < s.len() ==> s[line_end(s, i)] == '\n',
        forall|k: int| i <= k < line_end(s, i) ==> s[k] != '\n',
    decreases s.len() - i,
{
    if i < s.len() && s[i] != '\n' {
        lemma_line_end(s, i + 1);
    }
}

pub proof fn lemma_trivia_end(s: Seq<char>, i: int, newlines: bool)
    requires
        0 <= i <= s.len(),
    ensures
        i <= trivia_end(s, i, newlines) <= s.len(),
        trivia_item(s, trivia_end(s, i, newlines), newlines) is None,
    decreases s.len() - i,
{
    match trivia_item(s, i, newlines) {
        Some(j) => {
            if s[i] == '#' {
                lemma_line_end(s, i + 1);
            }
            lemma_trivia_end(s, j, newlines);
        },
        None => {},
    }
}

pub proof fn lemma_run_end(s: Seq<char>, i: int, p: spec_fn(char) -> bool)
    requires
        0 <= i <= s.len(),
    ensures
        i <= run_end(s, i, p) <= s.len(),
        forall|k: int| i <= k < run_end(s, i, p) ==> p(#[trigger] s[k]),
        run_end(s, i, p) < s.len() ==> !p(s[run_end(s, i, p)]),
    decreases s.len() - i,
{
    if i < s.len() && p(s[i]) {
        lemma_run_end(s, i + 1, p);
    }
}

// ── Primitive parsers ──────────────────────────────────────────

/// One var_char at `i`: the character and the position after it.
pub fn var_char_(s: &[char], i: usize) -> (r: Option<(char, usize)>)
    requires
        i <= s.len(),
    ensures
        r == (if i < s.len() && var_char(s@[i as int]) {
            Some((s@[i as int], (i + 1) as usize))
        } else {
            None
        }),
{
    if i < s.len() && is_var_char(s[i]) {
        Some((s[i], i + 1))
    } else {
        None
    }
}

/// One horizontal whitespace character (space, tab, CR) at `i`; not a
/// newline — newlines terminate statements.
pub fn hspace(s: &[char], i: usize) -> (r: Option<usize>)
    requires
        i <= s.len(),
    ensures
        r == (if i < s.len() && horizontal_space(s@[i as int]) {
            Some((i + 1) as usize)
        } else {
            None
        }),
{
    if i < s.len() && (s[i] == ' ' || s[i] == '\t' || s[i] == '\r') {
        Some(i + 1)
    } else {
        None
    }
}

/// A comment at `i`: `#` up to the end of the line, leaving the newline.
pub fn comment(s: &[char], i: usize) -> (r: Option<usize>)
    requires
        i <= s.len(),
    ensures
        r == (if i < s.len() && s@[i as int] == '#' {
            Some(line_end(s@, i + 1) as usize)
        } else {
            None
        }),
{
    if i < s.len() && s[i] == '#' {
        let mut j: usize = i + 1;
        while j < s.len() && s[j] != '\n'
            invariant
                i + 1 <= j <= s.len(),
                line_end(s@, j as int) == line_end(s@, i + 1),
            decreases s.len() - j,
        {
            j += 1;
        }
        Some(j)
    } else {
        None
    }
}

/// A line continuation at `i`: a backslash followed by a newline,
/// consumed as whitespace.
pub fn line_cont(s: &[char], i: usize) -> (r: Option<usize>)
    requires
        i <= s.len(),
    ensures
        r == (if i + 1 < s.len() && s@[i as int] == '\\' && s@[i + 1] == '\n' {
            Some((i + 2) as usize)
        } else {
            None
        }),
{
    if s.len() - i > 1 && s[i] == '\\' && s[i + 1] == '\n' {
        Some(i + 2)
    } else {
        None
    }
}

/// One item of trivia at `i` (a newline too when `newlines`).
fn trivia_step(s: &[char], i: usize, newlines: bool) -> (r: Option<usize>)
    requires
        i <= s.len(),
    ensures
        match trivia_item(s@, i as int, newlines) {
            Some(j) => r == Some(j as usize) && i < j <= s.len(),
            None => r is None,
        },
{
    match hspace(s, i) {
        Some(j) => {
            return Some(j);
        },
        None => {},
    }
    match comment(s, i) {
        Some(j) => {
            proof { lemma_line_end(s@, i + 1); }
            return Some(j);
        },
        None => {},
    }
    match line_cont(s, i) {
        Some(j) => {
            return Some(j);
        },
        None => {},
    }
    if newlines && i < s.len() && s[i] == '\n' {
        Some(i + 1)
    } else {
        None
    }
}

/// Skips trivia from `i` — horizontal whitespace, comments and line
/// continuations, and newlines too when `newlines` — and returns where
/// it stops.
fn skip_trivia(s: &[char], i: usize, newlines: bool) -> (r: usize)
    requires
        i <= s.len(),
    ensures
        r == trivia_end(s@, i as int, newlines),
{
    let mut j: usize = i;
    while j < s.len()
        invariant
            i <= j <= s.len(),
            trivia_end(s@, j as int, newlines) == trivia_end(s@, i as int, newlines),
        decreases s.len() - j,
    {
        match trivia_step(s, j, newlines) {
            Some(k) => {
                j = k;
            },
            None => {
                return j;
            },
        }
    }
    j
}

/// Skips trivia (horizontal whitespace, comments, line continuations)
/// but not newlines, which terminate statements.
pub fn trivia(s: &[char], i: usize) -> (r: usize)
    requires
        i <= s.len(),
    ensures
        r == trivia_end(s@, i as int, false),
{
    skip_trivia(s, i, false)
}

/// Skips trivia including newlines, as inside braces, match arms and
/// tuple literals.
pub fn full_trivia(s: &[char], i: usize) -> (r: usize)
    requires
        i <= s.len(),
    ensures
        r == trivia_end(s@, i as int, true),
{
    skip_trivia(s, i, true)
}

/// The keyword `kw` at `i` followed by a word boundary (not followed by
/// a var_char), and the position after it.  Nothing is consumed when
/// the prefix matches but the boundary does not.
pub fn keyword(s: &[char], i: usize, kw: &str) -> (r: Option<usize>)
    requires
        i <= s.len(),
    ensures
        keyword_at(s@, i as int, kw@) ==> r == Some((i + kw@.len()) as usize),
        !keyword_at(s@, i as int, kw@) ==> r is None,
{
    let k = chars_of(kw);
    if k.len() > s.len() - i {
        return None;
    }
    let mut j: usize = 0;
    while j < k.len()
        invariant
            j <= k.len(),
            i + k.len() <= s.len(),
            k@ == kw@,
            forall|m: int| 0 <= m < j ==> s@[i + m] == k@[m],
        decreases k.len() - j,
    {
        if s[i + j] != k[j] {
            proof {
                assert(s@.subrange(i as int, i + k.len())[j as int] != kw@[j as int]);
            }
            return None;
        }
        j += 1;
    }
    proof {
        assert(s@.subrange(i as int, i + k.len()) =~= kw@);
    }
    let end = i + k.len();
    if end < s.len() && is_var_char(s[end]) {
        None
    } else {
        Some(end)
    }
}

/// Is `c` a bare-word character (when `words`) or a variable-name
/// character?
fn in_class(c: char, words: bool) -> (r: bool)
    ensures
        r == (if words { word_char(c) } else { var_char(c) }),
{
    if words {
        is_word_char(c)
    } else {
        is_var_char(c)
    }
}

/// The longest run of characters of one class from `i` (variable-name
/// characters, or bare-word characters when `words`), as a string, and
/// the position after it; `None` when the run is empty.
fn name_run(s: &[char], i: usize, words: bool) -> (r: Option<(String, usize)>)
    requires
        i <= s.len(),
    ensures
        ({
            let p = if words { word_chars() } else { var_chars() };
            let e = run_end(s@, i as int, p);
            if e > i {
                r matches Some((name, j)) && j == e && name@ == s@.subrange(i as int, e)
            } else {
                r is None
            }
        }),
{
    let ghost p = if words { word_chars() } else { var_chars() };
    let mut name = String::new();
    let mut j: usize = i;
    while j < s.len() && in_class(s[j], words)
        invariant
            i <= j <= s.len(),
            p == (if words { word_chars() } else { var_chars() }),
            run_end(s@, j as int, p) == run_end(s@, i as int, p),
            name@ == s@.subrange(i as int, j as int),
        decreases s.len() - j,
    {
        push_char(&mut name, s[j]);
        proof {
            assert(s@.subrange(i as int, j + 1) =~= s@.subrange(i as int, j as int).push(s@[j as int]));
        }
        j += 1;
    }
    if j > i {
        Some((name, j))
    } else {
        None
    }
}

/// VARNAME = var_char+ (used after `$`, `$#`, `$"`).
pub fn varname(s: &[char], i: usize) -> (r: Option<(String, usize)>)
    requires
        i <= s.len(),
    ensures
        run_end(s@, i as int, var_chars()) > i ==> (r matches Some((name, j)) && j == run_end(
            s@,
            i as int,
            var_chars(),
        ) && name@ == s@.subrange(i as int, run_end(s@, i as int, var_chars()))),
        run_end(s@, i as int, var_chars()) <= i ==> r is None,
{
    name_run(s, i, false)
}

/// NAME for word positions = word_char+ (literals, function names,
/// discipline-function names with embedded dots).
pub fn wname(s: &[char], i: usize) -> (r: Option<(String, usize)>)
    requires
        i <= s.len(),
    ensures
        run_end(s@, i as int, word_chars()) > i ==> (r matches Some((name, j)) && j == run_end(
            s@,
            i as int,
            word_chars(),
        ) && name@ == s@.subrange(i as int, run_end(s@, i as int, word_chars()))),
        run_end(s@, i as int, word_chars()) <= i ==> r is None,
{
    name_run(s, i, true)
}

// ── Public entry point ─────────────────────────────────────────

/// The message with which parsing fails while the grammar is unwritten.
pub open spec fn unimplemented_message() -> Seq<char> {
    "psh parser is not yet implemented — the grammar will be rebuilt against docs/spec/04-syntax.md."@
}

/// Public parser entry point.
pub struct PshParser;

impl PshParser {
    /// Parses a psh program.  The grammar is not written yet, so every
    /// input is refused with the same message.
    pub fn parse(input: &str) -> (r: Result<(), String>)
        ensures
            r matches Err(msg) && msg@ == unimplemented_message(),
    {
        Err(
            crate::text::to_owned_string(
                "psh parser is not yet implemented — the grammar will be rebuilt against docs/spec/04-syntax.md.",
            ),
        )
    }
}

// ── Laws ───────────────────────────────────────────────────────

/// The alphabets nest: every variable-name character is a bare-word
/// character, and every bare-word character can start an atom.
pub proof fn law_alphabets_nest(c: char)
    ensures
        var_char(c) ==> word_char(c),
        word_char(c) ==> atom_start(c),
{
}

/// A comment stops at the end of its line: it holds no newline and
/// leaves the newline (if any) unconsumed.
pub proof fn law_comment_keeps_newline(s: Seq<char>, i: int)
    requires
        0 <= i < s.len(),
        s[i] == '#',
    ensures
        line_end(s, i + 1) == s.len() || s[line_end(s, i + 1)] == '\n',
        forall|k: int| i < k < line_end(s, i + 1) ==> s[k] != '\n',
{
    lemma_line_end(s, i + 1);
}

/// Trivia skipping stops where no further trivia starts, and skipping
/// with newlines goes at least as far as skipping without them.
pub proof fn law_trivia_maximal(s: Seq<char>, i: int)
    requires
        0 <= i <= s.len(),
    ensures
        trivia_item(s, trivia_end(s, i, false), false) is None,
        trivia_item(s, trivia_end(s, i, true), true) is None,
        i <= trivia_end(s, i, false) <= trivia_end(s, i, true) <= s.len(),
    decreases s.len() - i,
{
    lemma_trivia_end(s, i, false);
    lemma_trivia_end(s, i, true);
    match trivia_item(s, i, false) {
        Some(j) => {
            if s[i] == '#' {
                lemma_line_end(s, i + 1);
            }
            assert(trivia_item(s, i, true) == Some(j));
            law_trivia_maximal(s, j);
        },
        None => {},
    }
}

/// A name is the longest run of its characters: it holds only such
/// characters and stops before the next one that is not.
pub proof fn law_name_is_longest_run(s: Seq<char>, i: int, p: spec_fn(char) -> bool)
    requires
        0 <= i <= s.len(),
    ensures
        forall|k: int| i <= k < run_end(s, i, p) ==> p(#[trigger] s[k]),
        run_end(s, i, p) == s.len() || !p(s[run_end(s, i, p)]),
{
    lemma_run_end(s, i, p);
}

} // verus!
