use psh::parse::{
    can_start_atom, comment, full_trivia, hspace, is_var_char, is_word_char, keyword, line_cont, trivia,
    var_char_, varname, wname, PshParser,
};

fn cs(s: &str) -> Vec<char> {
    s.chars().collect()
}

#[test]
fn parse_character_classes() {
    for c in ['a', 'Z', '0', '_', '*'] {
        assert!(is_var_char(c));
        assert!(is_word_char(c));
        assert!(can_start_atom(c));
    }
    for c in ['-', '.', '/', '+', ':', ',', '%', '?', '@'] {
        assert!(!is_var_char(c));
        assert!(is_word_char(c));
    }
    for c in ['$', '\'', '`'] {
        assert!(!is_word_char(c));
        assert!(can_start_atom(c));
    }
    for c in ['[', ']', ' ', '\n', '(', 'é'] {
        assert!(!is_word_char(c));
        assert!(!can_start_atom(c));
    }
}

#[test]
fn parse_single_char_primitives() {
    let s = cs("x \t\\\n#c\ny");
    assert_eq!(var_char_(&s, 0), Some(('x', 1)));
    assert_eq!(var_char_(&s, 1), None);
    assert_eq!(hspace(&s, 1), Some(2));
    assert_eq!(hspace(&s, 2), Some(3));
    assert_eq!(hspace(&s, 0), None);
    assert_eq!(line_cont(&s, 3), Some(5));
    assert_eq!(line_cont(&s, 2), None);
    assert_eq!(comment(&s, 5), Some(7));
    assert_eq!(comment(&s, 0), None);
    assert_eq!(var_char_(&s, s.len()), None);
}

#[test]
fn parse_trivia_stops_at_newline() {
    let s = cs("  # note\n  x");
    assert_eq!(trivia(&s, 0), 8);
    assert_eq!(full_trivia(&s, 0), 11);
    let t = cs(" \\\n  y");
    assert_eq!(trivia(&t, 0), 5);
    assert_eq!(trivia(&t, 5), 5);
    let e = cs("   ");
    assert_eq!(trivia(&e, 0), 3);
}

#[test]
fn parse_keyword_needs_boundary() {
    let s = cs("if x");
    assert_eq!(keyword(&s, 0, "if"), Some(2));
    let t = cs("iffy");
    assert_eq!(keyword(&t, 0, "if"), None);
    let u = cs("if");
    assert_eq!(keyword(&u, 0, "if"), Some(2));
    let v = cs("if.x");
    assert_eq!(keyword(&v, 0, "if"), Some(2));
    assert_eq!(keyword(&v, 0, "else"), None);
    let w = cs("for");
    assert_eq!(keyword(&w, 1, "or"), Some(3));
}

#[test]
fn parse_names() {
    let s = cs("abc_1*.x");
    assert_eq!(varname(&s, 0), Some(("abc_1*".to_string(), 6)));
    assert_eq!(wname(&s, 0), Some(("abc_1*.x".to_string(), 8)));
    assert_eq!(varname(&s, 6), None);
    assert_eq!(wname(&s, 6), Some((".x".to_string(), 8)));
    assert_eq!(wname(&s, 8), None);
    let t = cs("x.get {");
    assert_eq!(wname(&t, 0), Some(("x.get".to_string(), 5)));
}

#[test]
fn parse_entry_point_reports_unwritten_grammar() {
    let r = PshParser::parse("echo hi");
    assert!(r.is_err());
    assert!(r.unwrap_err().starts_with("psh parser is not yet implemented"));
}
