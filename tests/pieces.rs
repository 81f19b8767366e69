use wgsl_ln::{
    close, consume_post, wgsl_macro, Diagnostic, Expansion, open, paste_fragment, sanitize, sanitize_remaining,
    to_wgsl_string, translate, wgsl_export2, Config, Delim, ExportError, Group, Ident, Literal,
    Loc, Punct, Token,
};

fn id(name: &str, loc: usize) -> Token {
    Token::Ident(Ident { name: name.to_string(), loc: Loc(loc) })
}

fn p(ch: char, loc: usize) -> Token {
    Token::Punct(Punct { ch, joint: false, loc: Loc(loc) })
}

fn lit(text: &str, loc: usize) -> Token {
    Token::Literal(Literal { text: text.to_string(), loc: Loc(loc) })
}

fn group(delim: Delim, body: Vec<Token>, open: usize, close: usize) -> Token {
    Token::Group(Group { delim, body, open: Loc(open), close: Loc(close) })
}

fn names(s: &[Token]) -> Vec<String> {
    s.iter()
        .map(|t| match t {
            Token::Ident(i) => i.name.clone(),
            Token::Punct(p) => p.ch.to_string(),
            Token::Literal(l) => l.text.clone(),
            Token::Group(g) => format!("{:?}{:?}", g.delim, names(&g.body)),
        })
        .collect()
}

#[test]
fn delimiter_characters() {
    assert_eq!(open(Delim::Paren), '(');
    assert_eq!(close(Delim::Paren), ')');
    assert_eq!(open(Delim::Brace), '{');
    assert_eq!(close(Delim::Brace), '}');
    assert_eq!(open(Delim::Bracket), '[');
    assert_eq!(close(Delim::Bracket), ']');
    assert_eq!(open(Delim::Invisible), ' ');
    assert_eq!(close(Delim::Invisible), ' ');
}

#[test]
fn characters_that_glue_to_the_next() {
    assert!(consume_post(':'));
    assert!(consume_post('.'));
    assert!(consume_post('@'));
    assert!(!consume_post(','));
    assert!(!consume_post(';'));
    assert!(!consume_post('+'));
}

#[test]
fn translate_finds_nearest_entry_before() {
    let map = vec![(0usize, Loc(10)), (4, Loc(11)), (9, Loc(12))];
    assert_eq!(translate(&map, 0, Loc(99)), Loc(10));
    assert_eq!(translate(&map, 3, Loc(99)), Loc(10));
    assert_eq!(translate(&map, 4, Loc(99)), Loc(11));
    assert_eq!(translate(&map, 8, Loc(99)), Loc(11));
    assert_eq!(translate(&map, 100, Loc(99)), Loc(12));
    let late = vec![(5usize, Loc(1))];
    assert_eq!(translate(&late, 2, Loc(99)), Loc(99));
    assert_eq!(translate(&Vec::new(), 7, Loc(99)), Loc(99));
}

#[test]
fn scan_collapses_later_references_in_groups() {
    let s = vec![
        id("x", 0),
        group(Delim::Paren, vec![p('#', 2), id("f", 3)], 1, 4),
        p('#', 5),
        id("g", 6),
        group(Delim::Brace, vec![p('#', 8), id("f", 9), p('#', 10), id("g", 11)], 7, 12),
        p('#', 13),
        id("f", 14),
    ];
    let (out, found) = sanitize(&s, &Config::new());
    let found = found.unwrap();
    assert_eq!(found.name, "f");
    assert_eq!(found.loc, Loc(3));
    assert_eq!(
        names(&out),
        vec!["x", "Paren[\"f\"]", "#", "g", "Brace[\"f\", \"#\", \"g\"]", "f"]
    );
}

#[test]
fn scan_skips_leading_marker_and_lone_sigils() {
    let s = vec![
        group(Delim::Bracket, vec![p('#', 1), id("a", 2)], 0, 3),
        p('#', 4),
        lit("1", 5),
        p('#', 6),
        id("b", 7),
    ];
    let (out, found) = sanitize(&s, &Config::new());
    assert_eq!(found.unwrap().name, "b");
    assert_eq!(names(&out), vec!["Bracket[\"#\", \"a\"]", "#", "1", "b"]);
}

#[test]
fn scan_without_reference_changes_nothing() {
    let s = vec![id("a", 0), p('#', 1), group(Delim::Brace, vec![], 2, 3)];
    let (out, found) = sanitize(&s, &Config::new());
    assert!(found.is_none());
    assert_eq!(names(&out), names(&s));
}

#[test]
fn remaining_references_lose_their_sigil() {
    let s = vec![p('#', 0), id("f", 1), p('#', 2), id("g", 3), p('#', 4)];
    let mut items = vec![id("start", 9)];
    sanitize_remaining(&s, 0, &"f".to_string(), &mut items);
    assert_eq!(names(&items), vec!["start", "f", "#", "g", "#"]);
}

#[test]
fn paste_adds_name_and_body_once() {
    let body = vec![id("fn", 20), id("f", 21)];
    let stream = vec![id("x", 0)];
    let def = Ident { name: "f".to_string(), loc: Loc(30) };
    let once = paste_fragment(&stream, &def, &body, Loc(99));
    assert_eq!(names(&once), vec!["Bracket[\"f\"]", "fn", "f", "x"]);
    let twice = paste_fragment(&once, &def, &body, Loc(99));
    assert_eq!(names(&twice), vec!["Bracket[\"f\"]", "fn", "f", "x"]);
    let other = Ident { name: "g".to_string(), loc: Loc(31) };
    let third = paste_fragment(&twice, &other, &vec![id("y", 40)], Loc(99));
    assert_eq!(names(&third), vec!["Bracket[\"f\", \"g\"]", "y", "fn", "f", "x"]);
}

#[test]
fn export_reads_name_and_wgsl_body() {
    let attr = vec![id("manhattan_distance", 0)];
    let stream = vec![
        id("pub", 1),
        id("static", 2),
        id("X", 3),
        p(':', 4),
        p('&', 5),
        id("str", 6),
        p('=', 7),
        id("wgsl", 8),
        p('!', 9),
        group(Delim::Paren, vec![id("fn", 11), id("manhattan_distance", 12)], 10, 13),
        p(';', 14),
    ];
    let (name, body) = wgsl_export2(&attr, &stream).unwrap();
    assert_eq!(name.name, "manhattan_distance");
    assert_eq!(name.loc, Loc(0));
    assert_eq!(names(&body), vec!["fn", "manhattan_distance"]);
}

#[test]
fn export_errors() {
    let stream = vec![id("wgsl", 0), group(Delim::Paren, vec![], 1, 2)];
    assert_eq!(wgsl_export2(&vec![], &stream).unwrap_err(), ExportError::MissingName);
    assert_eq!(
        wgsl_export2(&vec![lit("1", 3)], &stream).unwrap_err(),
        ExportError::MissingName
    );
    assert_eq!(
        wgsl_export2(&vec![id("f", 3)], &stream).unwrap_err(),
        ExportError::MissingInvocation
    );
    let broken = vec![id("wgsl", 0), p('!', 1), id("x", 2), group(Delim::Paren, vec![], 3, 4)];
    assert_eq!(
        wgsl_export2(&vec![id("f", 5)], &broken).unwrap_err(),
        ExportError::MissingInvocation
    );
}

#[test]
fn render_inline_substitution_and_invisible_groups() {
    let s = vec![
        id("a", 0),
        p('#', 1),
        group(Delim::Brace, vec![id("X", 3)], 2, 4),
        group(Delim::Invisible, vec![id("b", 6)], 5, 7),
        p(',', 8),
    ];
    let mut spans = Vec::new();
    let mut text = String::from("> ");
    let sigil = to_wgsl_string(&s, &mut spans, &mut text);
    assert!(sigil);
    assert_eq!(text, "> a #{X}  b , ");
    assert_eq!(
        spans,
        vec![
            (2, Loc(0)),
            (4, Loc(1)),
            (5, Loc(2)),
            (6, Loc(3)),
            (7, Loc(4)),
            (10, Loc(6)),
            (12, Loc(8))
        ]
    );
}

#[test]
fn validator_accepts_and_refuses() {
    let cfg = Config::new();
    let ok = vec![
        id("fn", 0),
        id("f", 1),
        group(Delim::Paren, vec![], 2, 3),
        Token::Punct(Punct { ch: '-', joint: true, loc: Loc(4) }),
        p('>', 5),
        id("f32", 6),
        group(Delim::Brace, vec![id("return", 8), lit("1.0", 9), p(';', 10)], 7, 11),
    ];
    match wgsl_macro(&ok, &cfg, Loc(99)) {
        Expansion::Source(text) => assert_eq!(text, "fn f() -> f32 {\nreturn 1.0;\n}\n"),
        other => panic!("unexpected {:?}", other),
    }
    let mut wrong_type = ok;
    wrong_type[6] = group(Delim::Brace, vec![id("return", 8), id("true", 9), p(';', 10)], 7, 11);
    match wgsl_macro(&wrong_type, &cfg, Loc(99)) {
        Expansion::Failed(Diagnostic::GrammarError { message, loc }) => {
            assert!(!message.is_empty());
            assert!(loc.0 <= 11);
        }
        other => panic!("unexpected {:?}", other),
    }
}
