use proc_macro2::{Delimiter, Spacing, TokenStream, TokenTree};
use wgsl_ln::{
    compose, expand, resolve_fragments, sanitize, serialize, wgsl_macro, Config, Delim, Diagnostic,
    Expansion, Group, Ident, Literal, Loc, Punct, Registry, Token,
};

fn convert(stream: TokenStream, next: &mut usize) -> Vec<Token> {
    let mut out = Vec::new();
    for tt in stream {
        let loc = Loc(*next);
        *next += 1;
        let t = match tt {
            TokenTree::Ident(i) => Token::Ident(Ident { name: i.to_string(), loc }),
            TokenTree::Punct(p) => Token::Punct(Punct {
                ch: p.as_char(),
                joint: p.spacing() == Spacing::Joint,
                loc,
            }),
            TokenTree::Literal(l) => Token::Literal(Literal { text: l.to_string(), loc }),
            TokenTree::Group(g) => {
                let delim = match g.delimiter() {
                    Delimiter::Parenthesis => Delim::Paren,
                    Delimiter::Brace => Delim::Brace,
                    Delimiter::Bracket => Delim::Bracket,
                    Delimiter::None => Delim::Invisible,
                };
                let body = convert(g.stream(), next);
                let close = Loc(*next);
                *next += 1;
                Token::Group(Group { delim, body, open: loc, close })
            }
        };
        out.push(t);
    }
    out
}

fn tokens(src: &str, next: &mut usize) -> Vec<Token> {
    convert(src.parse().unwrap(), next)
}

fn ident(name: &str, loc: usize) -> Ident {
    Ident { name: name.to_string(), loc: Loc(loc) }
}

const SITE: Loc = Loc(100_000);

fn sin_cos_registry(next: &mut usize) -> Registry {
    let mut reg = Registry::new();
    let body = tokens("fn sin_cos(v: f32) -> f32 { return sin(v) * cos(v); }", next);
    reg.register(ident("sin_cos", 90_000), body).unwrap();
    let body = tokens("fn sin_cos2(v: f32) -> f32 { return #sin_cos(v) * sin_cos(v); }", next);
    reg.register(ident("sin_cos2", 90_001), body).unwrap();
    reg
}

#[test]
fn sin_cos_pasted_once_before_its_user() {
    let mut next = 0;
    let reg = sin_cos_registry(&mut next);
    let raw = tokens("fn sin_cos2(v: f32) -> f32 { return #sin_cos(v) * sin_cos(v); }", &mut next);
    let text = compose(&reg, &raw, &Config::new(), SITE).unwrap();
    assert_eq!(
        text,
        "fn sin_cos(v:f32) -> f32 {\nreturn sin(v) * cos(v);\n}\n\
         fn sin_cos2(v:f32) -> f32 {\nreturn sin_cos(v) * sin_cos(v);\n}\n"
    );
}

#[test]
fn transitive_and_repeated_references_paste_each_body_once() {
    let mut next = 0;
    let reg = sin_cos_registry(&mut next);
    let raw = tokens("fn a(v: f32) -> f32 { return #sin_cos2(v) * #sin_cos(v); }", &mut next);
    let text = compose(&reg, &raw, &Config::new(), SITE).unwrap();
    assert_eq!(text.matches("fn sin_cos(").count(), 1);
    assert_eq!(text.matches("fn sin_cos2(").count(), 1);
    assert!(text.find("fn sin_cos(").unwrap() < text.find("fn sin_cos2(").unwrap());
    assert!(text.ends_with("fn a(v:f32) -> f32 {\nreturn sin_cos2(v) * sin_cos(v);\n}\n"));
    assert!(!text.contains('#'));
}

#[test]
fn unknown_fragment_reported_at_reference() {
    let mut next = 0;
    let reg = Registry::new();
    let raw = tokens("fn f() -> f32 { return #ghost(1.0); }", &mut next);
    let r = compose(&reg, &raw, &Config::new(), SITE);
    match r {
        Err(Diagnostic::UnknownFragment { name, loc }) => {
            assert_eq!(name, "ghost");
            assert_eq!(loc, Loc(10));
        }
        other => panic!("unexpected {:?}", other),
    }
}

#[test]
fn mutual_references_resolve_each_body_once() {
    let mut next = 0;
    let mut reg = Registry::new();
    let a = tokens("fn a() -> f32 { return #b(); }", &mut next);
    let b = tokens("fn b() -> f32 { return #a(); }", &mut next);
    reg.register(ident("a", 90_000), a).unwrap();
    reg.register(ident("b", 90_001), b).unwrap();
    let raw = tokens("#a", &mut next);
    let resolved = resolve_fragments(&reg, &raw, &Config::new(), SITE).unwrap();
    let (text, _, sigil) = serialize(&resolved);
    assert_eq!(text, "fn b() -> f32 {\nreturn a();\n}\nfn a() -> f32 {\nreturn b();\n}\na ");
    assert!(!sigil);
    match &resolved[0] {
        Token::Group(g) => {
            assert_eq!(g.delim, Delim::Bracket);
            let names: Vec<String> = g
                .body
                .iter()
                .map(|t| match t {
                    Token::Ident(i) => i.name.clone(),
                    _ => panic!("marker holds only names"),
                })
                .collect();
            assert_eq!(names, vec!["a".to_string(), "b".to_string()]);
        }
        _ => panic!("marker expected"),
    }
}

#[test]
fn grammar_error_reported_at_a_token() {
    let mut next = 0;
    let reg = Registry::new();
    let raw = tokens("fn f() -> f32 { return 1.0 }", &mut next);
    match compose(&reg, &raw, &Config::new(), SITE) {
        Err(Diagnostic::GrammarError { loc, .. }) => {
            assert!(loc.0 < next);
        }
        other => panic!("unexpected {:?}", other),
    }
}

#[test]
fn valid_wgsl_composes_without_references() {
    let mut next = 0;
    let reg = Registry::new();
    let raw = tokens(
        "fn manhattan_distance(a: vec2<f32>, b: vec2<f32>) -> f32 { return abs(a.x - b.x) + abs(a.y - b.y); }",
        &mut next,
    );
    let text = compose(&reg, &raw, &Config::new(), SITE).unwrap();
    assert_eq!(
        text,
        "fn manhattan_distance(a:vec2 < f32 >, b:vec2 < f32 >) -> f32 {\n\
         return abs(a.x - b.x) + abs(a.y - b.y);\n}\n"
    );
}

#[test]
fn preprocessor_directives_pass_through_unchecked() {
    let mut next = 0;
    let reg = Registry::new();
    let raw = tokens("#import foo::Bar;", &mut next);
    let text = compose(&reg, &raw, &Config::naga_oil(), SITE).unwrap();
    assert_eq!(text, "\n#import foo::Bar;\n");
}

#[test]
fn directive_without_preprocessing_is_a_reference() {
    let mut next = 0;
    let reg = Registry::new();
    let raw = tokens("#import foo::Bar;", &mut next);
    match compose(&reg, &raw, &Config::new(), SITE) {
        Err(Diagnostic::UnknownFragment { name, loc }) => {
            assert_eq!(name, "import");
            assert_eq!(loc, Loc(1));
        }
        other => panic!("unexpected {:?}", other),
    }
}

#[test]
fn serialize_formats_and_maps_offsets() {
    let mut next = 0;
    let toks = tokens("fn f(a: f32) -> f32 { return a.x; }", &mut next);
    let (text, map, sigil) = serialize(&toks);
    assert_eq!(text, "fn f(a:f32) -> f32 {\nreturn a.x;\n}\n");
    assert!(!sigil);
    let offsets: Vec<usize> = map.iter().map(|e| e.0).collect();
    assert_eq!(offsets, vec![0, 3, 4, 5, 6, 7, 10, 12, 13, 15, 19, 21, 28, 29, 30, 31, 33]);
    let locs: Vec<usize> = map.iter().map(|e| (e.1).0).collect();
    assert_eq!(locs, vec![0, 1, 2, 3, 4, 5, 6, 7, 8, 9, 10, 11, 12, 13, 14, 15, 16]);
}

#[test]
fn offset_map_strictly_increases_after_composition() {
    let mut next = 0;
    let reg = sin_cos_registry(&mut next);
    let raw = tokens("fn a(v: f32) -> f32 { return #sin_cos2(v) * #sin_cos(v); }", &mut next);
    let resolved = resolve_fragments(&reg, &raw, &Config::new(), SITE).unwrap();
    let (text, map, _) = serialize(&resolved);
    assert!(map.len() > 10);
    for w in map.windows(2) {
        assert!(w[0].0 < w[1].0);
    }
    assert!(map.last().unwrap().0 < text.len());
}

fn flatten(stream: TokenStream, out: &mut Vec<String>) {
    for tt in stream {
        match tt {
            TokenTree::Group(g) => {
                out.push(format!("open {:?}", g.delimiter()));
                flatten(g.stream(), out);
                out.push("close".to_string());
            }
            TokenTree::Ident(i) => out.push(format!("ident {}", i)),
            TokenTree::Literal(l) => out.push(format!("literal {}", l)),
            TokenTree::Punct(p) => out.push(format!("punct {}", p.as_char())),
        }
    }
}

#[test]
fn rendered_text_tokenizes_back_to_the_same_tree() {
    let src = "fn f(a: vec2<f32>, b: f32) -> f32 { var x: array<f32, 4>; return a.x * b + x[0] + 1.5; }";
    let mut next = 0;
    let toks = tokens(src, &mut next);
    let (text, _, _) = serialize(&toks);
    let mut before = Vec::new();
    flatten(src.parse().unwrap(), &mut before);
    let mut after = Vec::new();
    flatten(text.parse().unwrap(), &mut after);
    assert_eq!(before, after);
}

#[test]
fn reference_first_or_bare_first_paste_at_the_same_place() {
    let mut next = 0;
    let mut reg = Registry::new();
    reg.register(ident("f", 90_000), tokens("fn f() {}", &mut next)).unwrap();
    let cfg = Config::new();
    let s1 = tokens("#f a f", &mut next);
    let s2 = tokens("f a #f", &mut next);
    let (t1, n1) = sanitize(&s1, &cfg);
    let (t2, n2) = sanitize(&s2, &cfg);
    let u1 = expand(&reg, &t1, &n1.unwrap(), SITE).unwrap();
    let u2 = expand(&reg, &t2, &n2.unwrap(), SITE).unwrap();
    let (x1, m1, _) = serialize(&u1);
    let (x2, m2, _) = serialize(&u2);
    assert_eq!(x1, "fn f() {\n}\nf a f ");
    assert_eq!(x1, x2);
    assert_eq!(m1[..6], m2[..6]);
    assert_ne!(m1[6..], m2[6..]);
}

#[test]
fn macro_step_asks_for_the_first_reference() {
    let mut next = 0;
    let raw = tokens("fn f() -> f32 { return #g() + #h() + #g(); }", &mut next);
    match wgsl_macro(&raw, &Config::new(), SITE) {
        Expansion::Paste { name, tokens } => {
            assert_eq!(name.name, "g");
            let (text, _, sigil) = serialize(&tokens);
            assert_eq!(text, "fn f() -> f32 {\nreturn g() + \n#h() + g();\n}\n");
            assert!(sigil);
        }
        other => panic!("unexpected {:?}", other),
    }
}

#[test]
fn macro_step_compiles_text_without_references() {
    let mut next = 0;
    let raw = tokens("fn f() -> f32 { return 1.0; }", &mut next);
    match wgsl_macro(&raw, &Config::new(), SITE) {
        Expansion::Source(text) => assert_eq!(text, "fn f() -> f32 {\nreturn 1.0;\n}\n"),
        other => panic!("unexpected {:?}", other),
    }
}

#[test]
fn duplicate_registration_is_refused() {
    let mut next = 0;
    let mut reg = Registry::new();
    reg.register(ident("f", 1), tokens("fn f() {}", &mut next)).unwrap();
    let err = reg.register(ident("f", 2), tokens("fn g() {}", &mut next)).unwrap_err();
    assert_eq!(err.name, "f");
    assert_eq!(err.loc, Loc(2));
    let body = reg.lookup(&"f".to_string()).unwrap();
    let (text, _, _) = serialize(body);
    assert_eq!(text, "fn f() {\n}\n");
}
