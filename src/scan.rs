//! Finding the first fragment reference in a token tree, and collapsing the
//! later references to the same fragment into bare identifiers.
use vstd::prelude::*;
use crate::token::{
    copy_token, lemma_models_push, model, models, Delim, Group, Ident, Loc, Token, TokenModel, SIGIL,
};

verus! {

/// Names that the scanner leaves alone after the sigil: the directives of an
/// external preprocessor (`#import`, `#ifdef`, ...). With none, every
/// `#name` is a fragment reference.
pub struct Config {
    pub directives: Vec<String>,
}

pub open spec fn directive_names(c: Config) -> Seq<Seq<char>> {
    c.directives@.map_values(|d: String| d@)
}

pub open spec fn is_sigil(t: TokenModel) -> bool {
    t matches TokenModel::Punct { ch, .. } && ch == SIGIL
}

pub open spec fn is_ident_named(t: TokenModel, n: Seq<char>) -> bool {
    t matches TokenModel::Ident { name, .. } && name == n
}

/// A bracketed group, which at the head of a sequence holds the names of the
/// fragments already pasted into it.
pub open spec fn is_marker(t: TokenModel) -> bool {
    t matches TokenModel::Group { delim, .. } && delim == Delim::Bracket
}

/// A reference starts at `i`: the sigil, then an identifier that is not a
/// preprocessor directive.
pub open spec fn is_ref_at(s: Seq<TokenModel>, i: int, dirs: Seq<Seq<char>>) -> bool {
    &&& 0 <= i
    &&& i + 1 < s.len()
    &&& is_sigil(s[i])
    &&& s[i + 1] matches TokenModel::Ident { name, .. } && !dirs.contains(name)
}

/// The tokens of `s` from `i` on, with the sigil of every `#n` dropped, in
/// groups too.
pub open spec fn collapse_from(s: Seq<TokenModel>, i: int, n: Seq<char>) -> Seq<TokenModel>
    decreases s, s.len() - i,
{
    if i < 0 || i >= s.len() {
        Seq::empty()
    } else if is_sigil(s[i]) && i + 1 < s.len() && is_ident_named(s[i + 1], n) {
        collapse_from(s, i + 1, n)
    } else {
        match s[i] {
            TokenModel::Group { delim, body, open, close } => seq![
                TokenModel::Group { delim, body: collapse_from(body, 0, n), open, close },
            ] + collapse_from(s, i + 1, n),
            _ => seq![s[i]] + collapse_from(s, i + 1, n),
        }
    }
}

/// Scanning `s` from `i` on: the first reference in preorder fixes the name;
/// its sigil is dropped, and so is the sigil of every later reference to the
/// same name. At the top level a leading bracketed marker is passed over.
pub open spec fn scan_from(s: Seq<TokenModel>, i: int, top: bool, dirs: Seq<Seq<char>>) -> (
    Seq<TokenModel>,
    Option<(Seq<char>, Loc)>,
)
    decreases s, s.len() - i,
{
    if i < 0 || i >= s.len() {
        (Seq::empty(), None)
    } else if top && i == 0 && is_marker(s[0]) {
        let rest = scan_from(s, 1, top, dirs);
        (seq![s[0]] + rest.0, rest.1)
    } else if is_ref_at(s, i, dirs) {
        match s[i + 1] {
            TokenModel::Ident { name, loc } => (
                seq![s[i + 1]] + collapse_from(s, i + 2, name),
                Some((name, loc)),
            ),
            _ => (Seq::empty(), None),
        }
    } else {
        match s[i] {
            TokenModel::Group { delim, body, open, close } => {
                let inner = scan_from(body, 0, false, dirs);
                match inner.1 {
                    Some(found) => (
                        seq![TokenModel::Group { delim, body: inner.0, open, close }]
                            + collapse_from(s, i + 1, found.0),
                        inner.1,
                    ),
                    None => {
                        let rest = scan_from(s, i + 1, top, dirs);
                        (seq![s[i]] + rest.0, rest.1)
                    },
                }
            },
            _ => {
                let rest = scan_from(s, i + 1, top, dirs);
                (seq![s[i]] + rest.0, rest.1)
            },
        }
    }
}

/// The scanner on a whole sequence.
pub open spec fn scan(s: Seq<TokenModel>, dirs: Seq<Seq<char>>) -> (
    Seq<TokenModel>,
    Option<(Seq<char>, Loc)>,
) {
    scan_from(s, 0, true, dirs)
}

pub open spec fn opt_ident(o: Option<Ident>) -> Option<(Seq<char>, Loc)> {
    match o {
        Some(i) => Some((i.name@, i.loc)),
        None => None,
    }
}

/// Where the scan finds no reference, it changes nothing.
pub proof fn lemma_scan_none(s: Seq<TokenModel>, i: int, top: bool, dirs: Seq<Seq<char>>)
    requires
        0 <= i <= s.len(),
        scan_from(s, i, top, dirs).1 is None,
    ensures
        scan_from(s, i, top, dirs).0 == s.subrange(i, s.len() as int),
    decreases s, s.len() - i,
{
    if i < s.len() {
        if top && i == 0 && is_marker(s[0]) {
            lemma_scan_none(s, 1, top, dirs);
        } else if is_ref_at(s, i, dirs) {
        } else {
            lemma_scan_none(s, i + 1, top, dirs);
        }
        assert(scan_from(s, i, top, dirs).0 =~= s.subrange(i, s.len() as int));
    } else {
        assert(s.subrange(i, s.len() as int) =~= Seq::<TokenModel>::empty());
    }
}

impl Config {
    /// A configuration in which every `#name` is a fragment reference.
    pub fn new() -> (r: Config)
        ensures
            directive_names(r) == Seq::<Seq<char>>::empty(),
    {
        let r = Config { directives: Vec::new() };
        assert(directive_names(r) =~= Seq::<Seq<char>>::empty());
        r
    }

    /// A configuration for `naga_oil` sources: its directives pass through,
    /// and text that keeps the sigil is not validated.
    pub fn naga_oil() -> (r: Config)
        ensures
            directive_names(r) == seq![
                "define_import_path"@,
                "import"@,
                "ifdef"@,
                "ifndef"@,
                "if"@,
                "else"@,
                "endif"@,
            ],
    {
        let mut directives: Vec<String> = Vec::new();
        directives.push(String::from_str("define_import_path"));
        directives.push(String::from_str("import"));
        directives.push(String::from_str("ifdef"));
        directives.push(String::from_str("ifndef"));
        directives.push(String::from_str("if"));
        directives.push(String::from_str("else"));
        directives.push(String::from_str("endif"));
        let r = Config { directives };
        assert(directive_names(r) =~= seq![
            "define_import_path"@,
            "import"@,
            "ifdef"@,
            "ifndef"@,
            "if"@,
            "else"@,
            "endif"@,
        ]);
        r
    }

    /// Whether `name` is one of the preprocessor directives.
    pub fn is_directive(&self, name: &String) -> (r: bool)
        ensures
            r == directive_names(*self).contains(name@),
    {
        let mut i: usize = 0;
        while i < self.directives.len()
            invariant
                i <= self.directives@.len(),
                forall|k: int| 0 <= k < i ==> directive_names(*self)[k] != name@,
            decreases self.directives@.len() - i,
        {
            if self.directives[i] == *name {
                assert(directive_names(*self)[i as int] == name@);
                return true;
            }
            i = i + 1;
        }
        proof {
            if directive_names(*self).contains(name@) {
                let k = choose|k: int|
                    0 <= k < directive_names(*self).len() && directive_names(*self)[k] == name@;
                assert(directive_names(*self)[k] != name@);
            }
        }
        false
    }
}

fn is_sigil_token(t: &Token) -> (r: bool)
    ensures
        r == is_sigil(model(*t)),
{
    match t {
        Token::Punct(p) => p.ch == SIGIL,
        _ => false,
    }
}

/// Appends to `items` the tokens of `s` from `from` on, with the sigil of
/// every reference to `name` dropped, in nested groups too.
pub fn sanitize_remaining(s: &Vec<Token>, from: usize, name: &String, items: &mut Vec<Token>)
    requires
        from <= s@.len(),
    ensures
        models(final(items)@) == models(old(items)@) + collapse_from(models(s@), from as int, name@),
    decreases s, 0nat,
{
    let ghost m = models(s@);
    let ghost start = models(items@);
    let mut i = from;
    while i < s.len()
        invariant
            from <= i <= s@.len(),
            m == models(s@),
            start + collapse_from(m, from as int, name@) == models(items@) + collapse_from(
                m,
                i as int,
                name@,
            ),
        decreases s@.len() - i,
    {
        let drop = is_sigil_token(&s[i]) && i + 1 < s.len() && match &s[i + 1] {
            Token::Ident(id) => id.name == *name,
            _ => false,
        };
        if drop {
            assert(collapse_from(m, i as int, name@) == collapse_from(m, i + 1, name@));
        } else {
            let ghost before = models(items@);
            match &s[i] {
                Token::Group(g) => {
                    proof {
                        assert(decreases_to!(s => s@[i as int]));
                    }
                    let mut body: Vec<Token> = Vec::new();
                    sanitize_remaining(&g.body, 0, name, &mut body);
                    let t = Token::Group(Group { delim: g.delim, body, open: g.open, close: g.close });
                    proof {
                        assert(models(body@) =~= collapse_from(models(g.body@), 0, name@));
                        lemma_models_push(items@, t);
                    }
                    items.push(t);
                },
                _ => {
                    let t = copy_token(&s[i]);
                    proof {
                        lemma_models_push(items@, t);
                    }
                    items.push(t);
                },
            }
            assert(collapse_from(m, i as int, name@) == seq![models(items@).last()] + collapse_from(
                m,
                i + 1,
                name@,
            ));
            assert(models(items@) == before.push(models(items@).last()));
            assert(start + collapse_from(m, from as int, name@) =~= models(items@) + collapse_from(
                m,
                i + 1,
                name@,
            ));
        }
        i = i + 1;
    }
    assert(collapse_from(m, i as int, name@) =~= Seq::<TokenModel>::empty());
    assert(models(items@) =~= start + collapse_from(m, from as int, name@));
}

/// Scans a token sequence for its first fragment reference. Returns the
/// sequence with that reference and every later reference to the same
/// fragment reduced to the bare identifier, and the identifier; or the
/// sequence unchanged and `None` where it holds no reference.
pub fn sanitize(s: &Vec<Token>, cfg: &Config) -> (r: (Vec<Token>, Option<Ident>))
    ensures
        (models(r.0@), opt_ident(r.1)) == scan(models(s@), directive_names(*cfg)),
{
    scan_tokens(s, true, cfg)
}

fn scan_tokens(s: &Vec<Token>, top: bool, cfg: &Config) -> (r: (Vec<Token>, Option<Ident>))
    ensures
        (models(r.0@), opt_ident(r.1)) == scan_from(models(s@), 0, top, directive_names(*cfg)),
    decreases s, 0nat,
{
    let ghost m = models(s@);
    let ghost dirs = directive_names(*cfg);
    let mut out: Vec<Token> = Vec::new();
    let mut i: usize = 0;
    while i < s.len()
        invariant
            i <= s@.len(),
            m == models(s@),
            dirs == directive_names(*cfg),
            scan_from(m, 0, top, dirs) == (
                models(out@) + scan_from(m, i as int, top, dirs).0,
                scan_from(m, i as int, top, dirs).1,
            ),
        decreases s@.len() - i,
    {
        let ghost before = models(out@);
        let is_marker_here = top && i == 0 && match &s[0] {
            Token::Group(g) => g.delim == Delim::Bracket,
            _ => false,
        };
        if !is_marker_here && is_sigil_token(&s[i]) && i + 1 < s.len() {
            if let Token::Ident(id) = &s[i + 1] {
                if !cfg.is_directive(&id.name) {
                    let found = Ident { name: id.name.clone(), loc: id.loc };
                    let t = Token::Ident(Ident { name: id.name.clone(), loc: id.loc });
                    proof {
                        lemma_models_push(out@, t);
                    }
                    out.push(t);
                    sanitize_remaining(s, i + 2, &found.name, &mut out);
                    assert(models(out@) =~= before + scan_from(m, i as int, top, dirs).0);
                    return (out, Some(found));
                }
            }
        }
        assert(!is_ref_at(m, i as int, dirs));
        match &s[i] {
            Token::Group(g) if !is_marker_here => {
                proof {
                    assert(decreases_to!(s => s@[i as int]));
                }
                let (body, found) = scan_tokens(&g.body, false, cfg);
                match found {
                    Some(id) => {
                        let t = Token::Group(
                            Group { delim: g.delim, body, open: g.open, close: g.close },
                        );
                        proof {
                            lemma_models_push(out@, t);
                        }
                        out.push(t);
                        sanitize_remaining(s, i + 1, &id.name, &mut out);
                        assert(models(out@) =~= before + scan_from(m, i as int, top, dirs).0);
                        return (out, Some(id));
                    },
                    None => {
                        let t = Token::Group(
                            Group { delim: g.delim, body, open: g.open, close: g.close },
                        );
                        proof {
                            lemma_scan_none(models(g.body@), 0, false, dirs);
                            assert(models(g.body@).subrange(0, g.body@.len() as int) =~= models(
                                g.body@,
                            ));
                            assert(model(t) == m[i as int]);
                            lemma_models_push(out@, t);
                        }
                        out.push(t);
                    },
                }
            },
            _ => {
                let t = copy_token(&s[i]);
                proof {
                    lemma_models_push(out@, t);
                }
                out.push(t);
            },
        }
        assert(scan_from(m, i as int, top, dirs).0 == seq![m[i as int]] + scan_from(
            m,
            i + 1,
            top,
            dirs,
        ).0);
        assert(models(out@) + scan_from(m, i + 1, top, dirs).0 =~= before + scan_from(
            m,
            i as int,
            top,
            dirs,
        ).0);
        i = i + 1;
    }
    assert(models(out@) + scan_from(m, i as int, top, dirs).0 =~= models(out@));
    (out, None)
}

} // verus!
