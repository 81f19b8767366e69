//! Pasting a fragment's body into a sequence, once: the head of the sequence
//! carries a bracketed marker listing the fragments already pasted.
use vstd::prelude::*;
use crate::scan::is_marker;
use crate::token::{copy_tokens, lemma_models_add, lemma_models_push, model, models, Delim, Group, Ident, Loc, Token, TokenModel};

verus! {

/// The identifiers among `s`, in order.
pub open spec fn idents(s: Seq<TokenModel>) -> Seq<TokenModel>
    decreases s.len(),
{
    if s.len() == 0 {
        Seq::empty()
    } else if s.last() is Ident {
        idents(s.drop_last()).push(s.last())
    } else {
        idents(s.drop_last())
    }
}

/// The fragments named by the marker at the head of `s`: its identifiers.
pub open spec fn pending(s: Seq<TokenModel>) -> Seq<TokenModel> {
    if s.len() > 0 && is_marker(s[0]) {
        match s[0] {
            TokenModel::Group { body, .. } => idents(body),
            _ => Seq::empty(),
        }
    } else {
        Seq::empty()
    }
}

/// `s` without its marker.
pub open spec fn after_marker(s: Seq<TokenModel>) -> Seq<TokenModel> {
    if s.len() > 0 && is_marker(s[0]) {
        s.drop_first()
    } else {
        s
    }
}

pub open spec fn ident_name(t: TokenModel) -> Seq<char> {
    match t {
        TokenModel::Ident { name, .. } => name,
        _ => Seq::empty(),
    }
}

pub open spec fn names_of(p: Seq<TokenModel>) -> Seq<Seq<char>> {
    p.map_values(|t: TokenModel| ident_name(t))
}

/// The names of the fragments pasted into `s`.
pub open spec fn pasted_names(s: Seq<TokenModel>) -> Seq<Seq<char>> {
    names_of(pending(s))
}

pub open spec fn marker_of(p: Seq<TokenModel>, site: Loc) -> TokenModel {
    TokenModel::Group { delim: Delim::Bracket, body: p, open: site, close: site }
}

/// Pasting `body`, the fragment named `def`, into `s`: where the marker of
/// `s` already names it, only the marker is rebuilt; otherwise the name is
/// added to the marker and the body goes right after it.
pub open spec fn paste_spec(
    s: Seq<TokenModel>,
    def: (Seq<char>, Loc),
    body: Seq<TokenModel>,
    site: Loc,
) -> Seq<TokenModel> {
    let p = pending(s);
    if names_of(p).contains(def.0) {
        seq![marker_of(p, site)] + after_marker(s)
    } else {
        seq![marker_of(p.push(TokenModel::Ident { name: def.0, loc: def.1 }), site)] + body
            + after_marker(s)
    }
}

fn is_marker_token(t: &Token) -> (r: bool)
    ensures
        r == is_marker(model(*t)),
{
    match t {
        Token::Group(g) => g.delim == Delim::Bracket,
        _ => false,
    }
}

pub proof fn lemma_idents_are_idents(s: Seq<TokenModel>)
    ensures
        forall|k: int| 0 <= k < idents(s).len() ==> (#[trigger] idents(s)[k]) is Ident,
    decreases s.len(),
{
    if s.len() > 0 {
        lemma_idents_are_idents(s.drop_last());
    }
}

/// Copies of the identifiers among `s`.
fn collect_idents(s: &Vec<Token>) -> (r: Vec<Token>)
    ensures
        models(r@) == idents(models(s@)),
{
    let ghost m = models(s@);
    let mut r: Vec<Token> = Vec::new();
    let mut i: usize = 0;
    while i < s.len()
        invariant
            i <= s@.len(),
            m == models(s@),
            models(r@) == idents(m.subrange(0, i as int)),
        decreases s@.len() - i,
    {
        assert(m.subrange(0, i + 1).drop_last() =~= m.subrange(0, i as int));
        if let Token::Ident(id) = &s[i] {
            let t = Token::Ident(Ident { name: id.name.clone(), loc: id.loc });
            proof {
                lemma_models_push(r@, t);
            }
            r.push(t);
        }
        i = i + 1;
    }
    assert(m.subrange(0, i as int) =~= m);
    r
}

/// Whether an identifier in `p` is named `name`.
fn names_contain(p: &Vec<Token>, name: &String) -> (r: bool)
    requires
        forall|k: int| 0 <= k < p@.len() ==> (#[trigger] models(p@)[k]) is Ident,
    ensures
        r == names_of(models(p@)).contains(name@),
{
    let ghost ns = names_of(models(p@));
    let mut i: usize = 0;
    while i < p.len()
        invariant
            i <= p@.len(),
            ns == names_of(models(p@)),
            forall|k: int| 0 <= k < p@.len() ==> (#[trigger] models(p@)[k]) is Ident,
            forall|k: int| 0 <= k < i ==> ns[k] != name@,
        decreases p@.len() - i,
    {
        if let Token::Ident(id) = &p[i] {
            if id.name == *name {
                assert(ns[i as int] == name@);
                return true;
            }
        } else {
            assert(models(p@)[i as int] is Ident);
        }
        i = i + 1;
    }
    proof {
        if ns.contains(name@) {
            let k = choose|k: int| 0 <= k < ns.len() && ns[k] == name@;
            assert(ns[k] != name@);
        }
    }
    false
}

/// Pastes `body`, the fragment named `def`, into `stream`, unless the marker
/// at the head of `stream` says that it is already there. The rebuilt marker
/// carries the location `site`.
pub fn paste_fragment(stream: &Vec<Token>, def: &Ident, body: &Vec<Token>, site: Loc) -> (r: Vec<
    Token,
>)
    ensures
        models(r@) == paste_spec(models(stream@), (def.name@, def.loc), models(body@), site),
{
    let ghost m = models(stream@);
    let has_marker = stream.len() > 0 && is_marker_token(&stream[0]);
    let mut names: Vec<Token> = match (has_marker, stream.len() > 0) {
        (true, true) => match &stream[0] {
            Token::Group(g) => collect_idents(&g.body),
            _ => Vec::new(),
        },
        _ => Vec::new(),
    };
    assert(models(names@) == pending(m));
    proof {
        lemma_idents_are_idents(models(match stream@[0] {
            Token::Group(g) => g.body@,
            _ => Seq::empty(),
        }));
    }
    let rest = copy_tokens(stream, if has_marker { 1 } else { 0 });
    assert(models(rest@) =~= after_marker(m));
    let found = names_contain(&names, &def.name);
    let mut r: Vec<Token> = Vec::new();
    if found {
        let marker = Token::Group(Group { delim: Delim::Bracket, body: names, open: site, close: site });
        r.push(marker);
        let ghost head = r@;
        let ghost tail = rest@;
        let mut rest = rest;
        r.append(&mut rest);
        proof {
            lemma_models_add(head, tail);
        }
        assert(models(r@) =~= seq![model(marker)] + after_marker(m));
    } else {
        let id = Token::Ident(Ident { name: def.name.clone(), loc: def.loc });
        proof {
            lemma_models_push(names@, id);
        }
        names.push(id);
        let marker = Token::Group(Group { delim: Delim::Bracket, body: names, open: site, close: site });
        r.push(marker);
        let mut pasted = copy_tokens(body, 0);
        assert(models(pasted@) =~= models(body@));
        let ghost head = r@;
        let ghost mid = pasted@;
        r.append(&mut pasted);
        proof {
            lemma_models_add(head, mid);
        }
        let ghost head2 = r@;
        let ghost tail = rest@;
        let mut rest = rest;
        r.append(&mut rest);
        proof {
            lemma_models_add(head2, tail);
        }
        assert(models(r@) =~= seq![model(marker)] + models(body@) + after_marker(m));
    }
    r
}

/// Whether the marker at the head of `stream` names `name`.
pub fn is_pasted(stream: &Vec<Token>, name: &String) -> (r: bool)
    ensures
        r == pasted_names(models(stream@)).contains(name@),
{
    if stream.len() > 0 && is_marker_token(&stream[0]) {
        match &stream[0] {
            Token::Group(g) => {
                let names = collect_idents(&g.body);
                proof {
                    lemma_idents_are_idents(models(g.body@));
                }
                names_contain(&names, name)
            },
            _ => false,
        }
    } else {
        proof {
            assert(pasted_names(models(stream@)) =~= Seq::<Seq<char>>::empty());
        }
        false
    }
}

} // verus!
