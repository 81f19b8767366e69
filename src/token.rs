//! The token tree that every stage works on, and its mathematical model.
use vstd::prelude::*;

verus! {

/// The sigil that marks a reference to an exported fragment (`#name`).
pub const SIGIL: char = '#';

/// A handle to where a token came from in the source input.
#[derive(Clone, Copy, Debug, PartialEq, Eq, Structural)]
pub struct Loc(pub usize);

/// The delimiter of a group.
#[derive(Clone, Copy, Debug, PartialEq, Eq, Structural)]
pub enum Delim {
    Paren,
    Brace,
    Bracket,
    Invisible,
}

#[derive(Debug)]
pub struct Ident {
    pub name: String,
    pub loc: Loc,
}

#[derive(Debug)]
pub struct Punct {
    pub ch: char,
    /// Whether the next character followed this one with no space between.
    pub joint: bool,
    pub loc: Loc,
}

#[derive(Debug)]
pub struct Literal {
    pub text: String,
    pub loc: Loc,
}

#[derive(Debug)]
pub struct Group {
    pub delim: Delim,
    pub body: Vec<Token>,
    pub open: Loc,
    pub close: Loc,
}

#[derive(Debug)]
pub enum Token {
    Ident(Ident),
    Punct(Punct),
    Literal(Literal),
    Group(Group),
}

/// The mathematical model of a token.
pub enum TokenModel {
    Ident { name: Seq<char>, loc: Loc },
    Punct { ch: char, joint: bool, loc: Loc },
    Literal { text: Seq<char>, loc: Loc },
    Group { delim: Delim, body: Seq<TokenModel>, open: Loc, close: Loc },
}

pub open spec fn model(t: Token) -> TokenModel
    decreases t,
{
    match t {
        Token::Ident(i) => TokenModel::Ident { name: i.name@, loc: i.loc },
        Token::Punct(p) => TokenModel::Punct { ch: p.ch, joint: p.joint, loc: p.loc },
        Token::Literal(l) => TokenModel::Literal { text: l.text@, loc: l.loc },
        Token::Group(g) => TokenModel::Group {
            delim: g.delim,
            body: models(g.body@),
            open: g.open,
            close: g.close,
        },
    }
}

/// The model of a token sequence, token by token.
pub open spec fn models(s: Seq<Token>) -> Seq<TokenModel>
    decreases s,
{
    Seq::new(
        s.len(),
        |i: int|
            if 0 <= i < s.len() {
                model(s[i])
            } else {
                TokenModel::Literal { text: Seq::empty(), loc: Loc(0) }
            },
    )
}

pub proof fn lemma_models_push(s: Seq<Token>, t: Token)
    ensures
        models(s.push(t)) == models(s).push(model(t)),
{
    assert(models(s.push(t)) =~= models(s).push(model(t)));
}

pub proof fn lemma_models_add(s: Seq<Token>, u: Seq<Token>)
    ensures
        models(s + u) == models(s) + models(u),
{
    assert(models(s + u) =~= models(s) + models(u));
}

/// The opening character of a delimiter; an invisible group opens with a space.
pub fn open(d: Delim) -> (c: char)
    ensures
        c == open_char(d),
{
    match d {
        Delim::Paren => '(',
        Delim::Brace => '{',
        Delim::Bracket => '[',
        Delim::Invisible => ' ',
    }
}

/// The closing character of a delimiter; an invisible group closes with a space.
pub fn close(d: Delim) -> (c: char)
    ensures
        c == close_char(d),
{
    match d {
        Delim::Paren => ')',
        Delim::Brace => '}',
        Delim::Bracket => ']',
        Delim::Invisible => ' ',
    }
}

pub open spec fn open_char(d: Delim) -> char {
    match d {
        Delim::Paren => '(',
        Delim::Brace => '{',
        Delim::Bracket => '[',
        Delim::Invisible => ' ',
    }
}

pub open spec fn close_char(d: Delim) -> char {
    match d {
        Delim::Paren => ')',
        Delim::Brace => '}',
        Delim::Bracket => ']',
        Delim::Invisible => ' ',
    }
}

/// A copy of a token tree.
pub fn copy_token(t: &Token) -> (r: Token)
    ensures
        model(r) == model(*t),
    decreases t,
{
    match t {
        Token::Ident(i) => Token::Ident(Ident { name: i.name.clone(), loc: i.loc }),
        Token::Punct(p) => Token::Punct(Punct { ch: p.ch, joint: p.joint, loc: p.loc }),
        Token::Literal(l) => Token::Literal(Literal { text: l.text.clone(), loc: l.loc }),
        Token::Group(g) => {
            let body = copy_tokens(&g.body, 0);
            proof {
                assert(models(g.body@).subrange(0, g.body@.len() as int) =~= models(g.body@));
            }
            Token::Group(Group { delim: g.delim, body, open: g.open, close: g.close })
        },
    }
}

/// A copy of the tokens of `s` from index `from` on.
pub fn copy_tokens(s: &Vec<Token>, from: usize) -> (r: Vec<Token>)
    requires
        from <= s@.len(),
    ensures
        models(r@) == models(s@).subrange(from as int, s@.len() as int),
    decreases s, 0nat,
{
    let mut r: Vec<Token> = Vec::new();
    let mut i = from;
    while i < s.len()
        invariant
            from <= i <= s@.len(),
            models(r@) == models(s@).subrange(from as int, i as int),
        decreases s@.len() - i,
    {
        proof {
            assert(decreases_to!(s => s@[i as int]));
        }
        let t = copy_token(&s[i]);
        proof {
            lemma_models_push(r@, t);
        }
        r.push(t);
        i = i + 1;
        proof {
            assert(models(r@) =~= models(s@).subrange(from as int, i as int));
        }
    }
    r
}

} // verus!
