//! Finding the fragment that an export attribute names, and its source.
use vstd::prelude::*;
use crate::token::{copy_tokens, models, Ident, Token, TokenModel};

verus! {

/// Why an export attribute could not be read.
#[derive(Debug, PartialEq, Eq, Structural)]
pub enum ExportError {
    /// The attribute does not start with the fragment's name.
    MissingName,
    /// The item holds no `wgsl!(...)` invocation.
    MissingInvocation,
}

pub open spec fn is_wgsl(t: TokenModel) -> bool {
    t matches TokenModel::Ident { name, .. } && name == seq!['w', 'g', 's', 'l']
}

pub open spec fn is_bang(t: TokenModel) -> bool {
    t matches TokenModel::Punct { ch, .. } && ch == '!'
}

/// `wgsl` at `j`, then only `!` up to `i`.
pub open spec fn chain_from(s: Seq<TokenModel>, j: int, i: int) -> bool {
    &&& 0 <= j < i <= s.len()
    &&& is_wgsl(s[j])
    &&& forall|k: int| j < k < i ==> is_bang(#[trigger] s[k])
}

/// The group at `i` is the argument of a `wgsl!` invocation: `wgsl`, then
/// one or more `!`, then the group.
pub open spec fn is_invocation_at(s: Seq<TokenModel>, i: int) -> bool {
    &&& 0 <= i < s.len()
    &&& s[i] is Group
    &&& exists|j: int| j < i - 1 && #[trigger] chain_from(s, j, i)
}

/// The body of the first `wgsl!` invocation among the top-level tokens.
pub open spec fn first_invocation(s: Seq<TokenModel>) -> Option<Seq<TokenModel>> {
    if exists|i: int| is_invocation_at(s, i) {
        let i = choose|i: int|
            is_invocation_at(s, i) && forall|k: int| 0 <= k < i ==> !is_invocation_at(s, k);
        Some(s[i]->Group_body)
    } else {
        None
    }
}

proof fn lemma_chain_unique(s: Seq<TokenModel>, j1: int, j2: int, i: int)
    requires
        chain_from(s, j1, i),
        chain_from(s, j2, i),
    ensures
        j1 == j2,
{
    if j1 < j2 {
        assert(is_bang(s[j2]));
    } else if j2 < j1 {
        assert(is_bang(s[j1]));
    }
}

proof fn lemma_first_invocation(s: Seq<TokenModel>, i: int)
    requires
        is_invocation_at(s, i),
        forall|k: int| 0 <= k < i ==> !is_invocation_at(s, k),
    ensures
        first_invocation(s) == Some(s[i]->Group_body),
{
    let c = choose|c: int| is_invocation_at(s, c) && forall|k: int| 0 <= k < c ==> !is_invocation_at(s, k);
    assert(c == i) by {
        if c < i {
            assert(!is_invocation_at(s, c));
        } else if c > i {
            assert(!is_invocation_at(s, i));
        }
    }
}

proof fn lemma_no_invocation(s: Seq<TokenModel>)
    requires
        forall|k: int| 0 <= k < s.len() ==> !is_invocation_at(s, k),
    ensures
        first_invocation(s) is None,
{
    if exists|i: int| is_invocation_at(s, i) {
        let i = choose|i: int| is_invocation_at(s, i);
        assert(!is_invocation_at(s, i));
    }
}

/// The chain state after token `i`.
proof fn lemma_chain_step(s: Seq<TokenModel>, i: int, start: Option<int>)
    requires
        0 <= i < s.len(),
        match start {
            Some(j) => chain_from(s, j, i),
            None => forall|j: int| !#[trigger] chain_from(s, j, i),
        },
    ensures
        is_invocation_at(s, i) == (s[i] is Group && start is Some && start->0 + 1 < i),
        is_wgsl(s[i]) ==> chain_from(s, i, i + 1),
        !is_wgsl(s[i]) && is_bang(s[i]) ==> match start {
            Some(j) => chain_from(s, j, i + 1),
            None => forall|j: int| !#[trigger] chain_from(s, j, i + 1),
        },
        !is_wgsl(s[i]) && !is_bang(s[i]) ==> forall|j: int| !#[trigger] chain_from(s, j, i + 1),
{
    if is_invocation_at(s, i) {
        let j = choose|j: int| j < i - 1 && #[trigger] chain_from(s, j, i);
        match start {
            Some(j0) => lemma_chain_unique(s, j, j0, i),
            None => assert(!chain_from(s, j, i)),
        }
    }
    if start is Some && s[i] is Group && start->0 + 1 < i {
        assert(chain_from(s, start->0, i));
    }
    assert forall|j: int| chain_from(s, j, i + 1) && j < i implies chain_from(s, j, i) by {}
    if !is_wgsl(s[i]) && is_bang(s[i]) {
        if start is Some {
            assert(chain_from(s, start->0, i + 1));
        } else {
            assert forall|j: int| !#[trigger] chain_from(s, j, i + 1) by {
                if chain_from(s, j, i + 1) && j < i {
                    assert(chain_from(s, j, i));
                }
            }
        }
    }
    if !is_wgsl(s[i]) && !is_bang(s[i]) {
        assert forall|j: int| !#[trigger] chain_from(s, j, i + 1) by {
            if chain_from(s, j, i + 1) && j < i {
                assert(is_bang(s[i]));
            }
        }
    }
}

fn is_wgsl_token(t: &Token) -> (r: bool)
    ensures
        r == is_wgsl(crate::token::model(*t)),
{
    match t {
        Token::Ident(id) => {
            let w = String::from_str("wgsl");
            proof {
                reveal_strlit("wgsl");
                assert(w@ =~= seq!['w', 'g', 's', 'l']);
            }
            id.name == w
        },
        _ => false,
    }
}

fn is_bang_token(t: &Token) -> (r: bool)
    ensures
        r == is_bang(crate::token::model(*t)),
{
    match t {
        Token::Punct(p) => p.ch == '!',
        _ => false,
    }
}

/// Reads an export: the name that `attr` starts with, and the body of the
/// first `wgsl!` invocation in `stream`.
pub fn wgsl_export2(attr: &Vec<Token>, stream: &Vec<Token>) -> (r: Result<(Ident, Vec<Token>), ExportError>)
    ensures
        attr@.len() == 0 || !(models(attr@)[0] is Ident) ==> r == Err::<(Ident, Vec<Token>), ExportError>(
            ExportError::MissingName,
        ),
        attr@.len() > 0 && models(attr@)[0] is Ident ==> match first_invocation(models(stream@)) {
            Some(body) => r matches Ok(found) && TokenModel::Ident {
                name: found.0.name@,
                loc: found.0.loc,
            } == models(attr@)[0] && models(found.1@) == body,
            None => r == Err::<(Ident, Vec<Token>), ExportError>(ExportError::MissingInvocation),
        },
{
    let name = if attr.len() > 0 {
        match &attr[0] {
            Token::Ident(id) => Ident { name: id.name.clone(), loc: id.loc },
            _ => {
                return Err(ExportError::MissingName);
            },
        }
    } else {
        return Err(ExportError::MissingName);
    };
    let ghost m = models(stream@);
    let mut start: Option<usize> = None;
    let mut i: usize = 0;
    while i < stream.len()
        invariant
            i <= stream@.len(),
            m == models(stream@),
            attr@.len() > 0 && models(attr@)[0] is Ident,
            (TokenModel::Ident { name: name.name@, loc: name.loc }) == models(attr@)[0],
            forall|k: int| 0 <= k < i ==> !is_invocation_at(m, k),
            match start {
                Some(j) => chain_from(m, j as int, i as int),
                None => forall|j: int| !#[trigger] chain_from(m, j, i as int),
            },
        decreases stream@.len() - i,
    {
        let ghost gstart: Option<int> = match start {
            Some(j) => Some(j as int),
            None => None,
        };
        proof {
            lemma_chain_step(m, i as int, gstart);
        }
        let ready = match start {
            Some(j) => j + 1 < i,
            None => false,
        };
        if ready {
            if let Token::Group(g) = &stream[i] {
                let body = copy_tokens(&g.body, 0);
                proof {
                    lemma_first_invocation(m, i as int);
                    assert(models(g.body@).subrange(0, g.body@.len() as int) =~= models(g.body@));
                }
                return Ok((name, body));
            }
        }
        if is_wgsl_token(&stream[i]) {
            start = Some(i);
        } else if !is_bang_token(&stream[i]) {
            start = None;
        }
        i = i + 1;
    }
    proof {
        lemma_no_invocation(m);
    }
    Err(ExportError::MissingInvocation)
}

} // verus!
