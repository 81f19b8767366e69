//! The registry of exported fragments: each name is registered once.
use vstd::prelude::*;
use crate::token::{copy_tokens, models, Ident, Loc, Token, TokenModel};

verus! {

/// A fragment name registered a second time, with the location of the
/// second registration.
#[derive(Debug)]
pub struct DuplicateName {
    pub name: String,
    pub loc: Loc,
}

/// Exported fragments by name, in order of registration.
pub struct Registry {
    pub entries: Vec<(Ident, Vec<Token>)>,
}

pub open spec fn entry_model(e: (Ident, Vec<Token>)) -> (Seq<char>, Seq<TokenModel>) {
    (e.0.name@, models(e.1@))
}

pub open spec fn reg_model(r: Registry) -> Seq<(Seq<char>, Seq<TokenModel>)> {
    r.entries@.map_values(|e: (Ident, Vec<Token>)| entry_model(e))
}

/// The body registered under `n`.
pub open spec fn lookup_spec(reg: Seq<(Seq<char>, Seq<TokenModel>)>, n: Seq<char>) -> Option<
    Seq<TokenModel>,
>
    decreases reg.len(),
{
    if reg.len() == 0 {
        None
    } else if reg[0].0 == n {
        Some(reg[0].1)
    } else {
        lookup_spec(reg.drop_first(), n)
    }
}

pub proof fn lemma_lookup_push(
    reg: Seq<(Seq<char>, Seq<TokenModel>)>,
    e: (Seq<char>, Seq<TokenModel>),
    n: Seq<char>,
)
    ensures
        lookup_spec(reg.push(e), n) == if lookup_spec(reg, n) is Some {
            lookup_spec(reg, n)
        } else if e.0 == n {
            Some(e.1)
        } else {
            None::<Seq<TokenModel>>
        },
    decreases reg.len(),
{
    if reg.len() > 0 {
        assert(reg.push(e).drop_first() =~= reg.drop_first().push(e));
        lemma_lookup_push(reg.drop_first(), e, n);
    } else {
        assert(reg.push(e).drop_first() =~= reg);
    }
}

impl Registry {
    pub fn new() -> (r: Registry)
        ensures
            reg_model(r) == Seq::<(Seq<char>, Seq<TokenModel>)>::empty(),
    {
        let r = Registry { entries: Vec::new() };
        assert(reg_model(r) =~= Seq::<(Seq<char>, Seq<TokenModel>)>::empty());
        r
    }

    /// The body registered under `name`.
    pub fn lookup(&self, name: &String) -> (r: Option<&Vec<Token>>)
        ensures
            match r {
                Some(b) => lookup_spec(reg_model(*self), name@) == Some(models(b@)),
                None => lookup_spec(reg_model(*self), name@) is None,
            },
    {
        let ghost reg = reg_model(*self);
        let mut i: usize = 0;
        assert(reg.subrange(0, reg.len() as int) =~= reg);
        while i < self.entries.len()
            invariant
                i <= self.entries@.len(),
                reg == reg_model(*self),
                lookup_spec(reg, name@) == lookup_spec(reg.subrange(i as int, reg.len() as int), name@),
            decreases self.entries@.len() - i,
        {
            assert(reg.subrange(i as int, reg.len() as int).drop_first() =~= reg.subrange(
                i + 1,
                reg.len() as int,
            ));
            if self.entries[i].0.name == *name {
                return Some(&self.entries[i].1);
            }
            i = i + 1;
        }
        None
    }

    /// Registers `body` under the name of `name`; a name already registered
    /// keeps its first body, and the second registration is an error.
    pub fn register(&mut self, name: Ident, body: Vec<Token>) -> (r: Result<(), DuplicateName>)
        ensures
            lookup_spec(reg_model(*old(self)), name.name@) is Some ==> r == Err::<(), DuplicateName>(
                DuplicateName { name: name.name, loc: name.loc },
            ) && reg_model(*final(self)) == reg_model(*old(self)),
            lookup_spec(reg_model(*old(self)), name.name@) is None ==> r is Ok && reg_model(
                *final(self),
            ) == reg_model(*old(self)).push((name.name@, models(body@))),
    {
        if self.lookup(&name.name).is_some() {
            return Err(DuplicateName { name: name.name, loc: name.loc });
        }
        let ghost before = reg_model(*self);
        let ghost e = (name.name@, models(body@));
        self.entries.push((name, body));
        assert(reg_model(*self) =~= before.push(e));
        Ok(())
    }
}

} // verus!
