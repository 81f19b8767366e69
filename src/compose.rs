//! Resolving every fragment reference of a sequence, to a fixed point.
use vstd::prelude::*;
use crate::paste::{
    after_marker, idents, is_pasted, lemma_idents_are_idents, marker_of, names_of, paste_fragment,
    paste_spec, pasted_names, pending,
};
use crate::registry::{lookup_spec, reg_model, Registry};
use crate::scan::{
    collapse_from, directive_names, is_marker, is_ref_at, lemma_scan_none, sanitize, scan, scan_from,
    Config,
};
use crate::diagnostics::{increasing, nearest, translate};
use crate::render::{empty_rendering, Rendered, has_sigil_from, render_from, serialize, state, well_formed, well_formed_token};
use crate::validate::{check_wgsl, wgsl_verdict, GrammarFault};
use crate::token::{copy_tokens, models, Ident, Loc, Token, TokenModel, SIGIL};

verus! {

/// What stops a composition.
#[derive(Debug)]
pub enum Diagnostic {
    /// A reference to a fragment that is not registered, at the reference.
    UnknownFragment { name: String, loc: Loc },
    /// The validator refused the composed text; `loc` is the source
    /// location of the token nearest before the error.
    GrammarError { message: String, loc: Loc },
}

impl Diagnostic {
    /// The source location that the diagnostic is reported at.
    pub fn location(&self) -> (r: Loc)
        ensures
            r == match *self {
                Diagnostic::UnknownFragment { loc, .. } => loc,
                Diagnostic::GrammarError { loc, .. } => loc,
            },
    {
        match self {
            Diagnostic::UnknownFragment { loc, .. } => *loc,
            Diagnostic::GrammarError { loc, .. } => *loc,
        }
    }
}

/// Whether `d` reports the unknown fragment `e`.
pub open spec fn reports_unknown(d: Diagnostic, e: (Seq<char>, Loc)) -> bool {
    d matches Diagnostic::UnknownFragment { name, loc } && name@ == e.0 && loc == e.1
}

/// The number of sigils in a token.
pub open spec fn sigil_weight(t: TokenModel) -> nat
    decreases t,
{
    match t {
        TokenModel::Punct { ch, .. } => if ch == SIGIL {
            1
        } else {
            0
        },
        TokenModel::Group { body, .. } => sigil_count(body),
        _ => 0,
    }
}

/// The number of sigils in a sequence, in groups too.
pub open spec fn sigil_count(s: Seq<TokenModel>) -> nat
    decreases s,
{
    if s.len() == 0 {
        0
    } else {
        sigil_weight(s[0]) + sigil_count(s.drop_first())
    }
}

/// The number of registered fragments whose names are not in `p`.
pub open spec fn unused(reg: Seq<(Seq<char>, Seq<TokenModel>)>, p: Seq<Seq<char>>) -> nat
    decreases reg.len(),
{
    if reg.len() == 0 {
        0
    } else {
        unused(reg.drop_first(), p) + if p.contains(reg[0].0) {
            0nat
        } else {
            1nat
        }
    }
}

/// One expansion step on a scanned sequence `t` whose first reference was
/// `id`: a fragment already pasted is not pasted again; a new one is looked
/// up and pasted, or is an unknown fragment.
pub open spec fn expand_spec(
    reg: Seq<(Seq<char>, Seq<TokenModel>)>,
    t: Seq<TokenModel>,
    id: (Seq<char>, Loc),
    site: Loc,
) -> Result<Seq<TokenModel>, (Seq<char>, Loc)> {
    if pasted_names(t).contains(id.0) {
        Ok(paste_spec(t, id, Seq::empty(), site))
    } else {
        match lookup_spec(reg, id.0) {
            Some(b) => Ok(paste_spec(t, id, b, site)),
            None => Err(id),
        }
    }
}

/// Scanning and expanding until no reference is left.
pub open spec fn resolve(
    reg: Seq<(Seq<char>, Seq<TokenModel>)>,
    s: Seq<TokenModel>,
    dirs: Seq<Seq<char>>,
    site: Loc,
) -> Result<Seq<TokenModel>, (Seq<char>, Loc)>
    decreases unused(reg, pasted_names(s)), sigil_count(after_marker(s)),
{
    let sc = scan(s, dirs);
    match sc.1 {
        None => Ok(sc.0),
        Some(id) => match expand_spec(reg, sc.0, id, site) {
            Err(e) => Err(e),
            Ok(u) => {
                proof {
                    lemma_step_decreases(reg, s, dirs, site);
                }
                resolve(reg, u, dirs, site)
            },
        },
    }
}

pub proof fn lemma_count_add(a: Seq<TokenModel>, b: Seq<TokenModel>)
    ensures
        sigil_count(a + b) == sigil_count(a) + sigil_count(b),
    decreases a.len(),
{
    if a.len() > 0 {
        assert((a + b).drop_first() =~= a.drop_first() + b);
        lemma_count_add(a.drop_first(), b);
    } else {
        assert(a + b =~= b);
    }
}

pub proof fn lemma_count_at(s: Seq<TokenModel>, i: int)
    requires
        0 <= i < s.len(),
    ensures
        sigil_count(s.subrange(i, s.len() as int)) == sigil_weight(s[i]) + sigil_count(
            s.subrange(i + 1, s.len() as int),
        ),
{
    assert(s.subrange(i, s.len() as int).drop_first() =~= s.subrange(i + 1, s.len() as int));
}

pub proof fn lemma_count_collapse(s: Seq<TokenModel>, i: int, n: Seq<char>)
    requires
        0 <= i <= s.len(),
    ensures
        sigil_count(collapse_from(s, i, n)) <= sigil_count(s.subrange(i, s.len() as int)),
    decreases s, s.len() - i,
{
    if i == s.len() {
        assert(s.subrange(i, s.len() as int) =~= Seq::<TokenModel>::empty());
    } else {
        lemma_count_at(s, i);
        lemma_count_collapse(s, i + 1, n);
        let rest = collapse_from(s, i + 1, n);
        if is_sigil_at_named(s, i, n) {
            assert(collapse_from(s, i, n) == rest);
        } else {
            match s[i] {
                TokenModel::Group { delim, body, open, close } => {
                    lemma_count_collapse(body, 0, n);
                    assert(body.subrange(0, body.len() as int) =~= body);
                    let g = TokenModel::Group { delim, body: collapse_from(body, 0, n), open, close };
                    assert(collapse_from(s, i, n) == seq![g] + rest);
                    lemma_count_one(g);
                    lemma_count_add(seq![g], rest);
                },
                _ => {
                    assert(collapse_from(s, i, n) == seq![s[i]] + rest);
                    lemma_count_one(s[i]);
                    lemma_count_add(seq![s[i]], rest);
                },
            }
        }
    }
}

pub open spec fn is_sigil_at_named(s: Seq<TokenModel>, i: int, n: Seq<char>) -> bool {
    crate::scan::is_sigil(s[i]) && i + 1 < s.len() && crate::scan::is_ident_named(s[i + 1], n)
}

pub proof fn lemma_count_one(t: TokenModel)
    ensures
        sigil_count(seq![t]) == sigil_weight(t),
{
    assert(seq![t].drop_first() =~= Seq::<TokenModel>::empty());
    assert(sigil_count(Seq::<TokenModel>::empty()) == 0);
    assert(seq![t][0] == t);
}

/// A scan that finds a reference drops at least one sigil, and the head of a
/// top-level sequence keeps its kind.
pub proof fn lemma_count_scan(s: Seq<TokenModel>, i: int, top: bool, dirs: Seq<Seq<char>>)
    requires
        0 <= i <= s.len(),
        scan_from(s, i, top, dirs).1 is Some,
    ensures
        sigil_count(scan_from(s, i, top, dirs).0) < sigil_count(s.subrange(i, s.len() as int)),
    decreases s, s.len() - i,
{
    let out = scan_from(s, i, top, dirs);
    lemma_count_at(s, i);
    if top && i == 0 && is_marker(s[0]) {
        lemma_count_scan(s, 1, top, dirs);
        lemma_count_add(seq![s[0]], scan_from(s, 1, top, dirs).0);
        lemma_count_one(s[0]);
        assert(s.subrange(1, s.len() as int) == s.subrange(i + 1, s.len() as int));
    } else if is_ref_at(s, i, dirs) {
        lemma_count_at(s, i + 1);
        let name = s[i + 1]->Ident_name;
        lemma_count_collapse(s, i + 2, name);
        lemma_count_add(seq![s[i + 1]], collapse_from(s, i + 2, name));
        lemma_count_one(s[i + 1]);
    } else {
        match s[i] {
            TokenModel::Group { delim, body, open, close } => {
                let inner = scan_from(body, 0, false, dirs);
                if inner.1 is Some {
                    lemma_count_scan(body, 0, false, dirs);
                    assert(body.subrange(0, body.len() as int) =~= body);
                    let found = inner.1->0;
                    lemma_count_collapse(s, i + 1, found.0);
                    let g = TokenModel::Group { delim, body: inner.0, open, close };
                    lemma_count_add(seq![g], collapse_from(s, i + 1, found.0));
                    lemma_count_one(g);
                } else {
                    lemma_count_scan(s, i + 1, top, dirs);
                    lemma_count_add(seq![s[i]], scan_from(s, i + 1, top, dirs).0);
                    lemma_count_one(s[i]);
                }
            },
            _ => {
                lemma_count_scan(s, i + 1, top, dirs);
                lemma_count_add(seq![s[i]], scan_from(s, i + 1, top, dirs).0);
                lemma_count_one(s[i]);
            },
        }
    }
}

/// The scan keeps the marker at the head of a sequence, and makes none.
pub proof fn lemma_scan_head(s: Seq<TokenModel>, dirs: Seq<Seq<char>>)
    requires
        s.len() > 0,
    ensures
        scan(s, dirs).0.len() > 0,
        is_marker(scan(s, dirs).0[0]) == is_marker(s[0]),
        is_marker(s[0]) ==> scan(s, dirs).0[0] == s[0],
{
    if scan(s, dirs).1 is None {
        lemma_scan_none(s, 0, true, dirs);
        assert(s.subrange(0, s.len() as int) =~= s);
    }
}

pub proof fn lemma_unused_push(reg: Seq<(Seq<char>, Seq<TokenModel>)>, p: Seq<Seq<char>>, n: Seq<char>)
    ensures
        unused(reg, p.push(n)) <= unused(reg, p),
        !p.contains(n) && lookup_spec(reg, n) is Some ==> unused(reg, p.push(n)) < unused(reg, p),
    decreases reg.len(),
{
    if reg.len() > 0 {
        lemma_unused_push(reg.drop_first(), p, n);
        let x = reg[0].0;
        if p.contains(x) {
            let k = choose|k: int| 0 <= k < p.len() && p[k] == x;
            assert(p.push(n)[k] == x);
        }
        if x == n {
            assert(p.push(n)[p.len() as int] == n);
        }
    }
}

pub proof fn lemma_idents_of_idents(p: Seq<TokenModel>)
    requires
        forall|k: int| 0 <= k < p.len() ==> (#[trigger] p[k]) is Ident,
    ensures
        idents(p) == p,
    decreases p.len(),
{
    if p.len() > 0 {
        lemma_idents_of_idents(p.drop_last());
        assert(idents(p.drop_last()).push(p.last()) =~= p);
    }
}

/// Each expansion step uses up a registered name or a sigil.
pub proof fn lemma_step_decreases(
    reg: Seq<(Seq<char>, Seq<TokenModel>)>,
    s: Seq<TokenModel>,
    dirs: Seq<Seq<char>>,
    site: Loc,
)
    requires
        scan(s, dirs).1 is Some,
        expand_spec(reg, scan(s, dirs).0, scan(s, dirs).1->0, site) is Ok,
    ensures
        ({
            let u = expand_spec(reg, scan(s, dirs).0, scan(s, dirs).1->0, site)->Ok_0;
            ||| unused(reg, pasted_names(u)) < unused(reg, pasted_names(s))
            ||| unused(reg, pasted_names(u)) == unused(reg, pasted_names(s)) && sigil_count(
                after_marker(u),
            ) < sigil_count(after_marker(s))
        }),
{
    let t = scan(s, dirs).0;
    let id = scan(s, dirs).1->0;
    let u = expand_spec(reg, t, id, site)->Ok_0;
    lemma_count_scan(s, 0, true, dirs);
    assert(s.subrange(0, s.len() as int) =~= s);
    lemma_scan_head(s, dirs);
    assert(pending(t) == pending(s));
    assert(after_marker(t).len() + 1 == t.len() <==> is_marker(t[0]));
    if is_marker(s[0]) {
        assert(t =~= seq![t[0]] + after_marker(t));
        assert(s =~= seq![s[0]] + after_marker(s));
        lemma_count_add(seq![t[0]], after_marker(t));
        lemma_count_add(seq![s[0]], after_marker(s));
    }
    assert(sigil_count(after_marker(t)) < sigil_count(after_marker(s)));
    let p = pending(t);
    if s.len() > 0 && is_marker(s[0]) {
        lemma_idents_are_idents(s[0]->Group_body);
    }
    assert(forall|k: int| 0 <= k < p.len() ==> (#[trigger] p[k]) is Ident);
    lemma_idents_of_idents(p);
    if pasted_names(t).contains(id.0) {
        assert(u == seq![marker_of(p, site)] + after_marker(t));
        assert(after_marker(u) =~= after_marker(t));
        assert(pending(u) == p);
    } else {
        let b = lookup_spec(reg, id.0)->0;
        let q = p.push(TokenModel::Ident { name: id.0, loc: id.1 });
        assert(u == seq![marker_of(q, site)] + b + after_marker(t));
        assert(forall|k: int| 0 <= k < q.len() ==> (#[trigger] q[k]) is Ident);
        lemma_idents_of_idents(q);
        assert(pending(u) == q);
        assert(names_of(q) =~= names_of(p).push(id.0));
        lemma_unused_push(reg, names_of(p), id.0);
    }
}

/// One expansion step on `stream`, whose first reference was `name`: where
/// the marker already names it, only the marker is rebuilt; otherwise the
/// fragment is looked up and pasted after the marker, or is unknown.
pub fn expand(reg: &Registry, stream: &Vec<Token>, name: &Ident, site: Loc) -> (r: Result<
    Vec<Token>,
    Diagnostic,
>)
    ensures
        match r {
            Ok(u) => expand_spec(reg_model(*reg), models(stream@), (name.name@, name.loc), site)
                == Ok::<Seq<TokenModel>, (Seq<char>, Loc)>(models(u@)),
            Err(d) => expand_spec(reg_model(*reg), models(stream@), (name.name@, name.loc), site)
                is Err && reports_unknown(d, (name.name@, name.loc)),
        },
{
    if is_pasted(stream, &name.name) {
        let none: Vec<Token> = Vec::new();
        proof {
            assert(models(none@) =~= Seq::<TokenModel>::empty());
        }
        return Ok(paste_fragment(stream, name, &none, site));
    }
    match reg.lookup(&name.name) {
        Some(body) => Ok(paste_fragment(stream, name, body, site)),
        None => Err(Diagnostic::UnknownFragment { name: name.name.clone(), loc: name.loc }),
    }
}

/// Resolves every fragment reference of `raw`: scans, and pastes what the
/// scan found, until no reference is left. Each fragment is pasted once;
/// the marker at the head of the result names the fragments pasted.
pub fn resolve_fragments(reg: &Registry, raw: &Vec<Token>, cfg: &Config, site: Loc) -> (r: Result<
    Vec<Token>,
    Diagnostic,
>)
    ensures
        match r {
            Ok(t) => resolve(reg_model(*reg), models(raw@), directive_names(*cfg), site) == Ok::<
                Seq<TokenModel>,
                (Seq<char>, Loc),
            >(models(t@)),
            Err(d) => resolve(reg_model(*reg), models(raw@), directive_names(*cfg), site) is Err
                && reports_unknown(
                d,
                resolve(reg_model(*reg), models(raw@), directive_names(*cfg), site)->Err_0,
            ),
        },
{
    let ghost rm = reg_model(*reg);
    let ghost dirs = directive_names(*cfg);
    let mut cur = copy_tokens(raw, 0);
    assert(models(cur@) =~= models(raw@));
    loop
        invariant
            rm == reg_model(*reg),
            dirs == directive_names(*cfg),
            resolve(rm, models(raw@), dirs, site) == resolve(rm, models(cur@), dirs, site),
        decreases unused(rm, pasted_names(models(cur@))), sigil_count(after_marker(models(cur@))),
    {
        let (t, found) = sanitize(&cur, cfg);
        match found {
            None => {
                return Ok(t);
            },
            Some(id) => {
                proof {
                    if expand_spec(rm, models(t@), (id.name@, id.loc), site) is Ok {
                        lemma_step_decreases(rm, models(cur@), dirs, site);
                    }
                }
                match expand(reg, &t, &id, site) {
                    Ok(u) => {
                        cur = u;
                    },
                    Err(d) => {
                        return Err(d);
                    },
                }
            },
        }
    }
}

/// Every registered body is well formed.
pub open spec fn registry_well_formed(reg: Seq<(Seq<char>, Seq<TokenModel>)>) -> bool {
    forall|k: int| 0 <= k < reg.len() ==> well_formed(#[trigger] reg[k].1)
}

pub proof fn lemma_wf_add(a: Seq<TokenModel>, b: Seq<TokenModel>)
    requires
        well_formed(a),
        well_formed(b),
    ensures
        well_formed(a + b),
{
    assert forall|k: int| 0 <= k < (a + b).len() implies well_formed_token(#[trigger] (a + b)[k]) by {
        if k < a.len() {
            assert((a + b)[k] == a[k]);
        } else {
            assert((a + b)[k] == b[k - a.len()]);
        }
    }
}

pub proof fn lemma_wf_skip(s: Seq<TokenModel>, i: int)
    requires
        well_formed(s),
        0 <= i <= s.len(),
    ensures
        well_formed(s.subrange(i, s.len() as int)),
{
    assert forall|k: int| 0 <= k < s.len() - i implies well_formed_token(
        #[trigger] s.subrange(i, s.len() as int)[k],
    ) by {
        assert(s.subrange(i, s.len() as int)[k] == s[i + k]);
    }
}

pub proof fn lemma_wf_collapse(s: Seq<TokenModel>, i: int, n: Seq<char>)
    requires
        well_formed(s),
        0 <= i <= s.len(),
    ensures
        well_formed(collapse_from(s, i, n)),
    decreases s, s.len() - i,
{
    if i < s.len() {
        lemma_wf_collapse(s, i + 1, n);
        let rest = collapse_from(s, i + 1, n);
        assert(well_formed_token(s[i]));
        if !is_sigil_at_named(s, i, n) {
            match s[i] {
                TokenModel::Group { delim, body, open, close } => {
                    lemma_wf_collapse(body, 0, n);
                    let g = TokenModel::Group { delim, body: collapse_from(body, 0, n), open, close };
                    assert(well_formed_token(g));
                    lemma_wf_add(seq![g], rest);
                },
                _ => {
                    lemma_wf_add(seq![s[i]], rest);
                },
            }
        }
    }
}

/// Scanning keeps tokens well formed, and the name it finds is a well-formed
/// identifier's.
pub proof fn lemma_wf_scan(s: Seq<TokenModel>, i: int, top: bool, dirs: Seq<Seq<char>>)
    requires
        well_formed(s),
        0 <= i <= s.len(),
    ensures
        well_formed(scan_from(s, i, top, dirs).0),
        scan_from(s, i, top, dirs).1 matches Some(id) ==> id.0.len() > 0 && id.0[0] != ' ',
    decreases s, s.len() - i,
{
    if i < s.len() {
        assert(well_formed_token(s[i]));
        if top && i == 0 && is_marker(s[0]) {
            lemma_wf_scan(s, 1, top, dirs);
            lemma_wf_add(seq![s[0]], scan_from(s, 1, top, dirs).0);
        } else if is_ref_at(s, i, dirs) {
            assert(well_formed_token(s[i + 1]));
            lemma_wf_collapse(s, i + 2, s[i + 1]->Ident_name);
            lemma_wf_add(seq![s[i + 1]], collapse_from(s, i + 2, s[i + 1]->Ident_name));
        } else {
            match s[i] {
                TokenModel::Group { delim, body, open, close } => {
                    lemma_wf_scan(body, 0, false, dirs);
                    let inner = scan_from(body, 0, false, dirs);
                    if inner.1 is Some {
                        let g = TokenModel::Group { delim, body: inner.0, open, close };
                        assert(well_formed_token(g));
                        let found = inner.1->0;
                        lemma_wf_collapse(s, i + 1, found.0);
                        lemma_wf_add(seq![g], collapse_from(s, i + 1, found.0));
                    } else {
                        lemma_wf_scan(s, i + 1, top, dirs);
                        lemma_wf_add(seq![s[i]], scan_from(s, i + 1, top, dirs).0);
                    }
                },
                _ => {
                    lemma_wf_scan(s, i + 1, top, dirs);
                    lemma_wf_add(seq![s[i]], scan_from(s, i + 1, top, dirs).0);
                },
            }
        }
    }
}

pub proof fn lemma_wf_idents(s: Seq<TokenModel>)
    requires
        well_formed(s),
    ensures
        well_formed(idents(s)),
    decreases s.len(),
{
    if s.len() > 0 {
        assert(well_formed_token(s[s.len() - 1]));
        lemma_wf_idents(s.drop_last());
        lemma_wf_add(idents(s.drop_last()), seq![s.last()]);
        assert(idents(s.drop_last()) + seq![s.last()] =~= idents(s.drop_last()).push(s.last()));
    }
}

pub proof fn lemma_wf_lookup(reg: Seq<(Seq<char>, Seq<TokenModel>)>, n: Seq<char>)
    requires
        registry_well_formed(reg),
    ensures
        lookup_spec(reg, n) matches Some(b) ==> well_formed(b),
    decreases reg.len(),
{
    if reg.len() > 0 {
        assert(well_formed(reg[0].1));
        assert forall|k: int| 0 <= k < reg.drop_first().len() implies well_formed(
            #[trigger] reg.drop_first()[k].1,
        ) by {
            assert(reg.drop_first()[k] == reg[k + 1]);
        }
        lemma_wf_lookup(reg.drop_first(), n);
    }
}

/// Resolution keeps tokens well formed.
pub proof fn lemma_wf_resolve(
    reg: Seq<(Seq<char>, Seq<TokenModel>)>,
    s: Seq<TokenModel>,
    dirs: Seq<Seq<char>>,
    site: Loc,
)
    requires
        well_formed(s),
        registry_well_formed(reg),
    ensures
        resolve(reg, s, dirs, site) matches Ok(t) ==> well_formed(t),
    decreases unused(reg, pasted_names(s)), sigil_count(after_marker(s)),
{
    lemma_wf_scan(s, 0, true, dirs);
    let t = scan(s, dirs).0;
    if scan(s, dirs).1 is Some {
        let id = scan(s, dirs).1->0;
        if expand_spec(reg, t, id, site) is Ok {
            lemma_step_decreases(reg, s, dirs, site);
            let u = expand_spec(reg, t, id, site)->Ok_0;
            let p = pending(t);
            if t.len() > 0 && is_marker(t[0]) {
                assert(well_formed_token(t[0]));
                lemma_wf_idents(t[0]->Group_body);
            }
            assert(well_formed(p));
            lemma_wf_skip(t, if t.len() > 0 && is_marker(t[0]) { 1 } else { 0 });
            assert(well_formed(after_marker(t)));
            lemma_wf_lookup(reg, id.0);
            if pasted_names(t).contains(id.0) {
                assert(well_formed_token(marker_of(p, site)));
                lemma_wf_add(seq![marker_of(p, site)], after_marker(t));
            } else {
                let q = p.push(TokenModel::Ident { name: id.0, loc: id.1 });
                lemma_wf_add(p, seq![TokenModel::Ident { name: id.0, loc: id.1 }]);
                assert(p + seq![TokenModel::Ident { name: id.0, loc: id.1 }] =~= q);
                assert(well_formed_token(marker_of(q, site)));
                let b = lookup_spec(reg, id.0)->0;
                lemma_wf_add(seq![marker_of(q, site)], b);
                lemma_wf_add(seq![marker_of(q, site)] + b, after_marker(t));
            }
            lemma_wf_resolve(reg, u, dirs, site);
        }
    }
}

/// Whether the configuration names preprocessor directives, and so lets
/// text that keeps the sigil through unchecked.
pub open spec fn preprocessing(cfg: Config) -> bool {
    cfg.directives@.len() > 0
}

/// `d` reports `fault` at the location that the offset map gives for it, or
/// at `site` where the fault has no offset.
pub open spec fn reports_fault(d: Diagnostic, fault: GrammarFault, map: Seq<(usize, Loc)>, site: Loc) -> bool {
    d matches Diagnostic::GrammarError { message, loc } && message@ == fault.message@ && loc == match fault.offset {
        Some(o) => nearest(map, o as int, site),
        None => site,
    }
}

/// The diagnostic for a validator fault in text with offset map `map`.
pub fn grammar_diagnostic(map: &Vec<(usize, Loc)>, fault: GrammarFault, site: Loc) -> (d: Diagnostic)
    requires
        increasing(map@),
    ensures
        reports_fault(d, fault, map@, site),
{
    let loc = match fault.offset {
        Some(o) => translate(map, o, site),
        None => site,
    };
    Diagnostic::GrammarError { message: fault.message, loc }
}

/// The outcome of validating rendered text: the text where the validator
/// found nothing, else the diagnostic for its fault.
pub fn conclude(text: String, map: &Vec<(usize, Loc)>, outcome: Option<GrammarFault>, site: Loc) -> (r:
    Result<String, Diagnostic>)
    requires
        increasing(map@),
    ensures
        match outcome {
            None => r == Ok::<String, Diagnostic>(text),
            Some(fault) => r matches Err(d) && reports_fault(d, fault, map@, site),
        },
{
    match outcome {
        None => Ok(text),
        Some(fault) => Err(grammar_diagnostic(map, fault, site)),
    }
}

/// `d` is the grammar error for the verdict `v` on a rendering with offset
/// map `map`: the verdict's message, at the location that the map gives for
/// its offset, or at `site` where it has none.
pub open spec fn reports_verdict(d: Diagnostic, v: (Seq<char>, Option<usize>), map: Seq<(usize, Loc)>, site: Loc) -> bool {
    d matches Diagnostic::GrammarError { message, loc } && message@ == v.0 && loc == match v.1 {
        Some(o) => nearest(map, o as int, site),
        None => site,
    }
}

/// What validating a rendering gives: its text where nothing is checked or
/// the validator accepts it; otherwise the grammar error for the
/// validator's verdict.
pub open spec fn validated(r: Result<String, Diagnostic>, rd: Rendered, skip: bool, site: Loc) -> bool {
    if skip {
        r matches Ok(text) && text@ == rd.text
    } else {
        match wgsl_verdict(rd.text) {
            None => r matches Ok(text) && text@ == rd.text,
            Some(v) => r matches Err(d) && reports_verdict(d, v, rd.map, site),
        }
    }
}

/// Renders a resolved sequence and validates the text, unless the
/// configuration preprocesses and the text keeps the sigil.
fn render_and_check(t: &Vec<Token>, cfg: &Config, site: Loc) -> (r: Result<String, Diagnostic>)
    requires
        well_formed(models(t@)),
    ensures
        validated(
            r,
            render_from(models(t@), 0, true, empty_rendering()),
            preprocessing(*cfg) && has_sigil_from(models(t@), 0, true),
            site,
        ),
{
    let (text, map, sigil) = serialize(t);
    let ghost rd = render_from(models(t@), 0, true, empty_rendering());
    assert(text@ == rd.text && map@ == rd.map);
    if cfg.directives.len() > 0 && sigil {
        return Ok(text);
    }
    let outcome = check_wgsl(&text);
    let ghost o = outcome;
    let r = conclude(text, &map, outcome, site);
    proof {
        if o is Some {
            assert(reports_fault(r->Err_0, o->0, rd.map, site));
            assert(wgsl_verdict(rd.text) == Some((o->0.message@, o->0.offset)));
        }
    }
    r
}

/// Composes a fragment: resolves its references against `reg`, renders the
/// result, and validates the text. `site` is where the composition was
/// asked for, reported where nothing nearer is known.
pub fn compose(reg: &Registry, raw: &Vec<Token>, cfg: &Config, site: Loc) -> (r: Result<String, Diagnostic>)
    requires
        well_formed(models(raw@)),
        registry_well_formed(reg_model(*reg)),
    ensures
        ({
            let res = resolve(reg_model(*reg), models(raw@), directive_names(*cfg), site);
            &&& res is Err ==> (r matches Err(d) && reports_unknown(d, res->Err_0))
            &&& res matches Ok(t) ==> validated(
                r,
                render_from(t, 0, true, empty_rendering()),
                preprocessing(*cfg) && has_sigil_from(t, 0, true),
                site,
            )
        }),
{
    proof {
        lemma_wf_resolve(reg_model(*reg), models(raw@), directive_names(*cfg), site);
    }
    match resolve_fragments(reg, raw, cfg, site) {
        Ok(t) => render_and_check(&t, cfg, site),
        Err(d) => Err(d),
    }
}

/// What one invocation of the composition step gives.
#[derive(Debug)]
pub enum Expansion {
    /// The tokens reference the fragment `name`: paste it into `tokens`
    /// and run the step again.
    Paste { name: Ident, tokens: Vec<Token> },
    /// The composed WGSL text.
    Source(String),
    /// The text could not be composed.
    Failed(Diagnostic),
}

/// One composition step without a registry: where `stream` holds a
/// reference, the scanned tokens and the name to paste; otherwise the
/// rendered text, validated unless the configuration preprocesses and the
/// text keeps the sigil.
pub fn wgsl_macro(stream: &Vec<Token>, cfg: &Config, site: Loc) -> (r: Expansion)
    requires
        well_formed(models(stream@)),
    ensures
        ({
            let sc = scan(models(stream@), directive_names(*cfg));
            &&& sc.1 matches Some(id) ==> (r matches Expansion::Paste { name, tokens } && (
                name.name@,
                name.loc,
            ) == id && models(tokens@) == sc.0)
            &&& sc.1 is None ==> match r {
                Expansion::Source(text) => validated(
                    Ok(text),
                    render_from(models(stream@), 0, true, empty_rendering()),
                    preprocessing(*cfg) && has_sigil_from(models(stream@), 0, true),
                    site,
                ),
                Expansion::Failed(d) => validated(
                    Err(d),
                    render_from(models(stream@), 0, true, empty_rendering()),
                    preprocessing(*cfg) && has_sigil_from(models(stream@), 0, true),
                    site,
                ),
                Expansion::Paste { .. } => false,
            }
        }),
{
    let (tokens, found) = sanitize(stream, cfg);
    match found {
        Some(name) => Expansion::Paste { name, tokens },
        None => {
            proof {
                lemma_scan_none(models(stream@), 0, true, directive_names(*cfg));
                assert(models(stream@).subrange(0, stream@.len() as int) =~= models(stream@));
            }
            match render_and_check(stream, cfg, site) {
                Ok(text) => Expansion::Source(text),
                Err(d) => Expansion::Failed(d),
            }
        },
    }
}

} // verus!
