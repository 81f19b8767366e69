//! What holds of composition as a whole: each fragment is pasted once, a
//! cycle of references resolves, and the place of the pasted body does not
//! depend on which occurrence carries the sigil.
use vstd::prelude::*;
use crate::compose::{
    expand_spec, is_sigil_at_named, lemma_count_add, lemma_count_at, lemma_count_one, resolve, sigil_count,
    sigil_weight, unused,
};
use crate::paste::{after_marker, idents, marker_of, names_of, paste_spec, pasted_names, pending};
use crate::registry::lookup_spec;
use crate::scan::{
    collapse_from, is_ident_named, is_marker, is_ref_at, is_sigil, lemma_scan_none, scan, scan_from,
};
use crate::diagnostics::increasing;
use crate::render::{
    byte_len, close_text, emit, empty_rendering, is_brace_group, lemma_byte_len_prefix,
    lemma_prefix_trans, lemma_render_grows, lemma_render_settled, lemma_rstrip_prefix, mark, open_text, punct_text, render_from, rstrip, trimmed,
    trims_before, well_formed, word, Rendered,
};
use crate::token::{Delim, Loc, TokenModel, SIGIL};

verus! {

/// Without sigils, collapsing changes nothing.
pub proof fn lemma_collapse_plain(s: Seq<TokenModel>, i: int, n: Seq<char>)
    requires
        0 <= i <= s.len(),
        sigil_count(s.subrange(i, s.len() as int)) == 0,
    ensures
        collapse_from(s, i, n) == s.subrange(i, s.len() as int),
    decreases s, s.len() - i,
{
    if i == s.len() {
        assert(s.subrange(i, s.len() as int) =~= Seq::<TokenModel>::empty());
    } else {
        lemma_count_at(s, i);
        lemma_collapse_plain(s, i + 1, n);
        assert(!is_sigil(s[i]));
        match s[i] {
            TokenModel::Group { delim, body, open, close } => {
                assert(body.subrange(0, body.len() as int) =~= body);
                lemma_collapse_plain(body, 0, n);
            },
            _ => {},
        }
        assert(collapse_from(s, i, n) =~= s.subrange(i, s.len() as int));
    }
}

/// Without sigils, the scan finds nothing.
pub proof fn lemma_scan_plain(s: Seq<TokenModel>, i: int, top: bool, dirs: Seq<Seq<char>>)
    requires
        0 <= i <= s.len(),
        sigil_count(s.subrange(i, s.len() as int)) == 0,
    ensures
        scan_from(s, i, top, dirs).1 is None,
        scan_from(s, i, top, dirs).0 == s.subrange(i, s.len() as int),
    decreases s, s.len() - i,
{
    if i < s.len() {
        lemma_count_at(s, i);
        if top && i == 0 && is_marker(s[0]) {
            lemma_count_at(s, 0);
            lemma_scan_plain(s, 1, top, dirs);
        } else {
            assert(!is_sigil(s[i]));
            match s[i] {
                TokenModel::Group { body, .. } => {
                    assert(body.subrange(0, body.len() as int) =~= body);
                    lemma_scan_plain(body, 0, false, dirs);
                },
                _ => {},
            }
            lemma_scan_plain(s, i + 1, top, dirs);
        }
    }
    if scan_from(s, i, top, dirs).1 is None {
        lemma_scan_none(s, i, top, dirs);
    }
}

/// The scan passes over tokens without sigils, keeping them.
pub proof fn lemma_scan_skip_plain(s: Seq<TokenModel>, i: int, k: int, top: bool, dirs: Seq<Seq<char>>)
    requires
        0 <= i <= k <= s.len(),
        sigil_count(s.subrange(i, k)) == 0,
        !top || i > 0 || s.len() == 0 || !is_marker(s[0]),
    ensures
        scan_from(s, i, top, dirs) == (
            s.subrange(i, k) + scan_from(s, k, top, dirs).0,
            scan_from(s, k, top, dirs).1,
        ),
    decreases k - i,
{
    if i == k {
        assert(s.subrange(i, k) + scan_from(s, k, top, dirs).0 =~= scan_from(s, k, top, dirs).0);
    } else {
        assert(s.subrange(i, k).drop_first() =~= s.subrange(i + 1, k));
        assert(sigil_count(s.subrange(i, k)) == sigil_weight(s[i]) + sigil_count(s.subrange(i + 1, k)));
        lemma_scan_skip_plain(s, i + 1, k, top, dirs);
        assert(!is_sigil(s[i]));
        match s[i] {
            TokenModel::Group { body, .. } => {
                assert(body.subrange(0, body.len() as int) =~= body);
                lemma_scan_plain(body, 0, false, dirs);
            },
            _ => {},
        }
        assert(s.subrange(i, k) =~= seq![s[i]] + s.subrange(i + 1, k));
        assert(s.subrange(i, k) + scan_from(s, k, top, dirs).0 =~= seq![s[i]] + (s.subrange(i + 1, k)
            + scan_from(s, k, top, dirs).0));
    }
}

/// One step of composition: scan, then expand what the scan found.
pub open spec fn step(
    reg: Seq<(Seq<char>, Seq<TokenModel>)>,
    s: Seq<TokenModel>,
    dirs: Seq<Seq<char>>,
    site: Loc,
) -> Result<Seq<TokenModel>, (Seq<char>, Loc)> {
    match scan(s, dirs).1 {
        Some(id) => expand_spec(reg, scan(s, dirs).0, id, site),
        None => Ok(scan(s, dirs).0),
    }
}

/// Without sigils in between, collapsing passes over tokens unchanged.
pub proof fn lemma_collapse_skip_plain(s: Seq<TokenModel>, i: int, k: int, n: Seq<char>)
    requires
        0 <= i <= k <= s.len(),
        sigil_count(s.subrange(i, k)) == 0,
    ensures
        collapse_from(s, i, n) == s.subrange(i, k) + collapse_from(s, k, n),
    decreases k - i,
{
    if i == k {
        assert(s.subrange(i, k) + collapse_from(s, k, n) =~= collapse_from(s, k, n));
    } else {
        assert(s.subrange(i, k).drop_first() =~= s.subrange(i + 1, k));
        assert(sigil_count(s.subrange(i, k)) == sigil_weight(s[i]) + sigil_count(s.subrange(i + 1, k)));
        lemma_collapse_skip_plain(s, i + 1, k, n);
        assert(!is_sigil(s[i]));
        if let TokenModel::Group { body, .. } = s[i] {
            assert(body.subrange(0, body.len() as int) =~= body);
            lemma_collapse_plain(body, 0, n);
        }
        assert(s.subrange(i, k) + collapse_from(s, k, n) =~= seq![s[i]] + (s.subrange(i + 1, k)
            + collapse_from(s, k, n)));
    }
}

/// Collapsing the tail of `a + v` is collapsing `v`.
pub proof fn lemma_collapse_shift(a: Seq<TokenModel>, v: Seq<TokenModel>, j: int, n: Seq<char>)
    requires
        0 <= j <= v.len(),
    ensures
        collapse_from(a + v, a.len() + j, n) == collapse_from(v, j, n),
    decreases v.len() - j,
{
    if j < v.len() {
        assert((a + v)[a.len() + j] == v[j]);
        if j + 1 < v.len() {
            assert((a + v)[a.len() + j + 1] == v[j + 1]);
        }
        lemma_collapse_shift(a, v, j + 1, n);
    }
}

/// Order of occurrences: whether the reference to a fragment comes before
/// a bare use of its name or after it, the step that pastes the fragment
/// puts its body at the same place, right after the marker, and leaves
/// every other token in its order. Before the reference or the bare use
/// stand tokens `u` and `w` with no sigil; after them stand any tokens `v`,
/// in which only the sigils of later references to the fragment go.
pub proof fn law_paste_place_ignores_order(
    reg: Seq<(Seq<char>, Seq<TokenModel>)>,
    dirs: Seq<Seq<char>>,
    site: Loc,
    sig: TokenModel,
    f: Seq<char>,
    at: Loc,
    bare_at: Loc,
    u: Seq<TokenModel>,
    w: Seq<TokenModel>,
    v: Seq<TokenModel>,
)
    requires
        is_sigil(sig),
        !dirs.contains(f),
        lookup_spec(reg, f) is Some,
        sigil_count(u) == 0,
        sigil_count(w) == 0,
        u.len() == 0 || !is_marker(u[0]),
    ensures
        ({
            let r = TokenModel::Ident { name: f, loc: at };
            let b = TokenModel::Ident { name: f, loc: bare_at };
            let head = seq![marker_of(seq![r], site)] + lookup_spec(reg, f)->0;
            let c = collapse_from(v, 0, f);
            &&& step(reg, u + seq![sig, r] + w + seq![b] + v, dirs, site) == Ok::<
                Seq<TokenModel>,
                (Seq<char>, Loc),
            >(head + (u + seq![r] + w + seq![b] + c))
            &&& step(reg, u + seq![b] + w + seq![sig, r] + v, dirs, site) == Ok::<
                Seq<TokenModel>,
                (Seq<char>, Loc),
            >(head + (u + seq![b] + w + seq![r] + c))
        }),
{
    let r = TokenModel::Ident { name: f, loc: at };
    let b = TokenModel::Ident { name: f, loc: bare_at };
    let body = lookup_spec(reg, f)->0;
    let c = collapse_from(v, 0, f);
    lemma_count_one(r);
    lemma_count_one(b);
    // the reference first
    let pre1 = u + seq![sig, r] + w + seq![b];
    let s1 = pre1 + v;
    let k1 = u.len() as int;
    assert(s1.subrange(0, k1) =~= u);
    lemma_scan_skip_plain(s1, 0, k1, true, dirs);
    assert(s1[k1] == sig && s1[k1 + 1] == r);
    assert(is_ref_at(s1, k1, dirs));
    let j1 = k1 + 2 + w.len() + 1;
    assert(s1.subrange(k1 + 2, j1) =~= w + seq![b]);
    lemma_count_add(w, seq![b]);
    lemma_collapse_skip_plain(s1, k1 + 2, j1, f);
    assert(j1 == pre1.len() + 0);
    lemma_collapse_shift(pre1, v, 0, f);
    let t1 = u + seq![r] + w + seq![b] + c;
    assert(scan(s1, dirs).0 =~= t1);
    assert(scan(s1, dirs).1 == Some((f, at)));
    assert(!is_marker(t1[0]));
    assert(pending(t1) =~= Seq::<TokenModel>::empty());
    assert(!pasted_names(t1).contains(f));
    assert(Seq::<TokenModel>::empty().push(r) =~= seq![r]);
    assert(paste_spec(t1, (f, at), body, site) == seq![marker_of(seq![r], site)] + body + t1);
    // the bare use first
    let pre2 = u + seq![b] + w + seq![sig, r];
    let s2 = pre2 + v;
    let k2 = u.len() + 1 + w.len() as int;
    assert(s2.subrange(0, k2) =~= u + seq![b] + w);
    lemma_count_add(u, seq![b]);
    lemma_count_add(u + seq![b], w);
    lemma_scan_skip_plain(s2, 0, k2, true, dirs);
    assert(s2[k2] == sig && s2[k2 + 1] == r);
    assert(is_ref_at(s2, k2, dirs));
    assert(k2 + 2 == pre2.len() + 0);
    lemma_collapse_shift(pre2, v, 0, f);
    let t2 = u + seq![b] + w + seq![r] + c;
    assert(scan(s2, dirs).0 =~= t2);
    assert(scan(s2, dirs).1 == Some((f, at)));
    assert(!is_marker(t2[0]));
    assert(pending(t2) =~= Seq::<TokenModel>::empty());
    assert(!pasted_names(t2).contains(f));
    assert(paste_spec(t2, (f, at), body, site) == seq![marker_of(seq![r], site)] + body + t2);
}

/// After the marker and tokens without sigils, a reference whose name is
/// the last sigil: the scan drops that sigil alone.
pub proof fn lemma_scan_lone_reference(s: Seq<TokenModel>, k: int, dirs: Seq<Seq<char>>)
    requires
        s.len() > 0,
        is_marker(s[0]),
        1 <= k,
        is_ref_at(s, k, dirs),
        sigil_count(s.subrange(1, k)) == 0,
        sigil_count(s.subrange(k + 2, s.len() as int)) == 0,
    ensures
        scan(s, dirs) == (
            s.subrange(0, k) + s.subrange(k + 1, s.len() as int),
            Some((s[k + 1]->Ident_name, s[k + 1]->Ident_loc)),
        ),
{
    lemma_scan_skip_plain(s, 1, k, true, dirs);
    lemma_collapse_plain(s, k + 2, s[k + 1]->Ident_name);
    assert(s.subrange(0, k) =~= seq![s[0]] + s.subrange(1, k));
    assert(s.subrange(k + 1, s.len() as int) =~= seq![s[k + 1]] + s.subrange(k + 2, s.len() as int));
    assert(scan(s, dirs).0 =~= seq![s[0]] + (s.subrange(1, k) + (seq![s[k + 1]] + s.subrange(
        k + 2,
        s.len() as int,
    ))));
}

pub proof fn lemma_idents_one_two(ra: TokenModel, rb: TokenModel)
    requires
        ra is Ident,
        rb is Ident,
    ensures
        idents(seq![ra]) == seq![ra],
        idents(seq![ra, rb]) == seq![ra, rb],
{
    crate::compose::lemma_idents_of_idents(seq![ra]);
    crate::compose::lemma_idents_of_idents(seq![ra, rb]);
}

/// Cycles: where fragment `a` references `b` and `b` references `a`,
/// composing a reference to `a` ends, with one copy of each body (`b`'s
/// first, as it was pasted last), each reference reduced to its bare name,
/// and the marker naming `a` and `b` once each.
pub proof fn law_cycle_pastes_each_once(
    reg: Seq<(Seq<char>, Seq<TokenModel>)>,
    dirs: Seq<Seq<char>>,
    site: Loc,
    sig: TokenModel,
    a: Seq<char>,
    b: Seq<char>,
    at: Loc,
    at_a: Loc,
    at_b: Loc,
    x: Seq<TokenModel>,
    y: Seq<TokenModel>,
    p: Seq<TokenModel>,
    q: Seq<TokenModel>,
)
    requires
        is_sigil(sig),
        a != b,
        !dirs.contains(a),
        !dirs.contains(b),
        sigil_count(x) == 0,
        sigil_count(y) == 0,
        sigil_count(p) == 0,
        sigil_count(q) == 0,
        lookup_spec(reg, a) == Some(x + seq![sig, TokenModel::Ident { name: b, loc: at_b }] + y),
        lookup_spec(reg, b) == Some(p + seq![sig, TokenModel::Ident { name: a, loc: at_a }] + q),
    ensures
        ({
            let ra = TokenModel::Ident { name: a, loc: at };
            let rb = TokenModel::Ident { name: b, loc: at_b };
            resolve(reg, seq![sig, ra], dirs, site) == Ok::<Seq<TokenModel>, (Seq<char>, Loc)>(
                seq![marker_of(seq![ra, rb], site)] + (p + seq![
                    TokenModel::Ident { name: a, loc: at_a },
                ] + q) + (x + seq![rb] + y) + seq![ra],
            )
        }),
{
    let ra = TokenModel::Ident { name: a, loc: at };
    let rb = TokenModel::Ident { name: b, loc: at_b };
    let ia = TokenModel::Ident { name: a, loc: at_a };
    let u1 = cycle_first(reg, dirs, site, sig, a, at);
    assert(resolve(reg, seq![sig, ra], dirs, site) == resolve(reg, u1, dirs, site));
    let u2 = cycle_second(reg, dirs, site, sig, a, b, at, at_b, x, y);
    assert(resolve(reg, u1, dirs, site) == resolve(reg, u2, dirs, site));
    let u3 = cycle_third(reg, dirs, site, sig, a, b, at, at_a, at_b, x, y, p, q);
    assert(resolve(reg, u2, dirs, site) == resolve(reg, u3, dirs, site));
    assert(u3 =~= seq![marker_of(seq![ra, rb], site)] + (p + seq![ia] + q) + (x + seq![rb] + y)
        + seq![ra]);
}

proof fn cycle_first(
    reg: Seq<(Seq<char>, Seq<TokenModel>)>,
    dirs: Seq<Seq<char>>,
    site: Loc,
    sig: TokenModel,
    a: Seq<char>,
    at: Loc,
) -> (u1: Seq<TokenModel>)
    requires
        is_sigil(sig),
        !dirs.contains(a),
        lookup_spec(reg, a) is Some,
    ensures
        u1 == seq![marker_of(seq![TokenModel::Ident { name: a, loc: at }], site)] + lookup_spec(reg, a)->0
            + seq![TokenModel::Ident { name: a, loc: at }],
        step(reg, seq![sig, TokenModel::Ident { name: a, loc: at }], dirs, site) == Ok::<
            Seq<TokenModel>,
            (Seq<char>, Loc),
        >(u1),
        scan(seq![sig, TokenModel::Ident { name: a, loc: at }], dirs).1 is Some,
{
    let ra = TokenModel::Ident { name: a, loc: at };
    let s0 = seq![sig, ra];
    assert(is_ref_at(s0, 0, dirs));
    assert(collapse_from(s0, 2, a) =~= Seq::<TokenModel>::empty());
    let t0 = seq![ra];
    assert(scan(s0, dirs).0 =~= t0);
    assert(pending(t0) =~= Seq::<TokenModel>::empty());
    assert(!pasted_names(t0).contains(a));
    assert(Seq::<TokenModel>::empty().push(ra) =~= seq![ra]);
    seq![marker_of(seq![ra], site)] + lookup_spec(reg, a)->0 + t0
}

proof fn cycle_second(
    reg: Seq<(Seq<char>, Seq<TokenModel>)>,
    dirs: Seq<Seq<char>>,
    site: Loc,
    sig: TokenModel,
    a: Seq<char>,
    b: Seq<char>,
    at: Loc,
    at_b: Loc,
    x: Seq<TokenModel>,
    y: Seq<TokenModel>,
) -> (u2: Seq<TokenModel>)
    requires
        is_sigil(sig),
        a != b,
        !dirs.contains(b),
        sigil_count(x) == 0,
        sigil_count(y) == 0,
        lookup_spec(reg, b) is Some,
    ensures
        ({
            let ra = TokenModel::Ident { name: a, loc: at };
            let rb = TokenModel::Ident { name: b, loc: at_b };
            let u1 = seq![marker_of(seq![ra], site)] + (x + seq![sig, rb] + y) + seq![ra];
            &&& u2 == seq![marker_of(seq![ra, rb], site)] + lookup_spec(reg, b)->0 + (x + seq![rb] + y
                + seq![ra])
            &&& scan(u1, dirs).1 is Some
            &&& step(reg, u1, dirs, site) == Ok::<Seq<TokenModel>, (Seq<char>, Loc)>(u2)
        }),
{
    let ra = TokenModel::Ident { name: a, loc: at };
    let rb = TokenModel::Ident { name: b, loc: at_b };
    let u1 = seq![marker_of(seq![ra], site)] + (x + seq![sig, rb] + y) + seq![ra];
    lemma_count_one(ra);
    let k1 = 1 + x.len() as int;
    assert(u1.subrange(1, k1) =~= x);
    assert(u1[k1] == sig && u1[k1 + 1] == rb);
    assert(u1.subrange(k1 + 2, u1.len() as int) =~= y + seq![ra]);
    lemma_count_add(y, seq![ra]);
    lemma_scan_lone_reference(u1, k1, dirs);
    let t1 = seq![marker_of(seq![ra], site)] + (x + seq![rb] + y + seq![ra]);
    assert(scan(u1, dirs).0 =~= t1);
    lemma_idents_one_two(ra, rb);
    assert(pending(t1) == seq![ra]);
    assert(names_of(seq![ra]) =~= seq![a]);
    assert(!pasted_names(t1).contains(b)) by {
        if pasted_names(t1).contains(b) {
            assert(pasted_names(t1)[0] == a);
        }
    }
    assert(after_marker(t1) =~= x + seq![rb] + y + seq![ra]);
    assert(seq![ra].push(rb) =~= seq![ra, rb]);
    seq![marker_of(seq![ra, rb], site)] + lookup_spec(reg, b)->0 + (x + seq![rb] + y + seq![ra])
}

proof fn cycle_third(
    reg: Seq<(Seq<char>, Seq<TokenModel>)>,
    dirs: Seq<Seq<char>>,
    site: Loc,
    sig: TokenModel,
    a: Seq<char>,
    b: Seq<char>,
    at: Loc,
    at_a: Loc,
    at_b: Loc,
    x: Seq<TokenModel>,
    y: Seq<TokenModel>,
    p: Seq<TokenModel>,
    q: Seq<TokenModel>,
) -> (u3: Seq<TokenModel>)
    requires
        is_sigil(sig),
        !dirs.contains(a),
        sigil_count(x) == 0,
        sigil_count(y) == 0,
        sigil_count(p) == 0,
        sigil_count(q) == 0,
    ensures
        ({
            let ra = TokenModel::Ident { name: a, loc: at };
            let rb = TokenModel::Ident { name: b, loc: at_b };
            let ia = TokenModel::Ident { name: a, loc: at_a };
            let m2 = marker_of(seq![ra, rb], site);
            let rest = x + seq![rb] + y + seq![ra];
            let u2 = seq![m2] + (p + seq![sig, ia] + q) + rest;
            &&& u3 == seq![m2] + (p + seq![ia] + q + rest)
            &&& scan(u2, dirs).1 is Some
            &&& step(reg, u2, dirs, site) == Ok::<Seq<TokenModel>, (Seq<char>, Loc)>(u3)
            &&& scan(u3, dirs).1 is None
            &&& scan(u3, dirs).0 == u3
        }),
{
    let ra = TokenModel::Ident { name: a, loc: at };
    let rb = TokenModel::Ident { name: b, loc: at_b };
    let ia = TokenModel::Ident { name: a, loc: at_a };
    let m2 = marker_of(seq![ra, rb], site);
    let rest = x + seq![rb] + y + seq![ra];
    let u2 = seq![m2] + (p + seq![sig, ia] + q) + rest;
    lemma_count_one(ra);
    lemma_count_one(rb);
    lemma_count_one(ia);
    lemma_count_add(x, seq![rb]);
    lemma_count_add(x + seq![rb], y);
    lemma_count_add(x + seq![rb] + y, seq![ra]);
    lemma_count_add(q, rest);
    let k2 = 1 + p.len() as int;
    assert(u2.subrange(1, k2) =~= p);
    assert(u2[k2] == sig && u2[k2 + 1] == ia);
    assert(u2.subrange(k2 + 2, u2.len() as int) =~= q + rest);
    lemma_scan_lone_reference(u2, k2, dirs);
    let t2 = seq![m2] + (p + seq![ia] + q + rest);
    assert(scan(u2, dirs).0 =~= t2);
    lemma_idents_one_two(ra, rb);
    assert(pending(t2) == seq![ra, rb]);
    assert(pasted_names(t2) =~= seq![a, b]);
    assert(pasted_names(t2)[0] == a);
    assert(after_marker(t2) =~= p + seq![ia] + q + rest);
    let u3 = seq![m2] + (p + seq![ia] + q + rest);
    lemma_count_add(p, seq![ia]);
    lemma_count_add(p + seq![ia], q);
    lemma_count_add(p + seq![ia] + q, rest);
    assert(u3.subrange(1, u3.len() as int) =~= p + seq![ia] + q + rest);
    lemma_scan_plain(u3, 1, true, dirs);
    assert(scan(u3, dirs).0 =~= u3);
    u3
}

/// The tokens of `s` from `i` on with every sigil removed, in groups too.
pub open spec fn strip_from(s: Seq<TokenModel>, i: int) -> Seq<TokenModel>
    decreases s, s.len() - i,
{
    if i < 0 || i >= s.len() {
        Seq::empty()
    } else if is_sigil(s[i]) {
        strip_from(s, i + 1)
    } else {
        match s[i] {
            TokenModel::Group { delim, body, open, close } => seq![
                TokenModel::Group { delim, body: strip_from(body, 0), open, close },
            ] + strip_from(s, i + 1),
            _ => seq![s[i]] + strip_from(s, i + 1),
        }
    }
}

/// `s` with every sigil removed.
pub open spec fn strip(s: Seq<TokenModel>) -> Seq<TokenModel> {
    strip_from(s, 0)
}

/// The body registered under `n`, or nothing.
pub open spec fn body_of(reg: Seq<(Seq<char>, Seq<TokenModel>)>, n: Seq<char>) -> Seq<TokenModel> {
    match lookup_spec(reg, n) {
        Some(b) => b,
        None => Seq::empty(),
    }
}

/// The bodies of `names`, the last name's first.
pub open spec fn bodies_of(reg: Seq<(Seq<char>, Seq<TokenModel>)>, names: Seq<Seq<char>>) -> Seq<
    TokenModel,
>
    decreases names.len(),
{
    if names.len() == 0 {
        Seq::empty()
    } else {
        body_of(reg, names.last()) + bodies_of(reg, names.drop_last())
    }
}

pub proof fn lemma_bodies_prepend(reg: Seq<(Seq<char>, Seq<TokenModel>)>, n: Seq<char>, names: Seq<Seq<char>>)
    ensures
        bodies_of(reg, seq![n] + names) == bodies_of(reg, names) + body_of(reg, n),
    decreases names.len(),
{
    if names.len() == 0 {
        assert(seq![n] + names =~= seq![n]);
        assert(seq![n].drop_last() =~= Seq::<Seq<char>>::empty());
        assert(seq![n].last() == n);
        assert(bodies_of(reg, Seq::<Seq<char>>::empty()) == Seq::<TokenModel>::empty());
        assert(bodies_of(reg, seq![n]) =~= body_of(reg, n));
        assert(bodies_of(reg, names) + body_of(reg, n) =~= body_of(reg, n));
    } else {
        assert((seq![n] + names).drop_last() =~= seq![n] + names.drop_last());
        assert((seq![n] + names).last() == names.last());
        lemma_bodies_prepend(reg, n, names.drop_last());
        assert(bodies_of(reg, seq![n] + names) =~= bodies_of(reg, names) + body_of(reg, n));
    }
}

pub proof fn lemma_strip_tail(a: Seq<TokenModel>, b: Seq<TokenModel>, j: int)
    requires
        0 <= j <= b.len(),
    ensures
        strip_from(a + b, a.len() + j) == strip_from(b, j),
    decreases b.len() - j,
{
    if j < b.len() {
        assert((a + b)[a.len() + j] == b[j]);
        lemma_strip_tail(a, b, j + 1);
    }
}

pub proof fn lemma_strip_add_from(a: Seq<TokenModel>, b: Seq<TokenModel>, i: int)
    requires
        0 <= i <= a.len(),
    ensures
        strip_from(a + b, i) == strip_from(a, i) + strip(b),
    decreases a.len() - i,
{
    if i == a.len() {
        lemma_strip_tail(a, b, 0);
        assert(strip_from(a, i) + strip(b) =~= strip(b));
    } else {
        assert((a + b)[i] == a[i]);
        lemma_strip_add_from(a, b, i + 1);
        assert(strip_from(a + b, i) =~= strip_from(a, i) + strip(b));
    }
}

pub proof fn lemma_strip_add(a: Seq<TokenModel>, b: Seq<TokenModel>)
    ensures
        strip(a + b) == strip(a) + strip(b),
{
    lemma_strip_add_from(a, b, 0);
}

pub proof fn lemma_strip_sub(s: Seq<TokenModel>, i: int)
    requires
        0 <= i <= s.len(),
    ensures
        strip_from(s, i) == strip(s.subrange(i, s.len() as int)),
    decreases s.len() - i,
{
    let sub = s.subrange(i, s.len() as int);
    if i < s.len() {
        lemma_strip_sub(s, i + 1);
        lemma_strip_sub(sub, 1);
        assert(sub.subrange(1, sub.len() as int) =~= s.subrange(i + 1, s.len() as int));
        assert(sub[0] == s[i]);
    } else {
        assert(sub.len() == 0);
    }
}

pub proof fn lemma_strip_collapse(s: Seq<TokenModel>, i: int, n: Seq<char>)
    requires
        0 <= i <= s.len(),
    ensures
        strip(collapse_from(s, i, n)) == strip_from(s, i),
    decreases s, s.len() - i,
{
    if i < s.len() {
        lemma_strip_collapse(s, i + 1, n);
        let rest = collapse_from(s, i + 1, n);
        if !is_sigil_at_named(s, i, n) {
            match s[i] {
                TokenModel::Group { delim, body, open, close } => {
                    lemma_strip_collapse(body, 0, n);
                    let g = TokenModel::Group { delim, body: collapse_from(body, 0, n), open, close };
                    lemma_strip_add(seq![g], rest);
                    lemma_strip_one(g);
                },
                _ => {
                    lemma_strip_add(seq![s[i]], rest);
                    lemma_strip_one(s[i]);
                },
            }
        }
    }
}

pub proof fn lemma_strip_one(t: TokenModel)
    ensures
        strip(seq![t]) == if is_sigil(t) {
            Seq::<TokenModel>::empty()
        } else {
            match t {
                TokenModel::Group { delim, body, open, close } => seq![
                    TokenModel::Group { delim, body: strip(body), open, close },
                ],
                _ => seq![t],
            }
        },
{
    assert(strip_from(seq![t], 1) =~= Seq::<TokenModel>::empty());
    assert(seq![t][0] == t);
    if !is_sigil(t) {
        match t {
            TokenModel::Group { delim, body, open, close } => {
                let g = TokenModel::Group { delim, body: strip(body), open, close };
                assert(seq![g] + Seq::<TokenModel>::empty() =~= seq![g]);
            },
            _ => {
                assert(seq![t] + Seq::<TokenModel>::empty() =~= seq![t]);
            },
        }
    }
}

/// Scanning only drops sigils.
pub proof fn lemma_strip_scan(s: Seq<TokenModel>, i: int, top: bool, dirs: Seq<Seq<char>>)
    requires
        0 <= i <= s.len(),
    ensures
        strip(scan_from(s, i, top, dirs).0) == strip_from(s, i),
    decreases s, s.len() - i,
{
    if i < s.len() {
        if top && i == 0 && is_marker(s[0]) {
            lemma_strip_scan(s, 1, top, dirs);
            lemma_strip_add(seq![s[0]], scan_from(s, 1, top, dirs).0);
            lemma_strip_one(s[0]);
        } else if is_ref_at(s, i, dirs) {
            lemma_strip_collapse(s, i + 2, s[i + 1]->Ident_name);
            lemma_strip_add(seq![s[i + 1]], collapse_from(s, i + 2, s[i + 1]->Ident_name));
            lemma_strip_one(s[i + 1]);
            assert(strip_from(s, i + 1) == seq![s[i + 1]] + strip_from(s, i + 2));
        } else {
            match s[i] {
                TokenModel::Group { delim, body, open, close } => {
                    lemma_strip_scan(body, 0, false, dirs);
                    let inner = scan_from(body, 0, false, dirs);
                    if inner.1 is Some {
                        let found = inner.1->0;
                        let g = TokenModel::Group { delim, body: inner.0, open, close };
                        lemma_strip_collapse(s, i + 1, found.0);
                        lemma_strip_add(seq![g], collapse_from(s, i + 1, found.0));
                        lemma_strip_one(g);
                    } else {
                        lemma_scan_none(body, 0, false, dirs);
                        assert(body.subrange(0, body.len() as int) =~= body);
                        lemma_strip_scan(s, i + 1, top, dirs);
                        lemma_strip_add(seq![s[i]], scan_from(s, i + 1, top, dirs).0);
                        lemma_strip_one(s[i]);
                    }
                },
                _ => {
                    lemma_strip_scan(s, i + 1, top, dirs);
                    lemma_strip_add(seq![s[i]], scan_from(s, i + 1, top, dirs).0);
                    lemma_strip_one(s[i]);
                },
            }
        }
    }
}

/// The scan keeps the marker, and drops only sigils after it.
pub proof fn lemma_scan_after_marker(s: Seq<TokenModel>, dirs: Seq<Seq<char>>)
    ensures
        pending(scan(s, dirs).0) == pending(s),
        strip(after_marker(scan(s, dirs).0)) == strip(after_marker(s)),
{
    let t = scan(s, dirs).0;
    lemma_strip_scan(s, 0, true, dirs);
    if s.len() == 0 {
        assert(t =~= Seq::<TokenModel>::empty());
    } else {
        crate::compose::lemma_scan_head(s, dirs);
        if is_marker(s[0]) {
            assert(t =~= seq![t[0]] + t.drop_first());
            assert(s =~= seq![s[0]] + s.drop_first());
            lemma_strip_add(seq![t[0]], t.drop_first());
            lemma_strip_add(seq![s[0]], s.drop_first());
            let x = strip(seq![s[0]]);
            assert(strip(t.drop_first()) =~= (x + strip(t.drop_first())).subrange(
                x.len() as int,
                (x + strip(t.drop_first())).len() as int,
            ));
            assert(strip(s.drop_first()) =~= (x + strip(s.drop_first())).subrange(
                x.len() as int,
                (x + strip(s.drop_first())).len() as int,
            ));
        }
    }
}

/// What resolution gives, step by step: the names in the marker only grow,
/// without repeats, by registered names; sigils aside, what follows the
/// marker is the bodies of the added names, the latest first, and then what
/// followed it before; and no reference is left.
pub proof fn lemma_resolve_shape(
    reg: Seq<(Seq<char>, Seq<TokenModel>)>,
    s: Seq<TokenModel>,
    dirs: Seq<Seq<char>>,
    site: Loc,
)
    requires
        resolve(reg, s, dirs, site) is Ok,
    ensures
        ({
            let t = resolve(reg, s, dirs, site)->Ok_0;
            let p = pasted_names(s);
            let q = pasted_names(t);
            let added = q.subrange(p.len() as int, q.len() as int);
            &&& p.is_prefix_of(q)
            &&& p.no_duplicates() ==> q.no_duplicates()
            &&& forall|j: int| 0 <= j < added.len() ==> lookup_spec(reg, #[trigger] added[j]) is Some
            &&& strip(after_marker(t)) == strip(bodies_of(reg, added)) + strip(after_marker(s))
            &&& scan(t, dirs).1 is None
        }),
    decreases unused(reg, pasted_names(s)), sigil_count(after_marker(s)),
{
    let sc = scan(s, dirs);
    let t = sc.0;
    let p = pasted_names(s);
    lemma_scan_after_marker(s, dirs);
    match sc.1 {
        None => {
            lemma_scan_none(s, 0, true, dirs);
            assert(s.subrange(0, s.len() as int) =~= s);
            assert(p.subrange(0, p.len() as int) =~= p);
            assert(p.subrange(p.len() as int, p.len() as int) =~= Seq::<Seq<char>>::empty());
            assert(strip(Seq::<TokenModel>::empty()) =~= Seq::<TokenModel>::empty());
            assert(strip(after_marker(t)) =~= strip(Seq::<TokenModel>::empty()) + strip(after_marker(s)));
        },
        Some(id) => {
            crate::compose::lemma_step_decreases(reg, s, dirs, site);
            let u = expand_spec(reg, t, id, site)->Ok_0;
            lemma_resolve_shape(reg, u, dirs, site);
            let fin = resolve(reg, u, dirs, site)->Ok_0;
            let pp = pending(t);
            if s.len() > 0 && is_marker(s[0]) {
                crate::paste::lemma_idents_are_idents(s[0]->Group_body);
            }
            crate::compose::lemma_idents_of_idents(pp);
            let q = pasted_names(fin);
            if pasted_names(t).contains(id.0) {
                assert(u == seq![marker_of(pp, site)] + after_marker(t));
                assert(after_marker(u) =~= after_marker(t));
                assert(pending(u) == pp);
            } else {
                let b = lookup_spec(reg, id.0)->0;
                let pq = pp.push(TokenModel::Ident { name: id.0, loc: id.1 });
                assert(u == seq![marker_of(pq, site)] + b + after_marker(t));
                assert(after_marker(u) =~= b + after_marker(t));
                assert(forall|k: int| 0 <= k < pq.len() ==> (#[trigger] pq[k]) is Ident);
                crate::compose::lemma_idents_of_idents(pq);
                assert(pending(u) == pq);
                let pu = pasted_names(u);
                assert(pu =~= p.push(id.0));
                lemma_strip_add(b, after_marker(t));
                let added_u = q.subrange(pu.len() as int, q.len() as int);
                let added = q.subrange(p.len() as int, q.len() as int);
                assert(pu.is_prefix_of(q));
                assert(q.subrange(0, pu.len() as int)[p.len() as int] == q[p.len() as int]);
                assert(q[p.len() as int] == id.0);
                assert(added =~= seq![id.0] + added_u);
                lemma_bodies_prepend(reg, id.0, added_u);
                lemma_strip_add(bodies_of(reg, added_u), b);
                assert(body_of(reg, id.0) == b);
                assert(forall|j: int| 0 <= j < added.len() ==> lookup_spec(reg, #[trigger] added[j]) is Some) by {
                    assert forall|j: int| 0 <= j < added.len() implies lookup_spec(reg, #[trigger] added[j]) is Some by {
                        if j > 0 {
                            assert(added[j] == added_u[j - 1]);
                        }
                    }
                }
                if p.no_duplicates() {
                    assert(pu.no_duplicates()) by {
                        assert forall|a: int, c: int| 0 <= a < c < pu.len() implies pu[a] != pu[c] by {
                            if c == p.len() {
                                assert(p.contains(pu[a]) ==> pu[a] != id.0);
                                assert(p[a] == pu[a]);
                            }
                        }
                    }
                }
                assert(p.is_prefix_of(q)) by {
                    assert(q.subrange(0, p.len() as int) =~= pu.subrange(0, p.len() as int));
                }
            }
        },
    }
}

/// `s` holds a reference to `n` at `i` or after, in groups too.
pub open spec fn refers_from(s: Seq<TokenModel>, i: int, dirs: Seq<Seq<char>>, n: Seq<char>) -> bool
    decreases s, s.len() - i,
{
    if i < 0 || i >= s.len() {
        false
    } else {
        ||| is_ref_at(s, i, dirs) && is_ident_named(s[i + 1], n)
        ||| match s[i] {
            TokenModel::Group { body, .. } => refers_from(body, 0, dirs, n),
            _ => false,
        }
        ||| refers_from(s, i + 1, dirs, n)
    }
}

pub proof fn lemma_refers_sub(s: Seq<TokenModel>, i: int, dirs: Seq<Seq<char>>, n: Seq<char>)
    requires
        0 <= i <= s.len(),
    ensures
        refers_from(s, i, dirs, n) == refers_from(s.subrange(i, s.len() as int), 0, dirs, n),
    decreases s.len() - i,
{
    let sub = s.subrange(i, s.len() as int);
    if i < s.len() {
        lemma_refers_sub(s, i + 1, dirs, n);
        lemma_refers_sub(sub, 1, dirs, n);
        assert(sub.subrange(1, sub.len() as int) =~= s.subrange(i + 1, s.len() as int));
        assert(sub[0] == s[i]);
        if i + 1 < s.len() {
            assert(sub[1] == s[i + 1]);
        }
    }
}

/// A reference in the second part of a sequence.
pub proof fn lemma_refers_cons(x: TokenModel, c: Seq<TokenModel>, dirs: Seq<Seq<char>>, n: Seq<char>)
    requires
        refers_from(c, 0, dirs, n),
    ensures
        refers_from(seq![x] + c, 0, dirs, n),
{
    lemma_refers_sub(seq![x] + c, 1, dirs, n);
    assert((seq![x] + c).subrange(1, (seq![x] + c).len() as int) =~= c);
}

pub proof fn lemma_refers_later(s: Seq<TokenModel>, i: int, dirs: Seq<Seq<char>>, n: Seq<char>)
    requires
        0 <= i <= s.len(),
        refers_from(s, i, dirs, n),
    ensures
        refers_from(s, 0, dirs, n),
    decreases i,
{
    if i > 0 {
        lemma_refers_later(s, i - 1, dirs, n);
    }
}

pub proof fn lemma_refers_append(b: Seq<TokenModel>, c: Seq<TokenModel>, i: int, dirs: Seq<Seq<char>>, n: Seq<char>)
    requires
        0 <= i <= b.len(),
    ensures
        refers_from(b, i, dirs, n) ==> refers_from(b + c, i, dirs, n),
        refers_from(c, 0, dirs, n) ==> refers_from(b + c, 0, dirs, n),
    decreases b.len() - i,
{
    if i < b.len() {
        lemma_refers_append(b, c, i + 1, dirs, n);
        assert((b + c)[i] == b[i]);
        if i + 1 < b.len() {
            assert((b + c)[i + 1] == b[i + 1]);
        }
    } else {
        lemma_refers_sub(b + c, b.len() as int, dirs, n);
        assert((b + c).subrange(b.len() as int, (b + c).len() as int) =~= c);
        if refers_from(c, 0, dirs, n) {
            lemma_refers_later(b + c, b.len() as int, dirs, n);
        }
    }
}

/// Collapsing references to `m` keeps every reference to another name.
pub proof fn lemma_refers_collapse(s: Seq<TokenModel>, i: int, m: Seq<char>, dirs: Seq<Seq<char>>, n: Seq<char>)
    requires
        0 <= i <= s.len(),
        n != m,
        refers_from(s, i, dirs, n),
    ensures
        refers_from(collapse_from(s, i, m), 0, dirs, n),
    decreases s, s.len() - i,
{
    let out = collapse_from(s, i, m);
    if is_ref_at(s, i, dirs) && is_ident_named(s[i + 1], n) {
        assert(!is_sigil_at_named(s, i, m));
        assert(collapse_from(s, i + 1, m) == seq![s[i + 1]] + collapse_from(s, i + 2, m));
        assert(out == seq![s[i]] + (seq![s[i + 1]] + collapse_from(s, i + 2, m)));
        assert(out[0] == s[i] && out[1] == s[i + 1]);
        assert(is_ref_at(out, 0, dirs));
    } else if s[i] is Group && refers_from(s[i]->Group_body, 0, dirs, n) {
        let body = s[i]->Group_body;
        lemma_refers_collapse(body, 0, m, dirs, n);
        assert(out[0] == TokenModel::Group {
            delim: s[i]->Group_delim,
            body: collapse_from(body, 0, m),
            open: s[i]->Group_open,
            close: s[i]->Group_close,
        });
    } else {
        lemma_refers_collapse(s, i + 1, m, dirs, n);
        if !is_sigil_at_named(s, i, m) {
            match s[i] {
                TokenModel::Group { delim, body, open, close } => {
                    lemma_refers_cons(
                        TokenModel::Group { delim, body: collapse_from(body, 0, m), open, close },
                        collapse_from(s, i + 1, m),
                        dirs,
                        n,
                    );
                },
                _ => {
                    lemma_refers_cons(s[i], collapse_from(s, i + 1, m), dirs, n);
                },
            }
        }
    }
}

pub open spec fn finds(found: Option<(Seq<char>, Loc)>, n: Seq<char>) -> bool {
    found matches Some(id) && id.0 == n
}

/// A reference survives the scan, unless the scan found its name.
pub proof fn lemma_refers_scan(s: Seq<TokenModel>, i: int, top: bool, dirs: Seq<Seq<char>>, n: Seq<char>)
    requires
        0 <= i <= s.len(),
        refers_from(s, i, dirs, n),
    ensures
        refers_from(scan_from(s, i, top, dirs).0, 0, dirs, n) || finds(scan_from(s, i, top, dirs).1, n),
    decreases s, s.len() - i,
{
    let out = scan_from(s, i, top, dirs);
    if top && i == 0 && is_marker(s[0]) {
        if refers_from(s[0]->Group_body, 0, dirs, n) {
            assert(out.0[0] == s[0]);
        } else {
            lemma_refers_scan(s, 1, top, dirs, n);
            if refers_from(scan_from(s, 1, top, dirs).0, 0, dirs, n) {
                lemma_refers_cons(s[0], scan_from(s, 1, top, dirs).0, dirs, n);
            }
        }
    } else if is_ref_at(s, i, dirs) {
        let m = s[i + 1]->Ident_name;
        if m != n {
            assert(!(is_ref_at(s, i, dirs) && is_ident_named(s[i + 1], n)));
            assert(refers_from(s, i + 1, dirs, n));
            assert(!is_ref_at(s, i + 1, dirs));
            assert(refers_from(s, i + 2, dirs, n));
            lemma_refers_collapse(s, i + 2, m, dirs, n);
            lemma_refers_cons(s[i + 1], collapse_from(s, i + 2, m), dirs, n);
        }
    } else {
        match s[i] {
            TokenModel::Group { delim, body, open, close } => {
                let inner = scan_from(body, 0, false, dirs);
                if inner.1 is Some {
                    let found = inner.1->0;
                    let m = found.0;
                    if m != n {
                        let g = TokenModel::Group { delim, body: inner.0, open, close };
                        if refers_from(body, 0, dirs, n) {
                            lemma_refers_scan(body, 0, false, dirs, n);
                            assert(out.0[0] == g);
                        } else {
                            lemma_refers_collapse(s, i + 1, m, dirs, n);
                            lemma_refers_cons(g, collapse_from(s, i + 1, m), dirs, n);
                        }
                    }
                } else {
                    if refers_from(body, 0, dirs, n) {
                        assert(out.0[0] == s[i]);
                    } else {
                        lemma_refers_scan(s, i + 1, top, dirs, n);
                        if refers_from(scan_from(s, i + 1, top, dirs).0, 0, dirs, n) {
                            lemma_refers_cons(s[i], scan_from(s, i + 1, top, dirs).0, dirs, n);
                        }
                    }
                }
            },
            _ => {
                lemma_refers_scan(s, i + 1, top, dirs, n);
                if refers_from(scan_from(s, i + 1, top, dirs).0, 0, dirs, n) {
                    lemma_refers_cons(s[i], scan_from(s, i + 1, top, dirs).0, dirs, n);
                }
            },
        }
    }
}

/// Where the scan finds nothing, nothing after the marker refers to a name.
pub proof fn lemma_refers_none(s: Seq<TokenModel>, i: int, top: bool, dirs: Seq<Seq<char>>, n: Seq<char>)
    requires
        0 <= i <= s.len(),
        scan_from(s, i, top, dirs).1 is None,
        !(top && i == 0 && s.len() > 0 && is_marker(s[0])),
    ensures
        !refers_from(s, i, dirs, n),
    decreases s, s.len() - i,
{
    if i < s.len() {
        assert(!is_ref_at(s, i, dirs));
        match s[i] {
            TokenModel::Group { body, .. } => {
                lemma_refers_none(body, 0, false, dirs, n);
            },
            _ => {},
        }
        lemma_refers_none(s, i + 1, top, dirs, n);
    }
}

/// Past the marker, a reference survives the scan unless the scan found it.
pub proof fn lemma_refers_scan_top(s: Seq<TokenModel>, dirs: Seq<Seq<char>>, n: Seq<char>)
    ensures
        refers_from(after_marker(s), 0, dirs, n) ==> refers_from(after_marker(scan(s, dirs).0), 0, dirs, n)
            || finds(scan(s, dirs).1, n),
        scan(s, dirs).1 is None ==> !refers_from(after_marker(s), 0, dirs, n),
{
    let t = scan(s, dirs).0;
    if s.len() > 0 && is_marker(s[0]) {
        lemma_refers_sub(s, 1, dirs, n);
        assert(s.subrange(1, s.len() as int) =~= s.drop_first());
        assert(t.drop_first() =~= scan_from(s, 1, true, dirs).0);
        crate::compose::lemma_scan_head(s, dirs);
        if refers_from(after_marker(s), 0, dirs, n) {
            lemma_refers_scan(s, 1, true, dirs, n);
        }
        if scan(s, dirs).1 is None {
            lemma_refers_none(s, 1, true, dirs, n);
        }
    } else {
        if s.len() > 0 {
            crate::compose::lemma_scan_head(s, dirs);
        } else {
            assert(t =~= Seq::<TokenModel>::empty());
        }
        if refers_from(after_marker(s), 0, dirs, n) {
            lemma_refers_scan(s, 0, true, dirs, n);
        }
        if scan(s, dirs).1 is None {
            lemma_refers_none(s, 0, true, dirs, n);
        }
    }
}

/// Resolution pastes every fragment referenced after the marker, and every
/// fragment referenced by a body that it pasted.
pub proof fn lemma_resolve_covers(
    reg: Seq<(Seq<char>, Seq<TokenModel>)>,
    s: Seq<TokenModel>,
    dirs: Seq<Seq<char>>,
    site: Loc,
)
    requires
        resolve(reg, s, dirs, site) is Ok,
    ensures
        ({
            let t = resolve(reg, s, dirs, site)->Ok_0;
            let q = pasted_names(t);
            let added = q.subrange(pasted_names(s).len() as int, q.len() as int);
            &&& forall|n: Seq<char>| refers_from(after_marker(s), 0, dirs, n) ==> q.contains(n)
            &&& forall|j: int, n: Seq<char>|
                0 <= j < added.len() && #[trigger] refers_from(body_of(reg, added[j]), 0, dirs, n)
                    ==> q.contains(n)
        }),
    decreases unused(reg, pasted_names(s)), sigil_count(after_marker(s)),
{
    let sc = scan(s, dirs);
    let t = sc.0;
    let p = pasted_names(s);
    lemma_resolve_shape(reg, s, dirs, site);
    let fin = resolve(reg, s, dirs, site)->Ok_0;
    let q = pasted_names(fin);
    match sc.1 {
        None => {
            assert forall|n: Seq<char>| refers_from(after_marker(s), 0, dirs, n) implies q.contains(n) by {
                lemma_refers_scan_top(s, dirs, n);
            }
            lemma_scan_none(s, 0, true, dirs);
            assert(s.subrange(0, s.len() as int) =~= s);
        },
        Some(id) => {
            let m = id.0;
            crate::compose::lemma_step_decreases(reg, s, dirs, site);
            let u = expand_spec(reg, t, id, site)->Ok_0;
            lemma_resolve_covers(reg, u, dirs, site);
            lemma_resolve_shape(reg, u, dirs, site);
            lemma_scan_after_marker(s, dirs);
            let pp = pending(t);
            if s.len() > 0 && is_marker(s[0]) {
                crate::paste::lemma_idents_are_idents(s[0]->Group_body);
            }
            crate::compose::lemma_idents_of_idents(pp);
            let pu = pasted_names(u);
            if pasted_names(t).contains(m) {
                assert(u == seq![marker_of(pp, site)] + after_marker(t));
                assert(after_marker(u) =~= after_marker(t));
                assert(pending(u) == pp);
                assert(pu == p);
                assert forall|n: Seq<char>| refers_from(after_marker(s), 0, dirs, n) implies q.contains(n) by {
                    lemma_refers_scan_top(s, dirs, n);
                    if n == m {
                        let k = choose|k: int| 0 <= k < p.len() && p[k] == m;
                        assert(q.subrange(0, p.len() as int)[k] == q[k]);
                    }
                }
            } else {
                let b = lookup_spec(reg, m)->0;
                let pq = pp.push(TokenModel::Ident { name: m, loc: id.1 });
                assert(u == seq![marker_of(pq, site)] + b + after_marker(t));
                assert(after_marker(u) =~= b + after_marker(t));
                assert(forall|k: int| 0 <= k < pq.len() ==> (#[trigger] pq[k]) is Ident);
                crate::compose::lemma_idents_of_idents(pq);
                assert(pending(u) == pq);
                assert(pu =~= p.push(m));
                assert(q.subrange(0, pu.len() as int)[p.len() as int] == q[p.len() as int]);
                assert(q[p.len() as int] == m);
                assert(q.contains(m));
                assert forall|n: Seq<char>| refers_from(after_marker(s), 0, dirs, n) implies q.contains(n) by {
                    lemma_refers_scan_top(s, dirs, n);
                    lemma_refers_append(b, after_marker(t), 0, dirs, n);
                }
                let added_u = q.subrange(pu.len() as int, q.len() as int);
                let added = q.subrange(p.len() as int, q.len() as int);
                assert(added =~= seq![m] + added_u);
                assert(body_of(reg, m) == b);
                assert forall|j: int, n: Seq<char>|
                    0 <= j < added.len() && #[trigger] refers_from(body_of(reg, added[j]), 0, dirs, n)
                        implies q.contains(n) by {
                    if j == 0 {
                        lemma_refers_append(b, after_marker(t), 0, dirs, n);
                    } else {
                        assert(added[j] == added_u[j - 1]);
                    }
                }
            }
        },
    }
}

/// Each fragment once: composing an input that carries no marker pastes
/// every fragment that the input references, or that a pasted body
/// references; pastes none of them twice, and only registered ones; and
/// leaves no reference.
/// Sigils aside, what follows the marker is the bodies of the pasted
/// fragments, the latest first, each exactly once, followed by the input.
pub proof fn law_each_fragment_pasted_once(
    reg: Seq<(Seq<char>, Seq<TokenModel>)>,
    s: Seq<TokenModel>,
    dirs: Seq<Seq<char>>,
    site: Loc,
)
    requires
        resolve(reg, s, dirs, site) is Ok,
        s.len() == 0 || !is_marker(s[0]),
    ensures
        ({
            let t = resolve(reg, s, dirs, site)->Ok_0;
            let names = pasted_names(t);
            &&& names.no_duplicates()
            &&& forall|j: int| 0 <= j < names.len() ==> lookup_spec(reg, #[trigger] names[j]) is Some
            &&& strip(after_marker(t)) == strip(bodies_of(reg, names)) + strip(s)
            &&& scan(t, dirs).1 is None
            &&& forall|n: Seq<char>| refers_from(s, 0, dirs, n) ==> names.contains(n)
            &&& forall|j: int, n: Seq<char>|
                0 <= j < names.len() && #[trigger] refers_from(body_of(reg, names[j]), 0, dirs, n)
                    ==> names.contains(n)
        }),
{
    lemma_resolve_shape(reg, s, dirs, site);
    lemma_resolve_covers(reg, s, dirs, site);
    let t = resolve(reg, s, dirs, site)->Ok_0;
    let names = pasted_names(t);
    assert(pasted_names(s) =~= Seq::<Seq<char>>::empty());
    assert(names.subrange(0, names.len() as int) =~= names);
    assert(after_marker(s) == s);
    let e = Seq::<Seq<char>>::empty();
    assert(e.no_duplicates());
    assert forall|j: int| 0 <= j < names.len() implies lookup_spec(reg, #[trigger] names[j]) is Some by {
        assert(names.subrange(0, names.len() as int)[j] == names[j]);
    }
}

/// The source locations of the tokens of `s` from `i` on, in the order
/// in which they are written out: a group's opening delimiter, its tokens,
/// its closing delimiter; invisible delimiters and the leading marker are
/// not written.
pub open spec fn locs_from(s: Seq<TokenModel>, i: int, top: bool) -> Seq<Loc>
    decreases s, s.len() - i,
{
    if i < 0 || i >= s.len() {
        Seq::empty()
    } else if top && i == 0 && is_marker(s[0]) {
        locs_from(s, 1, top)
    } else {
        match s[i] {
            TokenModel::Ident { loc, .. } => seq![loc] + locs_from(s, i + 1, top),
            TokenModel::Literal { loc, .. } => seq![loc] + locs_from(s, i + 1, top),
            TokenModel::Punct { loc, .. } => seq![loc] + locs_from(s, i + 1, top),
            TokenModel::Group { delim, body, open, close } => if delim == Delim::Invisible {
                locs_from(body, 0, false) + locs_from(s, i + 1, top)
            } else {
                seq![open] + locs_from(body, 0, false) + seq![close] + locs_from(s, i + 1, top)
            },
        }
    }
}

pub open spec fn locs_of(map: Seq<(usize, Loc)>) -> Seq<Loc> {
    map.map_values(|e: (usize, Loc)| e.1)
}

pub proof fn lemma_locs_mark(r: Rendered, loc: Loc)
    ensures
        locs_of(mark(r, loc).map) == locs_of(r.map).push(loc),
{
    assert(locs_of(mark(r, loc).map) =~= locs_of(r.map).push(loc));
}

/// Rendering records each written token once, in the order of the tokens.
pub proof fn lemma_render_locs(s: Seq<TokenModel>, i: int, top: bool, r: Rendered)
    requires
        0 <= i <= s.len(),
    ensures
        locs_of(render_from(s, i, top, r).map) == locs_of(r.map) + locs_from(s, i, top),
    decreases s, s.len() - i,
{
    let base = locs_of(r.map);
    if i == s.len() {
        assert(base + locs_from(s, i, top) =~= base);
    } else if top && i == 0 && is_marker(s[0]) {
        lemma_render_locs(s, 1, top, r);
    } else {
        match s[i] {
            TokenModel::Ident { name, loc } => {
                let r1 = emit(mark(r, loc), word(name));
                lemma_locs_mark(r, loc);
                lemma_render_locs(s, i + 1, top, r1);
                assert(base.push(loc) + locs_from(s, i + 1, top) =~= base + (seq![loc] + locs_from(s, i + 1, top)));
            },
            TokenModel::Literal { text, loc } => {
                let r1 = emit(mark(r, loc), word(text));
                lemma_locs_mark(r, loc);
                lemma_render_locs(s, i + 1, top, r1);
                assert(base.push(loc) + locs_from(s, i + 1, top) =~= base + (seq![loc] + locs_from(s, i + 1, top)));
            },
            TokenModel::Punct { ch, joint, loc } => {
                let r1 = if trims_before(ch) {
                    trimmed(r)
                } else {
                    r
                };
                if ch == SIGIL && i + 1 < s.len() && is_brace_group(s[i + 1]) {
                    let body = s[i + 1]->Group_body;
                    let open = s[i + 1]->Group_open;
                    let close = s[i + 1]->Group_close;
                    let b = emit(mark(r1, loc), seq![SIGIL]);
                    let r2 = emit(mark(b, open), seq!['{']);
                    lemma_locs_mark(r1, loc);
                    lemma_locs_mark(b, open);
                    lemma_render_locs(body, 0, false, r2);
                    let r3 = render_from(body, 0, false, r2);
                    let d = trimmed(r3);
                    let r4 = emit(mark(d, close), seq!['}', ' ']);
                    lemma_locs_mark(d, close);
                    lemma_render_locs(s, i + 2, top, r4);
                    assert(locs_from(s, i + 1, top) == seq![open] + locs_from(body, 0, false) + seq![close]
                        + locs_from(s, i + 2, top));
                    assert(base.push(loc).push(open) + locs_from(body, 0, false) + seq![close] + locs_from(
                        s,
                        i + 2,
                        top,
                    ) =~= base + (seq![loc] + locs_from(s, i + 1, top)));
                    assert((base.push(loc).push(open) + locs_from(body, 0, false)).push(close) =~= base.push(
                        loc,
                    ).push(open) + locs_from(body, 0, false) + seq![close]);
                } else if ch == SIGIL {
                    let a = emit(r1, seq!['\n']);
                    let r2 = emit(mark(a, loc), seq![SIGIL]);
                    lemma_locs_mark(a, loc);
                    lemma_render_locs(s, i + 1, top, r2);
                    assert(base.push(loc) + locs_from(s, i + 1, top) =~= base + (seq![loc] + locs_from(s, i + 1, top)));
                } else {
                    let r2 = emit(mark(r1, loc), punct_text(ch, joint));
                    lemma_locs_mark(r1, loc);
                    lemma_render_locs(s, i + 1, top, r2);
                    assert(base.push(loc) + locs_from(s, i + 1, top) =~= base + (seq![loc] + locs_from(s, i + 1, top)));
                }
            },
            TokenModel::Group { delim, body, open, close } => {
                let r1 = if delim == Delim::Bracket || delim == Delim::Paren {
                    trimmed(r)
                } else {
                    r
                };
                let r2 = if delim == Delim::Invisible {
                    emit(r1, seq![' '])
                } else {
                    emit(mark(r1, open), open_text(delim))
                };
                lemma_locs_mark(r1, open);
                lemma_render_locs(body, 0, false, r2);
                let r3 = trimmed(render_from(body, 0, false, r2));
                let r4 = if delim == Delim::Invisible {
                    emit(r3, seq![' ', ' '])
                } else {
                    emit(mark(r3, close), close_text(delim))
                };
                lemma_locs_mark(r3, close);
                lemma_render_locs(s, i + 1, top, r4);
                let inner = locs_from(body, 0, false);
                let rest = locs_from(s, i + 1, top);
                if delim == Delim::Invisible {
                    assert(base + inner + rest =~= base + (inner + rest));
                } else {
                    assert((base.push(open) + inner).push(close) + rest =~= base + (seq![open] + inner
                        + seq![close] + rest));
                }
            },
        }
    }
}

/// Offsets and order of the map: rendering well-formed tokens from nothing
/// records the source location of every written token and delimiter
/// once, in the order of the tokens, at strictly increasing offsets, each
/// before the end of the text (where the text's length fits in `usize`).
pub proof fn law_offset_map_follows_tokens(s: Seq<TokenModel>)
    requires
        well_formed(s),
        byte_len(render_from(s, 0, true, empty_rendering()).text) <= usize::MAX,
    ensures
        ({
            let r = render_from(s, 0, true, empty_rendering());
            &&& increasing(r.map)
            &&& forall|j: int| 0 <= j < r.map.len() ==> (#[trigger] r.map[j]).0 < byte_len(r.text)
            &&& locs_of(r.map) == locs_from(s, 0, true)
        }),
{
    let r = render_from(s, 0, true, empty_rendering());
    lemma_rstrip_prefix(r.text);
    lemma_byte_len_prefix(rstrip(r.text), r.text);
    lemma_render_settled(s, 0, true, empty_rendering());
    lemma_render_locs(s, 0, true, empty_rendering());
    assert(locs_of(empty_rendering().map) =~= Seq::<Loc>::empty());
    assert(Seq::<Loc>::empty() + locs_from(s, 0, true) =~= locs_from(s, 0, true));
    assert forall|j: int| 0 <= j < r.map.len() implies (#[trigger] r.map[j]).0 < byte_len(r.text) by {
        if j < r.map.len() - 1 {
            assert(r.map[j].0 < r.map[r.map.len() - 1].0);
        }
    }
}

/// No two sigils stand side by side in `s` from `i` on, in groups too.
pub open spec fn no_double_sigil_from(s: Seq<TokenModel>, i: int) -> bool
    decreases s, s.len() - i,
{
    if i < 0 || i >= s.len() {
        true
    } else {
        &&& !(i + 1 < s.len() && is_sigil(s[i]) && is_sigil(s[i + 1]))
        &&& match s[i] {
            TokenModel::Group { body, .. } => no_double_sigil_from(body, 0),
            _ => true,
        }
        &&& no_double_sigil_from(s, i + 1)
    }
}

/// Once the sigils of `#f` are dropped, no reference to `f` is left, where
/// no two sigils stand side by side.
pub proof fn law_collapse_leaves_no_reference(
    s: Seq<TokenModel>,
    i: int,
    f: Seq<char>,
    dirs: Seq<Seq<char>>,
)
    requires
        0 <= i <= s.len(),
        no_double_sigil_from(s, i),
    ensures
        !refers_from(collapse_from(s, i, f), 0, dirs, f),
    decreases s, s.len() - i,
{
    if i < s.len() {
        law_collapse_leaves_no_reference(s, i + 1, f, dirs);
        let rest = collapse_from(s, i + 1, f);
        if !is_sigil_at_named(s, i, f) {
            let x = match s[i] {
                TokenModel::Group { delim, body, open, close } => TokenModel::Group {
                    delim,
                    body: collapse_from(body, 0, f),
                    open,
                    close,
                },
                _ => s[i],
            };
            let out = seq![x] + rest;
            assert(collapse_from(s, i, f) == out);
            lemma_refers_sub(out, 1, dirs, f);
            assert(out.subrange(1, out.len() as int) =~= rest);
            if let TokenModel::Group { body, .. } = s[i] {
                law_collapse_leaves_no_reference(body, 0, f, dirs);
            }
            if is_sigil(x) && i + 1 < s.len() {
                assert(!is_sigil(s[i + 1]));
                assert(rest[0] == match s[i + 1] {
                    TokenModel::Group { delim, body, open, close } => TokenModel::Group {
                        delim,
                        body: collapse_from(body, 0, f),
                        open,
                        close,
                    },
                    _ => s[i + 1],
                });
                assert(out[1] == rest[0]);
            }
        }
    }
}

/// The head of a scan's output: the identifier of a reference found there,
/// or the token itself (a group rebuilt with its scanned tokens).
pub proof fn lemma_scan_head_at(s: Seq<TokenModel>, j: int, top: bool, dirs: Seq<Seq<char>>, f: Seq<char>)
    requires
        0 <= j < s.len(),
        !(top && j == 0 && is_marker(s[0])),
    ensures
        scan_from(s, j, top, dirs).0.len() > 0,
        is_ident_named(scan_from(s, j, top, dirs).0[0], f) ==> is_ref_at(s, j, dirs) || is_ident_named(
            s[j],
            f,
        ),
        !is_sigil(s[j]) ==> !is_sigil(scan_from(s, j, top, dirs).0[0]),
{
    if !is_ref_at(s, j, dirs) {
        if let TokenModel::Group { body, .. } = s[j] {
            let inner = scan_from(body, 0, false, dirs);
            if inner.1 is None {
                assert(scan_from(s, j, top, dirs).0[0] == s[j]);
            }
        }
    }
}

/// The scan leaves a reference to the name it found nowhere after the
/// marker, where no two sigils stand side by side.
pub proof fn lemma_scan_leaves_no_reference(s: Seq<TokenModel>, i: int, top: bool, dirs: Seq<Seq<char>>, f: Seq<char>)
    requires
        0 <= i <= s.len(),
        no_double_sigil_from(s, i),
        !(top && i == 0 && s.len() > 0 && is_marker(s[0])),
        finds(scan_from(s, i, top, dirs).1, f),
    ensures
        !refers_from(scan_from(s, i, top, dirs).0, 0, dirs, f),
    decreases s, s.len() - i,
{
    let out = scan_from(s, i, top, dirs).0;
    lemma_refers_sub(out, 1, dirs, f);
    if is_ref_at(s, i, dirs) {
        assert(out.subrange(1, out.len() as int) =~= collapse_from(s, i + 2, s[i + 1]->Ident_name));
        assert(no_double_sigil_from(s, i + 1));
        assert(i + 2 <= s.len() && no_double_sigil_from(s, i + 2));
        law_collapse_leaves_no_reference(s, i + 2, f, dirs);
    } else {
        match s[i] {
            TokenModel::Group { delim, body, open, close } => {
                let inner = scan_from(body, 0, false, dirs);
                if inner.1 is Some {
                    lemma_scan_leaves_no_reference(body, 0, false, dirs, f);
                    assert(out.subrange(1, out.len() as int) =~= collapse_from(s, i + 1, f));
                    law_collapse_leaves_no_reference(s, i + 1, f, dirs);
                } else {
                    lemma_refers_none(body, 0, false, dirs, f);
                    lemma_scan_leaves_no_reference(s, i + 1, top, dirs, f);
                    assert(out.subrange(1, out.len() as int) =~= scan_from(s, i + 1, top, dirs).0);
                }
            },
            _ => {
                lemma_scan_leaves_no_reference(s, i + 1, top, dirs, f);
                assert(out.subrange(1, out.len() as int) =~= scan_from(s, i + 1, top, dirs).0);
                if is_sigil(s[i]) && i + 1 < s.len() {
                    lemma_scan_head_at(s, i + 1, top, dirs, f);
                    if is_ref_at(s, i + 1, dirs) {
                        assert(is_sigil(s[i + 1]));
                    }
                }
            },
        }
    }
}

/// One paste site: after a scan that finds `f`, no reference to `f` is left
/// outside the marker, so the fragment is pasted once and every other use
/// of `f` is a bare name; this holds where no two sigils stand side by side.
pub proof fn law_scan_leaves_one_paste_site(s: Seq<TokenModel>, dirs: Seq<Seq<char>>, f: Seq<char>)
    requires
        no_double_sigil_from(s, 0),
        finds(scan(s, dirs).1, f),
    ensures
        !refers_from(after_marker(scan(s, dirs).0), 0, dirs, f),
{
    if s.len() > 0 && is_marker(s[0]) {
        assert(scan(s, dirs).0.drop_first() =~= scan_from(s, 1, true, dirs).0);
        lemma_scan_leaves_no_reference(s, 1, true, dirs, f);
    } else {
        if s.len() > 0 {
            crate::compose::lemma_scan_head(s, dirs);
        }
        lemma_scan_leaves_no_reference(s, 0, true, dirs, f);
    }
}

/// Cycles, whatever else the bodies hold: where the body of `a` refers to
/// `b` and the body of `b` to `a`, a composition of a reference to `a` that
/// succeeds pastes both, each once.
pub proof fn law_cycle_pastes_both_once(
    reg: Seq<(Seq<char>, Seq<TokenModel>)>,
    dirs: Seq<Seq<char>>,
    site: Loc,
    sig: TokenModel,
    a: Seq<char>,
    b: Seq<char>,
    at: Loc,
)
    requires
        is_sigil(sig),
        !dirs.contains(a),
        refers_from(body_of(reg, a), 0, dirs, b),
        refers_from(body_of(reg, b), 0, dirs, a),
        resolve(reg, seq![sig, TokenModel::Ident { name: a, loc: at }], dirs, site) is Ok,
    ensures
        ({
            let t = resolve(reg, seq![sig, TokenModel::Ident { name: a, loc: at }], dirs, site)->Ok_0;
            let names = pasted_names(t);
            &&& names.no_duplicates()
            &&& names.contains(a)
            &&& names.contains(b)
        }),
{
    let s = seq![sig, TokenModel::Ident { name: a, loc: at }];
    assert(is_ref_at(s, 0, dirs));
    assert(refers_from(s, 0, dirs, a));
    law_each_fragment_pasted_once(reg, s, dirs, site);
    let t = resolve(reg, s, dirs, site)->Ok_0;
    let names = pasted_names(t);
    assert(names.contains(a));
    let k = choose|k: int| 0 <= k < names.len() && names[k] == a;
    assert(refers_from(body_of(reg, names[k]), 0, dirs, b));
}

pub proof fn lemma_map_prefix_trans(a: Seq<(usize, Loc)>, b: Seq<(usize, Loc)>, c: Seq<(usize, Loc)>)
    requires
        a.is_prefix_of(b),
        b.is_prefix_of(c),
    ensures
        a.is_prefix_of(c),
{
    assert(c.subrange(0, a.len() as int) =~= b.subrange(0, a.len() as int));
}

pub proof fn lemma_map_prefix_mark(r: Rendered, loc: Loc)
    ensures
        r.map.is_prefix_of(mark(r, loc).map),
{
    assert(mark(r, loc).map.subrange(0, r.map.len() as int) =~= r.map);
}

/// Rendering only appends to the offset map.
pub proof fn lemma_render_map_grows(s: Seq<TokenModel>, i: int, top: bool, r: Rendered)
    requires
        0 <= i <= s.len(),
    ensures
        r.map.is_prefix_of(render_from(s, i, top, r).map),
    decreases s, s.len() - i,
{
    let fin = render_from(s, i, top, r);
    if i == s.len() {
        assert(fin.map.subrange(0, r.map.len() as int) =~= r.map);
    } else if top && i == 0 && is_marker(s[0]) {
        lemma_render_map_grows(s, 1, top, r);
    } else {
        match s[i] {
            TokenModel::Ident { name, loc } => {
                lemma_map_prefix_mark(r, loc);
                lemma_render_map_grows(s, i + 1, top, emit(mark(r, loc), word(name)));
                lemma_map_prefix_trans(r.map, mark(r, loc).map, fin.map);
            },
            TokenModel::Literal { text, loc } => {
                lemma_map_prefix_mark(r, loc);
                lemma_render_map_grows(s, i + 1, top, emit(mark(r, loc), word(text)));
                lemma_map_prefix_trans(r.map, mark(r, loc).map, fin.map);
            },
            TokenModel::Punct { ch, joint, loc } => {
                let r1 = if trims_before(ch) {
                    trimmed(r)
                } else {
                    r
                };
                if ch == SIGIL && i + 1 < s.len() && is_brace_group(s[i + 1]) {
                    let body = s[i + 1]->Group_body;
                    let open = s[i + 1]->Group_open;
                    let close = s[i + 1]->Group_close;
                    let b = emit(mark(r1, loc), seq![SIGIL]);
                    let r2 = emit(mark(b, open), seq!['{']);
                    lemma_map_prefix_mark(r1, loc);
                    lemma_map_prefix_mark(b, open);
                    lemma_map_prefix_trans(r.map, b.map, r2.map);
                    lemma_render_map_grows(body, 0, false, r2);
                    let r3 = render_from(body, 0, false, r2);
                    lemma_map_prefix_trans(r.map, r2.map, r3.map);
                    let d = trimmed(r3);
                    let r4 = emit(mark(d, close), seq!['}', ' ']);
                    lemma_map_prefix_mark(d, close);
                    lemma_map_prefix_trans(r.map, r3.map, r4.map);
                    lemma_render_map_grows(s, i + 2, top, r4);
                    lemma_map_prefix_trans(r.map, r4.map, fin.map);
                } else if ch == SIGIL {
                    let a = emit(r1, seq!['\n']);
                    lemma_map_prefix_mark(a, loc);
                    lemma_render_map_grows(s, i + 1, top, emit(mark(a, loc), seq![SIGIL]));
                    lemma_map_prefix_trans(r.map, mark(a, loc).map, fin.map);
                } else {
                    lemma_map_prefix_mark(r1, loc);
                    lemma_render_map_grows(s, i + 1, top, emit(mark(r1, loc), punct_text(ch, joint)));
                    lemma_map_prefix_trans(r.map, mark(r1, loc).map, fin.map);
                }
            },
            TokenModel::Group { delim, body, open, close } => {
                let r1 = if delim == Delim::Bracket || delim == Delim::Paren {
                    trimmed(r)
                } else {
                    r
                };
                let r2 = if delim == Delim::Invisible {
                    emit(r1, seq![' '])
                } else {
                    emit(mark(r1, open), open_text(delim))
                };
                lemma_map_prefix_mark(r1, open);
                assert(r.map.is_prefix_of(r2.map)) by {
                    if delim == Delim::Invisible {
                        assert(r2.map.subrange(0, r.map.len() as int) =~= r.map);
                    }
                }
                lemma_render_map_grows(body, 0, false, r2);
                let r3 = trimmed(render_from(body, 0, false, r2));
                lemma_map_prefix_trans(r.map, r2.map, r3.map);
                let r4 = if delim == Delim::Invisible {
                    emit(r3, seq![' ', ' '])
                } else {
                    emit(mark(r3, close), close_text(delim))
                };
                lemma_map_prefix_mark(r3, close);
                assert(r.map.is_prefix_of(r4.map)) by {
                    if delim == Delim::Invisible {
                        assert(r4.map.subrange(0, r3.map.len() as int) =~= r3.map);
                    }
                    lemma_map_prefix_trans(r.map, r3.map, r4.map);
                }
                lemma_render_map_grows(s, i + 1, top, r4);
                lemma_map_prefix_trans(r.map, r4.map, fin.map);
            },
        }
    }
}

/// Rendering `p + q` renders `p` first, and then goes on from there, where
/// `p` does not end with the sigil.
pub proof fn lemma_render_split(p: Seq<TokenModel>, q: Seq<TokenModel>, i: int, top: bool, r: Rendered)
    requires
        0 <= i <= p.len(),
        p.len() == 0 || !is_sigil(p.last()),
    ensures
        render_from(p + q, i, top, r) == render_from(p + q, p.len() as int, top, render_from(p, i, top, r)),
    decreases p.len() - i,
{
    let s = p + q;
    if i < p.len() {
        assert(s[i] == p[i]);
        if i + 1 < p.len() {
            assert(s[i + 1] == p[i + 1]);
        }
        if top && i == 0 && is_marker(p[0]) {
            lemma_render_split(p, q, 1, top, r);
        } else {
            match p[i] {
                TokenModel::Punct { ch, joint, loc } => {
                    let r1 = if trims_before(ch) {
                        trimmed(r)
                    } else {
                        r
                    };
                    if ch == SIGIL && i + 1 < p.len() && is_brace_group(p[i + 1]) {
                        let body = p[i + 1]->Group_body;
                        let b = emit(mark(r1, loc), seq![SIGIL]);
                        let r2 = emit(mark(b, p[i + 1]->Group_open), seq!['{']);
                        let r3 = render_from(body, 0, false, r2);
                        let r4 = emit(mark(trimmed(r3), p[i + 1]->Group_close), seq!['}', ' ']);
                        lemma_render_split(p, q, i + 2, top, r4);
                    } else if ch == SIGIL {
                        assert(i + 1 < p.len());
                        lemma_render_split(p, q, i + 1, top, emit(mark(emit(r1, seq!['\n']), loc), seq![SIGIL]));
                    } else {
                        lemma_render_split(p, q, i + 1, top, emit(mark(r1, loc), punct_text(ch, joint)));
                    }
                },
                TokenModel::Ident { name, loc } => {
                    lemma_render_split(p, q, i + 1, top, emit(mark(r, loc), word(name)));
                },
                TokenModel::Literal { text, loc } => {
                    lemma_render_split(p, q, i + 1, top, emit(mark(r, loc), word(text)));
                },
                TokenModel::Group { delim, body, open, close } => {
                    let r1 = if delim == Delim::Bracket || delim == Delim::Paren {
                        trimmed(r)
                    } else {
                        r
                    };
                    let r2 = if delim == Delim::Invisible {
                        emit(r1, seq![' '])
                    } else {
                        emit(mark(r1, open), open_text(delim))
                    };
                    let r3 = trimmed(render_from(body, 0, false, r2));
                    let r4 = if delim == Delim::Invisible {
                        emit(r3, seq![' ', ' '])
                    } else {
                        emit(mark(r3, close), close_text(delim))
                    };
                    lemma_render_split(p, q, i + 1, top, r4);
                },
            }
        }
    }
}

/// Prefixes render alike: for token sequences `p + q1` and `p + q2`, where
/// `p` does not end with the sigil, the offset map of each begins with the
/// entries of `p` alone, and the text of each begins with the text of `p`
/// short of its trailing spaces.
pub proof fn law_prefix_renders_alike(p: Seq<TokenModel>, q1: Seq<TokenModel>, q2: Seq<TokenModel>)
    requires
        p.len() == 0 || !is_sigil(p.last()),
    ensures
        ({
            let rp = render_from(p, 0, true, empty_rendering());
            let r1 = render_from(p + q1, 0, true, empty_rendering());
            let r2 = render_from(p + q2, 0, true, empty_rendering());
            &&& rp.map.is_prefix_of(r1.map)
            &&& rp.map.is_prefix_of(r2.map)
            &&& rstrip(rp.text).is_prefix_of(r1.text)
            &&& rstrip(rp.text).is_prefix_of(r2.text)
        }),
{
    let rp = render_from(p, 0, true, empty_rendering());
    lemma_render_split(p, q1, 0, true, empty_rendering());
    lemma_render_split(p, q2, 0, true, empty_rendering());
    let r1 = render_from(p + q1, 0, true, empty_rendering());
    let r2 = render_from(p + q2, 0, true, empty_rendering());
    lemma_render_map_grows(p + q1, p.len() as int, true, rp);
    lemma_render_map_grows(p + q2, p.len() as int, true, rp);
    lemma_render_grows(p + q1, p.len() as int, true, rp);
    lemma_render_grows(p + q2, p.len() as int, true, rp);
    lemma_rstrip_prefix(r1.text);
    lemma_rstrip_prefix(r2.text);
    lemma_prefix_trans(rstrip(rp.text), rstrip(r1.text), r1.text);
    lemma_prefix_trans(rstrip(rp.text), rstrip(r2.text), r2.text);
}

} // verus!
