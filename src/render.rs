//! Rendering a resolved token tree as WGSL text, with a map from byte offsets
//! in the text to the tokens' source locations.
use vstd::prelude::*;
use vstd::utf8::{encode_scalar, encode_utf8};
use crate::scan::is_marker;
use crate::token::{close, close_char, models, open, open_char, Delim, Loc, Token, TokenModel, SIGIL};

verus! {

/// The text rendered so far and its offset map.
pub struct Rendered {
    pub text: Seq<char>,
    pub map: Seq<(usize, Loc)>,
}

/// Length in bytes of the UTF-8 encoding of `t`.
pub open spec fn byte_len(t: Seq<char>) -> nat {
    encode_utf8(t).len()
}

/// `t` without one trailing space.
pub open spec fn trim(t: Seq<char>) -> Seq<char> {
    if t.len() > 0 && t.last() == ' ' {
        t.drop_last()
    } else {
        t
    }
}

/// Characters that take no space before them.
pub open spec fn trims_before(c: char) -> bool {
    c == ':' || c == ',' || c == '.' || c == ';'
}

/// Characters that take no space after them.
pub open spec fn glues_after(c: char) -> bool {
    c == ':' || c == '.' || c == '@'
}

pub open spec fn is_brace_group(t: TokenModel) -> bool {
    t matches TokenModel::Group { delim, .. } && delim == Delim::Brace
}

pub open spec fn mark(r: Rendered, loc: Loc) -> Rendered {
    Rendered { text: r.text, map: r.map.push((byte_len(r.text) as usize, loc)) }
}

pub open spec fn emit(r: Rendered, t: Seq<char>) -> Rendered {
    Rendered { text: r.text + t, map: r.map }
}

pub open spec fn trimmed(r: Rendered) -> Rendered {
    Rendered { text: trim(r.text), map: r.map }
}

pub open spec fn word(t: Seq<char>) -> Seq<char> {
    t.push(' ')
}

/// The text after an opening delimiter.
pub open spec fn open_text(d: Delim) -> Seq<char> {
    if d == Delim::Brace {
        seq!['{', '\n']
    } else {
        seq![open_char(d)]
    }
}

/// The text of a closing delimiter.
pub open spec fn close_text(d: Delim) -> Seq<char> {
    if d == Delim::Brace {
        seq!['}', '\n']
    } else {
        seq![close_char(d), ' ']
    }
}

/// Rendering of a punctuation character that is not the sigil.
pub open spec fn punct_text(ch: char, joint: bool) -> Seq<char> {
    if ch == ';' {
        seq![';', '\n']
    } else if glues_after(ch) || joint {
        seq![ch]
    } else {
        seq![ch, ' ']
    }
}

/// Renders the tokens of `s` from `i` on after `r`. At the top level a
/// leading bracketed marker is not rendered.
pub open spec fn render_from(s: Seq<TokenModel>, i: int, top: bool, r: Rendered) -> Rendered
    decreases s, s.len() - i,
{
    if i < 0 || i >= s.len() {
        r
    } else if top && i == 0 && is_marker(s[0]) {
        render_from(s, 1, top, r)
    } else {
        match s[i] {
            TokenModel::Ident { name, loc } => render_from(s, i + 1, top, emit(mark(r, loc), word(name))),
            TokenModel::Literal { text, loc } => render_from(
                s,
                i + 1,
                top,
                emit(mark(r, loc), word(text)),
            ),
            TokenModel::Punct { ch, joint, loc } => {
                let r1 = if trims_before(ch) {
                    trimmed(r)
                } else {
                    r
                };
                if ch == SIGIL {
                    if i + 1 < s.len() && is_brace_group(s[i + 1]) {
                        match s[i + 1] {
                            TokenModel::Group { delim, body, open, close } => {
                                let r2 = emit(mark(emit(mark(r1, loc), seq![SIGIL]), open), seq!['{']);
                                let r3 = render_from(body, 0, false, r2);
                                render_from(s, i + 2, top, emit(mark(trimmed(r3), close), seq!['}', ' ']))
                            },
                            _ => r,
                        }
                    } else {
                        render_from(s, i + 1, top, emit(mark(emit(r1, seq!['\n']), loc), seq![SIGIL]))
                    }
                } else {
                    render_from(s, i + 1, top, emit(mark(r1, loc), punct_text(ch, joint)))
                }
            },
            TokenModel::Group { delim, body, open, close } => {
                let r1 = if delim == Delim::Bracket || delim == Delim::Paren {
                    trimmed(r)
                } else {
                    r
                };
                let r2 = if delim == Delim::Invisible {
                    emit(r1, seq![' '])
                } else {
                    emit(mark(r1, open), open_text(delim))
                };
                let r3 = trimmed(render_from(body, 0, false, r2));
                let r4 = if delim == Delim::Invisible {
                    emit(r3, seq![' ', ' '])
                } else {
                    emit(mark(r3, close), close_text(delim))
                };
                render_from(s, i + 1, top, r4)
            },
        }
    }
}

/// Whether rendering `s` from `i` on meets the sigil: a preprocessor
/// directive or substitution that the validator would not understand.
pub open spec fn has_sigil_from(s: Seq<TokenModel>, i: int, top: bool) -> bool
    decreases s, s.len() - i,
{
    if i < 0 || i >= s.len() {
        false
    } else if top && i == 0 && is_marker(s[0]) {
        has_sigil_from(s, 1, top)
    } else {
        match s[i] {
            TokenModel::Punct { ch, .. } => ch == SIGIL || has_sigil_from(s, i + 1, top),
            TokenModel::Group { body, .. } => has_sigil_from(body, 0, false) || has_sigil_from(
                s,
                i + 1,
                top,
            ),
            _ => has_sigil_from(s, i + 1, top),
        }
    }
}

pub open spec fn state(text: String, map: Vec<(usize, Loc)>) -> Rendered {
    Rendered { text: text@, map: map@ }
}

/// Relies on `String::push`: the character is appended.
#[verifier::external_body]
fn push_char(s: &mut String, c: char)
    ensures
        final(s)@ == old(s)@.push(c),
{
    s.push(c)
}

/// Relies on `String::pop`: the last character is removed and returned, and
/// an empty string stays empty.
#[verifier::external_body]
fn pop_char(s: &mut String) -> (r: Option<char>)
    ensures
        old(s)@.len() == 0 ==> r is None && final(s)@ == old(s)@,
        old(s)@.len() > 0 ==> r == Some(old(s)@.last()) && final(s)@ == old(s)@.drop_last(),
{
    s.pop()
}

/// Drops one trailing space.
pub fn trim_space(s: &mut String)
    ensures
        final(s)@ == trim(old(s)@),
{
    match pop_char(s) {
        Some(c) => {
            if c != ' ' {
                push_char(s, c);
                assert(s@ =~= trim(old(s)@));
            }
        },
        None => {},
    }
}

/// Drops a trailing space before a character that takes none before it.
pub fn consume_prev(s: &mut String, c: char)
    ensures
        final(s)@ == if trims_before(c) {
            trim(old(s)@)
        } else {
            old(s)@
        },
{
    if c == ':' || c == ',' || c == '.' || c == ';' {
        trim_space(s);
    }
}

/// Whether `c` takes no space after it.
pub fn consume_post(c: char) -> (r: bool)
    ensures
        r == glues_after(c),
{
    c == ':' || c == '.' || c == '@'
}

fn push_str(s: &mut String, t: &str)
    ensures
        final(s)@ == old(s)@ + t@,
{
    s.append(t);
}

fn record(spans: &mut Vec<(usize, Loc)>, string: &String, loc: Loc)
    ensures
        final(spans)@ == old(spans)@.push((byte_len(string@) as usize, loc)),
{
    spans.push((string.as_str().len(), loc));
}

/// Renders `s` after `string`, recording in `spans` the byte offset of each
/// rendered token and delimiter against its source location. Returns
/// whether the rendering met the sigil.
///
/// The delimiters of an invisible group are written as spaces and get no
/// entry: a space may be trimmed again, and an empty invisible group would
/// otherwise put two entries at one offset. A punctuation character's entry
/// is its offset after the space before it is trimmed.
pub fn to_wgsl_string(s: &Vec<Token>, spans: &mut Vec<(usize, Loc)>, string: &mut String) -> (r:
    bool)
    ensures
        state(*final(string), *final(spans)) == render_from(
            models(s@),
            0,
            true,
            state(*old(string), *old(spans)),
        ),
        r == has_sigil_from(models(s@), 0, true),
{
    render_tokens(s, true, spans, string)
}

fn render_tokens(s: &Vec<Token>, top: bool, spans: &mut Vec<(usize, Loc)>, string: &mut String) -> (r:
    bool)
    ensures
        state(*final(string), *final(spans)) == render_from(
            models(s@),
            0,
            top,
            state(*old(string), *old(spans)),
        ),
        r == has_sigil_from(models(s@), 0, top),
    decreases s, 0nat,
{
    let ghost m = models(s@);
    let ghost start = state(*string, *spans);
    let mut seen = false;
    let mut i: usize = 0;
    while i < s.len()
        invariant
            i <= s@.len(),
            m == models(s@),
            render_from(m, 0, top, start) == render_from(m, i as int, top, state(*string, *spans)),
            has_sigil_from(m, 0, top) == (seen || has_sigil_from(m, i as int, top)),
        decreases s@.len() - i,
    {
        let ghost st = state(*string, *spans);
        let is_marker_here = top && i == 0 && match &s[0] {
            Token::Group(g) => g.delim == Delim::Bracket,
            _ => false,
        };
        if is_marker_here {
            i = 1;
        } else {
            match &s[i] {
                Token::Ident(id) => {
                    record(spans, string, id.loc);
                    push_str(string, id.name.as_str());
                    push_char(string, ' ');
                    proof {
    let ghost want = emit(mark(st, id.loc), word(id.name@));
    assert(state(*string, *spans).text =~= want.text);
    assert(state(*string, *spans).map =~= want.map);
}
                    i = i + 1;
                },
                Token::Literal(l) => {
                    record(spans, string, l.loc);
                    push_str(string, l.text.as_str());
                    push_char(string, ' ');
                    proof {
    let ghost want = emit(mark(st, l.loc), word(l.text@));
    assert(state(*string, *spans).text =~= want.text);
    assert(state(*string, *spans).map =~= want.map);
}
                    i = i + 1;
                },
                Token::Punct(p) => {
                    consume_prev(string, p.ch);
                    let ghost r1 = state(*string, *spans);
                    if p.ch == SIGIL {
                        seen = true;
                        let brace = i + 1 < s.len() && match &s[i + 1] {
                            Token::Group(g) => g.delim == Delim::Brace,
                            _ => false,
                        };
                        if brace {
                            match &s[i + 1] {
                                Token::Group(g) => {
                                    record(spans, string, p.loc);
                                    push_char(string, SIGIL);
                                    assert(string@ =~= r1.text + seq![SIGIL]);
                                    record(spans, string, g.open);
                                    push_char(string, '{');
                                    let ghost r2 = state(*string, *spans);
                                    proof {
    let ghost want = emit(
                                        mark(emit(mark(r1, p.loc), seq![SIGIL]), g.open),
                                        seq!['{'],
                                    );
    assert(r2.text =~= want.text);
    assert(r2.map =~= want.map);
}
                                    proof {
                                        assert(decreases_to!(s => s@[i + 1]));
                                    }
                                    render_tokens(&g.body, false, spans, string);
                                    trim_space(string);
                                    record(spans, string, g.close);
                                    push_char(string, '}');
                                    push_char(string, ' ');
                                    proof {
    let ghost want = emit(
                                        mark(
                                            trimmed(render_from(models(g.body@), 0, false, r2)),
                                            g.close,
                                        ),
                                        seq!['}', ' '],
                                    );
    assert(state(*string, *spans).text =~= want.text);
    assert(state(*string, *spans).map =~= want.map);
}
                                },
                                _ => {},
                            }
                            i = i + 2;
                        } else {
                            push_char(string, '\n');
                            assert(string@ =~= r1.text + seq!['\n']);
                            record(spans, string, p.loc);
                            push_char(string, SIGIL);
                            proof {
    let ghost want = emit(
                                mark(emit(r1, seq!['\n']), p.loc),
                                seq![SIGIL],
                            );
    assert(state(*string, *spans).text =~= want.text);
    assert(state(*string, *spans).map =~= want.map);
}
                            i = i + 1;
                        }
                    } else {
                        record(spans, string, p.loc);
                        if p.ch == ';' {
                            push_char(string, ';');
                            push_char(string, '\n');
                        } else if consume_post(p.ch) || p.joint {
                            push_char(string, p.ch);
                        } else {
                            push_char(string, p.ch);
                            push_char(string, ' ');
                        }
                        proof {
    let ghost want = emit(
                            mark(r1, p.loc),
                            punct_text(p.ch, p.joint),
                        );
    assert(state(*string, *spans).text =~= want.text);
    assert(state(*string, *spans).map =~= want.map);
}
                        i = i + 1;
                    }
                },
                Token::Group(g) => {
                    if g.delim == Delim::Bracket || g.delim == Delim::Paren {
                        trim_space(string);
                    }
                    let ghost r1 = state(*string, *spans);
                    if g.delim == Delim::Invisible {
                        push_char(string, ' ');
                    } else {
                        record(spans, string, g.open);
                        push_char(string, open(g.delim));
                        if g.delim == Delim::Brace {
                            push_char(string, '\n');
                        }
                    }
                    let ghost r2 = state(*string, *spans);
                    proof {
    let ghost want = if g.delim == Delim::Invisible {
                        emit(r1, seq![' '])
                    } else {
                        emit(mark(r1, g.open), open_text(g.delim))
                    };
    assert(r2.text =~= want.text);
    assert(r2.map =~= want.map);
}
                    proof {
                        assert(decreases_to!(s => s@[i as int]));
                    }
                    if render_tokens(&g.body, false, spans, string) {
                        seen = true;
                    }
                    trim_space(string);
                    let ghost r3 = state(*string, *spans);
                    if g.delim == Delim::Invisible {
                        push_char(string, ' ');
                        push_char(string, ' ');
                    } else {
                        record(spans, string, g.close);
                        push_char(string, close(g.delim));
                        if g.delim == Delim::Brace {
                            push_char(string, '\n');
                        } else {
                            push_char(string, ' ');
                        }
                    }
                    proof {
    let ghost want = if g.delim == Delim::Invisible {
                        emit(r3, seq![' ', ' '])
                    } else {
                        emit(mark(r3, g.close), close_text(g.delim))
                    };
    assert(state(*string, *spans).text =~= want.text);
    assert(state(*string, *spans).map =~= want.map);
}
                    i = i + 1;
                },
            }
        }
    }
    seen
}

/// `t` without its trailing spaces.
pub open spec fn rstrip(t: Seq<char>) -> Seq<char>
    decreases t.len(),
{
    if t.len() > 0 && t.last() == ' ' {
        rstrip(t.drop_last())
    } else {
        t
    }
}

/// A token that renders with a character other than a space at its offset:
/// names and literals are not empty, and no token is a bare space.
pub open spec fn well_formed_token(t: TokenModel) -> bool
    decreases t,
{
    match t {
        TokenModel::Ident { name, .. } => name.len() > 0 && name[0] != ' ',
        TokenModel::Literal { text, .. } => text.len() > 0 && text[0] != ' ',
        TokenModel::Punct { ch, .. } => ch != ' ',
        TokenModel::Group { body, .. } => forall|k: int|
            0 <= k < body.len() ==> well_formed_token(#[trigger] body[k]),
    }
}

pub open spec fn well_formed(s: Seq<TokenModel>) -> bool {
    forall|k: int| 0 <= k < s.len() ==> well_formed_token(#[trigger] s[k])
}

/// Offsets strictly increasing, and the last one before the text's last
/// character that is not a trailing space.
pub open spec fn settled(r: Rendered) -> bool {
    &&& crate::diagnostics::increasing(r.map)
    &&& r.map.len() > 0 ==> (r.map.last().0 as nat) < byte_len(rstrip(r.text))
}

pub proof fn lemma_encode_add(a: Seq<char>, b: Seq<char>)
    ensures
        encode_utf8(a + b) == encode_utf8(a) + encode_utf8(b),
    decreases a.len(),
{
    if a.len() == 0 {
        assert(a + b =~= b);
        assert(encode_utf8(a) =~= Seq::<u8>::empty());
        assert(encode_utf8(a) + encode_utf8(b) =~= encode_utf8(b));
    } else {
        assert((a + b).drop_first() =~= a.drop_first() + b);
        lemma_encode_add(a.drop_first(), b);
        assert(encode_utf8(a + b) =~= encode_utf8(a) + encode_utf8(b));
    }
}

pub proof fn lemma_byte_len_prefix(a: Seq<char>, b: Seq<char>)
    requires
        a.is_prefix_of(b),
    ensures
        byte_len(a) <= byte_len(b),
        a.len() < b.len() ==> byte_len(a) < byte_len(b),
{
    let rest = b.subrange(a.len() as int, b.len() as int);
    assert(b =~= a + rest);
    lemma_encode_add(a, rest);
    if rest.len() > 0 {
        assert(encode_scalar(rest[0] as u32).len() >= 1);
        assert(encode_utf8(rest).len() >= 1);
    }
}

pub proof fn lemma_rstrip_prefix(t: Seq<char>)
    ensures
        rstrip(t).is_prefix_of(t),
    decreases t.len(),
{
    if t.len() > 0 && t.last() == ' ' {
        lemma_rstrip_prefix(t.drop_last());
    }
}

pub proof fn lemma_rstrip_trim(t: Seq<char>)
    ensures
        rstrip(trim(t)) == rstrip(t),
{
}

/// Appending keeps what was there before the trailing spaces, and a first
/// character that is not a space stays for good.
pub proof fn lemma_rstrip_emit(t: Seq<char>, u: Seq<char>)
    ensures
        rstrip(t).is_prefix_of(rstrip(t + u)),
        u.len() > 0 && u[0] != ' ' ==> t.push(u[0]).is_prefix_of(rstrip(t + u)),
    decreases u.len(),
{
    lemma_rstrip_prefix(t);
    if u.len() == 0 {
        assert(t + u =~= t);
    } else if u.last() == ' ' {
        assert((t + u).drop_last() =~= t + u.drop_last());
        lemma_rstrip_emit(t, u.drop_last());
    } else {
        assert(rstrip(t + u) == t + u);
    }
}

pub proof fn lemma_prefix_trans(a: Seq<char>, b: Seq<char>, c: Seq<char>)
    requires
        a.is_prefix_of(b),
        b.is_prefix_of(c),
    ensures
        a.is_prefix_of(c),
{
    assert(c.subrange(0, a.len() as int) =~= b.subrange(0, a.len() as int));
}

/// The text of `a`, short of its trailing spaces, begins the text of `b`.
pub open spec fn grows(a: Rendered, b: Rendered) -> bool {
    rstrip(a.text).is_prefix_of(rstrip(b.text))
}

pub proof fn lemma_grows_refl(a: Rendered, b: Rendered)
    requires
        a.text == b.text || a.text == trim(b.text) || b.text == trim(a.text),
    ensures
        grows(a, b),
{
    lemma_rstrip_trim(a.text);
    lemma_rstrip_trim(b.text);
    assert(rstrip(a.text) == rstrip(b.text));
    assert(rstrip(b.text).subrange(0, rstrip(a.text).len() as int) =~= rstrip(a.text));
}

pub proof fn lemma_grows_emit(r: Rendered, u: Seq<char>)
    ensures
        grows(r, emit(r, u)),
{
    lemma_rstrip_emit(r.text, u);
}

pub proof fn lemma_grows_trans(a: Rendered, b: Rendered, c: Rendered)
    requires
        grows(a, b),
        grows(b, c),
    ensures
        grows(a, c),
{
    lemma_prefix_trans(rstrip(a.text), rstrip(b.text), rstrip(c.text));
}

/// Rendering only ever adds to the text before its trailing spaces.
pub proof fn lemma_render_grows(s: Seq<TokenModel>, i: int, top: bool, r: Rendered)
    requires
        0 <= i <= s.len(),
    ensures
        grows(r, render_from(s, i, top, r)),
    decreases s, s.len() - i,
{
    let fin = render_from(s, i, top, r);
    if i == s.len() {
        lemma_grows_refl(r, fin);
    } else if top && i == 0 && is_marker(s[0]) {
        lemma_render_grows(s, 1, top, r);
    } else {
        match s[i] {
            TokenModel::Ident { name, loc } => {
                let r1 = emit(mark(r, loc), word(name));
                lemma_grows_emit(mark(r, loc), word(name));
                lemma_grows_refl(r, mark(r, loc));
                lemma_grows_trans(r, mark(r, loc), r1);
                lemma_render_grows(s, i + 1, top, r1);
                lemma_grows_trans(r, r1, fin);
            },
            TokenModel::Literal { text, loc } => {
                let r1 = emit(mark(r, loc), word(text));
                lemma_grows_emit(mark(r, loc), word(text));
                lemma_grows_refl(r, mark(r, loc));
                lemma_grows_trans(r, mark(r, loc), r1);
                lemma_render_grows(s, i + 1, top, r1);
                lemma_grows_trans(r, r1, fin);
            },
            TokenModel::Punct { ch, joint, loc } => {
                let r1 = if trims_before(ch) {
                    trimmed(r)
                } else {
                    r
                };
                lemma_grows_refl(r, r1);
                if ch == SIGIL {
                    if i + 1 < s.len() && is_brace_group(s[i + 1]) {
                        let body = s[i + 1]->Group_body;
                        let open = s[i + 1]->Group_open;
                        let close = s[i + 1]->Group_close;
                        let a = mark(r1, loc);
                        let b = emit(a, seq![SIGIL]);
                        let c = mark(b, open);
                        let r2 = emit(c, seq!['{']);
                        lemma_grows_refl(r1, a);
                        lemma_grows_emit(a, seq![SIGIL]);
                        lemma_grows_refl(b, c);
                        lemma_grows_emit(c, seq!['{']);
                        lemma_grows_trans(r, r1, a);
                        lemma_grows_trans(r, a, b);
                        lemma_grows_trans(r, b, c);
                        lemma_grows_trans(r, c, r2);
                        let r3 = render_from(body, 0, false, r2);
                        lemma_render_grows(body, 0, false, r2);
                        lemma_grows_trans(r, r2, r3);
                        let d = trimmed(r3);
                        let e = mark(d, close);
                        let r4 = emit(e, seq!['}', ' ']);
                        lemma_grows_refl(r3, d);
                        lemma_grows_refl(d, e);
                        lemma_grows_emit(e, seq!['}', ' ']);
                        lemma_grows_trans(r, r3, d);
                        lemma_grows_trans(r, d, e);
                        lemma_grows_trans(r, e, r4);
                        lemma_render_grows(s, i + 2, top, r4);
                        lemma_grows_trans(r, r4, fin);
                    } else {
                        let a = emit(r1, seq!['\n']);
                        let b = mark(a, loc);
                        let r2 = emit(b, seq![SIGIL]);
                        lemma_grows_emit(r1, seq!['\n']);
                        lemma_grows_refl(a, b);
                        lemma_grows_emit(b, seq![SIGIL]);
                        lemma_grows_trans(r, r1, a);
                        lemma_grows_trans(r, a, b);
                        lemma_grows_trans(r, b, r2);
                        lemma_render_grows(s, i + 1, top, r2);
                        lemma_grows_trans(r, r2, fin);
                    }
                } else {
                    let a = mark(r1, loc);
                    let r2 = emit(a, punct_text(ch, joint));
                    lemma_grows_refl(r1, a);
                    lemma_grows_emit(a, punct_text(ch, joint));
                    lemma_grows_trans(r, r1, a);
                    lemma_grows_trans(r, a, r2);
                    lemma_render_grows(s, i + 1, top, r2);
                    lemma_grows_trans(r, r2, fin);
                }
            },
            TokenModel::Group { delim, body, open, close } => {
                let r1 = if delim == Delim::Bracket || delim == Delim::Paren {
                    trimmed(r)
                } else {
                    r
                };
                lemma_grows_refl(r, r1);
                let r2 = if delim == Delim::Invisible {
                    emit(r1, seq![' '])
                } else {
                    emit(mark(r1, open), open_text(delim))
                };
                lemma_grows_refl(r1, mark(r1, open));
                lemma_grows_emit(r1, seq![' ']);
                lemma_grows_emit(mark(r1, open), open_text(delim));
                lemma_grows_trans(r1, mark(r1, open), emit(mark(r1, open), open_text(delim)));
                lemma_grows_trans(r, r1, r2);
                let r3 = render_from(body, 0, false, r2);
                lemma_render_grows(body, 0, false, r2);
                lemma_grows_trans(r, r2, r3);
                let r4 = trimmed(r3);
                lemma_grows_refl(r3, r4);
                lemma_grows_trans(r, r3, r4);
                let r5 = if delim == Delim::Invisible {
                    emit(r4, seq![' ', ' '])
                } else {
                    emit(mark(r4, close), close_text(delim))
                };
                lemma_grows_refl(r4, mark(r4, close));
                lemma_grows_emit(r4, seq![' ', ' ']);
                lemma_grows_emit(mark(r4, close), close_text(delim));
                lemma_grows_trans(r4, mark(r4, close), emit(mark(r4, close), close_text(delim)));
                lemma_grows_trans(r, r4, r5);
                lemma_render_grows(s, i + 1, top, r5);
                lemma_grows_trans(r, r5, fin);
            },
        }
    }
}

/// A mark followed by text that starts with a character other than a space
/// keeps the map settled, as long as the final text fits in memory.
pub proof fn lemma_mark_emit(r: Rendered, loc: Loc, u: Seq<char>, fin: Rendered)
    requires
        settled(r),
        u.len() > 0,
        u[0] != ' ',
        grows(emit(mark(r, loc), u), fin),
        byte_len(rstrip(fin.text)) <= usize::MAX,
    ensures
        settled(emit(mark(r, loc), u)),
        grows(r, emit(mark(r, loc), u)),
{
    let t = r.text;
    let next = emit(mark(r, loc), u);
    lemma_rstrip_emit(t, u);
    lemma_byte_len_prefix(t, t.push(u[0]));
    lemma_byte_len_prefix(t.push(u[0]), rstrip(t + u));
    lemma_byte_len_prefix(rstrip(t + u), rstrip(fin.text));
    lemma_rstrip_prefix(t);
    lemma_byte_len_prefix(rstrip(t), t);
    assert(byte_len(t) <= usize::MAX);
    assert(next.map.last().0 as nat == byte_len(t));
    assert(crate::diagnostics::increasing(next.map)) by {
        assert forall|a: int, b: int| 0 <= a < b < next.map.len() implies next.map[a].0
            < next.map[b].0 by {
            if b == next.map.len() - 1 {
                if a < r.map.len() - 1 {
                    assert(r.map[a].0 < r.map.last().0);
                }
            } else {
                assert(next.map[a] == r.map[a]);
                assert(next.map[b] == r.map[b]);
            }
        }
    }
    lemma_grows_refl(r, mark(r, loc));
    lemma_grows_emit(mark(r, loc), u);
    lemma_grows_trans(r, mark(r, loc), next);
}

/// Plain appends and trims keep the map settled.
pub proof fn lemma_settled_text(r: Rendered, next: Rendered)
    requires
        settled(r),
        next.map == r.map,
        grows(r, next),
    ensures
        settled(next),
{
    lemma_byte_len_prefix(rstrip(r.text), rstrip(next.text));
}

/// Rendering well-formed tokens keeps the offset map strictly increasing.
pub proof fn lemma_render_settled(s: Seq<TokenModel>, i: int, top: bool, r: Rendered)
    requires
        0 <= i <= s.len(),
        well_formed(s),
        settled(r),
        byte_len(rstrip(render_from(s, i, top, r).text)) <= usize::MAX,
    ensures
        settled(render_from(s, i, top, r)),
    decreases s, s.len() - i,
{
    let fin = render_from(s, i, top, r);
    if i == s.len() {
    } else if top && i == 0 && is_marker(s[0]) {
        lemma_render_settled(s, 1, top, r);
    } else {
        assert(well_formed_token(s[i]));
        match s[i] {
            TokenModel::Ident { name, loc } => {
                let r1 = emit(mark(r, loc), word(name));
                lemma_render_grows(s, i + 1, top, r1);
                lemma_mark_emit(r, loc, word(name), fin);
                lemma_render_settled(s, i + 1, top, r1);
            },
            TokenModel::Literal { text, loc } => {
                let r1 = emit(mark(r, loc), word(text));
                lemma_render_grows(s, i + 1, top, r1);
                lemma_mark_emit(r, loc, word(text), fin);
                lemma_render_settled(s, i + 1, top, r1);
            },
            TokenModel::Punct { ch, joint, loc } => {
                let r1 = if trims_before(ch) {
                    trimmed(r)
                } else {
                    r
                };
                lemma_grows_refl(r, r1);
                lemma_settled_text(r, r1);
                if ch == SIGIL {
                    if i + 1 < s.len() && is_brace_group(s[i + 1]) {
                        assert(well_formed_token(s[i + 1]));
                        let body = s[i + 1]->Group_body;
                        let open = s[i + 1]->Group_open;
                        let close = s[i + 1]->Group_close;
                        let b = emit(mark(r1, loc), seq![SIGIL]);
                        let r2 = emit(mark(b, open), seq!['{']);
                        let r3 = render_from(body, 0, false, r2);
                        let d = trimmed(r3);
                        let r4 = emit(mark(d, close), seq!['}', ' ']);
                        lemma_render_grows(s, i + 2, top, r4);
                        lemma_grows_refl(r3, d);
                        lemma_grows_refl(d, mark(d, close));
                        lemma_grows_emit(mark(d, close), seq!['}', ' ']);
                        lemma_grows_trans(mark(d, close), r4, fin);
                        lemma_grows_trans(d, mark(d, close), fin);
                        lemma_grows_trans(r3, d, fin);
                        lemma_render_grows(body, 0, false, r2);
                        lemma_grows_trans(r2, r3, fin);
                        lemma_grows_refl(b, mark(b, open));
                        lemma_grows_emit(mark(b, open), seq!['{']);
                        lemma_grows_trans(mark(b, open), r2, fin);
                        lemma_grows_trans(b, mark(b, open), fin);
                        lemma_mark_emit(r1, loc, seq![SIGIL], fin);
                        lemma_mark_emit(b, open, seq!['{'], fin);
                        lemma_byte_len_prefix(rstrip(r3.text), rstrip(fin.text));
                        lemma_render_settled(body, 0, false, r2);
                        lemma_settled_text(r3, d);
                        lemma_mark_emit(d, close, seq!['}', ' '], fin);
                        lemma_render_settled(s, i + 2, top, r4);
                    } else {
                        let a = emit(r1, seq!['\n']);
                        let r2 = emit(mark(a, loc), seq![SIGIL]);
                        lemma_grows_emit(r1, seq!['\n']);
                        lemma_settled_text(r1, a);
                        lemma_render_grows(s, i + 1, top, r2);
                        lemma_mark_emit(a, loc, seq![SIGIL], fin);
                        lemma_render_settled(s, i + 1, top, r2);
                    }
                } else {
                    let r2 = emit(mark(r1, loc), punct_text(ch, joint));
                    lemma_render_grows(s, i + 1, top, r2);
                    lemma_mark_emit(r1, loc, punct_text(ch, joint), fin);
                    lemma_render_settled(s, i + 1, top, r2);
                }
            },
            TokenModel::Group { delim, body, open, close } => {
                let r1 = if delim == Delim::Bracket || delim == Delim::Paren {
                    trimmed(r)
                } else {
                    r
                };
                lemma_grows_refl(r, r1);
                lemma_settled_text(r, r1);
                let r2 = if delim == Delim::Invisible {
                    emit(r1, seq![' '])
                } else {
                    emit(mark(r1, open), open_text(delim))
                };
                let r3 = render_from(body, 0, false, r2);
                let r4 = trimmed(r3);
                let r5 = if delim == Delim::Invisible {
                    emit(r4, seq![' ', ' '])
                } else {
                    emit(mark(r4, close), close_text(delim))
                };
                lemma_render_grows(s, i + 1, top, r5);
                lemma_grows_refl(r4, mark(r4, close));
                lemma_grows_emit(r4, seq![' ', ' ']);
                lemma_grows_emit(mark(r4, close), close_text(delim));
                lemma_grows_trans(mark(r4, close), r5, fin);
                lemma_grows_trans(r4, r5, fin);
                lemma_grows_refl(r3, r4);
                lemma_grows_trans(r3, r4, fin);
                lemma_render_grows(body, 0, false, r2);
                lemma_grows_trans(r2, r3, fin);
                if delim == Delim::Invisible {
                    lemma_grows_emit(r1, seq![' ']);
                    lemma_settled_text(r1, r2);
                } else {
                    lemma_mark_emit(r1, open, open_text(delim), fin);
                }
                lemma_byte_len_prefix(rstrip(r3.text), rstrip(fin.text));
                lemma_render_settled(body, 0, false, r2);
                lemma_settled_text(r3, r4);
                if delim == Delim::Invisible {
                    lemma_settled_text(r4, r5);
                } else {
                    lemma_mark_emit(r4, close, close_text(delim), fin);
                }
                lemma_render_settled(s, i + 1, top, r5);
            },
        }
    }
}

/// Relies on `String::len`: the length of the string in bytes.
#[verifier::external_body]
fn byte_length(s: &String) -> (n: usize)
    ensures
        n as nat == byte_len(s@),
{
    s.len()
}

pub open spec fn empty_rendering() -> Rendered {
    Rendered { text: Seq::empty(), map: Seq::empty() }
}

/// Renders a whole sequence: the text, its offset map, and whether the text
/// holds the sigil. The offsets of well-formed tokens strictly increase.
pub fn serialize(s: &Vec<Token>) -> (r: (String, Vec<(usize, Loc)>, bool))
    ensures
        state(r.0, r.1) == render_from(models(s@), 0, true, empty_rendering()),
        r.2 == has_sigil_from(models(s@), 0, true),
        well_formed(models(s@)) ==> crate::diagnostics::increasing(r.1@),
{
    let mut text = String::new();
    let mut map: Vec<(usize, Loc)> = Vec::new();
    assert(state(text, map) =~= empty_rendering());
    let sigil = to_wgsl_string(s, &mut map, &mut text);
    let n = byte_length(&text);
    proof {
        if well_formed(models(s@)) {
            lemma_rstrip_prefix(text@);
            lemma_byte_len_prefix(rstrip(text@), text@);
            lemma_render_settled(models(s@), 0, true, empty_rendering());
        }
    }
    (text, map, sigil)
}

fn starts_visibly(t: &str) -> (r: bool)
    ensures
        r == (t@.len() > 0 && t@[0] != ' '),
{
    t.unicode_len() > 0 && t.get_char(0) != ' '
}

/// Whether every token renders with a character other than a space at its
/// offset, the condition under which the offset map strictly increases.
pub fn is_well_formed(s: &Vec<Token>) -> (r: bool)
    ensures
        r == well_formed(models(s@)),
    decreases s, 0nat,
{
    let ghost m = models(s@);
    let mut i: usize = 0;
    while i < s.len()
        invariant
            i <= s@.len(),
            m == models(s@),
            forall|k: int| 0 <= k < i ==> well_formed_token(#[trigger] m[k]),
        decreases s@.len() - i,
    {
        let ok = match &s[i] {
            Token::Ident(id) => starts_visibly(id.name.as_str()),
            Token::Literal(l) => starts_visibly(l.text.as_str()),
            Token::Punct(p) => p.ch != ' ',
            Token::Group(g) => {
                proof {
                    assert(decreases_to!(s => s@[i as int]));
                }
                let ok = is_well_formed(&g.body);
                assert(m[i as int] == crate::token::model(s@[i as int]));
                assert(m[i as int]->Group_body == models(g.body@));
                assert(well_formed_token(m[i as int]) == well_formed(models(g.body@)));
                ok
            },
        };
        if !ok {
            assert(!well_formed_token(m[i as int]));
            return false;
        }
        i = i + 1;
    }
    true
}

} // verus!
