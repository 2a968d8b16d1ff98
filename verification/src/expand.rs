//! The substitution engine and repetition expander.
//!
//! Substitution rewrites one copy of a fragment for one concrete value:
//! a bare occurrence of the variable becomes a literal, the three-token
//! pattern `prefix # variable` fuses into one identifier, and groups are
//! rewritten recursively. The expander walks the body once, recursing into
//! nested groups first, and splices each repetition marker `#( ... )*` with
//! the marker's template substituted once per range value; if no marker
//! exists anywhere, the caller repeats the whole body instead.
use vstd::prelude::*;
use crate::parse::{
    compile_error_toks, require_braces, require_end, require_ident, require_if_punct,
    require_integer, require_keyword, require_punct, spec_parse_invocation, validate_range,
    lemma_parse_invocation_wf, SyntaxError,
};
use crate::range::{
    lemma_rvf_bounds, range_values, upper, wf_range, Kind, Range, RangeV,
};
use crate::text::{
    char_of_u32, esc_char, is_scalar, pad_dec, push_char, push_esc_char, push_padded,
};
use crate::token::{
    lemma_seq_size_elem, lemma_toks_view_concat, lemma_toks_view_index, lemma_toks_view_len,
    lemma_toks_view_push, seq_size, tok_loc, tok_view, toks_view, Delim, TokTree, Token,
};

verus! {

/// A value the substitution engine may be asked to write: any integer, an
/// ASCII value for the byte domain, a Unicode scalar for the character
/// domain. Every value a well-formed range produces is valid.
pub open spec fn valid_value(r: RangeV, n: u64) -> bool {
    match r.kind {
        Kind::Int => true,
        Kind::Byte => n <= 0x7F,
        Kind::Char => is_scalar(n as int),
    }
}

/// Every value of a well-formed range is valid for substitution.
pub proof fn lemma_range_values_valid(r: RangeV)
    requires
        wf_range(r),
    ensures
        forall|j: int|
            0 <= j < range_values(r).len() ==> valid_value(r, #[trigger] range_values(r)[j]),
{
    lemma_rvf_bounds(r.begin as int, upper(r), r.kind);
}

/// The bare textual form of a value: the zero-padded decimal digits with
/// the range's suffix for integers, the character itself for the byte and
/// character domains. Used for identifier fusion.
pub open spec fn value_plain_text(r: RangeV, n: u64) -> Seq<char> {
    match r.kind {
        Kind::Int => pad_dec(n as nat, r.width) + r.suffix,
        Kind::Byte => seq![(n as u32) as char],
        Kind::Char => seq![(n as u32) as char],
    }
}

/// The literal token text of a value: as `value_plain_text` for integers, a
/// quoted character literal (byte-character literal) for the character
/// (byte) domain, with quote and backslash escaped.
pub open spec fn value_lit_text(r: RangeV, n: u64) -> Seq<char> {
    match r.kind {
        Kind::Int => pad_dec(n as nat, r.width) + r.suffix,
        Kind::Byte => seq!['b', '\''] + esc_char((n as u32) as char, '\'') + seq!['\''],
        Kind::Char => seq!['\''] + esc_char((n as u32) as char, '\'') + seq!['\''],
    }
}

/// Appends the bare textual form of a value.
fn push_value_plain(s: &mut String, r: &Range, n: u64)
    requires
        valid_value(r@, n),
    ensures
        final(s)@ == old(s)@ + value_plain_text(r@, n),
{
    match r.kind {
        Kind::Int => {
            push_padded(s, n, r.width);
            s.append(r.suffix.as_str());
            proof {
                assert(final(s)@ =~= old(s)@ + value_plain_text(r@, n));
            }
        },
        _ => {
            let c = char_of_u32(n as u32);
            push_char(s, c);
            proof {
                assert(final(s)@ =~= old(s)@ + value_plain_text(r@, n));
            }
        },
    }
}

/// The literal token text of a value, as a fresh string.
fn mk_value_lit(r: &Range, n: u64) -> (s: String)
    requires
        valid_value(r@, n),
    ensures
        s@ == value_lit_text(r@, n),
{
    let mut s = String::new();
    match r.kind {
        Kind::Int => {
            push_padded(&mut s, n, r.width);
            s.append(r.suffix.as_str());
            proof {
                assert(s@ =~= value_lit_text(r@, n));
            }
        },
        Kind::Byte => {
            push_char(&mut s, 'b');
            push_char(&mut s, '\'');
            let c = char_of_u32(n as u32);
            push_esc_char(&mut s, c, '\'');
            push_char(&mut s, '\'');
            proof {
                assert(s@ =~= value_lit_text(r@, n));
            }
        },
        Kind::Char => {
            push_char(&mut s, '\'');
            let c = char_of_u32(n as u32);
            push_esc_char(&mut s, c, '\'');
            push_char(&mut s, '\'');
            proof {
                assert(s@ =~= value_lit_text(r@, n));
            }
        },
    }
    s
}

/// A bare occurrence of the loop variable.
pub open spec fn is_var(t: TokTree, var: Seq<char>) -> bool {
    t matches TokTree::Ident { name, .. } && name == var
}

/// The given punctuation character, whatever its spacing.
pub open spec fn is_punct_ch(t: TokTree, c: char) -> bool {
    t matches TokTree::Punct { ch, .. } && ch == c
}

/// A parenthesis-delimited group.
pub open spec fn is_paren_group(t: TokTree) -> bool {
    t matches TokTree::Group { delim, .. } && delim is Paren
}

/// The three-token fusion pattern `prefix # variable`.
pub open spec fn is_fusion(a: TokTree, b: TokTree, c: TokTree, var: Seq<char>) -> bool {
    a is Ident && is_punct_ch(b, '#') && is_var(c, var)
}

/// The three-token repetition marker `# ( ... ) *`.
pub open spec fn is_marker(a: TokTree, b: TokTree, c: TokTree) -> bool {
    is_punct_ch(a, '#') && is_paren_group(b) && is_punct_ch(c, '*')
}

/// One substitution pass over a token, for tokens that are neither a bare
/// variable nor part of a fusion: a group is rewritten recursively, keeping
/// its delimiter and location; anything else is unchanged.
pub open spec fn subst_tok(t: TokTree, var: Seq<char>, r: RangeV, n: u64) -> TokTree
    decreases t,
{
    match t {
        TokTree::Group { delim, children, loc } => TokTree::Group {
            delim,
            children: subst_seq(children, var, r, n),
            loc,
        },
        _ => t,
    }
}

/// One substitution pass over a fragment, left to right: a bare variable
/// becomes the value's literal carrying the variable's location; the
/// pattern `prefix # variable` becomes one fused identifier carrying the
/// prefix's location, all three tokens consumed; a group is rewritten
/// recursively; everything else passes through. Freshly produced tokens are
/// not rescanned.
pub open spec fn subst_seq(ts: Seq<TokTree>, var: Seq<char>, r: RangeV, n: u64) -> Seq<TokTree>
    decreases ts,
{
    if ts.len() == 0 {
        Seq::empty()
    } else if is_var(ts[0], var) {
        seq![TokTree::Lit { text: value_lit_text(r, n), loc: tok_loc(ts[0]) }] + subst_seq(
            ts.subrange(1, ts.len() as int),
            var,
            r,
            n,
        )
    } else if ts.len() >= 3 && is_fusion(ts[0], ts[1], ts[2], var) {
        seq![
            TokTree::Ident {
                name: ts[0]->Ident_name + value_plain_text(r, n),
                loc: tok_loc(ts[0]),
            },
        ] + subst_seq(ts.subrange(3, ts.len() as int), var, r, n)
    } else {
        seq![subst_tok(ts[0], var, r, n)] + subst_seq(ts.subrange(1, ts.len() as int), var, r, n)
    }
}

/// The marker's template substituted once per value, in range order,
/// concatenated.
pub open spec fn repeat_tpl(tpl: Seq<TokTree>, var: Seq<char>, r: RangeV, vals: Seq<u64>) -> Seq<
    TokTree,
>
    decreases vals.len(),
{
    if vals.len() == 0 {
        Seq::empty()
    } else {
        subst_seq(tpl, var, r, vals[0]) + repeat_tpl(tpl, var, r, vals.subrange(1, vals.len() as int))
    }
}

/// One expansion pass over a token: a group's contents are expanded
/// recursively; the flag tells whether a marker was found inside.
pub open spec fn expand_tok(t: TokTree, var: Seq<char>, r: RangeV) -> (TokTree, bool)
    decreases t,
{
    match t {
        TokTree::Group { delim, children, loc } => {
            let e = expand_seq(children, var, r);
            (TokTree::Group { delim, children: e.0, loc }, e.1)
        },
        _ => (t, false),
    }
}

/// One expansion pass over a fragment, left to right: groups are expanded
/// recursively first; a repetition marker is spliced out and replaced by
/// its template substituted once per range value, the spliced-in tokens not
/// rescanned — so a marker nested inside another marker's template is not
/// expanded a second time; everything else passes through. The flag tells
/// whether any marker was found, at this level or inside any group.
pub open spec fn expand_seq(ts: Seq<TokTree>, var: Seq<char>, r: RangeV) -> (Seq<TokTree>, bool)
    decreases ts,
{
    if ts.len() == 0 {
        (Seq::empty(), false)
    } else if ts[0] is Group {
        let h = expand_tok(ts[0], var, r);
        let rest = expand_seq(ts.subrange(1, ts.len() as int), var, r);
        (seq![h.0] + rest.0, h.1 || rest.1)
    } else if ts.len() >= 3 && is_marker(ts[0], ts[1], ts[2]) {
        let rest = expand_seq(ts.subrange(3, ts.len() as int), var, r);
        (repeat_tpl(ts[1]->Group_children, var, r, range_values(r)) + rest.0, true)
    } else {
        let rest = expand_seq(ts.subrange(1, ts.len() as int), var, r);
        (seq![ts[0]] + rest.0, rest.1)
    }
}

/// The full expansion of a parsed invocation: where the body holds a
/// marker, the marker pass's result; where it holds none, the whole body
/// substituted once per range value.
pub open spec fn expansion(var: Seq<char>, r: RangeV, body: Seq<TokTree>) -> Seq<TokTree> {
    let e = expand_seq(body, var, r);
    if e.1 {
        e.0
    } else {
        repeat_tpl(body, var, r, range_values(r))
    }
}

/// What the entry point returns for any input: the expansion for a
/// well-formed invocation, a `compile_error!` fragment for anything else.
pub open spec fn expand_spec(ts: Seq<TokTree>, call_loc: u64) -> Seq<TokTree> {
    match spec_parse_invocation(ts, call_loc) {
        Ok(inv) => expansion(inv.var, inv.range, inv.body),
        Err(e) => compile_error_toks(e),
    }
}

/// Substitutes one concrete value into one copy of the fragment, as
/// `subst_seq` says.
pub fn substitute_value(var: &String, r: &Range, n: u64, body: &Vec<Token>) -> (out: Vec<Token>)
    requires
        valid_value(r@, n),
    ensures
        toks_view(out@) == subst_seq(toks_view(body@), var@, r@, n),
    decreases seq_size(toks_view(body@)),
{
    let ghost m = toks_view(body@);
    let mut out: Vec<Token> = Vec::new();
    let mut i: usize = 0;
    proof {
        lemma_toks_view_len(body@);
        assert(m.subrange(0, m.len() as int) =~= m);
        assert(toks_view(out@) =~= Seq::<TokTree>::empty());
        assert(Seq::<TokTree>::empty() + subst_seq(m, var@, r@, n) =~= subst_seq(m, var@, r@, n));
    }
    while i < body.len()
        invariant
            i <= body.len(),
            valid_value(r@, n),
            m == toks_view(body@),
            m.len() == body@.len(),
            toks_view(out@) + subst_seq(m.subrange(i as int, m.len() as int), var@, r@, n)
                == subst_seq(m, var@, r@, n),
        decreases body.len() - i,
    {
        let ghost suf = m.subrange(i as int, m.len() as int);
        proof {
            lemma_toks_view_index(body@, i as int);
            assert(suf[0] == m[i as int]);
        }
        let is_bare = match &body[i] {
            Token::Ident { name, .. } => name.eq(var),
            _ => false,
        };
        let fusion: Option<(String, u64)> = if !is_bare && body.len() - i >= 3 {
            proof {
                lemma_toks_view_index(body@, i as int + 1);
                lemma_toks_view_index(body@, i as int + 2);
                assert(suf[1] == m[i as int + 1]);
                assert(suf[2] == m[i as int + 2]);
            }
            match (&body[i], &body[i + 1], &body[i + 2]) {
                (
                    Token::Ident { name, loc },
                    Token::Punct { ch, .. },
                    Token::Ident { name: vn, .. },
                ) => {
                    if *ch == '#' && vn.eq(var) {
                        Some((name.clone(), *loc))
                    } else {
                        None
                    }
                },
                _ => None,
            }
        } else {
            None
        };
        if is_bare {
            let text = mk_value_lit(r, n);
            let loc = crate::parse::loc_of(&body[i]);
            let ghost prev = out@;
            out.push(Token::Lit { text, loc });
            proof {
                lemma_toks_view_push(prev, out@[out@.len() - 1]);
                assert(suf.subrange(1, suf.len() as int) =~= m.subrange(
                    i as int + 1,
                    m.len() as int,
                ));
                assert(toks_view(out@) + subst_seq(
                    m.subrange(i as int + 1, m.len() as int),
                    var@,
                    r@,
                    n,
                ) =~= subst_seq(m, var@, r@, n));
            }
            i = i + 1;
        } else if let Some((prefix, ploc)) = fusion {
            let mut fused = prefix;
            push_value_plain(&mut fused, r, n);
            let ghost prev = out@;
            out.push(Token::Ident { name: fused, loc: ploc });
            proof {
                lemma_toks_view_push(prev, out@[out@.len() - 1]);
                assert(suf.len() >= 3 && is_fusion(suf[0], suf[1], suf[2], var@));
                assert(suf.subrange(3, suf.len() as int) =~= m.subrange(
                    i as int + 3,
                    m.len() as int,
                ));
                assert(toks_view(out@) + subst_seq(
                    m.subrange(i as int + 3, m.len() as int),
                    var@,
                    r@,
                    n,
                ) =~= subst_seq(m, var@, r@, n));
            }
            i = i + 3;
        } else {
            match &body[i] {
                Token::Group { delim, tokens: inner, loc } => {
                    proof {
                        lemma_seq_size_elem(m, i as int);
                    }
                    let et = substitute_value(var, r, n, inner);
                    let ghost prev = out@;
                    out.push(Token::Group { delim: *delim, tokens: et, loc: *loc });
                    proof {
                        lemma_toks_view_push(prev, out@[out@.len() - 1]);
                        assert(tok_view(out@[out@.len() - 1]) =~= subst_tok(suf[0], var@, r@, n));
                        assert(suf.subrange(1, suf.len() as int) =~= m.subrange(
                            i as int + 1,
                            m.len() as int,
                        ));
                        assert(toks_view(out@) + subst_seq(
                            m.subrange(i as int + 1, m.len() as int),
                            var@,
                            r@,
                            n,
                        ) =~= subst_seq(m, var@, r@, n));
                    }
                },
                t => {
                    let c = t.clone();
                    let ghost prev = out@;
                    out.push(c);
                    proof {
                        lemma_toks_view_push(prev, out@[out@.len() - 1]);
                        assert(subst_tok(suf[0], var@, r@, n) == suf[0]);
                        assert(suf.subrange(1, suf.len() as int) =~= m.subrange(
                            i as int + 1,
                            m.len() as int,
                        ));
                        assert(toks_view(out@) + subst_seq(
                            m.subrange(i as int + 1, m.len() as int),
                            var@,
                            r@,
                            n,
                        ) =~= subst_seq(m, var@, r@, n));
                    }
                },
            }
            i = i + 1;
        }
    }
    proof {
        assert(m.subrange(m.len() as int, m.len() as int) =~= Seq::<TokTree>::empty());
        assert(toks_view(out@) =~= subst_seq(m, var@, r@, n));
    }
    out
}

/// Repeats the whole fragment once per range value, substituting each, as
/// `repeat_tpl` over the range's values says.
pub fn repeat(var: &String, r: &Range, body: &Vec<Token>) -> (out: Vec<Token>)
    requires
        wf_range(r@),
    ensures
        toks_view(out@) == repeat_tpl(toks_view(body@), var@, r@, range_values(r@)),
{
    let vals = r.values();
    let ghost m = toks_view(body@);
    let ghost vs = vals@;
    proof {
        lemma_range_values_valid(r@);
        assert(vs.subrange(0, vs.len() as int) =~= vs);
    }
    let mut out: Vec<Token> = Vec::new();
    let mut k: usize = 0;
    proof {
        assert(toks_view(out@) =~= Seq::<TokTree>::empty());
        assert(Seq::<TokTree>::empty() + repeat_tpl(m, var@, r@, vs) =~= repeat_tpl(
            m,
            var@,
            r@,
            vs,
        ));
    }
    while k < vals.len()
        invariant
            k <= vals.len(),
            vals@ == vs,
            vs == range_values(r@),
            m == toks_view(body@),
            wf_range(r@),
            forall|j: int| 0 <= j < vs.len() ==> valid_value(r@, #[trigger] vs[j]),
            toks_view(out@) + repeat_tpl(m, var@, r@, vs.subrange(k as int, vs.len() as int))
                == repeat_tpl(m, var@, r@, vs),
        decreases vals.len() - k,
    {
        let n = vals[k];
        let mut sub = substitute_value(var, r, n, body);
        let ghost prev_out = out@;
        let ghost subv = sub@;
        out.append(&mut sub);
        proof {
            lemma_toks_view_concat(prev_out, subv);
            let rest = vs.subrange(k as int, vs.len() as int);
            assert(rest[0] == vs[k as int]);
            assert(rest.subrange(1, rest.len() as int) =~= vs.subrange(
                k as int + 1,
                vs.len() as int,
            ));
            assert(toks_view(out@) + repeat_tpl(
                m,
                var@,
                r@,
                vs.subrange(k as int + 1, vs.len() as int),
            ) =~= repeat_tpl(m, var@, r@, vs));
        }
        k = k + 1;
    }
    proof {
        assert(vs.subrange(vs.len() as int, vs.len() as int) =~= Seq::<u64>::empty());
        assert(toks_view(out@) =~= repeat_tpl(m, var@, r@, vs));
    }
    out
}

/// Tests three consecutive tokens for the repetition-marker shape
/// `# ( ... ) *` and hands out the parenthesis group's contents.
pub fn enter_repetition<'a>(a: &Token, b: &'a Token, c: &Token) -> (r: Option<&'a Vec<Token>>)
    ensures
        match r {
            Some(tpl) => is_marker(tok_view(*a), tok_view(*b), tok_view(*c)) && toks_view(tpl@)
                == tok_view(*b)->Group_children,
            None => !is_marker(tok_view(*a), tok_view(*b), tok_view(*c)),
        },
{
    match a {
        Token::Punct { ch, .. } => {
            if !(*ch == '#') {
                return None;
            }
        },
        _ => {
            return None;
        },
    }
    match c {
        Token::Punct { ch, .. } => {
            if !(*ch == '*') {
                return None;
            }
        },
        _ => {
            return None;
        },
    }
    match b {
        Token::Group { delim, tokens, .. } => {
            if matches!(*delim, Delim::Paren) {
                Some(tokens)
            } else {
                None
            }
        },
        _ => None,
    }
}

/// One expansion pass over the body, as `expand_seq` says: groups expanded
/// recursively, each marker spliced with its repeated template, the flag
/// raised when any marker was found.
pub fn expand_repetitions(var: &String, r: &Range, body: &Vec<Token>, found: &mut bool) -> (out:
    Vec<Token>)
    requires
        wf_range(r@),
    ensures
        toks_view(out@) == expand_seq(toks_view(body@), var@, r@).0,
        *final(found) == (*old(found) || expand_seq(toks_view(body@), var@, r@).1),
    decreases seq_size(toks_view(body@)),
{
    let ghost m = toks_view(body@);
    let mut out: Vec<Token> = Vec::new();
    let mut i: usize = 0;
    proof {
        lemma_toks_view_len(body@);
        assert(m.subrange(0, m.len() as int) =~= m);
        assert(toks_view(out@) =~= Seq::<TokTree>::empty());
        assert(Seq::<TokTree>::empty() + expand_seq(m, var@, r@).0 =~= expand_seq(m, var@, r@).0);
    }
    while i < body.len()
        invariant
            i <= body.len(),
            wf_range(r@),
            m == toks_view(body@),
            m.len() == body@.len(),
            toks_view(out@) + expand_seq(m.subrange(i as int, m.len() as int), var@, r@).0
                == expand_seq(m, var@, r@).0,
            (*found || expand_seq(m.subrange(i as int, m.len() as int), var@, r@).1) == (*old(
                found,
            ) || expand_seq(m, var@, r@).1),
        decreases body.len() - i,
    {
        let ghost suf = m.subrange(i as int, m.len() as int);
        proof {
            lemma_toks_view_index(body@, i as int);
            assert(suf[0] == m[i as int]);
        }
        match &body[i] {
            Token::Group { delim, tokens: inner, loc } => {
                proof {
                    lemma_seq_size_elem(m, i as int);
                }
                let et = expand_repetitions(var, r, inner, found);
                let ghost prev = out@;
                out.push(Token::Group { delim: *delim, tokens: et, loc: *loc });
                proof {
                    lemma_toks_view_push(prev, out@[out@.len() - 1]);
                    assert(tok_view(out@[out@.len() - 1]) =~= expand_tok(suf[0], var@, r@).0);
                    assert(suf.subrange(1, suf.len() as int) =~= m.subrange(
                        i as int + 1,
                        m.len() as int,
                    ));
                    assert(toks_view(out@) + expand_seq(
                        m.subrange(i as int + 1, m.len() as int),
                        var@,
                        r@,
                    ).0 =~= expand_seq(m, var@, r@).0);
                }
                i = i + 1;
            },
            _ => {
                let mut spliced = false;
                if body.len() - i >= 3 {
                    proof {
                        lemma_toks_view_index(body@, i as int + 1);
                        lemma_toks_view_index(body@, i as int + 2);
                        assert(suf[1] == m[i as int + 1]);
                        assert(suf[2] == m[i as int + 2]);
                    }
                    match enter_repetition(&body[i], &body[i + 1], &body[i + 2]) {
                        Some(tpl) => {
                            *found = true;
                            let mut reps = repeat(var, r, tpl);
                            let ghost prev_out = out@;
                            let ghost repsv = reps@;
                            out.append(&mut reps);
                            proof {
                                lemma_toks_view_concat(prev_out, repsv);
                                assert(suf.subrange(3, suf.len() as int) =~= m.subrange(
                                    i as int + 3,
                                    m.len() as int,
                                ));
                                assert(toks_view(out@) + expand_seq(
                                    m.subrange(i as int + 3, m.len() as int),
                                    var@,
                                    r@,
                                ).0 =~= expand_seq(m, var@, r@).0);
                            }
                            i = i + 3;
                            spliced = true;
                        },
                        None => {
                        },
                    }
                }
                if !spliced {
                    let c = body[i].clone();
                    let ghost prev = out@;
                    out.push(c);
                    proof {
                        lemma_toks_view_push(prev, out@[out@.len() - 1]);
                        assert(!(suf[0] is Group));
                        assert(suf.subrange(1, suf.len() as int) =~= m.subrange(
                            i as int + 1,
                            m.len() as int,
                        ));
                        assert(toks_view(out@) + expand_seq(
                            m.subrange(i as int + 1, m.len() as int),
                            var@,
                            r@,
                        ).0 =~= expand_seq(m, var@, r@).0);
                    }
                    i = i + 1;
                }
            },
        }
    }
    proof {
        assert(m.subrange(m.len() as int, m.len() as int) =~= Seq::<TokTree>::empty());
        assert(toks_view(out@) =~= expand_seq(m, var@, r@).0);
    }
    out
}

/// Parses one invocation and expands it: either the expansion, or the
/// located failure. Validation errors take precedence over a missing body,
/// as the bounds are examined first.
pub fn seq_impl(input: &Vec<Token>, call_loc: u64) -> (r: Result<Vec<Token>, SyntaxError>)
    ensures
        match spec_parse_invocation(toks_view(input@), call_loc) {
            Ok(inv) => r matches Ok(out) && toks_view(out@) == expansion(
                inv.var,
                inv.range,
                inv.body,
            ),
            Err(e) => r matches Err(se) && se@ == e,
        },
{
    let mut pos: usize = 0;
    let var = match require_ident(input, &mut pos, call_loc) {
        Ok(v) => v,
        Err(e) => {
            return Err(e);
        },
    };
    if let Err(e) = require_keyword(input, &mut pos, "in", call_loc) {
        return Err(e);
    }
    let begin = match require_integer(input, &mut pos, call_loc) {
        Ok(v) => v,
        Err(e) => {
            return Err(e);
        },
    };
    if let Err(e) = require_punct(input, &mut pos, '.', call_loc) {
        return Err(e);
    }
    if let Err(e) = require_punct(input, &mut pos, '.', call_loc) {
        return Err(e);
    }
    let inclusive = match require_if_punct(input, &mut pos, '=', call_loc) {
        Ok(v) => v,
        Err(e) => {
            return Err(e);
        },
    };
    let end = match require_integer(input, &mut pos, call_loc) {
        Ok(v) => v,
        Err(e) => {
            return Err(e);
        },
    };
    let range = match validate_range(begin, end, inclusive) {
        Ok(v) => v,
        Err(e) => {
            return Err(e);
        },
    };
    let body = match require_braces(input, &mut pos, call_loc) {
        Ok(v) => v,
        Err(e) => {
            return Err(e);
        },
    };
    if let Err(e) = require_end(input, &mut pos) {
        return Err(e);
    }
    proof {
        lemma_parse_invocation_wf(toks_view(input@), call_loc);
    }
    let mut found = false;
    let expanded = expand_repetitions(&var, &range, &body, &mut found);
    if found {
        Ok(expanded)
    } else {
        Ok(repeat(&var, &range, &body))
    }
}

/// The entry point: feed it the token sequence of one invocation and the
/// call site's location; it returns the expanded tokens, or a
/// `compile_error!` fragment carrying one diagnostic.
pub fn seq(input: &Vec<Token>, call_loc: u64) -> (out: Vec<Token>)
    ensures
        toks_view(out@) == expand_spec(toks_view(input@), call_loc),
{
    match seq_impl(input, call_loc) {
        Ok(e) => e,
        Err(err) => err.into_compile_error(),
    }
}

} // verus!
