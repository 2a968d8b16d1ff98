//! The invocation parser: consumes a flat token sequence in strict order —
//! loop variable, the keyword `in`, a begin bound, two range dots, an
//! optional `=`, an end bound, a braced body — and fails fast with a located
//! `SyntaxError` naming the expected construct. The parser never backtracks;
//! the only lookahead is the one-token peek for the optional `=`.
use vstd::prelude::*;
use crate::range::{
    spec_parse_value, parse_value, Kind, Range, RangeV, Value, ValueV, wf_range,
};
use crate::text::is_scalar;
use crate::token::{tok_loc, tok_view, toks_view, Delim, TokTree, Token};
use crate::token::{
    clone_tokens, lemma_seq_size_elem, lemma_toks_view_index, lemma_toks_view_len, tok_size,
};

verus! {

/// A structured parse failure: one message, one source location. Converted
/// at the boundary into a `compile_error!` fragment by
/// [`SyntaxError::into_compile_error`].
#[derive(Debug)]
pub struct SyntaxError {
    pub message: String,
    pub loc: u64,
}

/// The mathematical model of a parse failure.
#[verifier::ext_equal]
pub struct ErrV {
    pub msg: Seq<char>,
    pub loc: u64,
}

impl View for SyntaxError {
    type V = ErrV;

    open spec fn view(&self) -> ErrV {
        ErrV { msg: self.message@, loc: self.loc }
    }
}

pub open spec fn msg_end() -> Seq<char> {
    "unexpected end of input"@
}

pub open spec fn msg_ident() -> Seq<char> {
    "expected ident"@
}

pub open spec fn msg_value() -> Seq<char> {
    "expected integer or char literal"@
}

pub open spec fn msg_braces() -> Seq<char> {
    "expected curly braces"@
}

pub open spec fn msg_trailing() -> Seq<char> {
    "unexpected token"@
}

pub open spec fn msg_kind() -> Seq<char> {
    "expected range bounds of the same kind"@
}

pub open spec fn msg_suffix() -> Seq<char> {
    "expected range bounds with the same suffix"@
}

pub open spec fn msg_order() -> Seq<char> {
    "expected inclusive range with begin <= end"@
}

/// The message naming an expected keyword or punctuation text.
pub open spec fn msg_expected(what: Seq<char>) -> Seq<char> {
    "expected `"@ + what + "`"@
}

fn mk_err(msg: &str, loc: u64) -> (e: SyntaxError)
    ensures
        e@ == (ErrV { msg: msg@, loc }),
{
    SyntaxError { message: String::from_str(msg), loc }
}

fn mk_expected_str_err(what: &str, loc: u64) -> (e: SyntaxError)
    ensures
        e@ == (ErrV { msg: msg_expected(what@), loc }),
{
    let mut m = String::from_str("expected `");
    m.append(what);
    m.append("`");
    proof {
        assert(m@ =~= msg_expected(what@));
    }
    SyntaxError { message: m, loc }
}

fn mk_expected_char_err(ch: char, loc: u64) -> (e: SyntaxError)
    ensures
        e@ == (ErrV { msg: msg_expected(seq![ch]), loc }),
{
    let mut m = String::from_str("expected `");
    crate::text::push_char(&mut m, ch);
    m.append("`");
    proof {
        assert(m@ =~= msg_expected(seq![ch]));
    }
    SyntaxError { message: m, loc }
}

/// The source location of a token.
pub fn loc_of(t: &Token) -> (l: u64)
    ensures
        l == tok_loc(tok_view(*t)),
{
    match t {
        Token::Ident { loc, .. } => *loc,
        Token::Lit { loc, .. } => *loc,
        Token::Punct { loc, .. } => *loc,
        Token::Group { loc, .. } => *loc,
    }
}

/// Step 1 and 2: the next token must be an identifier; for a keyword, one
/// with the given text.
pub open spec fn step_ident(ts: Seq<TokTree>, i: int, call_loc: u64) -> Result<Seq<char>, ErrV> {
    if i >= ts.len() {
        Err(ErrV { msg: msg_end(), loc: call_loc })
    } else {
        match ts[i] {
            TokTree::Ident { name, .. } => Ok(name),
            _ => Err(ErrV { msg: msg_ident(), loc: tok_loc(ts[i]) }),
        }
    }
}

pub open spec fn step_keyword(ts: Seq<TokTree>, i: int, kw: Seq<char>, call_loc: u64) -> Result<
    (),
    ErrV,
> {
    if i >= ts.len() {
        Err(ErrV { msg: msg_end(), loc: call_loc })
    } else {
        match ts[i] {
            TokTree::Ident { name, .. } => if name == kw {
                Ok(())
            } else {
                Err(ErrV { msg: msg_expected(kw), loc: tok_loc(ts[i]) })
            },
            _ => Err(ErrV { msg: msg_expected(kw), loc: tok_loc(ts[i]) }),
        }
    }
}

/// Unwraps nested invisible groups holding exactly one token, as macro
/// expansion can wrap a literal bound.
pub open spec fn unwrap_nd(t: TokTree) -> TokTree
    decreases t,
{
    match t {
        TokTree::Group { delim, children, .. } => if delim is NoDelim && children.len() == 1 {
            unwrap_nd(children[0])
        } else {
            t
        },
        _ => t,
    }
}

/// Step 3 and 6: the next token, after unwrapping invisible groups, must be
/// a literal naming a bound value.
pub open spec fn step_value(ts: Seq<TokTree>, i: int, call_loc: u64) -> Result<ValueV, ErrV> {
    if i >= ts.len() {
        Err(ErrV { msg: msg_end(), loc: call_loc })
    } else {
        match unwrap_nd(ts[i]) {
            TokTree::Lit { text, loc } => match spec_parse_value(text, loc) {
                Some(v) => Ok(v),
                None => Err(ErrV { msg: msg_value(), loc }),
            },
            _ => Err(ErrV { msg: msg_value(), loc: tok_loc(unwrap_nd(ts[i])) }),
        }
    }
}

/// Steps 4 and 5: the next token must be the given punctuation character.
pub open spec fn step_punct(ts: Seq<TokTree>, i: int, ch: char, call_loc: u64) -> Result<
    (),
    ErrV,
> {
    if i >= ts.len() {
        Err(ErrV { msg: msg_end(), loc: call_loc })
    } else {
        match ts[i] {
            TokTree::Punct { ch: c, .. } => if c == ch {
                Ok(())
            } else {
                Err(ErrV { msg: msg_expected(seq![ch]), loc: tok_loc(ts[i]) })
            },
            _ => Err(ErrV { msg: msg_expected(seq![ch]), loc: tok_loc(ts[i]) }),
        }
    }
}

/// The optional `=`: consumed and required to match only when the next token
/// is punctuation at all; anything else leaves the cursor alone.
pub open spec fn step_if_punct(ts: Seq<TokTree>, i: int, ch: char, call_loc: u64) -> Result<
    bool,
    ErrV,
> {
    if i < ts.len() && ts[i] is Punct {
        match step_punct(ts, i, ch, call_loc) {
            Ok(_) => Ok(true),
            Err(e) => Err(e),
        }
    } else {
        Ok(false)
    }
}

/// Step 7: the next token must be a brace-delimited group; its children
/// become the body.
pub open spec fn step_braces(ts: Seq<TokTree>, i: int, call_loc: u64) -> Result<
    Seq<TokTree>,
    ErrV,
> {
    if i >= ts.len() {
        Err(ErrV { msg: msg_end(), loc: call_loc })
    } else {
        match ts[i] {
            TokTree::Group { delim, children, .. } => if delim is Brace {
                Ok(children)
            } else {
                Err(ErrV { msg: msg_braces(), loc: tok_loc(ts[i]) })
            },
            _ => Err(ErrV { msg: msg_braces(), loc: tok_loc(ts[i]) }),
        }
    }
}

/// Step 8: nothing may remain.
pub open spec fn step_end(ts: Seq<TokTree>, i: int) -> Result<(), ErrV> {
    if i >= ts.len() {
        Ok(())
    } else {
        Err(ErrV { msg: msg_trailing(), loc: tok_loc(ts[i]) })
    }
}

/// A bound value holds what its kind's domain allows.
pub open spec fn wf_value(v: ValueV) -> bool {
    match v.kind {
        Kind::Int => true,
        Kind::Byte => v.val <= 0x7F,
        Kind::Char => is_scalar(v.val as int),
    }
}

/// Every bound the literal parser accepts is well-formed.
pub proof fn lemma_parse_value_wf(text: Seq<char>, loc: u64)
    ensures
        spec_parse_value(text, loc) matches Some(v) ==> wf_value(v),
{
    if text.len() == 3 && text[0] == '\'' && text[2] == '\'' {
        let c = text[1];
        vstd::utf8::char_is_scalar(c);
        assert(is_scalar(c as u32 as u64 as int));
    }
}

/// Combines the two bounds into a range: the kinds must agree; explicit
/// suffixes must agree, and the one given (if any) is kept; an inclusive
/// range must have `begin <= end`, while a reversed exclusive range is legal
/// and simply empty. The padding width is taken from the begin bound.
pub open spec fn spec_validate_range(b: ValueV, e: ValueV, inclusive: bool) -> Result<
    RangeV,
    ErrV,
> {
    if b.kind != e.kind {
        Err(ErrV { msg: msg_kind(), loc: e.loc })
    } else if b.suffix.len() > 0 && e.suffix.len() > 0 && b.suffix != e.suffix {
        Err(ErrV { msg: msg_suffix(), loc: e.loc })
    } else if inclusive && b.val > e.val {
        Err(ErrV { msg: msg_order(), loc: e.loc })
    } else {
        Ok(
            RangeV {
                begin: b.val,
                end: e.val,
                inclusive,
                kind: b.kind,
                suffix: if b.suffix.len() > 0 {
                    b.suffix
                } else {
                    e.suffix
                },
                width: b.width,
            },
        )
    }
}

/// A range validated from well-formed bounds is well-formed.
pub proof fn lemma_validate_range_wf(b: ValueV, e: ValueV, inclusive: bool)
    requires
        wf_value(b),
        wf_value(e),
    ensures
        spec_validate_range(b, e, inclusive) matches Ok(r) ==> wf_range(r),
{
}

/// One parsed invocation: the loop variable, the range, and the body.
#[verifier::ext_equal]
pub struct InvV {
    pub var: Seq<char>,
    pub range: RangeV,
    pub body: Seq<TokTree>,
}

/// The whole header grammar, applied from position 0: variable, `in`,
/// begin bound, `..`, optional `=`, end bound, braced body, end of input.
pub open spec fn spec_parse_invocation(ts: Seq<TokTree>, call_loc: u64) -> Result<InvV, ErrV> {
    match step_ident(ts, 0, call_loc) {
        Err(e) => Err(e),
        Ok(var) => match step_keyword(ts, 1, "in"@, call_loc) {
            Err(e) => Err(e),
            Ok(_) => match step_value(ts, 2, call_loc) {
                Err(e) => Err(e),
                Ok(bval) => match step_punct(ts, 3, '.', call_loc) {
                    Err(e) => Err(e),
                    Ok(_) => match step_punct(ts, 4, '.', call_loc) {
                        Err(e) => Err(e),
                        Ok(_) => match step_if_punct(ts, 5, '=', call_loc) {
                            Err(e) => Err(e),
                            Ok(incl) => {
                                let p: int = if incl {
                                    6
                                } else {
                                    5
                                };
                                match step_value(ts, p, call_loc) {
                                    Err(e) => Err(e),
                                    Ok(ev) => match spec_validate_range(bval, ev, incl) {
                                        Err(e) => Err(e),
                                        Ok(range) => match step_braces(ts, p + 1, call_loc) {
                                            Err(e) => Err(e),
                                            Ok(body) => match step_end(ts, p + 2) {
                                                Err(e) => Err(e),
                                                Ok(_) => Ok(InvV { var, range, body }),
                                            },
                                        },
                                    },
                                }
                            },
                        },
                    },
                },
            },
        },
    }
}

/// A parsed invocation has a well-formed range.
pub proof fn lemma_parse_invocation_wf(ts: Seq<TokTree>, call_loc: u64)
    ensures
        spec_parse_invocation(ts, call_loc) matches Ok(inv) ==> wf_range(inv.range),
{
    if spec_parse_invocation(ts, call_loc) is Ok {
        let bval = step_value(ts, 2, call_loc)->Ok_0;
        assert(unwrap_nd(ts[2]) matches TokTree::Lit { text, loc } && spec_parse_value(text, loc)
            matches Some(v) && v == bval);
        let u = unwrap_nd(ts[2]);
        lemma_parse_value_wf(u->Lit_text, u->Lit_loc);
        let incl = step_if_punct(ts, 5, '=', call_loc)->Ok_0;
        let p: int = if incl {
            6
        } else {
            5
        };
        let ev = step_value(ts, p, call_loc)->Ok_0;
        let u2 = unwrap_nd(ts[p]);
        lemma_parse_value_wf(u2->Lit_text, u2->Lit_loc);
        lemma_validate_range_wf(bval, ev, incl);
    }
}

/// Consumes an identifier token, returning its text.
pub fn require_ident(tokens: &Vec<Token>, pos: &mut usize, call_loc: u64) -> (r: Result<
    String,
    SyntaxError,
>)
    ensures
        match step_ident(toks_view(tokens@), *old(pos) as int, call_loc) {
            Ok(name) => r matches Ok(s) && s@ == name && *final(pos) == *old(pos) + 1,
            Err(e) => r matches Err(se) && se@ == e && *final(pos) == *old(pos),
        },
{
    proof {
        lemma_toks_view_len(tokens@);
    }
    if *pos >= tokens.len() {
        return Err(mk_err("unexpected end of input", call_loc));
    }
    proof {
        lemma_toks_view_index(tokens@, *pos as int);
    }
    match &tokens[*pos] {
        Token::Ident { name, .. } => {
            let s = name.clone();
            *pos = *pos + 1;
            Ok(s)
        },
        t => Err(mk_err("expected ident", loc_of(t))),
    }
}

/// Consumes an identifier token that must spell the given keyword.
pub fn require_keyword(tokens: &Vec<Token>, pos: &mut usize, keyword: &str, call_loc: u64) -> (r:
    Result<(), SyntaxError>)
    ensures
        match step_keyword(toks_view(tokens@), *old(pos) as int, keyword@, call_loc) {
            Ok(_) => r is Ok && *final(pos) == *old(pos) + 1,
            Err(e) => r matches Err(se) && se@ == e && *final(pos) == *old(pos),
        },
{
    proof {
        lemma_toks_view_len(tokens@);
    }
    if *pos >= tokens.len() {
        return Err(mk_err("unexpected end of input", call_loc));
    }
    proof {
        lemma_toks_view_index(tokens@, *pos as int);
    }
    match &tokens[*pos] {
        Token::Ident { name, loc } => {
            let kws = String::from_str(keyword);
            if name.eq(&kws) {
                *pos = *pos + 1;
                Ok(())
            } else {
                Err(mk_expected_str_err(keyword, *loc))
            }
        },
        t => Err(mk_expected_str_err(keyword, loc_of(t))),
    }
}

/// Consumes a bound literal: an integer (underscores and a suffix
/// tolerated), a character, or a byte character, possibly wrapped in
/// invisible groups. The name is kept from the days when only integers were
/// accepted.
pub fn require_integer(tokens: &Vec<Token>, pos: &mut usize, call_loc: u64) -> (r: Result<
    Value,
    SyntaxError,
>)
    ensures
        match step_value(toks_view(tokens@), *old(pos) as int, call_loc) {
            Ok(v) => r matches Ok(pv) && pv@ == v && *final(pos) == *old(pos) + 1,
            Err(e) => r matches Err(se) && se@ == e && *final(pos) == *old(pos),
        },
{
    proof {
        lemma_toks_view_len(tokens@);
    }
    if *pos >= tokens.len() {
        return Err(mk_err("unexpected end of input", call_loc));
    }
    proof {
        lemma_toks_view_index(tokens@, *pos as int);
    }
    let ghost m0 = tok_view(tokens@[*pos as int]);
    let mut t: &Token = &tokens[*pos];
    loop
        invariant_except_break
            unwrap_nd(tok_view(*t)) == unwrap_nd(m0),
        ensures
            tok_view(*t) == unwrap_nd(m0),
        decreases tok_size(tok_view(*t)),
    {
        match t {
            Token::Group { delim, tokens: inner, .. } => {
                if matches!(*delim, Delim::NoDelim) && inner.len() == 1 {
                    proof {
                        lemma_toks_view_len(inner@);
                        lemma_toks_view_index(inner@, 0);
                        lemma_seq_size_elem(toks_view(inner@), 0);
                    }
                    t = &inner[0];
                } else {
                    proof {
                        lemma_toks_view_len(inner@);
                    }
                    break ;
                }
            },
            _ => {
                break ;
            },
        }
    }
    match t {
        Token::Lit { text, loc } => {
            match parse_value(text.as_str(), *loc) {
                Some(v) => {
                    *pos = *pos + 1;
                    Ok(v)
                },
                None => Err(mk_err("expected integer or char literal", *loc)),
            }
        },
        other => Err(mk_err("expected integer or char literal", loc_of(other))),
    }
}

/// Consumes a punctuation token that must be the given character.
pub fn require_punct(tokens: &Vec<Token>, pos: &mut usize, ch: char, call_loc: u64) -> (r: Result<
    (),
    SyntaxError,
>)
    ensures
        match step_punct(toks_view(tokens@), *old(pos) as int, ch, call_loc) {
            Ok(_) => r is Ok && *final(pos) == *old(pos) + 1,
            Err(e) => r matches Err(se) && se@ == e && *final(pos) == *old(pos),
        },
{
    proof {
        lemma_toks_view_len(tokens@);
    }
    if *pos >= tokens.len() {
        return Err(mk_err("unexpected end of input", call_loc));
    }
    proof {
        lemma_toks_view_index(tokens@, *pos as int);
    }
    match &tokens[*pos] {
        Token::Punct { ch: c, loc, .. } => {
            if *c == ch {
                *pos = *pos + 1;
                Ok(())
            } else {
                Err(mk_expected_char_err(ch, *loc))
            }
        },
        t => Err(mk_expected_char_err(ch, loc_of(t))),
    }
}

/// Peeks at the next token: if it is punctuation it must be the given
/// character and is consumed; otherwise nothing is consumed.
pub fn require_if_punct(tokens: &Vec<Token>, pos: &mut usize, ch: char, call_loc: u64) -> (r:
    Result<bool, SyntaxError>)
    ensures
        match step_if_punct(toks_view(tokens@), *old(pos) as int, ch, call_loc) {
            Ok(present) => r matches Ok(p) && p == present && *final(pos) == *old(pos) + (
            if present {
                1int
            } else {
                0int
            }),
            Err(e) => r matches Err(se) && se@ == e && *final(pos) == *old(pos),
        },
{
    proof {
        lemma_toks_view_len(tokens@);
    }
    if *pos < tokens.len() {
        proof {
            lemma_toks_view_index(tokens@, *pos as int);
        }
        let is_punct = matches!(&tokens[*pos], Token::Punct { .. });
        if is_punct {
            return match require_punct(tokens, pos, ch, call_loc) {
                Ok(_) => Ok(true),
                Err(e) => Err(e),
            };
        }
    }
    Ok(false)
}

/// Consumes a brace-delimited group, returning a copy of its contents.
pub fn require_braces(tokens: &Vec<Token>, pos: &mut usize, call_loc: u64) -> (r: Result<
    Vec<Token>,
    SyntaxError,
>)
    ensures
        match step_braces(toks_view(tokens@), *old(pos) as int, call_loc) {
            Ok(body) => r matches Ok(b) && toks_view(b@) == body && *final(pos) == *old(pos) + 1,
            Err(e) => r matches Err(se) && se@ == e && *final(pos) == *old(pos),
        },
{
    proof {
        lemma_toks_view_len(tokens@);
    }
    if *pos >= tokens.len() {
        return Err(mk_err("unexpected end of input", call_loc));
    }
    proof {
        lemma_toks_view_index(tokens@, *pos as int);
    }
    match &tokens[*pos] {
        Token::Group { delim, tokens: inner, loc } => {
            if matches!(delim, Delim::Brace) {
                let b = clone_tokens(inner);
                *pos = *pos + 1;
                Ok(b)
            } else {
                Err(mk_err("expected curly braces", *loc))
            }
        },
        t => Err(mk_err("expected curly braces", loc_of(t))),
    }
}

/// Requires that the whole input has been consumed.
pub fn require_end(tokens: &Vec<Token>, pos: &mut usize) -> (r: Result<(), SyntaxError>)
    ensures
        match step_end(toks_view(tokens@), *old(pos) as int) {
            Ok(_) => r is Ok,
            Err(e) => r matches Err(se) && se@ == e,
        },
        *final(pos) == *old(pos),
{
    proof {
        lemma_toks_view_len(tokens@);
    }
    if *pos < tokens.len() {
        proof {
            lemma_toks_view_index(tokens@, *pos as int);
        }
        return Err(mk_err("unexpected token", loc_of(&tokens[*pos])));
    }
    Ok(())
}

/// Combines two parsed bounds into a range, as `spec_validate_range` says.
pub fn validate_range(b: Value, e: Value, inclusive: bool) -> (r: Result<Range, SyntaxError>)
    ensures
        match spec_validate_range(b@, e@, inclusive) {
            Ok(rv) => r matches Ok(rr) && rr@ == rv,
            Err(ev) => r matches Err(se) && se@ == ev,
        },
{
    if !(b.kind == e.kind) {
        return Err(mk_err("expected range bounds of the same kind", e.loc));
    }
    let b_has_suffix = str_nonempty(&b.suffix);
    let e_has_suffix = str_nonempty(&e.suffix);
    if b_has_suffix && e_has_suffix && !b.suffix.eq(&e.suffix) {
        return Err(mk_err("expected range bounds with the same suffix", e.loc));
    }
    if inclusive && b.val > e.val {
        return Err(mk_err("expected inclusive range with begin <= end", e.loc));
    }
    let suffix = if b_has_suffix {
        b.suffix
    } else {
        e.suffix
    };
    Ok(
        Range {
            begin: b.val,
            end: e.val,
            inclusive,
            kind: b.kind,
            suffix,
            width: b.width,
        },
    )
}

/// True when the string holds at least one character.
fn str_nonempty(s: &String) -> (r: bool)
    ensures
        r == (s@.len() > 0),
{
    s.as_str().unicode_len() > 0
}

/// The `compile_error! { "message" }` fragment for a parse failure: three
/// tokens, all carrying the failure's location, the message quoted and
/// escaped as a string literal.
pub open spec fn compile_error_toks(e: ErrV) -> Seq<TokTree> {
    seq![
        TokTree::Ident { name: "compile_error"@, loc: e.loc },
        TokTree::Punct { ch: '!', joint: false, loc: e.loc },
        TokTree::Group {
            delim: Delim::Brace,
            children: seq![
                TokTree::Lit {
                    text: seq!['"'] + crate::text::escape_text(e.msg, '"') + seq!['"'],
                    loc: e.loc,
                },
            ],
            loc: e.loc,
        },
    ]
}

impl SyntaxError {
    /// Renders the failure as a `compile_error!` invocation, so that one
    /// syntax error surfaces as one diagnostic at the offending location.
    pub fn into_compile_error(self) -> (r: Vec<Token>)
        ensures
            toks_view(r@) == compile_error_toks(self@),
    {
        let mut text = String::new();
        crate::text::push_char(&mut text, '"');
        crate::text::push_escaped(&mut text, self.message.as_str(), '"');
        crate::text::push_char(&mut text, '"');
        proof {
            assert(text@ =~= seq!['"'] + crate::text::escape_text(self.message@, '"') + seq!['"']);
        }
        let mut inner: Vec<Token> = Vec::new();
        inner.push(Token::Lit { text, loc: self.loc });
        let mut out: Vec<Token> = Vec::new();
        out.push(Token::Ident { name: String::from_str("compile_error"), loc: self.loc });
        out.push(Token::Punct { ch: '!', joint: false, loc: self.loc });
        out.push(Token::Group { delim: Delim::Brace, tokens: inner, loc: self.loc });
        proof {
            lemma_toks_view_len(inner@);
            lemma_toks_view_index(inner@, 0);
            assert(toks_view(inner@) =~= compile_error_toks(self@)[2]->Group_children);
            lemma_toks_view_len(out@);
            lemma_toks_view_index(out@, 0);
            lemma_toks_view_index(out@, 1);
            lemma_toks_view_index(out@, 2);
            assert(toks_view(out@) =~~= compile_error_toks(self@));
        }
        out
    }
}

} // verus!
