//! The token tree model: the data structure that the parser consumes and the
//! expander rewrites.
//!
//! A token is an identifier, a literal, a punctuation character, or a
//! delimited group owning a sequence of child tokens. Every token carries a
//! source location `loc`, an opaque provenance tag; synthesized tokens always
//! take the location of the token they replace, never a fresh one.
use vstd::prelude::*;

verus! {

/// The delimiter of a token group: parentheses, braces, brackets, or no
/// visible delimiter at all (an invisible group, as macro expansion can
/// produce).
#[derive(Clone, Copy, Debug, PartialEq, Eq, Structural)]
pub enum Delim {
    Paren,
    Brace,
    Bracket,
    NoDelim,
}

/// One token of the tree: the executable representation.
#[derive(Debug, PartialEq, Eq)]
pub enum Token {
    Ident { name: String, loc: u64 },
    Lit { text: String, loc: u64 },
    Punct { ch: char, joint: bool, loc: u64 },
    Group { delim: Delim, tokens: Vec<Token>, loc: u64 },
}

/// The mathematical model of one token: text as `Seq<char>`, children as
/// `Seq<TokTree>`.
#[verifier::ext_equal]
pub enum TokTree {
    Ident { name: Seq<char>, loc: u64 },
    Lit { text: Seq<char>, loc: u64 },
    Punct { ch: char, joint: bool, loc: u64 },
    Group { delim: Delim, children: Seq<TokTree>, loc: u64 },
}

/// The model of one executable token.
pub open spec fn tok_view(t: Token) -> TokTree
    decreases t,
{
    match t {
        Token::Ident { name, loc } => TokTree::Ident { name: name@, loc },
        Token::Lit { text, loc } => TokTree::Lit { text: text@, loc },
        Token::Punct { ch, joint, loc } => TokTree::Punct { ch, joint, loc },
        Token::Group { delim, tokens, loc } => TokTree::Group {
            delim,
            children: toks_view(tokens@),
            loc,
        },
    }
}

/// The model of a sequence of executable tokens.
pub open spec fn toks_view(ts: Seq<Token>) -> Seq<TokTree>
    decreases ts,
{
    if ts.len() == 0 {
        Seq::empty()
    } else {
        seq![tok_view(ts[0])] + toks_view(ts.subrange(1, ts.len() as int))
    }
}

/// `toks_view` maps the view over the sequence, element by element.
pub broadcast proof fn lemma_toks_view_len(ts: Seq<Token>)
    ensures
        (#[trigger] toks_view(ts)).len() == ts.len(),
    decreases ts,
{
    if ts.len() != 0 {
        lemma_toks_view_len(ts.subrange(1, ts.len() as int));
    }
}

pub broadcast proof fn lemma_toks_view_index(ts: Seq<Token>, i: int)
    requires
        0 <= i < ts.len(),
    ensures
        toks_view(ts).len() == ts.len(),
        #[trigger] toks_view(ts)[i] == tok_view(ts[i]),
    decreases ts,
{
    lemma_toks_view_len(ts);
    if i != 0 {
        lemma_toks_view_index(ts.subrange(1, ts.len() as int), i - 1);
    }
}

/// The source location carried by a token.
pub open spec fn tok_loc(t: TokTree) -> u64 {
    match t {
        TokTree::Ident { loc, .. } => loc,
        TokTree::Lit { loc, .. } => loc,
        TokTree::Punct { loc, .. } => loc,
        TokTree::Group { loc, .. } => loc,
    }
}

/// Viewing a concatenation concatenates the views.
pub proof fn lemma_toks_view_concat(a: Seq<Token>, b: Seq<Token>)
    ensures
        toks_view(a + b) == toks_view(a) + toks_view(b),
{
    lemma_toks_view_len(a);
    lemma_toks_view_len(b);
    lemma_toks_view_len(a + b);
    assert forall|j: int| 0 <= j < (a + b).len() implies toks_view(a + b)[j] == (toks_view(a)
        + toks_view(b))[j] by {
        lemma_toks_view_index(a + b, j);
        if j < a.len() {
            lemma_toks_view_index(a, j);
            assert((a + b)[j] == a[j]);
        } else {
            lemma_toks_view_index(b, j - a.len());
            assert((a + b)[j] == b[j - a.len()]);
        }
    }
    assert(toks_view(a + b) =~= toks_view(a) + toks_view(b));
}

/// Viewing after a push appends the pushed token's view.
pub proof fn lemma_toks_view_push(a: Seq<Token>, t: Token)
    ensures
        toks_view(a.push(t)) == toks_view(a) + seq![tok_view(t)],
{
    assert(a.push(t) =~= a + seq![t]);
    lemma_toks_view_concat(a, seq![t]);
    lemma_toks_view_len(seq![t]);
    lemma_toks_view_index(seq![t], 0);
    assert(toks_view(seq![t]) =~= seq![tok_view(t)]);
}

/// Structural size of one token: a group counts itself plus its children.
/// Used as a termination measure when walking nested groups.
pub open spec fn tok_size(t: TokTree) -> nat
    decreases t,
{
    match t {
        TokTree::Group { children, .. } => 1 + seq_size(children),
        _ => 1,
    }
}

/// Structural size of a token sequence: the sum of the sizes of its tokens.
pub open spec fn seq_size(ts: Seq<TokTree>) -> nat
    decreases ts,
{
    if ts.len() == 0 {
        0
    } else {
        tok_size(ts[0]) + seq_size(ts.subrange(1, ts.len() as int))
    }
}

/// Every token in a sequence contributes its full size to the sequence's
/// size; in particular a group's children weigh less than the whole sequence.
pub proof fn lemma_seq_size_elem(ts: Seq<TokTree>, i: int)
    requires
        0 <= i < ts.len(),
    ensures
        tok_size(ts[i]) <= seq_size(ts),
    decreases ts.len(),
{
    if i == 0 {
    } else {
        let rest = ts.subrange(1, ts.len() as int);
        lemma_seq_size_elem(rest, i - 1);
        assert(rest[i - 1] == ts[i]);
    }
}

impl Clone for Token {
    /// Structural copy: the clone has the same model as the original.
    fn clone(&self) -> (r: Token)
        ensures
            tok_view(r) == tok_view(*self),
        decreases tok_size(tok_view(*self)), 0int,
    {
        match self {
            Token::Ident { name, loc } => Token::Ident { name: name.clone(), loc: *loc },
            Token::Lit { text, loc } => Token::Lit { text: text.clone(), loc: *loc },
            Token::Punct { ch, joint, loc } => Token::Punct {
                ch: *ch,
                joint: *joint,
                loc: *loc,
            },
            Token::Group { delim, tokens, loc } => Token::Group {
                delim: *delim,
                tokens: clone_tokens(tokens),
                loc: *loc,
            },
        }
    }
}

/// Structural copy of a token sequence, preserving the model.
pub fn clone_tokens(ts: &Vec<Token>) -> (r: Vec<Token>)
    ensures
        toks_view(r@) == toks_view(ts@),
    decreases seq_size(toks_view(ts@)), 1int,
{
    let ghost m = toks_view(ts@);
    let mut out: Vec<Token> = Vec::new();
    let mut i: usize = 0;
    proof {
        lemma_toks_view_len(out@);
        assert(toks_view(out@) =~= m.subrange(0, 0));
    }
    while i < ts.len()
        invariant
            i <= ts.len(),
            m == toks_view(ts@),
            toks_view(out@) == m.subrange(0, i as int),
            out@.len() == i,
        decreases ts.len() - i,
    {
        proof {
            lemma_toks_view_index(ts@, i as int);
            lemma_seq_size_elem(m, i as int);
        }
        let t = ts[i].clone();
        let ghost prev = out@;
        out.push(t);
        proof {
            assert forall|j: int| 0 <= j < out@.len() implies toks_view(out@)[j] == m.subrange(
                0,
                i as int + 1,
            )[j] by {
                lemma_toks_view_index(out@, j);
                if j < i {
                    lemma_toks_view_index(prev, j);
                    assert(out@[j] == prev[j]);
                } else {
                    assert(out@[j] == t);
                }
            }
            lemma_toks_view_len(out@);
            assert(toks_view(out@) =~= m.subrange(0, i as int + 1));
        }
        i = i + 1;
    }
    proof {
        assert(m.subrange(0, m.len() as int) =~= m);
        lemma_toks_view_len(ts@);
    }
    out
}

} // verus!
