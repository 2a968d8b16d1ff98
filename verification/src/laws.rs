//! General properties of the expander, stated once and proved for every
//! input: what a marker-free body expands to, how a single marker splits
//! the body into once-only surroundings and a repeated template, what an
//! empty range yields, and that byte ranges run over exactly the integer
//! values of their bounds.
use vstd::prelude::*;
use crate::expand::{
    expand_seq, expand_tok, expansion, is_marker, repeat_tpl, subst_seq,
};
use crate::range::{
    lemma_rvf_dense, range_len, range_values, range_values_from, upper, Kind, RangeV,
};
use crate::token::TokTree;

verus! {

/// No repetition marker occurs in the token, at any nesting depth.
pub open spec fn marker_free_tok(t: TokTree) -> bool
    decreases t,
{
    match t {
        TokTree::Group { children, .. } => marker_free(children),
        _ => true,
    }
}

/// No repetition marker occurs anywhere in the fragment: not at this level
/// and not inside any group.
pub open spec fn marker_free(ts: Seq<TokTree>) -> bool
    decreases ts,
{
    if ts.len() == 0 {
        true
    } else {
        marker_free_tok(ts[0]) && !(ts.len() >= 3 && is_marker(ts[0], ts[1], ts[2]))
            && marker_free(ts.subrange(1, ts.len() as int))
    }
}

/// The expansion pass leaves a marker-free token unchanged and reports no
/// find.
pub proof fn lemma_expand_no_marker_tok(t: TokTree, var: Seq<char>, r: RangeV)
    requires
        marker_free_tok(t),
    ensures
        expand_tok(t, var, r).0 == t,
        !expand_tok(t, var, r).1,
    decreases t,
{
    match t {
        TokTree::Group { children, .. } => {
            lemma_expand_no_marker(children, var, r);
        },
        _ => {},
    }
}

/// The expansion pass leaves a marker-free fragment unchanged and reports
/// no find.
pub proof fn lemma_expand_no_marker(ts: Seq<TokTree>, var: Seq<char>, r: RangeV)
    requires
        marker_free(ts),
    ensures
        expand_seq(ts, var, r).0 == ts,
        !expand_seq(ts, var, r).1,
    decreases ts,
{
    if ts.len() == 0 {
        assert(expand_seq(ts, var, r).0 =~= ts);
    } else if ts[0] is Group {
        lemma_expand_no_marker_tok(ts[0], var, r);
        lemma_expand_no_marker(ts.subrange(1, ts.len() as int), var, r);
        assert(expand_seq(ts, var, r).0 =~= ts);
    } else {
        lemma_expand_no_marker(ts.subrange(1, ts.len() as int), var, r);
        assert(expand_seq(ts, var, r).0 =~= ts);
    }
}

/// `repeat_tpl` is the flattening of the per-value substitutions, in range
/// order.
pub proof fn lemma_repeat_tpl_flatten(tpl: Seq<TokTree>, var: Seq<char>, r: RangeV, vals: Seq<u64>)
    ensures
        repeat_tpl(tpl, var, r, vals) == Seq::new(
            vals.len(),
            |k: int| subst_seq(tpl, var, r, vals[k]),
        ).flatten(),
    decreases vals.len(),
{
    let mapped = Seq::new(vals.len(), |k: int| subst_seq(tpl, var, r, vals[k]));
    if vals.len() == 0 {
        assert(mapped.len() == 0);
        assert(repeat_tpl(tpl, var, r, vals) =~= mapped.flatten());
    } else {
        let vals1 = vals.subrange(1, vals.len() as int);
        lemma_repeat_tpl_flatten(tpl, var, r, vals1);
        let mapped1 = Seq::new(vals1.len(), |k: int| subst_seq(tpl, var, r, vals1[k]));
        assert(mapped.drop_first() =~= mapped1);
        assert(mapped.first() == subst_seq(tpl, var, r, vals[0]));
        assert(repeat_tpl(tpl, var, r, vals) =~= mapped.flatten());
    }
}

/// For a marker-free body, the expansion is the body substituted once per
/// range value and concatenated: over an integer or byte range the count
/// equals the range's length, and the `k`-th copy substitutes `begin + k`.
pub proof fn lemma_no_marker_expansion(var: Seq<char>, r: RangeV, body: Seq<TokTree>)
    requires
        marker_free(body),
        r.kind is Int || r.kind is Byte,
    ensures
        range_values(r).len() == range_len(r),
        forall|k: int| 0 <= k < range_len(r) ==> range_values(r)[k] == r.begin + k,
        expansion(var, r, body) == Seq::new(
            range_len(r),
            |k: int| subst_seq(body, var, r, (r.begin + k) as u64),
        ).flatten(),
{
    lemma_expand_no_marker(body, var, r);
    lemma_rvf_dense(r.begin as int, upper(r), r.kind);
    let vals = range_values(r);
    lemma_repeat_tpl_flatten(body, var, r, vals);
    let mapped = Seq::new(vals.len(), |k: int| subst_seq(body, var, r, vals[k]));
    let direct = Seq::new(range_len(r), |k: int| subst_seq(body, var, r, (r.begin + k) as u64));
    assert(mapped =~= direct);
}

/// An empty exclusive range (`begin == end`) over a marker-free body
/// yields an empty expansion, with no error anywhere on the way.
pub proof fn lemma_empty_range_expansion(var: Seq<char>, r: RangeV, body: Seq<TokTree>)
    requires
        marker_free(body),
        !r.inclusive,
        r.begin == r.end,
    ensures
        expansion(var, r, body) == Seq::<TokTree>::empty(),
{
    lemma_expand_no_marker(body, var, r);
    assert(range_values(r) =~= Seq::<u64>::empty());
}

/// The values of an interval do not depend on the kind, as long as the
/// kind is not the character domain.
pub proof fn lemma_rvf_kind_irrelevant(lo: int, hi: int, k1: Kind, k2: Kind)
    requires
        !(k1 is Char),
        !(k2 is Char),
    ensures
        range_values_from(lo, hi, k1) == range_values_from(lo, hi, k2),
    decreases hi - lo,
{
    if lo < hi {
        lemma_rvf_kind_irrelevant(lo + 1, hi, k1, k2);
    }
}

/// A byte-character range runs over exactly the same values as an integer
/// range with the same bounds: the domains differ only in how a value is
/// written back into the output.
pub proof fn lemma_byte_range_values(r: RangeV)
    requires
        r.kind is Byte,
    ensures
        range_values(r) == range_values(RangeV { kind: Kind::Int, ..r }),
{
    lemma_rvf_kind_irrelevant(r.begin as int, upper(r), Kind::Byte, Kind::Int);
}

/// Tokens outside a single marker appear exactly once, unmodified, in
/// their original order; the marker's template appears once per range
/// value with substitution applied; and the marker is reported found.
pub proof fn lemma_marker_expansion(
    pre: Seq<TokTree>,
    a: TokTree,
    b: TokTree,
    c: TokTree,
    post: Seq<TokTree>,
    var: Seq<char>,
    r: RangeV,
)
    requires
        marker_free(pre),
        marker_free(post),
        is_marker(a, b, c),
    ensures
        expand_seq(pre + seq![a, b, c] + post, var, r).0 == pre + repeat_tpl(
            b->Group_children,
            var,
            r,
            range_values(r),
        ) + post,
        expand_seq(pre + seq![a, b, c] + post, var, r).1,
        expansion(var, r, pre + seq![a, b, c] + post) == pre + repeat_tpl(
            b->Group_children,
            var,
            r,
            range_values(r),
        ) + post,
    decreases pre.len(),
{
    let body = pre + seq![a, b, c] + post;
    let reps = repeat_tpl(b->Group_children, var, r, range_values(r));
    if pre.len() == 0 {
        assert(body[0] == a);
        assert(body[1] == b);
        assert(body[2] == c);
        assert(!(body[0] is Group));
        assert(body.len() == 3 + post.len());
        assert(body.subrange(3, body.len() as int) =~= post);
        lemma_expand_no_marker(post, var, r);
        assert(expand_seq(body, var, r).0 =~= pre + reps + post);
    } else {
        let p = pre[0];
        let pre1 = pre.subrange(1, pre.len() as int);
        let body1 = pre1 + seq![a, b, c] + post;
        assert(body[0] == p);
        assert(body.subrange(1, body.len() as int) =~= body1);
        lemma_marker_expansion(pre1, a, b, c, post, var, r);
        if p is Group {
            lemma_expand_no_marker_tok(p, var, r);
            assert(expand_seq(body, var, r).0 =~= pre + reps + post);
        } else {
            if body.len() >= 3 {
                if pre.len() >= 3 {
                    assert(body[1] == pre[1]);
                    assert(body[2] == pre[2]);
                    assert(!is_marker(body[0], body[1], body[2]));
                } else if pre.len() == 2 {
                    assert(body[1] == pre[1]);
                    assert(body[2] == a);
                    assert(!is_marker(body[0], body[1], body[2]));
                } else {
                    assert(body[1] == a);
                    assert(body[2] == b);
                    assert(!is_marker(body[0], body[1], body[2]));
                }
            }
            assert(expand_seq(body, var, r).0 =~= pre + reps + post);
        }
    }
}

} // verus!
