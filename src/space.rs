//! The index space `[0, s0) x ... x [0, s(n-1))` in mathematical form: the
//! row-major rank of a cursor (last index fastest), its inverse, and the
//! facts the job stack needs about them.
use vstd::arithmetic::div_mod::lemma_fundamental_div_mod_converse;
use vstd::prelude::*;

use crate::job::JobDimension;

verus! {

/// The spans of a sequence of dimensions.
pub open spec fn spans_of(d: Seq<JobDimension>) -> Seq<usize> {
    Seq::new(d.len(), |k: int| d[k].span)
}

/// A span vector that describes a non-empty space: at least one dimension, none of them empty.
pub open spec fn valid_spans(spans: Seq<usize>) -> bool {
    &&& spans.len() >= 1
    &&& forall|k: int| 0 <= k < spans.len() ==> spans[k] > 0
}

/// Number of cells of the space.
pub open spec fn total(spans: Seq<usize>) -> int
    decreases spans.len(),
{
    if spans.len() == 0 {
        1
    } else {
        total(spans.drop_last()) * spans.last()
    }
}

/// Row-major position of a cursor, the last index varying fastest.
pub open spec fn rank(d: Seq<JobDimension>) -> int
    decreases d.len(),
{
    if d.len() == 0 {
        0
    } else {
        rank(d.drop_last()) * d.last().span + d.last().index
    }
}

/// The cursor at row-major position `p`. At `p == total(spans)` it is the
/// exhausted cursor: first index equal to its span, all others zero.
pub open spec fn unrank(spans: Seq<usize>, p: int) -> Seq<JobDimension>
    decreases spans.len(),
{
    if spans.len() == 0 {
        Seq::empty()
    } else if spans.len() == 1 {
        seq![JobDimension { index: p as usize, span: spans[0] }]
    } else {
        unrank(spans.drop_last(), p / (spans.last() as int)).push(
            JobDimension { index: (p % (spans.last() as int)) as usize, span: spans.last() },
        )
    }
}

/// Every index lies below its span.
pub open spec fn in_bounds(d: Seq<JobDimension>) -> bool {
    forall|k: int| 0 <= k < d.len() ==> d[k].index < d[k].span
}

/// `d` is a cell of the space spanned by `spans`.
pub open spec fn is_cell_of(d: Seq<JobDimension>, spans: Seq<usize>) -> bool {
    &&& d.len() == spans.len()
    &&& spans_of(d) == spans
    &&& in_bounds(d)
}

/// The shapes a cursor over a non-empty space can take: a cell, or the
/// exhausted position, where the first index equals its span and the others are zero.
pub open spec fn cursor_shape(d: Seq<JobDimension>) -> bool {
    &&& valid_spans(spans_of(d))
    &&& d[0].index <= d[0].span
    &&& forall|k: int| 1 <= k < d.len() ==> d[k].index < d[k].span
    &&& d[0].index == d[0].span ==> forall|k: int| 1 <= k < d.len() ==> d[k].index == 0
}

pub proof fn lemma_spans_of_drop_last(d: Seq<JobDimension>)
    requires
        d.len() > 0,
    ensures
        spans_of(d.drop_last()) == spans_of(d).drop_last(),
        spans_of(d).last() == d.last().span,
{
    assert(spans_of(d.drop_last()) =~= spans_of(d).drop_last());
}

pub proof fn lemma_total_single(spans: Seq<usize>)
    requires
        spans.len() == 1,
    ensures
        total(spans) == spans[0],
{
    assert(spans.drop_last().len() == 0);
    assert(total(spans.drop_last()) == 1);
    assert(spans.last() == spans[0]);
    assert(total(spans) == 1 * (spans[0] as int));
}

pub proof fn lemma_rank_single(d: Seq<JobDimension>)
    requires
        d.len() == 1,
    ensures
        rank(d) == d[0].index,
{
    assert(d.drop_last().len() == 0);
    assert(rank(d.drop_last()) == 0);
    assert(d.last() == d[0]);
    assert(rank(d) == 0 * (d[0].span as int) + d[0].index);
}

pub proof fn lemma_total_positive(spans: Seq<usize>)
    requires
        forall|k: int| 0 <= k < spans.len() ==> spans[k] > 0,
    ensures
        total(spans) >= 1,
    decreases spans.len(),
{
    if spans.len() > 0 {
        lemma_total_positive(spans.drop_last());
        let t = total(spans.drop_last());
        let s = spans.last() as int;
        assert(t * s >= 1) by (nonlinear_arith)
            requires
                t >= 1,
                s >= 1,
        ;
    }
}

/// Cells have ranks below the total; the exhausted cursor has rank exactly the total.
pub proof fn lemma_rank_bounds(d: Seq<JobDimension>)
    requires
        cursor_shape(d),
    ensures
        0 <= rank(d) <= total(spans_of(d)),
        rank(d) == total(spans_of(d)) <==> d[0].index == d[0].span,
    decreases d.len(),
{
    lemma_spans_of_drop_last(d);
    if d.len() == 1 {
        lemma_rank_single(d);
        lemma_total_single(spans_of(d));
    } else {
        let e = d.drop_last();
        assert(cursor_shape(e)) by {
            assert forall|k: int| 0 <= k < spans_of(e).len() implies spans_of(e)[k] > 0 by {
                assert(spans_of(d)[k] > 0);
            }
        }
        lemma_rank_bounds(e);
        let r = rank(e);
        let t = total(spans_of(e));
        let s = d.last().span as int;
        let i = d.last().index as int;
        assert(0 <= i < s);
        assert(0 <= r * s + i <= t * s) by (nonlinear_arith)
            requires
                0 <= r <= t,
                0 <= i < s,
                r == t ==> i == 0,
        ;
        if d[0].index == d[0].span {
            assert(i == 0);
        } else {
            assert(r * s + i < t * s) by (nonlinear_arith)
                requires
                    0 <= r < t,
                    0 <= i < s,
            ;
        }
    }
}

/// `unrank` gives a cursor of the right spans, and inverts `rank`.
pub proof fn lemma_unrank(spans: Seq<usize>, p: int)
    requires
        valid_spans(spans),
        0 <= p <= total(spans),
    ensures
        unrank(spans, p).len() == spans.len(),
        spans_of(unrank(spans, p)) == spans,
        cursor_shape(unrank(spans, p)),
        rank(unrank(spans, p)) == p,
        p < total(spans) ==> in_bounds(unrank(spans, p)),
    decreases spans.len(),
{
    let u = unrank(spans, p);
    if spans.len() == 1 {
        lemma_total_single(spans);
        assert(u[0].index == p);
        assert(spans_of(u) =~= spans);
        lemma_rank_single(u);
    } else {
        let sp = spans.drop_last();
        let s = spans.last() as int;
        assert(valid_spans(sp));
        lemma_total_positive(sp);
        let t = total(sp);
        let q = p / s;
        let m = p % s;
        assert(p == s * q + m && 0 <= m < s) by {
            vstd::arithmetic::div_mod::lemma_fundamental_div_mod(p, s);
        }
        assert(0 <= q <= t && (q == t ==> m == 0) && (p < t * s ==> q < t)) by (nonlinear_arith)
            requires
                p == s * q + m,
                0 <= m < s,
                0 <= p <= t * s,
        ;
        lemma_unrank(sp, q);
        let w = unrank(sp, q);
        assert(u.drop_last() =~= w);
        assert forall|k: int| 0 <= k < u.len() implies #[trigger] u[k].span == spans[k] by {
            if k < u.len() - 1 {
                assert(u[k] == w[k]);
                assert(spans_of(w)[k] == sp[k]);
            }
        }
        assert(spans_of(u) =~= spans);
        assert(u[0] == w[0]);
        assert forall|k: int| 1 <= k < u.len() implies #[trigger] u[k].index < u[k].span by {
            if k < u.len() - 1 {
                assert(u[k] == w[k]);
            }
        }
        assert(u.last().index == m && u.last().span == s);
        assert(rank(w) == q);
        assert(rank(u) == rank(w) * s + m);
        assert(q * s + m == p) by (nonlinear_arith)
            requires
                p == s * q + m,
        ;
        if w[0].index == w[0].span {
            assert(q == t) by {
                lemma_rank_bounds(w);
            }
            assert forall|k: int| 1 <= k < u.len() implies #[trigger] u[k].index == 0 by {
                if k < u.len() - 1 {
                    assert(u[k] == w[k]);
                }
            }
        }
    }
}

/// A cursor is the one `unrank` gives at its rank.
pub proof fn lemma_unrank_rank(d: Seq<JobDimension>)
    requires
        cursor_shape(d),
    ensures
        unrank(spans_of(d), rank(d)) == d,
    decreases d.len(),
{
    lemma_spans_of_drop_last(d);
    if d.len() == 1 {
        lemma_rank_single(d);
        assert(spans_of(d)[0] == d[0].span);
        assert(unrank(spans_of(d), rank(d)) =~= d);
    } else {
        let e = d.drop_last();
        assert(cursor_shape(e)) by {
            assert forall|k: int| 0 <= k < spans_of(e).len() implies spans_of(e)[k] > 0 by {
                assert(spans_of(d)[k] > 0);
            }
        }
        lemma_unrank_rank(e);
        let s = d.last().span as int;
        let i = d.last().index as int;
        lemma_fundamental_div_mod_converse(rank(d), s, rank(e), i);
        assert(unrank(spans_of(d), rank(d)) =~= d);
    }
}

pub proof fn lemma_total_concat(a: Seq<usize>, b: Seq<usize>)
    ensures
        total(a + b) == total(a) * total(b),
    decreases b.len(),
{
    if b.len() == 0 {
        assert(a + b =~= a);
    } else {
        lemma_total_concat(a, b.drop_last());
        assert((a + b).drop_last() =~= a + b.drop_last());
        let ta = total(a);
        let tb = total(b.drop_last());
        let s = b.last() as int;
        assert(ta * tb * s == ta * (tb * s)) by (nonlinear_arith);
    }
}

pub proof fn lemma_rank_concat(a: Seq<JobDimension>, b: Seq<JobDimension>)
    ensures
        rank(a + b) == rank(a) * total(spans_of(b)) + rank(b),
    decreases b.len(),
{
    if b.len() == 0 {
        assert(a + b =~= a);
        assert(spans_of(b) =~= Seq::<usize>::empty());
    } else {
        lemma_rank_concat(a, b.drop_last());
        assert((a + b).drop_last() =~= a + b.drop_last());
        lemma_spans_of_drop_last(b);
        let ra = rank(a);
        let tb = total(spans_of(b.drop_last()));
        let rb = rank(b.drop_last());
        let s = b.last().span as int;
        assert((ra * tb + rb) * s == ra * (tb * s) + rb * s) by (nonlinear_arith);
    }
}

pub proof fn lemma_rank_zero(d: Seq<JobDimension>)
    requires
        forall|k: int| 0 <= k < d.len() ==> d[k].index == 0,
    ensures
        rank(d) == 0,
    decreases d.len(),
{
    if d.len() > 0 {
        lemma_rank_zero(d.drop_last());
        assert(d.last().index == 0);
        assert(rank(d.drop_last()) * d.last().span == 0);
    }
}

/// The row-major enumeration is a bijection between the positions
/// `0 .. total(spans)` and the cells of the space: position `p` is the cell
/// `unrank(spans, p)`, every cell has exactly one position, and distinct
/// positions give distinct cells.
pub proof fn lemma_enumeration_bijective(spans: Seq<usize>)
    requires
        valid_spans(spans),
    ensures
        forall|p: int|
            0 <= p < total(spans) ==> is_cell_of(#[trigger] unrank(spans, p), spans) && rank(
                unrank(spans, p),
            ) == p,
        forall|p: int, q: int|
            0 <= p < total(spans) && 0 <= q < total(spans) && #[trigger] unrank(spans, p)
                == #[trigger] unrank(spans, q) ==> p == q,
        forall|c: Seq<JobDimension>|
            #[trigger] is_cell_of(c, spans) ==> 0 <= rank(c) < total(spans) && unrank(spans, rank(c))
                == c,
{
    assert forall|p: int| 0 <= p < total(spans) implies is_cell_of(#[trigger] unrank(spans, p), spans)
        && rank(unrank(spans, p)) == p by {
        lemma_unrank(spans, p);
    }
    assert forall|p: int, q: int|
        0 <= p < total(spans) && 0 <= q < total(spans) && #[trigger] unrank(spans, p)
            == #[trigger] unrank(spans, q) implies p == q by {
        lemma_unrank(spans, p);
        lemma_unrank(spans, q);
    }
    assert forall|c: Seq<JobDimension>| #[trigger] is_cell_of(c, spans) implies 0 <= rank(c) < total(
        spans,
    ) && unrank(spans, rank(c)) == c by {
        assert(cursor_shape(c));
        lemma_rank_bounds(c);
        lemma_unrank_rank(c);
    }
}

} // verus!
