use crate::model::{
    add_on_range, fits_i32, ints, lemma_sum_add_on_range, lemma_sum_split, lemma_wrap32_fits,
    sum, wrap32,
};
use vstd::prelude::*;

verus! {

/// A tree built from `v` reads back `v[i]` at every index `i`: the view of
/// a new tree is `ints(v)`, and a read returns the view's value wrapped to
/// `i32`, which for an `i32` value is the value itself.
pub proof fn lemma_construction_identity(v: Seq<i32>, i: int)
    requires
        0 <= i < v.len(),
    ensures
        ints(v)[i] == v[i] as int,
        wrap32(ints(v)[i]) == v[i] as int,
{
    lemma_wrap32_fits(v[i] as int);
}

/// After writing `x` at `p`, reading `p` gives `x`, and the total is the old
/// total with the old value at `p` replaced by `x`.
pub proof fn lemma_set_then_read(s: Seq<int>, p: int, x: i32)
    requires
        0 <= p < s.len(),
    ensures
        wrap32(s.update(p, x as int)[p]) == x as int,
        sum(s.update(p, x as int), 0, s.len() as int) == sum(s, 0, s.len() as int) - s[p] + x,
{
    let t = s.update(p, x as int);
    lemma_wrap32_fits(x as int);
    lemma_sum_split(s, 0, p, s.len() as int);
    lemma_sum_split(t, 0, p, s.len() as int);
    lemma_sum_split(s, p, p + 1, s.len() as int);
    lemma_sum_split(t, p, p + 1, s.len() as int);
    assert(sum(s, 0, p) == sum(t, 0, p)) by {
        crate::model::lemma_sum_agree(s, t, 0, p, 0);
    }
    assert(sum(s, p + 1, s.len() as int) == sum(t, p + 1, s.len() as int)) by {
        crate::model::lemma_sum_agree(s, t, p + 1, s.len() as int, 0);
    }
    assert(sum(s, p, p) == 0 && sum(t, p, p) == 0);
}

/// An empty range sums to zero, and a range sum splits at any point.
pub proof fn lemma_range_sum(s: Seq<int>, l: int, m: int, r: int)
    requires
        l <= m <= r,
    ensures
        sum(s, l, l) == 0,
        wrap32(sum(s, l, l)) == 0,
        sum(s, l, r) == sum(s, l, m) + sum(s, m, r),
        fits_i32(sum(s, l, r)) ==> wrap32(sum(s, l, r)) == sum(s, l, r),
{
    lemma_wrap32_fits(0);
    lemma_sum_split(s, l, m, r);
    if fits_i32(sum(s, l, r)) {
        lemma_wrap32_fits(sum(s, l, r));
    }
}

/// Adding `d` on `[l, r)` raises each value inside the range by `d`, leaves
/// the others, and raises the total by `d * (r - l)`.
pub proof fn lemma_range_add(s: Seq<int>, l: int, r: int, d: int, i: int)
    requires
        0 <= l <= r <= s.len(),
        0 <= i < s.len(),
    ensures
        add_on_range(s, l, r, d)[i] == if l <= i < r {
            s[i] + d
        } else {
            s[i]
        },
        sum(add_on_range(s, l, r, d), 0, s.len() as int) == sum(s, 0, s.len() as int) + d * (r
            - l),
{
    lemma_sum_add_on_range(s, l, r, d, 0, s.len() as int);
    if r <= l {
        assert(d * (r - l) == 0) by (nonlinear_arith)
            requires
                r == l,
        ;
    }
}

} // verus!
