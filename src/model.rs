use vstd::arithmetic::div_mod::{
    lemma_add_mod_noop, lemma_div_denominator, lemma_fundamental_div_mod_converse,
    lemma_mod_multiples_vanish, lemma_mod_twice, lemma_mul_mod_noop_right,
};
use vstd::prelude::*;

verus! {

/// `2^h`.
pub open spec fn two_pow(h: nat) -> nat
    decreases h,
{
    if h == 0 {
        1
    } else {
        2 * two_pow((h - 1) as nat)
    }
}

/// Sum of `s[lo..hi)`; empty (zero) when `hi <= lo`.
pub open spec fn sum(s: Seq<int>, lo: int, hi: int) -> int
    decreases hi - lo,
{
    if hi <= lo {
        0
    } else {
        sum(s, lo, hi - 1) + s[hi - 1]
    }
}

/// The class of `x` modulo `2^32`: two integers with the same residue are
/// stored as the same `i32` under two's-complement wrapping.
pub open spec fn residue(x: int) -> int {
    x % 0x1_0000_0000
}

/// The `i32` that two's-complement wrapping arithmetic produces for `x`.
pub open spec fn wrap32(x: int) -> int {
    if residue(x) > i32::MAX {
        residue(x) - 0x1_0000_0000
    } else {
        residue(x)
    }
}

/// `x` is representable as an `i32`.
pub open spec fn fits_i32(x: int) -> bool {
    i32::MIN <= x <= i32::MAX
}

/// `s` with `delta` added to every element whose index lies in `[l, r)`.
pub open spec fn add_on_range(s: Seq<int>, l: int, r: int, delta: int) -> Seq<int> {
    Seq::new(s.len(), |i: int| if l <= i < r { s[i] + delta } else { s[i] })
}

/// The `i32` values of `v` as mathematical integers.
pub open spec fn ints(v: Seq<i32>) -> Seq<int> {
    v.map_values(|x: i32| x as int)
}

/// `size` leaves, `2^log` of them, is the smallest power of two that holds
/// `n` values (one leaf when `n` is zero).
pub open spec fn minimal_shape(n: int, size: int, log: int) -> bool {
    &&& log >= 0
    &&& size == two_pow(log as nat)
    &&& n <= size
    &&& (size == 1 || size < 2 * n)
}

/// Node `a` lies on the path from node `j` up to the root of a 1-indexed
/// implicit binary tree (node `j` counts as its own ancestor).
pub open spec fn anc(a: int, j: int) -> bool
    decreases j,
{
    if j < 1 {
        false
    } else if j == a {
        true
    } else {
        j > 1 && anc(a, j / 2)
    }
}

/// Node `a` is a strict ancestor of node `j`.
pub open spec fn above(a: int, j: int) -> bool {
    j > 1 && anc(a, j / 2)
}

pub proof fn lemma_two_pow_pos(h: nat)
    ensures
        two_pow(h) >= 1,
    decreases h,
{
    if h > 0 {
        lemma_two_pow_pos((h - 1) as nat);
    }
}

pub proof fn lemma_sum_split(s: Seq<int>, lo: int, mid: int, hi: int)
    requires
        lo <= mid <= hi,
    ensures
        sum(s, lo, hi) == sum(s, lo, mid) + sum(s, mid, hi),
    decreases hi - mid,
{
    if hi > mid {
        lemma_sum_split(s, lo, mid, hi - 1);
    }
}

/// Sums agree where the two sequences agree.
pub proof fn lemma_sum_agree(s: Seq<int>, t: Seq<int>, lo: int, hi: int, off: int)
    requires
        forall|i: int| lo <= i < hi ==> s[i] == t[i + off],
    ensures
        sum(s, lo, hi) == sum(t, lo + off, hi + off),
    decreases hi - lo,
{
    if hi > lo {
        lemma_sum_agree(s, t, lo, hi - 1, off);
    }
}

pub proof fn lemma_sum_zero(s: Seq<int>, lo: int, hi: int)
    requires
        forall|i: int| lo <= i < hi ==> s[i] == 0,
    ensures
        sum(s, lo, hi) == 0,
    decreases hi - lo,
{
    if hi > lo {
        lemma_sum_zero(s, lo, hi - 1);
    }
}

/// Adding `delta` on `[l, r)` raises the sum over `[lo, hi)` by `delta` for
/// each index of the overlap.
pub proof fn lemma_sum_add_on_range(s: Seq<int>, l: int, r: int, delta: int, lo: int, hi: int)
    requires
        0 <= lo <= hi <= s.len(),
        l <= r,
    ensures
        sum(add_on_range(s, l, r, delta), lo, hi) == sum(s, lo, hi) + delta * (
        if hi <= l || r <= lo || hi <= lo {
            0
        } else {
            (if hi < r {
                hi
            } else {
                r
            }) - (if lo > l {
                lo
            } else {
                l
            })
        }),
    decreases hi - lo,
{
    if hi > lo {
        lemma_sum_add_on_range(s, l, r, delta, lo, hi - 1);
        assert(delta * (hi - lo) == delta * (hi - 1 - lo) + delta) by (nonlinear_arith);
        assert(delta * (hi - l) == delta * (hi - 1 - l) + delta) by (nonlinear_arith);
    }
}

pub proof fn lemma_residue_add(a: int, b: int)
    ensures
        residue(a + b) == residue(residue(a) + residue(b)),
{
    lemma_add_mod_noop(a, b, 0x1_0000_0000);
}

/// Adding integers of equal residue gives sums of equal residue.
pub proof fn lemma_residue_add_cong(a: int, b: int, c: int, e: int)
    requires
        residue(a) == residue(c),
        residue(b) == residue(e),
    ensures
        residue(a + b) == residue(c + e),
{
    lemma_residue_add(a, b);
    lemma_residue_add(c, e);
}

pub proof fn lemma_residue_mul_cong(p: int, a: int, b: int)
    requires
        residue(a) == residue(b),
    ensures
        residue(p * a) == residue(p * b),
{
    lemma_mul_mod_noop_right(p, a, 0x1_0000_0000);
    lemma_mul_mod_noop_right(p, b, 0x1_0000_0000);
}

pub proof fn lemma_residue_shift(x: int, k: int)
    ensures
        residue(x + k * 0x1_0000_0000) == residue(x),
{
    lemma_mod_multiples_vanish(k, x, 0x1_0000_0000);
    assert(0x1_0000_0000 * k + x == x + k * 0x1_0000_0000) by (nonlinear_arith);
}

pub proof fn lemma_wrapping_add(a: i32, b: i32)
    ensures
        residue(a.wrapping_add(b) as int) == residue(a + b),
        a.wrapping_add(b) as int == wrap32(a + b),
{
    let s = a.wrapping_add(b) as int;
    if a + b > i32::MAX {
        lemma_residue_shift(a + b, -1);
    } else if a + b < i32::MIN {
        lemma_residue_shift(a + b, 1);
    }
    assert(s == a + b || s == a + b - 0x1_0000_0000 || s == a + b + 0x1_0000_0000);
    lemma_wrap32_exact(s, a + b);
}

pub proof fn lemma_wrapping_mul(a: i32, b: i32)
    ensures
        residue(a.wrapping_mul(b) as int) == residue(a * b),
{
    let x = a * b;
    lemma_mod_twice(x, 0x1_0000_0000);
    if x % 0x1_0000_0000 > i32::MAX {
        lemma_residue_shift(x % 0x1_0000_0000, -1);
    }
}

/// Residues of the integers in `[-2^32, 2^32)`.
pub proof fn lemma_residue_small(x: int)
    requires
        -0x1_0000_0000 <= x < 0x1_0000_0000,
    ensures
        residue(x) == if x >= 0 {
            x
        } else {
            x + 0x1_0000_0000
        },
{
    if x >= 0 {
        lemma_fundamental_div_mod_converse(x, 0x1_0000_0000, 0, x);
    } else {
        lemma_fundamental_div_mod_converse(x, 0x1_0000_0000, -1, x + 0x1_0000_0000);
    }
}

/// An `i32` is determined by its residue.
pub proof fn lemma_wrap32_exact(x: int, y: int)
    requires
        residue(x) == residue(y),
        fits_i32(x),
    ensures
        x == wrap32(y),
{
    lemma_residue_small(x);
}

/// A representable value wraps to itself.
pub proof fn lemma_wrap32_fits(x: int)
    requires
        fits_i32(x),
    ensures
        wrap32(x) == x,
{
    lemma_wrap32_exact(x, x);
}

/// `j / 2^t`, when positive, is an ancestor of `j`.
pub proof fn lemma_anc_of_quotient(j: int, t: nat)
    requires
        j >= 1,
        j / (two_pow(t) as int) >= 1,
    ensures
        anc(j / (two_pow(t) as int), j),
    decreases t,
{
    lemma_two_pow_pos(t);
    if t > 0 {
        let tp = (t - 1) as nat;
        lemma_two_pow_pos(tp);
        lemma_div_denominator(j, 2, two_pow(tp) as int);
        assert(two_pow(t) == 2 * two_pow(tp));
        assert(j / (two_pow(t) as int) == (j / 2) / (two_pow(tp) as int));
        assert(j >= 2) by {
            if j < 2 {
                assert(j / (two_pow(t) as int) == 0) by (nonlinear_arith)
                    requires
                        two_pow(t) >= 2,
                        0 <= j < 2,
                ;
            }
        }
        lemma_anc_of_quotient(j / 2, tp);
    } else {
        assert(two_pow(0) == 1);
        assert(j / 1 == j);
    }
}

/// An ancestor of `j` is `j / 2^t` for some `t`.
pub proof fn lemma_quotient_of_anc(a: int, j: int) -> (t: nat)
    requires
        anc(a, j),
    ensures
        j / (two_pow(t) as int) == a,
    decreases j,
{
    if j == a {
        assert(two_pow(0) == 1);
        assert(j / 1 == j);
        0
    } else {
        let t = lemma_quotient_of_anc(a, j / 2);
        lemma_two_pow_pos(t);
        lemma_div_denominator(j, 2, two_pow(t) as int);
        let t1 = (t + 1) as nat;
        assert(two_pow(t1) == 2 * two_pow(t));
        assert(j / (two_pow(t1) as int) == (j / 2) / (two_pow(t) as int));
        t1
    }
}

/// Node `k` of height `h` spanning values `lo..lo + 2^h` of a tree with
/// `size` leaves; when internal, its children span the two halves.
pub proof fn lemma_node_geometry(size: int, k: int, h: nat, lo: int)
    requires
        1 <= k,
        0 <= lo,
        k * two_pow(h) == size + lo,
        lo + two_pow(h) <= size,
    ensures
        is_node(size, k, h),
        k < 2 * size,
        h >= 1 ==> k < size,
        h >= 1 ==> two_pow(h) == 2 * two_pow((h - 1) as nat),
        h >= 1 ==> (2 * k) * two_pow((h - 1) as nat) == size + lo,
        h >= 1 ==> (2 * k + 1) * two_pow((h - 1) as nat) == size + lo + two_pow((h - 1) as nat),
        h >= 1 ==> is_node(size, 2 * k, (h - 1) as nat),
        h >= 1 ==> is_node(size, 2 * k + 1, (h - 1) as nat),
        h == 0 ==> k == size + lo && two_pow(h) == 1,
{
    let p = two_pow(h) as int;
    lemma_two_pow_pos(h);
    assert((k + 1) * p == k * p + p) by (nonlinear_arith);
    assert(k <= k * p) by (nonlinear_arith)
        requires
            p >= 1,
            k >= 1,
    ;
    if h >= 1 {
        let q = two_pow((h - 1) as nat) as int;
        lemma_two_pow_pos((h - 1) as nat);
        assert(p == 2 * q);
        assert((2 * k) * q == k * p && (2 * k + 1) * q == k * p + q && (2 * k + 2) * q == k * p
            + p) by (nonlinear_arith)
            requires
                p == 2 * q,
        ;
        assert(2 * k <= k * p) by (nonlinear_arith)
            requires
                p >= 2,
                k >= 1,
        ;
    } else {
        assert(k * 1 == k);
    }
}

/// Node `k` has height `h` in a tree with `size` leaves: the leaves below it
/// are `k * 2^h .. (k + 1) * 2^h`.
pub open spec fn is_node(size: int, k: int, h: nat) -> bool {
    size <= k * two_pow(h) && (k + 1) * two_pow(h) <= 2 * size
}

/// Sum of the pending deltas `lz` stored at the strict ancestors of node `j`.
pub open spec fn acc(lz: Seq<i32>, j: int) -> int
    decreases j,
{
    if j <= 1 {
        0
    } else {
        lz[j / 2] + acc(lz, j / 2)
    }
}

pub open spec fn imax(a: int, b: int) -> int {
    if a > b {
        a
    } else {
        b
    }
}

pub open spec fn imin(a: int, b: int) -> int {
    if a < b {
        a
    } else {
        b
    }
}

/// An ancestor never has a larger index than its descendant.
pub proof fn lemma_anc_le(a: int, j: int)
    requires
        anc(a, j),
    ensures
        a <= j,
    decreases j,
{
    if j != a {
        lemma_anc_le(a, j / 2);
    }
}

/// `acc` at `j` reads only entries below index `j`.
pub proof fn lemma_acc_frame(lz: Seq<i32>, lz2: Seq<i32>, j: int)
    requires
        forall|i: int| 0 <= i < j ==> lz2[i] == lz[i],
    ensures
        acc(lz2, j) == acc(lz, j),
    decreases j,
{
    if j > 1 {
        lemma_acc_frame(lz, lz2, j / 2);
    }
}

/// With no pending delta anywhere, every `acc` is zero.
pub proof fn lemma_acc_zero(lz: Seq<i32>, j: int)
    requires
        forall|i: int| 0 <= i < lz.len() ==> lz[i] == 0,
        j < 2 * lz.len(),
    ensures
        acc(lz, j) == 0,
    decreases j,
{
    if j > 1 {
        lemma_acc_zero(lz, j / 2);
    }
}

/// Adding `f` to the pending delta of node `k` adds `f` to `acc` of every
/// strict descendant of `k`.
pub proof fn lemma_acc_add(lz: Seq<i32>, lz2: Seq<i32>, size: int, k: int, f: int, j: int)
    requires
        1 <= k,
        1 <= j < 2 * size,
        forall|i: int| 0 <= i < size && i != k ==> lz2[i] == lz[i],
        k < size ==> residue(lz2[k] as int) == residue(lz[k] + f),
    ensures
        residue(acc(lz2, j)) == residue(acc(lz, j) + if above(k, j) {
            f
        } else {
            0
        }),
    decreases j,
{
    if j > 1 {
        let m = j / 2;
        lemma_acc_add(lz, lz2, size, k, f, m);
        if m == k {
            if k > 1 {
                if anc(k, k / 2) {
                    lemma_anc_le(k, k / 2);
                }
            }
            lemma_residue_add_cong(lz2[k] as int, acc(lz2, k), lz[k] + f, acc(lz, k));
        } else {
            lemma_residue_add_cong(
                lz2[m] as int,
                acc(lz2, m),
                lz[m] as int,
                acc(lz, m) + if above(k, m) {
                    f
                } else {
                    0
                },
            );
        }
    }
}

/// Moving the pending delta of node `k` onto its two children leaves `acc`
/// unchanged everywhere but at those two children, which lose it.
pub proof fn lemma_acc_push(lz: Seq<i32>, lz2: Seq<i32>, size: int, k: int, j: int)
    requires
        1 <= k < size,
        1 <= j < 2 * size,
        forall|i: int| 0 <= i < size && i != k && i != 2 * k && i != 2 * k + 1 ==> lz2[i] == lz[i],
        lz2[k] == 0,
        2 * k < size ==> residue(lz2[2 * k] as int) == residue(lz[2 * k] + lz[k]),
        2 * k < size ==> residue(lz2[2 * k + 1] as int) == residue(lz[2 * k + 1] + lz[k]),
    ensures
        residue(acc(lz2, j)) == residue(acc(lz, j) - if j == 2 * k || j == 2 * k + 1 {
            lz[k] as int
        } else {
            0
        }),
    decreases j,
{
    if j > 1 {
        let m = j / 2;
        lemma_acc_push(lz, lz2, size, k, m);
        if m == k {
            lemma_residue_add_cong(0, acc(lz2, k), 0, acc(lz, k));
        } else if m == 2 * k || m == 2 * k + 1 {
            lemma_residue_add_cong(
                lz2[m] as int,
                acc(lz2, m),
                lz[m] + lz[k],
                acc(lz, m) - lz[k],
            );
        } else {
            lemma_residue_add_cong(lz2[m] as int, acc(lz2, m), lz[m] as int, acc(lz, m));
        }
    }
}

/// A node has one height: the block it spans fixes it.
pub proof fn lemma_height_unique(size: int, k: int, h: nat, g: nat)
    requires
        size >= 1,
        size <= k * two_pow(h),
        (k + 1) * two_pow(h) <= 2 * size,
        size <= k * two_pow(g),
        (k + 1) * two_pow(g) <= 2 * size,
    ensures
        h == g,
{
    lemma_two_pow_pos(h);
    lemma_two_pow_pos(g);
    let p = two_pow(h) as int;
    let q = two_pow(g) as int;
    assert(k >= 1) by (nonlinear_arith)
        requires
            p >= 1,
            size >= 1,
            size <= k * p,
    ;
    if h < g {
        lemma_two_pow_lt(h, g);
        assert((k + 1) * q >= (k + 1) * (2 * p)) by (nonlinear_arith)
            requires
                2 * p <= q,
                k >= 1,
        ;
        assert((k + 1) * (2 * p) == 2 * (k * p) + 2 * p) by (nonlinear_arith);
    }
    if g < h {
        lemma_two_pow_lt(g, h);
        assert((k + 1) * p >= (k + 1) * (2 * q)) by (nonlinear_arith)
            requires
                2 * q <= p,
                k >= 1,
        ;
        assert((k + 1) * (2 * q) == 2 * (k * q) + 2 * q) by (nonlinear_arith);
    }
}

/// Splitting a node's block at `mid` splits the part of `[l, r)` inside it.
pub proof fn lemma_sum_clip_split(s: Seq<int>, l: int, r: int, lo: int, mid: int, hi: int)
    requires
        lo <= mid <= hi,
    ensures
        sum(s, imax(l, lo), imin(r, hi)) == sum(s, imax(l, lo), imin(r, mid)) + sum(
            s,
            imax(l, mid),
            imin(r, hi),
        ),
{
    if r <= mid || l >= mid || r <= l {
    } else {
        lemma_sum_split(s, imax(l, lo), mid, imin(r, hi));
    }
}

/// `2^a` divides into `2^b` at least twice when `a < b`.
pub proof fn lemma_two_pow_lt(a: nat, b: nat)
    requires
        a < b,
    ensures
        2 * two_pow(a) <= two_pow(b),
    decreases b,
{
    lemma_two_pow_pos(a);
    if b > a + 1 {
        lemma_two_pow_lt(a, (b - 1) as nat);
    }
}

/// A leaf `j` of a tree with `size` leaves lies under node `k` of height `h`
/// exactly when it falls in the block of leaves that `k` spans.
pub proof fn lemma_leaf_under(size: int, k: int, h: nat, j: int)
    requires
        size >= 1,
        size <= k * two_pow(h),
        (k + 1) * two_pow(h) <= 2 * size,
        size <= j < 2 * size,
    ensures
        anc(k, j) <==> (k * two_pow(h) <= j < (k + 1) * two_pow(h)),
{
    let p = two_pow(h) as int;
    lemma_two_pow_pos(h);
    assert(k >= 1) by (nonlinear_arith)
        requires
            p >= 1,
            size >= 1,
            size <= k * p,
    ;
    if k * p <= j < (k + 1) * p {
        assert((k + 1) * p == k * p + p) by (nonlinear_arith);
        lemma_fundamental_div_mod_converse(j, p, k, j - k * p);
        lemma_anc_of_quotient(j, h);
    }
    if anc(k, j) {
        let t = lemma_quotient_of_anc(k, j);
        let q = two_pow(t) as int;
        lemma_two_pow_pos(t);
        assert(k * q <= j < (k + 1) * q) by (nonlinear_arith)
            requires
                q >= 1,
                j >= 0,
                j / q == k,
        {
            vstd::arithmetic::div_mod::lemma_fundamental_div_mod(j, q);
        }
        if t > h {
            lemma_two_pow_lt(h, t);
            assert(false) by (nonlinear_arith)
                requires
                    2 * p <= q,
                    k >= 1,
                    k * q <= j,
                    size <= k * p,
                    j < 2 * size,
            ;
        }
        if t < h {
            lemma_two_pow_lt(t, h);
            assert(false) by (nonlinear_arith)
                requires
                    2 * q <= p,
                    k >= 1,
                    j < (k + 1) * q,
                    (k + 1) * p <= 2 * size,
                    size <= j,
            ;
        }
    }
}

/// The number of leaves and the height of the smallest perfect tree with at
/// least `n` leaves (one leaf when `n` is zero).
pub(crate) fn tree_shape(n: usize) -> (r: (usize, usize))
    requires
        n <= usize::MAX / 4,
    ensures
        r.0 == two_pow(r.1 as nat),
        r.1 < r.0,
        n <= r.0,
        r.0 == 1 || r.0 < 2 * n,
        2 * r.0 <= usize::MAX,
{
    let mut size: usize = 1;
    let mut log: usize = 0;
    while size < n
        invariant
            size == two_pow(log as nat),
            size <= 1 || size < 2 * n,
            n <= usize::MAX / 4,
            1 <= size,
            log < size,
        decreases 2 * n - size,
    {
        size = size * 2;
        log = log + 1;
    }
    (size, log)
}

/// For each height `0..=log`, the number of leaves below a node of that
/// height, wrapped to `i32`.
pub(crate) fn level_widths(log: usize) -> (w: Vec<i32>)
    requires
        log < usize::MAX,
    ensures
        w@.len() == log + 1,
        forall|h: int| 0 <= h <= log ==> residue(#[trigger] w@[h] as int) == residue(two_pow(h as nat) as int),
{
    let mut w: Vec<i32> = Vec::new();
    w.push(1);
    let mut i: usize = 0;
    while i < log
        invariant
            i <= log < usize::MAX,
            w@.len() == i + 1,
            forall|h: int| 0 <= h <= i ==> residue(#[trigger] w@[h] as int) == residue(two_pow(h as nat) as int),
        decreases log - i,
    {
        let last = w[i];
        proof {
            lemma_wrapping_add(last, last);
            lemma_residue_add_cong(last as int, last as int, two_pow(i as nat) as int, two_pow(i as nat) as int);
            assert(two_pow((i + 1) as nat) == 2 * two_pow(i as nat));
        }
        w.push(last.wrapping_add(last));
        i = i + 1;
    }
    w
}

/// A vector of `len` zeros.
pub(crate) fn zeros(len: usize) -> (r: Vec<i32>)
    ensures
        r@ == Seq::new(len as nat, |i: int| 0i32),
{
    let mut v: Vec<i32> = Vec::new();
    let mut i: usize = 0;
    while i < len
        invariant
            i <= len,
            v@ == Seq::new(i as nat, |j: int| 0i32),
        decreases len - i,
    {
        v.push(0);
        i = i + 1;
        assert(v@ =~= Seq::new(i as nat, |j: int| 0i32));
    }
    v
}

} // verus!
