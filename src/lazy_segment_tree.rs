use crate::model::{
    above, acc, add_on_range, anc, fits_i32, imax, imin, ints, is_node, lemma_acc_add,
    lemma_acc_frame, lemma_acc_push, lemma_acc_zero, lemma_anc_le, lemma_height_unique,
    lemma_leaf_under, lemma_wrap32_fits, minimal_shape, lemma_node_geometry, lemma_residue_add, lemma_residue_add_cong, lemma_residue_mul_cong,
    lemma_sum_agree, lemma_sum_clip_split, lemma_sum_split, lemma_sum_zero, lemma_two_pow_pos,
    lemma_wrap32_exact, lemma_wrapping_add, lemma_wrapping_mul, level_widths, residue, sum,
    tree_shape, two_pow, wrap32, zeros,
};
use vstd::prelude::*;

verus! {

/// A range-sum tree that also adds a delta to every value of a range.
///
/// Same layout as the plain tree, plus one pending delta per internal node:
/// a delta already counted in the node's own sum (once per leaf below it)
/// but not yet handed down to its children. Before a node's children are
/// read or written, the node is pushed: its delta moves onto both children.
pub struct LazySegmentTree {
    n: usize,
    size: usize,
    log: usize,
    d: Vec<i32>,
    lz: Vec<i32>,
    widths: Vec<i32>,
    vals: Ghost<Seq<int>>,
}

impl View for LazySegmentTree {
    type V = Seq<int>;

    /// The current values, index `0` first.
    closed spec fn view(&self) -> Seq<int> {
        self.vals@
    }
}

impl LazySegmentTree {
    closed spec fn shaped(&self) -> bool {
        &&& self.size == two_pow(self.log as nat)
        &&& self.n <= self.size
        &&& (self.size == 1 || self.size < 2 * self.n)
        &&& self.d@.len() == 2 * self.size
        &&& self.lz@.len() == self.size
        &&& 2 * self.size <= usize::MAX
        &&& self.vals@.len() == self.n
        &&& self.widths@.len() == self.log + 1
        &&& forall|h: int|
            0 <= h <= self.log ==> residue(#[trigger] self.widths@[h] as int) == residue(
                two_pow(h as nat) as int,
            )
    }

    /// Everything but the stored nodes and pending deltas is unchanged.
    closed spec fn same_frame(&self, other: &Self) -> bool {
        &&& self.n == other.n
        &&& self.size == other.size
        &&& self.log == other.log
        &&& self.widths@ == other.widths@
    }

    /// The value that leaf `j` stands for: padding leaves stand for zero.
    closed spec fn leaf_val(&self, j: int) -> int {
        if self.size <= j < self.size + self.n {
            self.vals@[j - self.size]
        } else {
            0
        }
    }

    closed spec fn leaf_seq(&self) -> Seq<int> {
        Seq::new(2 * self.size as nat, |j: int| self.leaf_val(j))
    }

    /// Leaf `j` plus the deltas pending above it is its value (mod `2^32`).
    closed spec fn leaf_ok(&self, j: int) -> bool {
        residue(self.d@[j] + acc(self.lz@, j)) == residue(self.leaf_val(j))
    }

    /// Node `k` of height `h` holds its children's sums plus its own pending
    /// delta once per leaf below it (mod `2^32`).
    closed spec fn node_ok(&self, k: int, h: nat) -> bool {
        residue(self.d@[k] as int) == residue(
            self.d@[2 * k] + self.d@[2 * k + 1] + two_pow(h) * self.lz@[k],
        )
    }

    /// If node `k` of height `h` reaches past the values into the padding,
    /// nothing is pending at it.
    closed spec fn pad_ok(&self, k: int, h: nat) -> bool {
        (k + 1) * two_pow(h) > self.size + self.n ==> self.lz@[k] == 0
    }

    /// Padding leaves hold zero and no node over the padding has a pending
    /// delta.
    closed spec fn padding_clear(&self) -> bool {
        &&& forall|j: int| self.size + self.n <= j < 2 * self.size ==> self.d@[j] == 0
        &&& forall|k: int, h: nat|
            1 <= k < self.size && is_node(self.size as int, k, h) ==> #[trigger] self.pad_ok(k, h)
    }

    /// Well-formed, except possibly at the strict ancestors of node `c`.
    closed spec fn wf_except(&self, c: int) -> bool {
        &&& self.shaped()
        &&& self.padding_clear()
        &&& forall|j: int| self.size <= j < 2 * self.size ==> #[trigger] self.leaf_ok(j)
        &&& forall|k: int, h: nat|
            1 <= k < self.size && is_node(self.size as int, k, h) && !above(k, c)
                ==> #[trigger] self.node_ok(k, h)
    }

    /// Well-formed: every stored sum and pending delta agrees with the values.
    pub closed spec fn wf(&self) -> bool {
        self.wf_except(1)
    }

    /// The number of values.
    pub open spec fn len(&self) -> nat {
        self@.len()
    }

    /// Index of the first leaf: the number of leaves.
    pub closed spec fn leaf_base(&self) -> int {
        self.size as int
    }

    /// The height of the tree: `leaf_base() == 2^height()`.
    pub closed spec fn height(&self) -> nat {
        self.log as nat
    }

    /// No internal node has a pending delta.
    pub closed spec fn nothing_pending(&self) -> bool {
        forall|i: int| 0 <= i < self.size ==> self.lz@[i] == 0
    }

    /// A well-formed tree's `leaf_base()` is the smallest power of two that
    /// holds its values.
    pub proof fn lemma_layout(&self)
        requires
            self.wf(),
        ensures
            minimal_shape(self.len() as int, self.leaf_base(), self.height() as int),
    {
    }

    proof fn lemma_leaves_are_values(&self, a: int, b: int)
        requires
            self.shaped(),
            0 <= a <= b <= self.n,
        ensures
            sum(self.leaf_seq(), self.size + a, self.size + b) == sum(self@, a, b),
    {
        lemma_sum_agree(self@, self.leaf_seq(), a, b, self.size as int);
    }

    /// Node `k` of height `h`, with the deltas pending above it, holds the
    /// sum of the values below it.
    proof fn lemma_node(&self, k: int, h: nat)
        requires
            self.wf(),
            is_node(self.size as int, k, h),
        ensures
            residue(self.d@[k] + two_pow(h) * acc(self.lz@, k)) == residue(
                sum(self.leaf_seq(), k * two_pow(h), (k + 1) * two_pow(h)),
            ),
        decreases h,
    {
        let p = two_pow(h) as int;
        let ls = self.leaf_seq();
        lemma_two_pow_pos(h);
        lemma_two_pow_pos(self.log as nat);
        assert(k >= 1) by (nonlinear_arith)
            requires
                p >= 1,
                self.size >= 1,
                self.size <= k * p,
        ;
        if h == 0 {
            assert(k * p == k && (k + 1) * p == k + 1) by (nonlinear_arith)
                requires
                    p == 1,
            ;
            assert(sum(ls, k, k) == 0);
            assert(self.leaf_ok(k));
        } else {
            let hp = (h - 1) as nat;
            let q = two_pow(hp) as int;
            lemma_two_pow_pos(hp);
            assert(k * p == (2 * k) * q && (k + 1) * p == (2 * k + 1 + 1) * q && (2 * k + 1) * q
                == k * p + q && k < self.size && (k + 1) * p == k * p + q + q) by (nonlinear_arith)
                requires
                    p == 2 * q,
                    q >= 1,
                    (k + 1) * p <= 2 * self.size,
            ;
            self.lemma_node(2 * k, hp);
            self.lemma_node(2 * k + 1, hp);
            lemma_sum_split(ls, k * p, k * p + q, (k + 1) * p);
            assert(self.node_ok(k, h));
            let a = acc(self.lz@, k);
            let z = self.lz@[k] as int;
            assert(acc(self.lz@, 2 * k) == z + a);
            assert(acc(self.lz@, 2 * k + 1) == z + a);
            assert(self.d@[2 * k] + self.d@[2 * k + 1] + p * z + p * a == (self.d@[2 * k] + q * (z
                + a)) + (self.d@[2 * k + 1] + q * (z + a))) by (nonlinear_arith)
                requires
                    p == 2 * q,
            ;
            lemma_residue_add_cong(
                self.d@[k] as int,
                p * a,
                self.d@[2 * k] + self.d@[2 * k + 1] + p * z,
                p * a,
            );
            lemma_residue_add_cong(
                self.d@[2 * k] + q * (z + a),
                self.d@[2 * k + 1] + q * (z + a),
                sum(ls, k * p, k * p + q),
                sum(ls, k * p + q, (k + 1) * p),
            );
        }
    }

    /// Adds `f` to every value below node `k` (whose width, wrapped, is `w`):
    /// the node's sum grows by `w * f` and, if it is internal, `f` becomes
    /// pending for its children.
    fn all_apply(&mut self, k: usize, f: i32, w: i32)
        requires
            old(self).shaped(),
            1 <= k < 2 * old(self).size,
        ensures
            final(self).shaped(),
            final(self).same_frame(old(self)),
            final(self).vals@ == old(self).vals@,
            final(self).d@ == old(self).d@.update(
                k as int,
                old(self).d@[k as int].wrapping_add(w.wrapping_mul(f)),
            ),
            final(self).lz@ == if k < old(self).size {
                old(self).lz@.update(k as int, old(self).lz@[k as int].wrapping_add(f))
            } else {
                old(self).lz@
            },
    {
        let v = self.d[k].wrapping_add(w.wrapping_mul(f));
        self.d.set(k, v);
        if k < self.size {
            let z = self.lz[k].wrapping_add(f);
            self.lz.set(k, z);
        }
    }

    /// Recomputes internal node `k` as the (wrapping) sum of its children.
    fn update(&mut self, k: usize)
        requires
            old(self).shaped(),
            1 <= k < old(self).size,
        ensures
            final(self).shaped(),
            final(self).same_frame(old(self)),
            final(self).vals@ == old(self).vals@,
            final(self).lz@ == old(self).lz@,
            final(self).d@ == old(self).d@.update(
                k as int,
                old(self).d@[2 * k as int].wrapping_add(old(self).d@[2 * k + 1]),
            ),
    {
        let v = self.d[2 * k].wrapping_add(self.d[2 * k + 1]);
        self.d.set(k, v);
    }

    /// Hands the pending delta of internal node `k` (height `h`) to both
    /// children and clears it.
    #[verifier::rlimit(40)]
    fn push(&mut self, k: usize, h: usize)
        requires
            old(self).shaped(),
            1 <= k < old(self).size,
            1 <= h <= old(self).log,
            is_node(old(self).size as int, k as int, h as nat),
            forall|j: int| old(self).size <= j < 2 * old(self).size ==> #[trigger] old(self).leaf_ok(j),
            old(self).node_ok(k as int, h as nat),
            2 * k < old(self).size ==> old(self).node_ok(2 * k as int, (h - 1) as nat),
            2 * k < old(self).size ==> old(self).node_ok(2 * k + 1, (h - 1) as nat),
            old(self).padding_clear(),
        ensures
            final(self).shaped(),
            final(self).padding_clear(),
            final(self).d@ == old(self).d@.update(
                2 * k as int,
                old(self).d@[2 * k as int].wrapping_add(
                    old(self).widths@[h - 1].wrapping_mul(old(self).lz@[k as int]),
                ),
            ).update(
                2 * k + 1,
                old(self).d@[2 * k + 1].wrapping_add(
                    old(self).widths@[h - 1].wrapping_mul(old(self).lz@[k as int]),
                ),
            ),
            final(self).lz@ == if 2 * k < old(self).size {
                old(self).lz@.update(
                    2 * k as int,
                    old(self).lz@[2 * k as int].wrapping_add(old(self).lz@[k as int]),
                ).update(
                    2 * k + 1,
                    old(self).lz@[2 * k + 1].wrapping_add(old(self).lz@[k as int]),
                ).update(k as int, 0)
            } else {
                old(self).lz@.update(k as int, 0)
            },
            old(self).lz@[k as int] == 0 ==> final(self).d@ == old(self).d@ && final(self).lz@
                == old(self).lz@,
            final(self).same_frame(old(self)),
            final(self).vals@ == old(self).vals@,
            forall|j: int| final(self).size <= j < 2 * final(self).size ==> #[trigger] final(self).leaf_ok(j),
            forall|m: int, g: nat|
                1 <= m < old(self).size && is_node(old(self).size as int, m, g) && old(self).node_ok(m, g)
                    ==> #[trigger] final(self).node_ok(m, g),
            final(self).lz@[k as int] == 0,
            forall|i: int| 0 <= i < k ==> final(self).lz@[i] == old(self).lz@[i],
            residue(acc(final(self).lz@, 2 * k as int)) == residue(acc(old(self).lz@, k as int)),
            residue(acc(final(self).lz@, 2 * k + 1)) == residue(acc(old(self).lz@, k as int)),
    {
        let ghost o = *self;
        let f = self.lz[k];
        let w = self.widths[h - 1];
        self.all_apply(2 * k, f, w);
        self.all_apply(2 * k + 1, f, w);
        self.lz.set(k, 0);
        proof {
            let size = self.size as int;
            let ki = k as int;
            let hn = h as nat;
            let q = two_pow((h - 1) as nat) as int;
            let p = two_pow(hn) as int;
            assert(p == 2 * q);
            lemma_two_pow_pos(hn);
            lemma_two_pow_pos(self.log as nat);
            assert(residue(w as int) == residue(q));
            lemma_wrapping_mul(w, f);
            lemma_residue_mul_cong(f as int, w as int, q);
            assert(w * f == f * w && q * f == f * q) by (nonlinear_arith);
            lemma_wrapping_add(o.d@[2 * ki], w.wrapping_mul(f));
            lemma_wrapping_add(o.d@[2 * ki + 1], w.wrapping_mul(f));
            lemma_residue_add_cong(o.d@[2 * ki] as int, w.wrapping_mul(f) as int, o.d@[2 * ki] as int, q * f);
            lemma_residue_add_cong(o.d@[2 * ki + 1] as int, w.wrapping_mul(f) as int, o.d@[2 * ki + 1] as int, q * f);
            // The children now hold `q * f` more each.
            assert(residue(self.d@[2 * ki] as int) == residue(o.d@[2 * ki] + q * f));
            assert(residue(self.d@[2 * ki + 1] as int) == residue(o.d@[2 * ki + 1] + q * f));
            assert(forall|i: int| 0 <= i < 2 * size && i != 2 * ki && i != 2 * ki + 1 ==> self.d@[i] == o.d@[i]);
            if 2 * k < self.size {
                lemma_wrapping_add(o.lz@[2 * ki], f);
                lemma_wrapping_add(o.lz@[2 * ki + 1], f);
            }
            assert forall|i: int| 0 <= i < size && i != ki && i != 2 * ki && i != 2 * ki + 1 implies self.lz@[i] == o.lz@[i] by {}
            // Pending deltas: only the two children see `acc` change.
            assert forall|j: int| 1 <= j < 2 * size implies residue(#[trigger] acc(self.lz@, j)) == residue(acc(o.lz@, j) - if j == 2 * ki || j == 2 * ki + 1 {
                f as int
            } else {
                0
            }) by {
                lemma_acc_push(o.lz@, self.lz@, size, ki, j);
            }
            assert(acc(o.lz@, 2 * ki) == f + acc(o.lz@, ki));
            assert(acc(o.lz@, 2 * ki + 1) == f + acc(o.lz@, ki));
            assert forall|i: int| 0 <= i < ki implies self.lz@[i] == o.lz@[i] by {}
            // Node `k` itself.
            assert(self.node_ok(ki, hn)) by {
                assert(o.node_ok(ki, hn));
                assert(p * f == q * f + q * f) by (nonlinear_arith)
                    requires
                        p == 2 * q,
                ;
                lemma_residue_add_cong(self.d@[2 * ki] as int, self.d@[2 * ki + 1] as int, o.d@[2 * ki] + q * f, o.d@[2 * ki + 1] + q * f);
            }
            // The children, when internal.
            if 2 * k < self.size {
                let hq = (h - 1) as nat;
                assert forall|c: int| c == 2 * ki || c == 2 * ki + 1 implies self.node_ok(c, hq) by {
                    assert(o.node_ok(c, hq));
                    assert(self.d@[2 * c] == o.d@[2 * c] && self.d@[2 * c + 1] == o.d@[2 * c + 1]);
                    assert(q * (o.lz@[c] + f) == q * o.lz@[c] + q * f) by (nonlinear_arith);
                    lemma_residue_mul_cong(q, self.lz@[c] as int, o.lz@[c] + f);
                    lemma_residue_add_cong(o.d@[c] as int, q * f, o.d@[2 * c] + o.d@[2 * c + 1] + q * o.lz@[c], q * f);
                    lemma_residue_add_cong(o.d@[2 * c] + o.d@[2 * c + 1], q * self.lz@[c], o.d@[2 * c] + o.d@[2 * c + 1], q * (o.lz@[c] + f));
                }
            }
            assert forall|m: int, g: nat|
                1 <= m < size && is_node(size, m, g) && o.node_ok(m, g) implies #[trigger] self.node_ok(m, g) by {
                if m == ki {
                    lemma_height_unique(size, m, g, hn);
                } else if m == 2 * ki || m == 2 * ki + 1 {
                    assert(is_node(size, m, (h - 1) as nat)) by (nonlinear_arith)
                        requires
                            p == 2 * q,
                            size <= ki * p,
                            (ki + 1) * p <= 2 * size,
                            m == 2 * ki || m == 2 * ki + 1,
                            q == two_pow((h - 1) as nat),
                    ;
                    lemma_height_unique(size, m, g, (h - 1) as nat);
                } else {
                    assert(self.d@[m] == o.d@[m]);
                    assert(self.d@[2 * m] == o.d@[2 * m]);
                    assert(self.d@[2 * m + 1] == o.d@[2 * m + 1]);
                    assert(self.lz@[m] == o.lz@[m]);
                }
            }
            assert(self.d@ =~= o.d@.update(2 * ki, o.d@[2 * ki].wrapping_add(w.wrapping_mul(f))).update(2 * ki + 1, o.d@[2 * ki + 1].wrapping_add(w.wrapping_mul(f))));
            if 2 * k < self.size {
                assert(self.lz@ =~= o.lz@.update(2 * ki, o.lz@[2 * ki].wrapping_add(f)).update(2 * ki + 1, o.lz@[2 * ki + 1].wrapping_add(f)).update(ki, 0));
            } else {
                assert(self.lz@ =~= o.lz@.update(ki, 0));
            }
            if f == 0 {
                lemma_wrap32_exact(w.wrapping_mul(f) as int, 0);
                lemma_wrap32_fits(o.d@[2 * ki] as int);
                lemma_wrap32_fits(o.d@[2 * ki + 1] as int);
                assert(self.d@ =~= o.d@);
                if 2 * k < self.size {
                    lemma_wrapping_add(o.lz@[2 * ki], f);
                    lemma_wrapping_add(o.lz@[2 * ki + 1], f);
                    lemma_wrap32_fits(o.lz@[2 * ki] as int);
                    lemma_wrap32_fits(o.lz@[2 * ki + 1] as int);
                }
                assert(self.lz@ =~= o.lz@);
            }
            // Padding: a node over the padding had nothing to hand down.
            assert(o.pad_ok(ki, hn));
            assert((ki + 1) * p == (2 * ki + 1 + 1) * q) by (nonlinear_arith)
                requires
                    p == 2 * q,
            ;
            assert forall|j: int| size + self.n <= j < 2 * size implies self.d@[j] == 0 by {
                if j == 2 * ki || j == 2 * ki + 1 {
                    if f != 0 {
                        assert(q >= 1);
                        assert((2 * ki + 1 + 1) * q >= j + 1) by (nonlinear_arith)
                            requires
                                q >= 1,
                                j <= 2 * ki + 1,
                                ki >= 1,
                        ;
                    }
                }
            }
            assert forall|m: int, g: nat|
                1 <= m < size && is_node(size, m, g) implies #[trigger] self.pad_ok(m, g) by {
                assert(o.pad_ok(m, g));
                if (m == 2 * ki || m == 2 * ki + 1) && f != 0 {
                    assert(is_node(size, m, (h - 1) as nat)) by (nonlinear_arith)
                        requires
                            p == 2 * q,
                            size <= ki * p,
                            (ki + 1) * p <= 2 * size,
                            m == 2 * ki || m == 2 * ki + 1,
                            q == two_pow((h - 1) as nat),
                    ;
                    lemma_height_unique(size, m, g, (h - 1) as nat);
                    assert((m + 1) * q <= (ki + 1) * p) by (nonlinear_arith)
                        requires
                            p == 2 * q,
                            q >= 1,
                            m <= 2 * ki + 1,
                    ;
                }
            }
            assert forall|j: int| size <= j < 2 * size implies #[trigger] self.leaf_ok(j) by {
                assert(o.leaf_ok(j));
                assert(self.leaf_val(j) == o.leaf_val(j));
                let a2 = acc(self.lz@, j);
                if j == 2 * ki || j == 2 * ki + 1 {
                    assert(h == 1) by {
                        if h > 1 {
                            lemma_two_pow_pos((h - 2) as nat);
                            assert(q == 2 * two_pow((h - 2) as nat));
                            assert(false) by (nonlinear_arith)
                                requires
                                    p == 2 * q,
                                    q >= 2,
                                    ki >= 1,
                                    (ki + 1) * p <= 2 * size,
                                    j <= 2 * ki + 1,
                                    size <= j,
                            ;
                        }
                    }
                    assert(q == 1);
                    assert(q * f == f) by (nonlinear_arith)
                        requires
                            q == 1,
                    ;
                    lemma_residue_add_cong(self.d@[j] as int, a2, o.d@[j] + f, acc(o.lz@, j) - f);
                } else {
                    lemma_residue_add_cong(self.d@[j] as int, a2, o.d@[j] as int, acc(o.lz@, j));
                }
            }
        }
    }

    /// A tree of `n` values, all zero.
    pub fn new_with_size(n: usize) -> (r: LazySegmentTree)
        requires
            n <= usize::MAX / 4,
        ensures
            r.wf(),
            r.nothing_pending(),
            minimal_shape(r.len() as int, r.leaf_base(), r.height() as int),
            r@ == Seq::new(n as nat, |i: int| 0int),
    {
        let r = LazySegmentTree::new_from_vec(zeros(n));
        assert(r@ =~= Seq::new(n as nat, |i: int| 0int));
        r
    }

    /// A tree holding the values of `a`, in order, with nothing pending.
    pub fn new_from_vec(a: Vec<i32>) -> (r: LazySegmentTree)
        requires
            a@.len() <= usize::MAX / 4,
        ensures
            r.wf(),
            r.nothing_pending(),
            minimal_shape(r.len() as int, r.leaf_base(), r.height() as int),
            r@ == ints(a@),
    {
        let n = a.len();
        let (size, log) = tree_shape(n);
        proof {
            lemma_two_pow_pos(log as nat);
        }
        let mut d = zeros(2 * size);
        let lz = zeros(size);
        let widths = level_widths(log);
        let mut i: usize = 0;
        while i < n
            invariant
                i <= n == a@.len(),
                n <= size,
                2 * size <= usize::MAX,
                d@.len() == 2 * size,
                forall|j: int| size <= j < size + i ==> d@[j] == a@[j - size],
                forall|j: int| 0 <= j < 2 * size && !(size <= j < size + i) ==> d@[j] == 0,
            decreases n - i,
        {
            d.set(size + i, a[i]);
            i = i + 1;
        }
        let mut st = LazySegmentTree { n, size, log, d, lz, widths, vals: Ghost(ints(a@)) };
        assert forall|j: int| size <= j < 2 * size implies #[trigger] st.leaf_ok(j) by {
            lemma_acc_zero(st.lz@, j);
        }
        let mut k: usize = size;
        while k > 1
            invariant
                1 <= k <= size,
                st.shaped(),
                st.n == n,
                st.size == size,
                st.vals@ == ints(a@),
                forall|j: int| 0 <= j < size ==> st.lz@[j] == 0,
                forall|j: int| size <= j < 2 * size ==> #[trigger] st.leaf_ok(j),
                forall|j: int| size + n <= j < 2 * size ==> st.d@[j] == 0,
                forall|m: int, h: nat|
                    k <= m < size && is_node(size as int, m, h) ==> #[trigger] st.node_ok(m, h),
            decreases k,
        {
            k = k - 1;
            let ghost before = st;
            st.update(k);
            proof {
                lemma_wrapping_add(before.d@[2 * k as int], before.d@[2 * k + 1]);
            }
            assert forall|m: int, h: nat| k <= m < size && is_node(size as int, m, h) implies #[trigger] st.node_ok(m, h) by {
                if m > k {
                    assert(before.node_ok(m, h));
                }
                assert(two_pow(h) * 0 == 0);
            }
            assert forall|j: int| size <= j < 2 * size implies #[trigger] st.leaf_ok(j) by {
                assert(before.leaf_ok(j));
            }
        }
        assert forall|m: int, h: nat| 1 <= m < size && is_node(size as int, m, h) implies #[trigger] st.pad_ok(m, h) by {}
        st
    }

    /// The sum of all values, wrapped to `i32`; exact whenever it fits.
    pub fn get_all(&self) -> (s: i32)
        requires
            self.wf(),
        ensures
            s == wrap32(sum(self@, 0, self.len() as int)),
            fits_i32(sum(self@, 0, self.len() as int)) ==> s == sum(self@, 0, self.len() as int),
    {
        proof {
            let size = self.size as int;
            lemma_two_pow_pos(self.log as nat);
            assert(1 * two_pow(self.log as nat) == self.size);
            self.lemma_node(1, self.log as nat);
            assert(acc(self.lz@, 1) == 0);
            assert(two_pow(self.log as nat) * 0 == 0);
            lemma_sum_split(self.leaf_seq(), size, size + self.n, 2 * size);
            lemma_sum_zero(self.leaf_seq(), size + self.n, 2 * size);
            self.lemma_leaves_are_values(0, self.n as int);
            lemma_wrap32_exact(self.d@[1] as int, sum(self@, 0, self.n as int));
        }
        self.d[1]
    }

    /// The sum of the values in `[l, r)` that lie below node `k` (height `h`,
    /// values `lo..hi`), with nothing pending above `k`.
    fn query(&mut self, k: usize, h: usize, lo: usize, hi: usize, l: usize, r: usize) -> (s: i32)
        requires
            old(self).wf(),
            1 <= k,
            h <= old(self).log,
            k * two_pow(h as nat) == old(self).size + lo,
            hi == lo + two_pow(h as nat),
            hi <= old(self).size,
            l <= r <= old(self).n,
            residue(acc(old(self).lz@, k as int)) == 0,
        ensures
            final(self).wf(),
            final(self).same_frame(old(self)),
            final(self)@ == old(self)@,
            forall|i: int| 0 <= i < k ==> final(self).lz@[i] == old(self).lz@[i],
            residue(s as int) == residue(sum(old(self)@, imax(l as int, lo as int), imin(r as int, hi as int))),
        decreases h,
    {
        if r <= lo || hi <= l || r == l {
            return 0;
        }
        let ghost size = self.size as int;
        let ghost p = two_pow(h as nat) as int;
        proof {
            lemma_two_pow_pos(h as nat);
            lemma_node_geometry(size, k as int, h as nat, lo as int);
        }
        if l <= lo && hi <= r {
            proof {
                self.lemma_node(k as int, h as nat);
                lemma_residue_mul_cong(p, acc(self.lz@, k as int), 0);
                assert(p * 0 == 0);
                lemma_residue_add(self.d@[k as int] as int, p * acc(self.lz@, k as int));
                lemma_residue_add(self.d@[k as int] as int, 0);
                assert((k + 1) * p == k * p + p) by (nonlinear_arith);
                self.lemma_leaves_are_values(lo as int, hi as int);
            }
            return self.d[k];
        }
        assert(h >= 1) by {
            if h == 0 {
                assert(two_pow(0) == 1);
            }
        }
        let ghost q = two_pow((h - 1) as nat) as int;
        proof {
            lemma_two_pow_pos((h - 1) as nat);
            assert(self.node_ok(k as int, h as nat));
            if 2 * k < self.size {
                assert(self.node_ok(2 * k as int, (h - 1) as nat));
                assert(self.node_ok(2 * k + 1, (h - 1) as nat));
            }
        }
        let ghost o = *self;
        self.push(k, h);
        assert(self.wf());
        let mid = lo + (hi - lo) / 2;
        let ghost o1 = *self;
        let s1 = self.query(2 * k, h - 1, lo, mid, l, r);
        proof {
            assert(acc(self.lz@, 2 * k + 1) == self.lz@[k as int] + acc(self.lz@, k as int));
            assert(acc(o1.lz@, 2 * k + 1) == o1.lz@[k as int] + acc(o1.lz@, k as int));
            lemma_acc_frame(o1.lz@, self.lz@, k as int);
        }
        let s2 = self.query(2 * k + 1, h - 1, mid, hi, l, r);
        proof {
            lemma_wrapping_add(s1, s2);
            lemma_sum_clip_split(o@, l as int, r as int, lo as int, mid as int, hi as int);
            lemma_residue_add_cong(s1 as int, s2 as int, sum(o@, imax(l as int, lo as int), imin(r as int, mid as int)), sum(o@, imax(l as int, mid as int), imin(r as int, hi as int)));
        }
        s1.wrapping_add(s2)
    }

    /// The sum of the values in `[l, r)`, wrapped to `i32`; exact whenever
    /// that sum fits in an `i32`. Zero when `l == r`.
    ///
    /// Pending deltas are pushed down along both boundaries (only at nodes
    /// the range covers in part) before any stored sum is read.
    pub fn get_range(&mut self, l: usize, r: usize) -> (s: i32)
        requires
            old(self).wf(),
            l <= r <= old(self).len(),
        ensures
            final(self).wf(),
            final(self).leaf_base() == old(self).leaf_base(),
            final(self).height() == old(self).height(),
            final(self)@ == old(self)@,
            s == wrap32(sum(old(self)@, l as int, r as int)),
            fits_i32(sum(old(self)@, l as int, r as int)) ==> s == sum(old(self)@, l as int, r as int),
    {
        if l == r {
            return 0;
        }
        proof {
            lemma_two_pow_pos(self.log as nat);
            assert(1 * two_pow(self.log as nat) == self.size + 0);
        }
        let s = self.query(1, self.log, 0, self.size, l, r);
        proof {
            lemma_wrap32_exact(s as int, sum(self@, l as int, r as int));
            if fits_i32(sum(self@, l as int, r as int)) {
                lemma_wrap32_exact(sum(self@, l as int, r as int), sum(self@, l as int, r as int));
            }
        }
        s
    }

    /// Pushes every node on the path from node `k` (height `h`, values
    /// `lo..hi`) down to the leaf of value `p`; nothing is pending above `k`.
    fn push_path(&mut self, k: usize, h: usize, lo: usize, hi: usize, p: usize)
        requires
            old(self).wf(),
            1 <= k,
            h <= old(self).log,
            k * two_pow(h as nat) == old(self).size + lo,
            hi == lo + two_pow(h as nat),
            hi <= old(self).size,
            lo <= p < hi,
            residue(acc(old(self).lz@, k as int)) == 0,
        ensures
            final(self).wf(),
            final(self).same_frame(old(self)),
            final(self)@ == old(self)@,
            residue(acc(final(self).lz@, old(self).size + p)) == 0,
        decreases h,
    {
        proof {
            lemma_node_geometry(self.size as int, k as int, h as nat, lo as int);
        }
        if h == 0 {
            return;
        }
        proof {
            assert(self.node_ok(k as int, h as nat));
            if 2 * k < self.size {
                assert(self.node_ok(2 * k as int, (h - 1) as nat));
                assert(self.node_ok(2 * k + 1, (h - 1) as nat));
            }
        }
        self.push(k, h);
        let mid = lo + (hi - lo) / 2;
        if p < mid {
            self.push_path(2 * k, h - 1, lo, mid, p);
        } else {
            self.push_path(2 * k + 1, h - 1, mid, hi, p);
        }
    }

    /// The value at index `p`, wrapped to `i32` (exact whenever it fits),
    /// after pushing every pending delta on the path to its leaf.
    pub fn get(&mut self, p: usize) -> (r: i32)
        requires
            old(self).wf(),
            p < old(self).len(),
        ensures
            final(self).wf(),
            final(self).leaf_base() == old(self).leaf_base(),
            final(self).height() == old(self).height(),
            final(self)@ == old(self)@,
            r == wrap32(old(self)@[p as int]),
            fits_i32(old(self)@[p as int]) ==> r == old(self)@[p as int],
    {
        proof {
            lemma_two_pow_pos(self.log as nat);
            assert(1 * two_pow(self.log as nat) == self.size + 0);
        }
        self.push_path(1, self.log, 0, self.size, p);
        let r = self.d[self.size + p];
        proof {
            let j = self.size + p;
            assert(self.leaf_ok(j));
            lemma_residue_add_cong(r as int, acc(self.lz@, j), r as int, 0);
            lemma_wrap32_exact(r as int, self@[p as int]);
            if fits_i32(self@[p as int]) {
                lemma_wrap32_exact(self@[p as int], self@[p as int]);
            }
        }
        r
    }

    /// Writes `x` at value `p` below node `k` (height `h`, values `lo..hi`),
    /// pushing on the way down and recomputing on the way up.
    fn set_below(&mut self, k: usize, h: usize, lo: usize, hi: usize, p: usize, x: i32)
        requires
            old(self).wf_except(k as int),
            1 <= k,
            h <= old(self).log,
            k * two_pow(h as nat) == old(self).size + lo,
            hi == lo + two_pow(h as nat),
            hi <= old(self).size,
            lo <= p < hi,
            p < old(self).n,
            residue(acc(old(self).lz@, k as int)) == 0,
        ensures
            final(self).wf_except(k as int),
            final(self).same_frame(old(self)),
            final(self)@ == old(self)@.update(p as int, x as int),
            forall|i: int| 0 <= i < k ==> final(self).lz@[i] == old(self).lz@[i],
        decreases h,
    {
        let ghost size = self.size as int;
        proof {
            lemma_node_geometry(size, k as int, h as nat, lo as int);
        }
        if h == 0 {
            let ghost o = *self;
            self.d.set(k, x);
            self.vals = Ghost(self.vals@.update(p as int, x as int));
            proof {
                assert forall|j: int| size <= j < 2 * size implies #[trigger] self.leaf_ok(j) by {
                    if j != k {
                        assert(o.leaf_ok(j));
                    } else {
                        lemma_residue_add_cong(x as int, acc(self.lz@, j), x as int, 0);
                    }
                }
                assert forall|m: int, g: nat|
                    1 <= m < size && is_node(size, m, g) implies #[trigger] self.pad_ok(m, g) by {
                    assert(o.pad_ok(m, g));
                }
                assert forall|j: int| size + self.n <= j < 2 * size implies self.d@[j] == 0 by {
                    assert(o.d@[j] == 0);
                }
                assert forall|m: int, g: nat|
                    1 <= m < size && is_node(size, m, g) && !above(m, k as int) implies #[trigger] self.node_ok(m, g) by {
                    assert(o.node_ok(m, g));
                    if 2 * m == k || 2 * m + 1 == k {
                        assert(anc(m, (k / 2) as int));
                    }
                }
            }
            return;
        }
        proof {
            let ki = k as int;
            if ki > 1 {
                if anc(ki, ki / 2) {
                    lemma_anc_le(ki, ki / 2);
                }
                if anc(2 * ki, ki / 2) {
                    lemma_anc_le(2 * ki, ki / 2);
                }
                if anc(2 * ki + 1, ki / 2) {
                    lemma_anc_le(2 * ki + 1, ki / 2);
                }
            }
            assert(!above(ki, ki) && !above(2 * ki, ki) && !above(2 * ki + 1, ki));
            assert(self.node_ok(k as int, h as nat));
            if 2 * k < self.size {
                assert(self.node_ok(2 * k as int, (h - 1) as nat));
                assert(self.node_ok(2 * k + 1, (h - 1) as nat));
            }
        }
        self.push(k, h);
        let mid = lo + (hi - lo) / 2;
        if p < mid {
            self.set_below(2 * k, h - 1, lo, mid, p, x);
        } else {
            self.set_below(2 * k + 1, h - 1, mid, hi, p, x);
        }
        self.restore(k, h);
    }

    /// Recomputes node `k` (height `h`, nothing pending at it) after its
    /// subtree changed: the tree is then well-formed except above `k`.
    fn restore(&mut self, k: usize, h: usize)
        requires
            old(self).wf_except(2 * k as int),
            1 <= k < old(self).size,
            is_node(old(self).size as int, k as int, h as nat),
            old(self).lz@[k as int] == 0,
        ensures
            final(self).wf_except(k as int),
            final(self).same_frame(old(self)),
            final(self)@ == old(self)@,
            final(self).lz@ == old(self).lz@,
    {
        let ghost o = *self;
        let ghost size = self.size as int;
        self.update(k);
        proof {
            lemma_wrapping_add(o.d@[2 * k as int], o.d@[2 * k + 1]);
            assert forall|j: int| size <= j < 2 * size implies #[trigger] self.leaf_ok(j) by {
                assert(o.leaf_ok(j));
            }
            assert forall|m: int, g: nat|
                1 <= m < size && is_node(size, m, g) implies #[trigger] self.pad_ok(m, g) by {
                assert(o.pad_ok(m, g));
            }
            assert forall|j: int| size + self.n <= j < 2 * size implies self.d@[j] == 0 by {
                assert(o.d@[j] == 0);
            }
            assert forall|m: int, g: nat|
                1 <= m < size && is_node(size, m, g) && !above(m, k as int) implies #[trigger] self.node_ok(m, g) by {
                if m == k {
                    assert(two_pow(g) * 0 == 0);
                } else {
                    assert(!above(m, 2 * k as int));
                    assert(o.node_ok(m, g));
                    if 2 * m == k || 2 * m + 1 == k {
                        assert(anc(m, (k / 2) as int));
                    }
                }
            }
        }
    }

    /// Overwrites the value at index `p` with `x`: pending deltas on the path
    /// to its leaf are pushed first, then its ancestors are recomputed.
    pub fn set(&mut self, p: usize, x: i32)
        requires
            old(self).wf(),
            p < old(self).len(),
        ensures
            final(self).wf(),
            final(self).leaf_base() == old(self).leaf_base(),
            final(self).height() == old(self).height(),
            final(self)@ == old(self)@.update(p as int, x as int),
    {
        proof {
            lemma_two_pow_pos(self.log as nat);
            assert(1 * two_pow(self.log as nat) == self.size + 0);
        }
        self.set_below(1, self.log, 0, self.size, p, x);
    }

    /// Adds `f` to the values in `[l, r)` that lie below node `k` (height
    /// `h`, values `lo..hi`): a node inside the range takes the delta whole,
    /// a node the range covers in part is pushed, handled through its
    /// children, and recomputed.
    #[verifier::rlimit(60)]
    fn apply_below(&mut self, k: usize, h: usize, lo: usize, hi: usize, l: usize, r: usize, f: i32)
        requires
            old(self).wf_except(k as int),
            1 <= k,
            h <= old(self).log,
            k * two_pow(h as nat) == old(self).size + lo,
            hi == lo + two_pow(h as nat),
            hi <= old(self).size,
            l <= r <= old(self).n,
        ensures
            final(self).wf_except(k as int),
            final(self).same_frame(old(self)),
            final(self)@ == add_on_range(
                old(self)@,
                imax(l as int, lo as int),
                imin(r as int, hi as int),
                f as int,
            ),
            forall|i: int| 0 <= i < k ==> final(self).lz@[i] == old(self).lz@[i],
        decreases h,
    {
        let ghost size = self.size as int;
        let ghost ki = k as int;
        let ghost hn = h as nat;
        let ghost p = two_pow(hn) as int;
        proof {
            lemma_node_geometry(size, ki, hn, lo as int);
            if ki > 1 {
                if anc(ki, ki / 2) {
                    lemma_anc_le(ki, ki / 2);
                }
                if anc(2 * ki, ki / 2) {
                    lemma_anc_le(2 * ki, ki / 2);
                }
                if anc(2 * ki + 1, ki / 2) {
                    lemma_anc_le(2 * ki + 1, ki / 2);
                }
            }
            assert(!above(ki, ki) && !above(2 * ki, ki) && !above(2 * ki + 1, ki));
        }
        if r <= lo || hi <= l || r == l {
            assert(add_on_range(self@, imax(l as int, lo as int), imin(r as int, hi as int), f as int) =~= self@);
            return;
        }
        if l <= lo && hi <= r {
            let ghost o = *self;
            let w = self.widths[h];
            self.all_apply(k, f, w);
            self.vals = Ghost(add_on_range(self.vals@, lo as int, hi as int, f as int));
            proof {
                assert(residue(w as int) == residue(p));
                lemma_wrapping_mul(w, f);
                lemma_residue_mul_cong(f as int, w as int, p);
                assert(w * f == f * w && p * f == f * p) by (nonlinear_arith);
                lemma_wrapping_add(o.d@[ki], w.wrapping_mul(f));
                lemma_residue_add_cong(o.d@[ki] as int, w.wrapping_mul(f) as int, o.d@[ki] as int, p * f);
                assert(residue(self.d@[ki] as int) == residue(o.d@[ki] + p * f));
                if k < self.size {
                    lemma_wrapping_add(o.lz@[ki], f);
                    assert(self.node_ok(ki, hn)) by {
                        assert(o.node_ok(ki, hn));
                        let c = o.d@[2 * ki] + o.d@[2 * ki + 1];
                        lemma_residue_add_cong(o.d@[ki] as int, p * f, c + p * o.lz@[ki], p * f);
                        lemma_residue_mul_cong(p, self.lz@[ki] as int, o.lz@[ki] + f);
                        assert(p * (o.lz@[ki] + f) == p * o.lz@[ki] + p * f) by (nonlinear_arith);
                        lemma_residue_add_cong(c, p * self.lz@[ki], c, p * (o.lz@[ki] + f));
                    }
                }
                assert((ki + 1) * p == ki * p + p) by (nonlinear_arith);
                assert forall|m: int, g: nat|
                    1 <= m < size && is_node(size, m, g) implies #[trigger] self.pad_ok(m, g) by {
                    assert(o.pad_ok(m, g));
                    if m == ki {
                        lemma_height_unique(size, m, g, hn);
                    }
                }
                assert forall|j: int| size + self.n <= j < 2 * size implies self.d@[j] == 0 by {
                    assert(o.d@[j] == 0);
                }
                assert forall|m: int, g: nat|
                    1 <= m < size && is_node(size, m, g) && !above(m, ki) implies #[trigger] self.node_ok(m, g) by {
                    if m == ki {
                        lemma_height_unique(size, m, g, hn);
                    } else {
                        assert(o.node_ok(m, g));
                        if 2 * m == ki || 2 * m + 1 == ki {
                            assert(anc(m, ki / 2));
                        }
                        assert(self.lz@[m] == o.lz@[m]);
                    }
                }
                assert forall|j: int| size <= j < 2 * size implies #[trigger] self.leaf_ok(j) by {
                    assert(o.leaf_ok(j));
                    let c: int = if size + lo <= j < size + hi { f as int } else { 0 };
                    assert(self.leaf_val(j) == o.leaf_val(j) + c);
                    if k < self.size {
                        lemma_acc_add(o.lz@, self.lz@, size, ki, f as int, j);
                        lemma_leaf_under(size, ki, hn, j);
                        assert((ki + 1) * p == ki * p + p) by (nonlinear_arith);
                        assert(anc(ki, j) == above(ki, j));
                        assert(above(ki, j) <==> size + lo <= j < size + hi);
                        lemma_residue_add_cong(self.d@[j] as int, acc(self.lz@, j), o.d@[j] as int, acc(o.lz@, j) + c);
                        lemma_residue_add_cong(o.d@[j] + acc(o.lz@, j), c, o.leaf_val(j), c);
                    } else {
                        assert(p * f == c || j != ki);
                        if j == ki {
                            lemma_residue_add_cong(self.d@[j] as int, acc(self.lz@, j), o.d@[j] + p * f, acc(o.lz@, j));
                        }
                        lemma_residue_add_cong(o.d@[j] + acc(o.lz@, j), c, o.leaf_val(j), c);
                    }
                }
            }
            return;
        }
        proof {
            assert(self.node_ok(ki, hn));
            if 2 * k < self.size {
                assert(self.node_ok(2 * ki, (h - 1) as nat));
                assert(self.node_ok(2 * ki + 1, (h - 1) as nat));
            }
        }
        let ghost o = *self;
        self.push(k, h);
        let mid = lo + (hi - lo) / 2;
        self.apply_below(2 * k, h - 1, lo, mid, l, r, f);
        let ghost o1 = *self;
        self.apply_below(2 * k + 1, h - 1, mid, hi, l, r, f);
        self.restore(k, h);
        proof {
            assert(self@ =~= add_on_range(o@, imax(l as int, lo as int), imin(r as int, hi as int), f as int));
        }
    }

    /// Adds `delta` to every value in `[l, r)`; nothing happens when `l == r`.
    ///
    /// A node inside the range takes `delta` once per leaf below it into its
    /// own sum and keeps `delta` pending for its children; only the nodes the
    /// range covers in part are pushed beforehand and recomputed afterwards.
    pub fn apply_range(&mut self, l: usize, r: usize, delta: i32)
        requires
            old(self).wf(),
            l <= r <= old(self).len(),
        ensures
            final(self).wf(),
            final(self).leaf_base() == old(self).leaf_base(),
            final(self).height() == old(self).height(),
            final(self)@ == add_on_range(old(self)@, l as int, r as int, delta as int),
    {
        if l == r {
            assert(add_on_range(self@, l as int, r as int, delta as int) =~= self@);
            return;
        }
        proof {
            lemma_two_pow_pos(self.log as nat);
            assert(1 * two_pow(self.log as nat) == self.size + 0);
        }
        self.apply_below(1, self.log, 0, self.size, l, r, delta);
    }

    /// Adds one to every value in `[l, r)`.
    pub fn set_range(&mut self, l: usize, r: usize)
        requires
            old(self).wf(),
            l <= r <= old(self).len(),
        ensures
            final(self).wf(),
            final(self).leaf_base() == old(self).leaf_base(),
            final(self).height() == old(self).height(),
            final(self)@ == add_on_range(old(self)@, l as int, r as int, 1),
    {
        self.apply_range(l, r, 1);
    }
}

} // verus!
