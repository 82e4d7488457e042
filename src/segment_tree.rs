use crate::model::{
    anc, fits_i32, ints, minimal_shape, lemma_sum_agree, lemma_sum_split, lemma_sum_zero, lemma_two_pow_pos,
    lemma_residue_add, lemma_wrap32_exact, lemma_wrapping_add, residue, sum, tree_shape,
    two_pow, wrap32, zeros,
};
use vstd::prelude::*;

verus! {

/// A range-sum tree with point updates.
///
/// The `n` values sit in the leaves `size..size + n` of a 1-indexed implicit
/// binary tree of `2 * size` nodes; every internal node holds the sum of its
/// two children.
pub struct SegmentTree {
    n: usize,
    size: usize,
    log: usize,
    d: Vec<i32>,
}

impl View for SegmentTree {
    type V = Seq<int>;

    /// The current values, index `0` first.
    closed spec fn view(&self) -> Seq<int> {
        ints(self.d@).subrange(self.size as int, self.size + self.n)
    }
}

impl SegmentTree {
    /// The sizes of the layout agree with each other.
    pub closed spec fn shaped(&self) -> bool {
        &&& self.size == two_pow(self.log as nat)
        &&& self.n <= self.size
        &&& (self.size == 1 || self.size < 2 * self.n)
        &&& self.d@.len() == 2 * self.size
        &&& 2 * self.size <= usize::MAX
    }

    /// The stored nodes.
    pub closed spec fn nodes(&self) -> Seq<i32> {
        self.d@
    }

    /// Index of the first leaf; internal nodes are `1..leaf_base()`.
    pub closed spec fn leaf_base(&self) -> int {
        self.size as int
    }

    /// The height of the tree: `leaf_base() == 2^height()`.
    pub closed spec fn height(&self) -> nat {
        self.log as nat
    }

    /// A well-formed tree has `2 * leaf_base()` nodes, and `leaf_base()` is
    /// the smallest power of two that holds its values.
    pub proof fn lemma_layout(&self)
        requires
            self.wf(),
        ensures
            self.shaped(),
            self.nodes().len() == 2 * self.leaf_base(),
            minimal_shape(self.len() as int, self.leaf_base(), self.height() as int),
    {
    }

    /// Internal node `k` holds, modulo `2^32`, the sum of its children.
    pub closed spec fn node_ok(&self, k: int) -> bool {
        residue(self.d@[k] as int) == residue(self.d@[2 * k] + self.d@[2 * k + 1])
    }

    /// Well-formed: padding leaves hold zero and every internal node holds
    /// (modulo `2^32`) the sum of its children.
    pub closed spec fn wf(&self) -> bool {
        &&& self.shaped()
        &&& forall|j: int| self.size + self.n <= j < 2 * self.size ==> self.d@[j] == 0
        &&& forall|k: int| 1 <= k < self.size ==> #[trigger] self.node_ok(k)
    }

    /// The number of values.
    pub open spec fn len(&self) -> nat {
        self@.len()
    }

    /// Node `k` of height `h` holds the sum of the leaves below it.
    proof fn lemma_node(&self, k: int, h: nat)
        requires
            self.wf(),
            self.size <= k * two_pow(h),
            (k + 1) * two_pow(h) <= 2 * self.size,
        ensures
            residue(self.d@[k] as int) == residue(
                sum(ints(self.d@), k * two_pow(h), (k + 1) * two_pow(h)),
            ),
        decreases h,
    {
        let p = two_pow(h) as int;
        lemma_two_pow_pos(h);
        lemma_two_pow_pos(self.log as nat);
        assert(k >= 1) by (nonlinear_arith)
            requires
                p >= 1,
                self.size >= 1,
                self.size <= k * p,
        ;
        if h == 0 {
            assert(p == 1);
            assert(k * p == k && (k + 1) * p == k + 1) by (nonlinear_arith)
                requires
                    p == 1,
            ;
            assert(sum(ints(self.d@), k, k) == 0);
            assert(sum(ints(self.d@), k, k + 1) == self.d@[k]);
        } else {
            let hp = (h - 1) as nat;
            let q = two_pow(hp) as int;
            lemma_two_pow_pos(hp);
            assert(p == 2 * q);
            assert(k * p == (2 * k) * q && (k + 1) * p == (2 * k + 1 + 1) * q && (2 * k + 1) * q == k
                * p + q && k < self.size && (k + 1) * p == k * p + q + q) by (nonlinear_arith)
                requires
                    p == 2 * q,
                    q >= 1,
                    (k + 1) * p <= 2 * self.size,
            ;
            self.lemma_node(2 * k, hp);
            self.lemma_node(2 * k + 1, hp);
            lemma_sum_split(ints(self.d@), k * p, k * p + q, (k + 1) * p);
            assert(self.node_ok(k));
            lemma_residue_add(self.d@[2 * k] as int, self.d@[2 * k + 1] as int);
            lemma_residue_add(
                sum(ints(self.d@), k * p, k * p + q),
                sum(ints(self.d@), k * p + q, (k + 1) * p),
            );
        }
    }

    /// The sum of the leaves in node-index range `[size + a, size + b)` is the
    /// sum of the values in `[a, b)`.
    proof fn lemma_leaves_are_values(&self, a: int, b: int)
        requires
            self.wf(),
            0 <= a <= b <= self.n,
        ensures
            sum(ints(self.d@), self.size + a, self.size + b) == sum(self@, a, b),
    {
        lemma_sum_agree(self@, ints(self.d@), a, b, self.size as int);
    }

    /// A tree of `n` values, all zero.
    pub fn new_with_size(n: usize) -> (r: SegmentTree)
        requires
            n <= usize::MAX / 4,
        ensures
            r.wf(),
            minimal_shape(r.len() as int, r.leaf_base(), r.height() as int),
            r@ == Seq::new(n as nat, |i: int| 0int),
    {
        let (size, log) = tree_shape(n);
        let d = zeros(2 * size);
        let r = SegmentTree { n, size, log, d };
        assert forall|k: int| 1 <= k < size implies #[trigger] r.node_ok(k) by {}
        assert(r@ =~= Seq::new(n as nat, |i: int| 0int));
        r
    }

    /// A tree holding the values of `a`, in order.
    pub fn new_from_vec(a: Vec<i32>) -> (r: SegmentTree)
        requires
            a@.len() <= usize::MAX / 4,
        ensures
            r.wf(),
            minimal_shape(r.len() as int, r.leaf_base(), r.height() as int),
            r@ == ints(a@),
    {
        let n = a.len();
        let (size, log) = tree_shape(n);
        let mut d = zeros(2 * size);
        let mut i: usize = 0;
        while i < n
            invariant
                i <= n == a@.len(),
                n <= size,
                2 * size <= usize::MAX,
                d@.len() == 2 * size,
                forall|j: int| size <= j < size + i ==> d@[j] == a@[j - size],
                forall|j: int| 0 <= j < 2 * size && !(size <= j < size + i) ==> d@[j] == 0,
            decreases n - i,
        {
            d.set(size + i, a[i]);
            i = i + 1;
        }
        let mut st = SegmentTree { n, size, log, d };
        let mut k: usize = size;
        proof {
            lemma_two_pow_pos(log as nat);
        }
        while k > 1
            invariant
                1 <= k <= size,
                st.shaped(),
                st.n == n,
                st.size == size,
                forall|j: int| size <= j < 2 * size ==> st.d@[j] == (if j < size + n {
                    a@[j - size]
                } else {
                    0
                }),
                forall|m: int| k <= m < size ==> #[trigger] st.node_ok(m),
            decreases k,
        {
            k = k - 1;
            let ghost before = st;
            st.update(k);
            assert forall|m: int| k <= m < size implies #[trigger] st.node_ok(m) by {
                if m > k {
                    assert(before.node_ok(m));
                }
            }
        }
        assert(st@ =~= ints(a@));
        st
    }

    /// The value at index `p`.
    pub fn get(&self, p: usize) -> (r: i32)
        requires
            self.wf(),
            p < self.len(),
        ensures
            r == self@[p as int],
    {
        self.d[self.size + p]
    }

    /// The sum of the values in `[l, r)`, wrapped to `i32`; exact whenever
    /// that sum fits in an `i32`. Zero when `l == r`.
    ///
    /// Walks both boundaries upward: a left boundary that is a right child is
    /// taken and stepped past, a right boundary that is a right child is
    /// stepped back and taken, then both move to their parents.
    #[verifier::rlimit(50)]
    pub fn get_range(&self, l: usize, r: usize) -> (s: i32)
        requires
            self.wf(),
            l <= r <= self.len(),
        ensures
            s == wrap32(sum(self@, l as int, r as int)),
            fits_i32(sum(self@, l as int, r as int)) ==> s == sum(self@, l as int, r as int),
    {
        let ghost lo = self.size + l;
        let ghost hi = self.size + r;
        let ghost leaves = ints(self.d@);
        let mut sml: i32 = 0;
        let mut smr: i32 = 0;
        let mut a = l + self.size;
        let mut b = r + self.size;
        let ghost mut h: nat = 0;
        proof {
            assert(two_pow(0) == 1);
            assert(a * two_pow(0) == a && b * two_pow(0) == b);
        }
        while a < b
            invariant
                self.wf(),
                leaves == ints(self.d@),
                lo == self.size + l,
                hi == self.size + r,
                hi <= 2 * self.size,
                a <= b,
                lo <= a * two_pow(h),
                a * two_pow(h) <= b * two_pow(h),
                b * two_pow(h) <= hi,
                two_pow(h) >= 1,
                residue(sml as int) == residue(sum(leaves, lo, a * two_pow(h))),
                residue(smr as int) == residue(sum(leaves, b * two_pow(h), hi)),
            decreases b - a,
        {
            let ghost p = two_pow(h) as int;
            proof {
                assert(a < 2 * self.size && b - 1 < 2 * self.size) by (nonlinear_arith)
                    requires
                        a < b,
                        p >= 1,
                        b * p <= 2 * self.size,
                ;
            }
            if a % 2 == 1 {
                proof {
                    assert((a + 1) * p == a * p + p) by (nonlinear_arith);
                    assert((a + 1) * p <= b * p) by (nonlinear_arith)
                        requires
                            a < b,
                            p >= 1,
                    ;
                    self.lemma_node(a as int, h);
                    lemma_sum_split(leaves, lo, a * p, (a + 1) * p);
                    lemma_wrapping_add(sml, self.d@[a as int]);
                    lemma_residue_add(sml as int, self.d@[a as int] as int);
                    lemma_residue_add(sum(leaves, lo, a * p), sum(leaves, a * p, (a + 1) * p));
                }
                sml = sml.wrapping_add(self.d[a]);
                a = a + 1;
            }
            if b % 2 == 1 {
                proof {
                    assert((b - 1) * p == b * p - p) by (nonlinear_arith);
                    assert(a * p <= (b - 1) * p) by (nonlinear_arith)
                        requires
                            a <= b - 1,
                            p >= 1,
                    ;
                    self.lemma_node(b - 1, h);
                    lemma_sum_split(leaves, (b - 1) * p, b * p, hi);
                    lemma_wrapping_add(self.d@[b - 1], smr);
                    lemma_residue_add(self.d@[b - 1] as int, smr as int);
                    lemma_residue_add(sum(leaves, (b - 1) * p, b * p), sum(leaves, b * p, hi));
                }
                b = b - 1;
                smr = self.d[b].wrapping_add(smr);
            }
            proof {
                assert((a / 2) * (2 * p) == a * p && (b / 2) * (2 * p) == b * p) by (nonlinear_arith)
                    requires
                        a % 2 == 0,
                        b % 2 == 0,
                ;
                assert((a / 2) * (2 * p) <= (b / 2) * (2 * p)) by (nonlinear_arith)
                    requires
                        a <= b,
                        p >= 1,
                        a % 2 == 0,
                        b % 2 == 0,
                ;
                assert(two_pow(h + 1) == 2 * p);
                h = h + 1;
            }
            a = a / 2;
            b = b / 2;
        }
        proof {
            lemma_sum_split(leaves, lo, a * two_pow(h), hi);
            self.lemma_leaves_are_values(l as int, r as int);
            lemma_wrapping_add(sml, smr);
            lemma_residue_add(sml as int, smr as int);
            lemma_residue_add(sum(leaves, lo, a * two_pow(h)), sum(leaves, b * two_pow(h), hi));
            if fits_i32(sum(self@, l as int, r as int)) {
                lemma_wrap32_exact(sum(self@, l as int, r as int), sum(self@, l as int, r as int));
            }
        }
        sml.wrapping_add(smr)
    }

    /// Overwrites the value at index `p` with `x`, then recomputes every
    /// ancestor of its leaf, bottom-up.
    pub fn set(&mut self, p: usize, x: i32)
        requires
            old(self).wf(),
            p < old(self).len(),
        ensures
            final(self).wf(),
            final(self)@ == old(self)@.update(p as int, x as int),
            final(self).leaf_base() == old(self).leaf_base(),
            final(self).height() == old(self).height(),
    {
        let leaf = p + self.size;
        self.d.set(leaf, x);
        let mut k: usize = leaf / 2;
        assert forall|m: int| 1 <= m < self.size && !anc(m, k as int) implies #[trigger] self.node_ok(m) by {
            assert(old(self).node_ok(m));
            if m == k {
                assert(anc(m, k as int));
            }
        }
        while k >= 1
            invariant
                self.shaped(),
                self.n == old(self).n,
                self.size == old(self).size,
                self.log == old(self).log,
                k < self.size,
                forall|j: int|
                    self.size <= j < 2 * self.size ==> self.d@[j] == (if j == leaf {
                        x
                    } else {
                        old(self).d@[j]
                    }),
                forall|m: int| 1 <= m < self.size && !anc(m, k as int) ==> #[trigger] self.node_ok(m),
                leaf == p + self.size,
                p < self.n,
            decreases k,
        {
            let ghost before = *self;
            self.update(k);
            assert forall|m: int| 1 <= m < self.size && !anc(m, (k / 2) as int) implies #[trigger] self.node_ok(m) by {
                if m != k {
                    assert(!anc(m, k as int));
                    assert(before.node_ok(m));
                }
            }
            k = k / 2;
        }
        assert(self@ =~= old(self)@.update(p as int, x as int));
    }

    /// The sum of all values, wrapped to `i32`; exact whenever it fits.
    pub fn get_all(&self) -> (s: i32)
        requires
            self.wf(),
        ensures
            s == wrap32(sum(self@, 0, self.len() as int)),
            fits_i32(sum(self@, 0, self.len() as int)) ==> s == sum(self@, 0, self.len() as int),
    {
        proof {
            lemma_two_pow_pos(self.log as nat);
            assert(1 * two_pow(self.log as nat) == self.size);
            self.lemma_node(1, self.log as nat);
            lemma_sum_split(ints(self.d@), self.size as int, self.size + self.n, 2 * self.size);
            lemma_sum_zero(ints(self.d@), self.size + self.n, 2 * self.size);
            self.lemma_leaves_are_values(0, self.n as int);
            lemma_wrap32_exact(self.d@[1] as int, sum(self@, 0, self.n as int));
        }
        self.d[1]
    }

    /// Recomputes internal node `k` as the (wrapping) sum of its two children.
    pub fn update(&mut self, k: usize)
        requires
            old(self).shaped(),
            1 <= k < old(self).leaf_base(),
        ensures
            final(self).shaped(),
            final(self).len() == old(self).len(),
            final(self).leaf_base() == old(self).leaf_base(),
            final(self).height() == old(self).height(),
            final(self).nodes() == old(self).nodes().update(
                k as int,
                wrap32(old(self).nodes()[2 * k] + old(self).nodes()[2 * k + 1]) as i32,
            ),
            final(self).node_ok(k as int),
            old(self).wf() ==> final(self).wf() && final(self)@ == old(self)@,
    {
        proof {
            lemma_wrapping_add(self.d@[2 * k as int], self.d@[2 * k + 1]);
        }
        let ghost o = *self;
        let v = self.d[2 * k].wrapping_add(self.d[2 * k + 1]);
        self.d.set(k, v);
        proof {
            if o.wf() {
                assert(o.node_ok(k as int));
                lemma_wrap32_exact(o.d@[k as int] as int, o.d@[2 * k as int] + o.d@[2 * k + 1]);
                assert(self.d@ =~= o.d@);
                assert forall|m: int| 1 <= m < self.size implies #[trigger] self.node_ok(m) by {
                    assert(o.node_ok(m));
                }
                assert(self@ =~= o@);
            }
        }
    }
}

} // verus!
