//! A binary Galois field GF(2^n): element arithmetic and a Gauss-Jordan
//! solver for augmented linear systems over the field.
use vstd::prelude::*;
use vstd::arithmetic::power2::{pow2, lemma_pow2_unfold, lemma_pow2_pos};
use crate::poly::{
    xor, lead, clmul, is_division, poly_quot, poly_rem, lemma_xor_zero, lemma_xor_self,
    lemma_xor_comm, lemma_xor_swap, lemma_xor_disjoint, lemma_lead_bound, lemma_lead_lt,
    lemma_lead_xor_lt, lemma_lead_xor_eq, lemma_lead_shift, lemma_clmul_basics,
    lemma_clmul_double_right, lemma_division_unique, bit_at, lemma_clmul_distrib_left,
    lemma_clmul_pow2, lemma_xor_mod, lemma_clmul_one_right, lemma_clmul_zero_right,
    lemma_clmul_comm, lemma_clmul_assoc, lemma_division_exists, lemma_rem_xor, lemma_rem_multiple,
    lemma_rem_mul, lemma_quot_lead, lemma_xor_cancel, lemma_clmul_lead, lemma_lead_xor_le,
};
use crate::unsigned::{Number, Unsigned};
use crate::matrix::Matrix;

verus! {

/// The extended Euclidean iteration of `inv` stops at this many divisions.
pub const INVERSE_STEP_LIMIT: u32 = 4;

/// A field given by an order bound and an irreducible polynomial `base`.
///
/// `order` is only used to recognise products that are already reduced;
/// `base` is the modulus of multiplication.
pub struct Galois<T> {
    order: T,
    base: T,
}

impl<T: Unsigned> Galois<T> {
    pub closed spec fn order_value(self) -> nat {
        self.order.value()
    }

    pub closed spec fn base_value(self) -> nat {
        self.base.value()
    }

    /// The modulus is a nonzero polynomial (an irreducible one always is).
    pub open spec fn wf(self) -> bool {
        self.base_value() != 0
    }

    /// The carry-less product of `a` and `b`, truncated to the width of `T`.
    pub open spec fn raw_product(a: nat, b: nat) -> nat {
        clmul(a, b) % pow2(T::width())
    }

    /// Field product: the truncated carry-less product, reduced modulo `base`
    /// unless it already lies below `order`.
    pub open spec fn mul_spec(self, a: nat, b: nat) -> nat {
        let p = Self::raw_product(a, b);
        if p < self.order_value() {
            p
        } else {
            poly_rem(p, self.base_value())
        }
    }

    /// The extended Euclidean iteration on remainders `r0, r1` and Bezout
    /// coefficients `t0, t1`, after `done` divisions; it ends when the
    /// remainder is zero or when the division about to be made would reach
    /// `INVERSE_STEP_LIMIT`, and yields its final `(r0, r1, t0, t1)`.
    pub open spec fn euclid(self, r0: nat, r1: nat, t0: nat, t1: nat, done: nat) -> (
        nat,
        nat,
        nat,
        nat,
    )
        decreases INVERSE_STEP_LIMIT - done,
    {
        if r1 == 0 || done + 1 >= INVERSE_STEP_LIMIT {
            (r0, r1, t0, t1)
        } else {
            self.euclid(
                r1,
                poly_rem(r0, r1),
                t1,
                xor(t0, self.mul_spec(t1, poly_quot(r0, r1))),
                done + 1,
            )
        }
    }

    /// Multiplicative inverse as computed by the capped extended Euclidean
    /// iteration, started from the modulus and `a`.
    pub open spec fn inv_spec(self, a: nat) -> nat {
        self.euclid(self.base_value(), a, 0, 1, 0).2
    }

    /// The capped iteration for `a` ran to a zero remainder, and the last
    /// nonzero remainder (the greatest common divisor of the modulus and `a`)
    /// is 1: the step limit sufficed.
    pub open spec fn inverse_completes(self, a: nat) -> bool {
        let e = self.euclid(self.base_value(), a, 0, 1, 0);
        e.1 == 0 && e.0 == 1
    }

    /// The modulus has degree `n`, `order` is `2^n`, and `T` holds any product
    /// of two polynomials of degree below `n + 1`.
    pub open spec fn proper(self, n: nat) -> bool {
        &&& lead(self.base_value()) == n + 1
        &&& self.order_value() == pow2(n)
        &&& 2 * n <= T::width()
    }

    /// Row `i` of `m` scaled by the inverse of its diagonal entry: the
    /// diagonal entry becomes 1, the entries left of it stay.
    pub open spec fn pivot_row(self, m: Seq<Seq<nat>>, i: int) -> Seq<nat> {
        let pinv = self.inv_spec(m[i][i]);
        Seq::new(
            m[i].len(),
            |j: int|
                if j < i {
                    m[i][j]
                } else if j == i {
                    1
                } else {
                    self.mul_spec(m[i][j], pinv)
                },
        )
    }

    /// Row `r` after subtracting the pivot row `p` scaled by the entry of `r`
    /// in column `i`, from column `i` on.
    pub open spec fn eliminate_row(self, p: Seq<nat>, r: Seq<nat>, i: int) -> Seq<nat> {
        Seq::new(
            r.len(),
            |j: int|
                if j < i {
                    r[j]
                } else {
                    xor(r[j], self.mul_spec(p[j], r[i]))
                },
        )
    }

    /// Every row but `i` with the pivot row `m[i]` eliminated from it.
    pub open spec fn eliminate_all(self, m: Seq<Seq<nat>>, i: int) -> Seq<Seq<nat>> {
        Seq::new(
            m.len(),
            |k: int|
                if k == i {
                    m[i]
                } else {
                    self.eliminate_row(m[i], m[k], i)
                },
        )
    }

    /// One step of Gauss-Jordan elimination on column `i`, without pivot
    /// search.
    pub open spec fn gauss_step(self, m: Seq<Seq<nat>>, i: int) -> Seq<Seq<nat>> {
        self.eliminate_all(m.update(i, self.pivot_row(m, i)), i)
    }

    /// The first `n` steps of Gauss-Jordan elimination on `m`.
    pub open spec fn gauss_upto(self, m: Seq<Seq<nat>>, n: nat) -> Seq<Seq<nat>>
        decreases n,
    {
        if n == 0 {
            m
        } else {
            self.gauss_step(self.gauss_upto(m, (n - 1) as nat), n - 1)
        }
    }

    /// For every field element `a` (below `order`): `a + a == 0`,
    /// `a + 0 == a`, `a * 1 == a` and `a * 0 == 0`.
    pub proof fn lemma_identities(self, a: nat)
        requires
            a < self.order_value(),
        ensures
            xor(a, a) == 0,
            xor(a, 0) == a,
            self.mul_spec(a, 1) == a,
            self.mul_spec(a, 0) == 0,
    {
        self.order.lemma_value_range();
        lemma_xor_self(a);
        lemma_xor_zero(a);
        lemma_clmul_one_right(a);
        lemma_clmul_zero_right(a);
        lemma_pow2_pos(T::width());
        vstd::arithmetic::div_mod::lemma_small_mod(a, pow2(T::width()));
        vstd::arithmetic::div_mod::lemma_small_mod(0, pow2(T::width()));
    }

    /// Addition and multiplication are commutative.
    pub proof fn lemma_commutative(self, a: nat, b: nat)
        ensures
            xor(a, b) == xor(b, a),
            self.mul_spec(a, b) == self.mul_spec(b, a),
    {
        lemma_xor_comm(a, b);
        lemma_clmul_comm(a, b);
    }

    /// The inverse of 1 is 1.
    pub proof fn lemma_inv_one(self)
        ensures
            self.inv_spec(1) == 1,
    {
        let bv = self.base_value();
        lemma_clmul_one_right(bv);
        lemma_xor_zero(bv);
        lemma_division_unique(bv, 1, bv, 0);
        let t1 = xor(0, self.mul_spec(1, poly_quot(bv, 1)));
        assert(self.euclid(1, 0, 1, t1, 1) == (1nat, 0nat, 1nat, t1));
        assert(self.euclid(bv, 1, 0, 1, 0) == self.euclid(1, 0, 1, t1, 1));
    }

    /// Solving a system that is already solved (identity left block, every
    /// entry a field element) leaves it unchanged.
    pub proof fn lemma_solve_idempotent(self, m: Seq<Seq<nat>>, n: nat)
        requires
            m.len() == n,
            forall|k: int| 0 <= k < n ==> (#[trigger] m[k]).len() == n + 1,
            forall|k: int, j: int|
                0 <= k < n && 0 <= j < n ==> #[trigger] m[k][j] == if k == j { 1nat } else { 0nat },
            forall|k: int, j: int| 0 <= k < n && 0 <= j <= n ==> #[trigger] m[k][j] < self.order_value(),
        ensures
            self.gauss_upto(m, n) == m,
    {
        self.lemma_gauss_fixed(m, n, n);
    }

    proof fn lemma_gauss_fixed(self, m: Seq<Seq<nat>>, n: nat, steps: nat)
        requires
            steps <= n,
            m.len() == n,
            forall|k: int| 0 <= k < n ==> (#[trigger] m[k]).len() == n + 1,
            forall|k: int, j: int|
                0 <= k < n && 0 <= j < n ==> #[trigger] m[k][j] == if k == j { 1nat } else { 0nat },
            forall|k: int, j: int| 0 <= k < n && 0 <= j <= n ==> #[trigger] m[k][j] < self.order_value(),
        ensures
            self.gauss_upto(m, steps) == m,
        decreases steps,
    {
        if steps > 0 {
            let i = steps - 1;
            self.lemma_gauss_fixed(m, n, (steps - 1) as nat);
            self.lemma_inv_one();
            assert(m[i][i] == 1);
            let p = self.pivot_row(m, i);
            assert forall|j: int| 0 <= j < n + 1 implies #[trigger] p[j] == m[i][j] by {
                self.lemma_identities(m[i][j]);
            }
            assert(p =~= m[i]);
            assert(m.update(i, p) =~= m);
            assert forall|k: int| 0 <= k < n && k != i implies #[trigger] self.eliminate_row(
                m[i],
                m[k],
                i,
            ) == m[k] by {
                let e = self.eliminate_row(m[i], m[k], i);
                assert forall|j: int| 0 <= j < n + 1 implies #[trigger] e[j] == m[k][j] by {
                    self.lemma_identities(m[i][j]);
                    assert(m[k][i] == 0);
                    lemma_xor_zero(m[k][j]);
                }
                assert(e =~= m[k]);
            }
            assert(self.eliminate_all(m, i) =~= m);
        }
    }

    /// In a proper field, wherever the capped iteration suffices for a
    /// nonzero element `a`, `mul(a, inv(a)) == 1`.
    pub proof fn lemma_inverse(self, a: nat, n: nat)
        requires
            self.proper(n),
            0 < a < pow2(n),
            self.inverse_completes(a),
        ensures
            self.mul_spec(a, self.inv_spec(a)) == 1,
    {
        let b = self.base_value();
        lemma_lead_bound(a, n);
        lemma2_to64_small();
        if n == 0 {
            assert(false);
        }
        lemma_pow2_le(1, n);
        lemma_clmul_basics(0, b);
        lemma_clmul_basics(0, a);
        lemma_rem_multiple(0, b);
        lemma_rem_multiple(1, b);
        lemma_clmul_basics(1, a);
        self.lemma_euclid_congruence(a, n, b, a, 0, 1, 0);
        let t = self.inv_spec(a);
        lemma_clmul_basics(0, b);
        lemma_xor_zero(1);
        assert(lead(1) == 1) by {
            assert(lead(0) == 0);
        }
        lemma_division_unique(1, b, 0, 1);
        lemma_lead_bound(t, n);
        self.lemma_mul_spec_reduces(a, t, n);
        lemma_clmul_comm(a, t);
    }

    /// In a proper field, a product of factors of small degree is the
    /// remainder of the carry-less product, and is a field element.
    proof fn lemma_mul_spec_reduces(self, x: nat, y: nat, n: nat)
        requires
            self.proper(n),
            lead(x) <= n,
            lead(y) <= n + 1,
        ensures
            self.mul_spec(x, y) == poly_rem(clmul(x, y), self.base_value()),
            self.mul_spec(x, y) < pow2(n),
    {
        let b = self.base_value();
        let w = T::width();
        let c = clmul(x, y);
        lemma_pow2_pos(w);
        if x != 0 && y != 0 {
            lemma_clmul_lead(x, y);
        } else if x == 0 {
            lemma_clmul_basics(0, y);
        } else {
            lemma_clmul_zero_right(x);
        }
        lemma_lead_bound(c, w);
        vstd::arithmetic::div_mod::lemma_small_mod(c, pow2(w));
        if c < pow2(n) {
            lemma_lead_bound(c, n);
            lemma_clmul_basics(0, b);
            lemma_xor_zero(c);
            lemma_division_unique(c, b, 0, c);
        }
        lemma_quot_lead(c, b);
        lemma_lead_bound(poly_rem(c, b), n);
    }

    /// Along the iteration, `t0 * a` and `r0` agree modulo the base, as do
    /// `t1 * a` and `r1`.
    proof fn lemma_euclid_congruence(self, a: nat, n: nat, r0: nat, r1: nat, t0: nat, t1: nat, done: nat)
        requires
            self.proper(n),
            lead(r0) <= n + 1,
            lead(r1) <= n,
            t0 < pow2(n),
            t1 < pow2(n),
            poly_rem(clmul(t0, a), self.base_value()) == poly_rem(r0, self.base_value()),
            poly_rem(clmul(t1, a), self.base_value()) == poly_rem(r1, self.base_value()),
        ensures
            poly_rem(clmul(self.euclid(r0, r1, t0, t1, done).2, a), self.base_value())
                == poly_rem(self.euclid(r0, r1, t0, t1, done).0, self.base_value()),
            self.euclid(r0, r1, t0, t1, done).2 < pow2(n),
        decreases INVERSE_STEP_LIMIT - done,
    {
        if !(r1 == 0 || done + 1 >= INVERSE_STEP_LIMIT) {
            let b = self.base_value();
            let q = poly_quot(r0, r1);
            let r = poly_rem(r0, r1);
            lemma_quot_lead(r0, r1);
            lemma_division_exists(r0, r1);
            lemma_lead_bound(t0, n);
            lemma_lead_bound(t1, n);
            let m = self.mul_spec(t1, q);
            self.lemma_mul_spec_reduces(t1, q, n);
            let t = xor(t0, m);
            lemma_lead_bound(m, n);
            lemma_lead_xor_le(t0, m);
            lemma_lead_bound(t, n);
            // t * a == t0 * a + (t1 * q) * a == r0 + r1 * q == r  (mod b)
            lemma_clmul_distrib_left(t0, m, a);
            lemma_rem_xor(clmul(t0, a), clmul(m, a), b);
            lemma_rem_mul(clmul(t1, q), a, b);
            lemma_clmul_assoc(t1, q, a);
            lemma_clmul_comm(q, a);
            lemma_clmul_assoc(t1, a, q);
            lemma_rem_mul(clmul(t1, a), q, b);
            lemma_rem_mul(r1, q, b);
            lemma_rem_xor(r0, clmul(r1, q), b);
            lemma_clmul_comm(r1, q);
            lemma_xor_cancel(clmul(q, r1), r, r0);
            lemma_xor_comm(clmul(q, r1), r0);
            self.lemma_euclid_congruence(a, n, r1, r, t1, t, done + 1);
        }
    }

    pub fn irr_poly(order: T, base: T) -> (r: Galois<T>)
        ensures
            r.order_value() == order.value(),
            r.base_value() == base.value(),
    {
        Galois { order, base }
    }

    /// Field addition (and subtraction): exclusive or.
    pub fn add(&self, a: T, b: T) -> (r: T)
        ensures
            r.value() == xor(a.value(), b.value()),
    {
        a.xor(b)
    }

    /// Scales the entries of row `i` right of the diagonal by `a_inv`.
    fn reduce_left(&self, matrix: &mut Matrix<T>, i: usize, a_inv: T)
        requires
            self.wf(),
            old(matrix).wf(),
            i < old(matrix).rows(),
            i < old(matrix).cols(),
        ensures
            final(matrix).wf(),
            final(matrix).rows() == old(matrix).rows(),
            final(matrix).cols() == old(matrix).cols(),
            final(matrix)@ == old(matrix)@.update(
                i as int,
                Seq::new(
                    old(matrix).cols(),
                    |l: int|
                        if l <= i {
                            old(matrix)@[i as int][l]
                        } else {
                            self.mul_spec(old(matrix)@[i as int][l], a_inv.value())
                        },
                ),
            ),
    {
        let ghost m0 = matrix@;
        proof {
            matrix.lemma_shape();
        }
        let col = matrix.col();
        let mut j = i + 1;
        while j < col
            invariant
                self.wf(),
                matrix.wf(),
                matrix.rows() == m0.len(),
                matrix.cols() == col,
                i < m0.len(),
                i < j <= col + 1,
                matrix@.len() == m0.len(),
                m0[i as int].len() == col,
                forall|k: int| 0 <= k < m0.len() && k != i ==> #[trigger] matrix@[k] == m0[k],
                matrix@[i as int].len() == col,
                forall|l: int|
                    0 <= l < col ==> #[trigger] matrix@[i as int][l] == if i < l < j {
                        self.mul_spec(m0[i as int][l], a_inv.value())
                    } else {
                        m0[i as int][l]
                    },
            decreases col + 1 - j,
        {
            proof {
                matrix.lemma_shape();
            }
            let v = self.mul(matrix.get(i, j), a_inv);
            matrix.set(i, j, v);
            j = j + 1;
        }
        proof {
            let target = Seq::new(
                col as nat,
                |l: int|
                    if l <= i {
                        m0[i as int][l]
                    } else {
                        self.mul_spec(m0[i as int][l], a_inv.value())
                    },
            );
            assert(matrix@[i as int] =~= target);
            assert(matrix@ =~= m0.update(i as int, target));
        }
    }

    /// Subtracts row `i`, scaled by the entry of row `k` in column `i`, from
    /// row `k`, from column `i` on.
    fn reduce_all_left(&self, matrix: &mut Matrix<T>, i: usize, k: usize)
        requires
            self.wf(),
            old(matrix).wf(),
            i < old(matrix).rows(),
            k < old(matrix).rows(),
            i < old(matrix).cols(),
            k != i,
        ensures
            final(matrix).wf(),
            final(matrix).rows() == old(matrix).rows(),
            final(matrix).cols() == old(matrix).cols(),
            final(matrix)@ == old(matrix)@.update(
                k as int,
                self.eliminate_row(old(matrix)@[i as int], old(matrix)@[k as int], i as int),
            ),
    {
        let ghost m0 = matrix@;
        proof {
            matrix.lemma_shape();
        }
        let col = matrix.col();
        let a = matrix.get(k, i);
        let mut j = i;
        while j < col
            invariant
                self.wf(),
                matrix.wf(),
                matrix.rows() == m0.len(),
                matrix.cols() == col,
                i < m0.len(),
                k < m0.len(),
                k != i,
                i < col,
                i <= j <= col,
                a.value() == m0[k as int][i as int],
                matrix@.len() == m0.len(),
                m0[i as int].len() == col,
                m0[k as int].len() == col,
                forall|r: int| 0 <= r < m0.len() && r != k ==> #[trigger] matrix@[r] == m0[r],
                matrix@[k as int].len() == col,
                forall|l: int|
                    0 <= l < col ==> #[trigger] matrix@[k as int][l] == if i <= l < j {
                        xor(m0[k as int][l], self.mul_spec(m0[i as int][l], a.value()))
                    } else {
                        m0[k as int][l]
                    },
            decreases col - j,
        {
            proof {
                matrix.lemma_shape();
            }
            let p = self.mul(matrix.get(i, j), a);
            let v = matrix.get(k, j).xor(p);
            matrix.set(k, j, v);
            j = j + 1;
        }
        proof {
            let target = self.eliminate_row(m0[i as int], m0[k as int], i as int);
            assert(matrix@[k as int] =~= target);
            assert(matrix@ =~= m0.update(k as int, target));
        }
    }

    /// Eliminates column `i` from every row but row `i`.
    fn reduce_all(&self, matrix: &mut Matrix<T>, i: usize)
        requires
            self.wf(),
            old(matrix).wf(),
            i < old(matrix).rows(),
            i < old(matrix).cols(),
        ensures
            final(matrix).wf(),
            final(matrix).rows() == old(matrix).rows(),
            final(matrix).cols() == old(matrix).cols(),
            final(matrix)@ == self.eliminate_all(old(matrix)@, i as int),
    {
        let ghost m0 = matrix@;
        proof {
            matrix.lemma_shape();
        }
        let row = matrix.row();
        let mut k: usize = 0;
        while k < row
            invariant
                self.wf(),
                matrix.wf(),
                matrix.rows() == row,
                matrix.cols() == m0[i as int].len(),
                row == m0.len(),
                i < row,
                i < matrix.cols(),
                k <= row,
                matrix@.len() == row,
                matrix@[i as int] == m0[i as int],
                forall|r: int|
                    0 <= r < row ==> #[trigger] matrix@[r] == if r < k && r != i {
                        self.eliminate_row(m0[i as int], m0[r], i as int)
                    } else {
                        m0[r]
                    },
            decreases row - k,
        {
            if k != i {
                self.reduce_all_left(matrix, i, k);
            }
            k = k + 1;
        }
        proof {
            assert(matrix@ =~= self.eliminate_all(m0, i as int));
        }
    }

    /// Solves the augmented system held in `matrix` in place by Gauss-Jordan
    /// elimination: when every pivot met is invertible, the left block
    /// becomes the identity and the last column holds the solution.
    pub fn solve_linear(&self, matrix: &mut Matrix<T>)
        requires
            self.wf(),
            old(matrix).wf(),
            old(matrix).cols() == old(matrix).rows() + 1,
        ensures
            final(matrix).wf(),
            final(matrix).rows() == old(matrix).rows(),
            final(matrix).cols() == old(matrix).cols(),
            final(matrix)@ == self.gauss_upto(old(matrix)@, old(matrix).rows()),
    {
        let ghost m0 = matrix@;
        let row = matrix.row();
        let col = matrix.col();
        let mut i: usize = 0;
        while i < row
            invariant
                self.wf(),
                matrix.wf(),
                matrix.rows() == row,
                matrix.cols() == col,
                col == row + 1,
                i <= row,
                matrix@ == self.gauss_upto(m0, i as nat),
            decreases row - i,
        {
            let ghost before = matrix@;
            proof {
                matrix.lemma_shape();
            }
            let a = matrix.get(i, i);
            matrix.set(i, i, T::one());
            let a_inv = self.inv(a);
            self.reduce_left(matrix, i, a_inv);
            proof {
                assert(matrix@[i as int] =~= self.pivot_row(before, i as int));
                assert(matrix@ =~= before.update(i as int, self.pivot_row(before, i as int)));
            }
            self.reduce_all(matrix, i);
            i = i + 1;
        }
    }

    /// Field multiplication: carry-less product over the bits of `a`, then
    /// reduction modulo `base` unless the product is already below `order`.
    pub fn mul(&self, a: T, b: T) -> (r: T)
        requires
            self.wf(),
        ensures
            r.value() == self.mul_spec(a.value(), b.value()),
    {
        let ghost av = a.value();
        let ghost bv = b.value();
        let ghost w = T::width();
        let mut term = b;
        let mut prod = T::zero();
        let n = T::bits();
        let mut i: usize = 0;
        proof {
            a.lemma_value_range();
            b.lemma_value_range();
            lemma2_to64_small();
            lemma_pow2_pos(w);
            vstd::arithmetic::div_mod::lemma_small_mod(bv, pow2(w));
            vstd::arithmetic::div_mod::lemma_small_mod(0, pow2(w));
            lemma_clmul_basics(0, bv);
        }
        while i < n
            invariant
                av == a.value(),
                bv == b.value(),
                w == T::width(),
                n == w,
                i <= n,
                av < pow2(w),
                term.value() == (bv * pow2(i as nat)) % pow2(w),
                prod.value() == clmul(av % pow2(i as nat), bv) % pow2(w),
            decreases n - i,
        {
            proof {
                lemma_mul_step(av, bv, i as nat, w);
            }
            if a.isset(i) {
                prod = prod.xor(term);
            }
            term = term.shl_one();
            i = i + 1;
        }
        proof {
            vstd::arithmetic::div_mod::lemma_small_mod(av, pow2(w));
        }
        if prod.less_than(self.order) {
            return prod;
        }
        let (_, rem) = self.div(prod, self.base);
        rem
    }

    /// Multiplicative inverse of `a` by the extended Euclidean algorithm over
    /// GF(2)[x], run for at most `INVERSE_STEP_LIMIT` divisions.
    pub fn inv(&self, a: T) -> (r: T)
        requires
            self.wf(),
        ensures
            r.value() == self.inv_spec(a.value()),
    {
        let mut t0 = T::zero();
        let mut t1 = T::one();
        let mut r0 = self.base;
        let mut r1 = a;
        let mut x: u32 = 0;
        while !r1.is_zero()
            invariant_except_break
                x < INVERSE_STEP_LIMIT,
            invariant
                self.wf(),
                self.euclid(r0.value(), r1.value(), t0.value(), t1.value(), x as nat)
                    == self.euclid(self.base_value(), a.value(), 0, 1, 0),
            ensures
                t0.value() == self.inv_spec(a.value()),
            decreases INVERSE_STEP_LIMIT - x,
        {
            let (q, r) = self.div(r0, r1);
            x = x + 1;
            if x == INVERSE_STEP_LIMIT {
                break;
            }
            let t = t0.xor(self.mul(t1, q));
            r0 = r1;
            r1 = r;
            t0 = t1;
            t1 = t;
        }
        t0
    }

    /// Polynomial long division of `a` by `b`.
    pub fn div(&self, a: T, b: T) -> (r: (T, T))
        requires
            b.value() != 0,
        ensures
            is_division(a.value(), b.value(), r.0.value(), r.1.value()),
            r.0.value() == poly_quot(a.value(), b.value()),
            r.1.value() == poly_rem(a.value(), b.value()),
    {
        let ghost av = a.value();
        let ghost bv = b.value();
        let ghost w = T::width();
        let mut r0 = T::zero();
        let mut r1 = a;
        let b1 = a.lmb_pos();
        let b2 = b.lmb_pos();
        proof {
            a.lemma_value_range();
            lemma_lead_bound(av, w);
            lemma_clmul_basics(0, bv);
            lemma_xor_zero(av);
        }
        if b1 < b2 {
            proof {
                lemma_division_unique(av, bv, 0, av);
            }
            return (r0, r1);
        }
        let mut bit = b1 - b2;
        let ghost s = bit as nat;
        proof {
            lemma_lead_shift(bv, s);
            lemma_lead_bound(bv * pow2(s), w);
            lemma2_to64_small();
            lemma_clmul_basics(0, 2 * (bv * pow2(s)));
        }
        let mut divisor = b.shl(bit);
        loop
            invariant_except_break
                xor(clmul(r0.value(), 2 * divisor.value()), r1.value()) == av,
                lead(r1.value()) <= lead(bv) + bit,
                r0.value() < pow2((s - bit) as nat),
            invariant
                av == a.value(),
                bv == b.value(),
                bv != 0,
                w == T::width(),
                s + 1 <= w,
                bit <= s,
                divisor.value() == bv * pow2(bit as nat),
            ensures
                is_division(av, bv, r0.value(), r1.value()),
            decreases bit,
        {
            let ghost q = r0.value();
            let ghost d = divisor.value();
            let ghost rv = r1.value();
            proof {
                lemma_pow2_unfold((s - bit + 1) as nat);
                lemma_pow2_le((s - bit + 1) as nat, w);
                vstd::arithmetic::div_mod::lemma_small_mod(2 * q, pow2(w));
            }
            r0 = r0.shl_one();
            proof {
                lemma_clmul_basics(q, d);
                lemma_clmul_double_right(q, d);
                lemma_lead_shift(bv, bit as nat);
            }
            let t = r1.xor(divisor);
            if t.at_most(r1) {
                proof {
                    if lead(rv) < lead(d) {
                        lemma_lead_xor_lt(rv, d);
                        lemma_lead_lt(rv, xor(rv, d));
                    }
                    lemma_lead_xor_eq(rv, d);
                    lemma2_to64_small();
                    lemma_xor_disjoint(1, q, 1);
                    lemma_xor_comm(1, 2 * q);
                    lemma_xor_swap(clmul(2 * q, d), d, rv, d);
                    lemma_xor_self(d);
                    lemma_xor_zero(av);
                }
                r1 = t;
                r0 = r0.xor(T::one());
            } else {
                proof {
                    if lead(rv) == lead(d) && rv != 0 {
                        lemma_lead_xor_eq(rv, d);
                        lemma_lead_lt(xor(rv, d), rv);
                    }
                    if rv == 0 {
                        assert(lead(rv) == 0);
                    }
                }
            }
            if bit == 0 {
                proof {
                    lemma2_to64_small();
                    assert(d == bv) by (nonlinear_arith)
                        requires d == bv * pow2(0), pow2(0) == 1;
                    assert(xor(clmul(r0.value(), d), r1.value()) == av);
                    assert(lead(r1.value()) < lead(d));
                }
                break;
            }
            proof {
                lemma_pow2_unfold(bit as nat);
                assert(d == 2 * (bv * pow2((bit - 1) as nat))) by (nonlinear_arith)
                    requires
                        d == bv * pow2(bit as nat),
                        pow2(bit as nat) == 2 * pow2((bit - 1) as nat),
                ;
            }
            divisor = divisor.shr_one();
            bit = bit - 1;
        }
        proof {
            lemma_division_unique(av, bv, r0.value(), r1.value());
        }
        (r0, r1)
    }
}

/// One more bit of `a` in the loop of `mul`.
proof fn lemma_mul_step(a: nat, b: nat, i: nat, w: nat)
    ensures
        clmul(a % pow2(i + 1), b) % pow2(w) == if bit_at(a, i) {
            xor(clmul(a % pow2(i), b) % pow2(w), (b * pow2(i)) % pow2(w))
        } else {
            clmul(a % pow2(i), b) % pow2(w)
        },
        (((b * pow2(i)) % pow2(w)) * 2) % pow2(w) == (b * pow2(i + 1)) % pow2(w),
{
    lemma_pow2_pos(i);
    lemma_pow2_pos(w);
    lemma_pow2_unfold(i + 1);
    let lo = a % pow2(i);
    vstd::arithmetic::div_mod::lemma_mod_breakdown(a as int, pow2(i) as int, 2);
    assert(pow2(i) * 2 == pow2(i + 1));
    assert(a % pow2(i + 1) == lo + pow2(i) * ((a / pow2(i)) % 2));
    if bit_at(a, i) {
        let t = (a / pow2(i)) % 2;
        assert(t == 1);
        assert(pow2(i) * t == pow2(i)) by (nonlinear_arith)
            requires t == 1;
        assert(a % pow2(i + 1) == lo + pow2(i));
        lemma_xor_disjoint(lo, 1, i);
        assert(xor(lo, pow2(i)) == a % pow2(i + 1));
        lemma_clmul_distrib_left(lo, pow2(i), b);
        lemma_clmul_pow2(i, b);
        lemma_xor_mod(clmul(lo, b), b * pow2(i), w);
    } else {
        assert((a / pow2(i)) % 2 == 0);
        assert(a % pow2(i + 1) == lo);
    }
    vstd::arithmetic::div_mod::lemma_mul_mod_noop_left((b * pow2(i)) as int, 2, pow2(w) as int);
    assert(b * pow2(i) * 2 == b * pow2(i + 1)) by (nonlinear_arith)
        requires pow2(i + 1) == 2 * pow2(i);
}

proof fn lemma2_to64_small()
    ensures
        pow2(0) == 1,
        pow2(1) == 2,
{
    vstd::arithmetic::power2::lemma2_to64();
}

proof fn lemma_pow2_le(a: nat, b: nat)
    requires
        a <= b,
    ensures
        pow2(a) <= pow2(b),
{
    if a < b {
        vstd::arithmetic::power2::lemma_pow2_strictly_increases(a, b);
    }
}

} // verus!
