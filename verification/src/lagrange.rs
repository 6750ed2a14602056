use crate::dft::{eval, lemma_eval_congruent};
use crate::domain::Domain;
use crate::field::{
    congruent, lemma_canonical_unique, lemma_congruent_difference, lemma_congruent_product,
    lemma_reduce_congruent, modulus,
};
use crate::fourier::{dft, lemma_dft_symmetric, lemma_eval_powers, lemma_ones_at_one, lemma_orthogonal};
use crate::sums::{
    lemma_eval_is_lincomb, lemma_geometric, lemma_lincomb_congruent, lemma_lincomb_scale, lemma_lincomb_symmetric,
    lemma_lincomb_unit, lemma_pow_congruent, lincomb, ones, powers, unit,
};
use vstd::arithmetic::div_mod::lemma_small_mod;
use vstd::assert_by_contradiction;
use vstd::arithmetic::power::{
    lemma1_pow, lemma_pow0, lemma_pow_adds, lemma_pow_distributes, lemma_pow_multiplies, pow,
};
use vstd::arithmetic::power2::{lemma2_to64, lemma_pow2_pos, lemma_pow2_strictly_increases, pow2};
use vstd::prelude::*;

verus! {

/// A power of the inverse of `g` that is its own inverse equals the same
/// power of `g`.
pub proof fn lemma_inverse_power(g: int, gi: int, e: nat, c: int)
    requires
        congruent(g * gi, 1),
        congruent(pow(g, e), c),
        congruent(c * c, 1),
    ensures
        congruent(pow(gi, e), c),
{
    let a = pow(gi, e);
    let b = pow(g, e);
    lemma_pow_distributes(g, gi, e);
    lemma_pow_congruent(g * gi, 1, e);
    lemma1_pow(e);
    lemma_congruent_product(a, a, c * c, 1);
    lemma_congruent_product(b, c, c, c);
    lemma_congruent_product(a, a, b * c, c * c);
    lemma_congruent_product(b * a, 1, c, c);
    assert(a * (b * c) == (b * a) * c) by (nonlinear_arith);
    assert(a * 1 == a && 1 * c == c);
}

impl Domain {
    /// The value at `x` of the `i`-th Lagrange polynomial of the domain, the
    /// polynomial of degree below the size that is one at the `i`-th root
    /// and zero at the others: `(1/n) * sum of (x / w^i)^j` over `j` below
    /// the size `n`.
    pub open spec fn lagrange(self, i: int, x: int) -> int {
        (self.size_inv() * eval(
            powers(x, self.size()),
            pow(self.omega_inv(), i as nat),
        )) % modulus()
    }

    /// The values at `x` of the Lagrange polynomials of the domain.
    pub open spec fn lagrange_basis(self, x: int) -> Seq<int> {
        Seq::new(self.size(), |i: int| self.lagrange(i, x))
    }

    /// The value at `x` of the polynomial of degree below the size that
    /// takes the values `evals` at the roots.
    pub open spec fn value_at(self, evals: Seq<int>, x: int) -> int {
        lincomb(evals, self.lagrange_basis(x)) % modulus()
    }

    /// The vanishing polynomial of the domain at `x`, divided by the size:
    /// `(x^n - 1) / n`.
    pub open spec fn vanishing(self, x: int) -> int {
        self.size_inv() * (pow(x, self.size()) - 1)
    }

    /// The size lies strictly between zero and the field's order.
    pub proof fn lemma_size_bounds(self)
        requires
            self.wf(),
        ensures
            0 < self.size() < modulus(),
            self.size() % (modulus() as nat) == self.size(),
    {
        lemma2_to64();
        lemma_pow2_pos(self.log());
        if self.log() < 32 {
            lemma_pow2_strictly_increases(self.log(), 32);
        }
        lemma_small_mod(self.size(), modulus() as nat);
    }

    /// A domain of more than one root has a positive logarithm.
    pub proof fn lemma_log_positive(self)
        requires
            self.wf(),
            self.size() > 1,
        ensures
            self.log() >= 1,
    {
        lemma2_to64();
    }

    /// The inverse of the generator generates the same subgroup.
    pub proof fn lemma_inverse_order(self)
        requires
            self.wf(),
        ensures
            congruent(pow(self.omega_inv(), self.size()), 1),
            self.log() > 0 ==> congruent(
                pow(self.omega_inv(), pow2((self.log() - 1) as nat)),
                -1,
            ),
    {
        let g = self.omega();
        let gi = self.omega_inv();
        assert(1int * 1int == 1int);
        assert((-1int) * (-1int) == 1int);
        lemma_inverse_power(g, gi, self.size(), 1);
        if self.log() > 0 {
            lemma_inverse_power(g, gi, pow2((self.log() - 1) as nat), -1);
        }
    }

    /// The powers of a power `t` of the generator sum to the size when `t`
    /// is zero and to zero otherwise.
    pub proof fn lemma_power_sum(self, t: nat)
        requires
            self.wf(),
            t < self.size(),
        ensures
            congruent(
                eval(ones(self.size()), pow(self.omega(), t)),
                if t == 0 {
                    self.size() as int
                } else {
                    0
                },
            ),
    {
        if t == 0 {
            lemma_pow0(self.omega());
            lemma_ones_at_one(self.size(), pow(self.omega(), 0));
        } else {
            self.lemma_log_positive();
            lemma_orthogonal(self.log(), self.omega(), t);
        }
    }

    /// The powers of a power `t` of the inverse generator sum to the size
    /// when `t` is zero and to zero otherwise.
    pub proof fn lemma_inverse_power_sum(self, t: nat)
        requires
            self.wf(),
            t < self.size(),
        ensures
            congruent(
                eval(ones(self.size()), pow(self.omega_inv(), t)),
                if t == 0 {
                    self.size() as int
                } else {
                    0
                },
            ),
    {
        self.lemma_inverse_order();
        if t == 0 {
            lemma_pow0(self.omega_inv());
            lemma_ones_at_one(self.size(), pow(self.omega_inv(), 0));
        } else {
            self.lemma_log_positive();
            lemma_orthogonal(self.log(), self.omega_inv(), t);
        }
    }

    /// A root times the same power of the inverse generator is one.
    pub proof fn lemma_root_times_inverse(self, i: nat)
        requires
            self.wf(),
        ensures
            congruent(pow(self.omega(), i) * pow(self.omega_inv(), i), 1),
    {
        lemma_pow_distributes(self.omega(), self.omega_inv(), i);
        lemma_pow_congruent(self.omega() * self.omega_inv(), 1, i);
        lemma1_pow(i);
    }

    /// Different roots are different field elements.
    pub proof fn lemma_roots_distinct(self, i: int, j: int)
        requires
            self.wf(),
            0 <= i < j < self.size(),
        ensures
            !congruent(pow(self.omega(), i as nat), pow(self.omega(), j as nat)),
    {
        let g = self.omega();
        let gi = self.omega_inv();
        let t = (j - i) as nat;
        let wi = pow(g, i as nat);
        let wj = pow(g, j as nat);
        let wt = pow(g, t);
        let vi = pow(gi, i as nat);
        assert_by_contradiction!(!congruent(wi, wj), {
            lemma_pow_adds(g, i as nat, t);
            self.lemma_root_times_inverse(i as nat);
            lemma_congruent_product(wi * vi, 1, wt, wt);
            lemma_congruent_product(wj, wi, vi, vi);
            assert((wi * vi) * wt == (wi * wt) * vi) by (nonlinear_arith);
            assert(1 * wt == wt);
            assert(congruent(wt, 1));
            lemma_ones_at_one(self.size(), wt);
            self.lemma_power_sum(t);
            self.lemma_size_bounds();
            lemma_small_mod(0, modulus() as nat);
        });
    }

    /// The Lagrange polynomials sum to one at every point.
    pub proof fn lemma_lagrange_sum(self, x: int)
        requires
            self.wf(),
        ensures
            congruent(lincomb(ones(self.size()), self.lagrange_basis(x)), 1),
    {
        let n = self.size();
        let c = self.size_inv();
        let gi = self.omega_inv();
        let p = powers(x, n);
        let d = dft(p, gi, n);
        let basis = self.lagrange_basis(x);
        let scaled = Seq::new(n, |i: int| c * d[i]);
        let o = dft(ones(n), gi, n);
        let first = Seq::new(n, |j: int| n * unit(n, 0)[j]);
        self.lemma_size_bounds();
        assert forall|i: int| 0 <= i < n implies congruent(ones(n)[i], ones(n)[i]) && congruent(
            basis[i],
            scaled[i],
        ) by {
            lemma_reduce_congruent(c * d[i]);
        }
        lemma_lincomb_congruent(ones(n), ones(n), basis, scaled);
        lemma_lincomb_scale(ones(n), d, c, scaled);
        lemma_dft_symmetric(ones(n), p, gi);
        assert forall|j: int| 0 <= j < n implies congruent(o[j], first[j]) && congruent(
            p[j],
            p[j],
        ) by {
            self.lemma_inverse_power_sum(j as nat);
            assert(n * 1 == n && n * 0 == 0);
        }
        lemma_lincomb_congruent(o, first, p, p);
        lemma_lincomb_symmetric(first, p);
        lemma_lincomb_scale(p, unit(n, 0), n as int, first);
        lemma_lincomb_unit(p, 0);
        lemma_pow0(x);
        assert(n * 1 == n);
        assert(congruent(lincomb(ones(n), d), n as int));
        lemma_congruent_product(c, c, lincomb(ones(n), d), n as int);
        assert(c * n == n * c) by (nonlinear_arith);
    }

    /// A Lagrange polynomial times the linear factor of its root is the
    /// vanishing polynomial, divided by the size, times the root:
    /// `L_i(x) * (x - w^i) = ((x^n - 1) / n) * w^i`.
    pub proof fn lemma_lagrange_linear(self, i: int, x: int)
        requires
            self.wf(),
            0 <= i < self.size(),
        ensures
            congruent(
                self.lagrange(i, x) * (x - pow(self.omega(), i as nat)),
                self.vanishing(x) * pow(self.omega(), i as nat),
            ),
    {
        let n = self.size();
        let c = self.size_inv();
        let w = pow(self.omega(), i as nat);
        let y = pow(self.omega_inv(), i as nat);
        let u = x * y;
        let e = eval(powers(x, n), y);
        let xn = pow(x, n);
        lemma_eval_powers(x, y, n);
        lemma_geometric(u, n);
        lemma_pow_distributes(x, y, n);
        lemma_pow_multiplies(self.omega_inv(), i as nat, n);
        lemma_pow_multiplies(self.omega_inv(), n, i as nat);
        assert(i * n == n * i) by (nonlinear_arith);
        self.lemma_inverse_order();
        lemma_pow_congruent(pow(self.omega_inv(), n), 1, i as nat);
        lemma1_pow(i as nat);
        assert(congruent(pow(y, n), 1));
        lemma_congruent_product(xn, xn, pow(y, n), 1);
        assert(xn * 1 == xn);
        lemma_congruent_difference(pow(u, n), xn, 1, 1);
        // (u - 1) * e == u^n - 1, congruent to x^n - 1
        self.lemma_root_times_inverse(i as nat);
        lemma_congruent_product(x, x, w * y, 1);
        assert(x * 1 == x);
        lemma_congruent_difference(x * (w * y), x, w, w);
        assert(w * (u - 1) == x * (w * y) - w) by (nonlinear_arith)
            requires
                u == x * y,
        ;
        // w * (u - 1) is congruent to x - w
        lemma_reduce_congruent(c * e);
        lemma_congruent_product(self.lagrange(i, x), c * e, x - w, w * (u - 1));
        assert((c * e) * (w * (u - 1)) == (c * w) * ((u - 1) * e)) by (nonlinear_arith);
        lemma_congruent_product(c * w, c * w, (u - 1) * e, xn - 1);
        assert((c * w) * (xn - 1) == (c * (xn - 1)) * w) by (nonlinear_arith);
    }

    /// The powers of the quotient of two roots sum to the size when the two
    /// are the same root and to zero otherwise.
    pub proof fn lemma_cross_sum(self, k: int, i: int)
        requires
            self.wf(),
            0 <= i < self.size(),
            0 <= k < self.size(),
        ensures
            congruent(
                eval(
                    ones(self.size()),
                    pow(self.omega(), k as nat) * pow(self.omega_inv(), i as nat),
                ),
                if i == k {
                    self.size() as int
                } else {
                    0
                },
            ),
    {
        let n = self.size();
        let g = self.omega();
        let gi = self.omega_inv();
        let w = pow(g, k as nat);
        let y = pow(gi, i as nat);
        let u = w * y;
        if i == k {
            self.lemma_root_times_inverse(i as nat);
            lemma_ones_at_one(n, u);
        } else if i < k {
            let t = (k - i) as nat;
            lemma_pow_adds(g, t, i as nat);
            self.lemma_root_times_inverse(i as nat);
            lemma_congruent_product(pow(g, t), pow(g, t), pow(g, i as nat) * y, 1);
            assert(u == pow(g, t) * (pow(g, i as nat) * y)) by (nonlinear_arith)
                requires
                    u == w * y,
                    w == pow(g, t) * pow(g, i as nat),
            ;
            assert(pow(g, t) * 1 == pow(g, t));
            lemma_eval_congruent(ones(n), ones(n), u, pow(g, t));
            self.lemma_power_sum(t);
        } else {
            let t = (i - k) as nat;
            lemma_pow_adds(gi, k as nat, t);
            self.lemma_root_times_inverse(k as nat);
            lemma_congruent_product(w * pow(gi, k as nat), 1, pow(gi, t), pow(gi, t));
            assert(u == (w * pow(gi, k as nat)) * pow(gi, t)) by (nonlinear_arith)
                requires
                    u == w * y,
                    y == pow(gi, k as nat) * pow(gi, t),
            ;
            assert(1 * pow(gi, t) == pow(gi, t));
            lemma_eval_congruent(ones(n), ones(n), u, pow(gi, t));
            self.lemma_inverse_power_sum(t);
        }
    }

    /// At a root, the Lagrange polynomial of that root is one and the
    /// others are zero.
    pub proof fn lemma_lagrange_at_root(self, i: int, k: int, x: int)
        requires
            self.wf(),
            0 <= i < self.size(),
            0 <= k < self.size(),
            congruent(x, pow(self.omega(), k as nat)),
        ensures
            self.lagrange(i, x) == if i == k {
                1int
            } else {
                0int
            },
    {
        let n = self.size();
        let c = self.size_inv();
        let w = pow(self.omega(), k as nat);
        let y = pow(self.omega_inv(), i as nat);
        let e = eval(powers(x, n), y);
        assert forall|j: int| 0 <= j < n implies congruent(powers(x, n)[j], powers(w, n)[j]) by {
            lemma_pow_congruent(x, w, j as nat);
        }
        lemma_eval_congruent(powers(x, n), powers(w, n), y, y);
        lemma_eval_powers(w, y, n);
        self.lemma_size_bounds();
        self.lemma_cross_sum(k, i);
        lemma_reduce_congruent(c * e);
        if i == k {
            lemma_congruent_product(c, c, e, n as int);
            assert(c * n == n * c) by (nonlinear_arith);
            lemma_small_mod(1, modulus() as nat);
            lemma_canonical_unique(self.lagrange(i, x), 1);
        } else {
            lemma_congruent_product(c, c, e, 0);
            assert(c * 0 == 0);
            lemma_small_mod(0, modulus() as nat);
            lemma_canonical_unique(self.lagrange(i, x), 0);
        }
    }

    /// The inversion theorem: the transform with the inverse generator of
    /// the transform of `c` is `c` times the size.
    pub proof fn lemma_inversion(self, c: Seq<int>, j: int)
        requires
            self.wf(),
            c.len() == self.size(),
            0 <= j < self.size(),
        ensures
            congruent(
                eval(dft(c, self.omega(), self.size()), pow(self.omega_inv(), j as nat)),
                self.size() * c[j],
            ),
    {
        let n = self.size();
        let g = self.omega();
        let x = pow(self.omega_inv(), j as nat);
        let forward = dft(c, g, n);
        let px = powers(x, n);
        let cross = dft(px, g, n);
        let picked = Seq::new(n, |l: int| n * unit(n, j)[l]);
        lemma_eval_is_lincomb(forward, x);
        lemma_lincomb_symmetric(forward, px);
        lemma_dft_symmetric(px, c, g);
        assert forall|l: int| 0 <= l < n implies congruent(cross[l], picked[l]) && congruent(
            c[l],
            c[l],
        ) by {
            lemma_eval_powers(x, pow(g, l as nat), n);
            assert(x * pow(g, l as nat) == pow(g, l as nat) * x) by (nonlinear_arith);
            self.lemma_cross_sum(l, j);
            assert(n * 1 == n && n * 0 == 0);
        }
        lemma_lincomb_congruent(cross, picked, c, c);
        lemma_lincomb_symmetric(picked, c);
        lemma_lincomb_scale(c, unit(n, j), n as int, picked);
        lemma_lincomb_unit(c, j);
    }

    /// The inversion theorem the other way round: the transform of the
    /// transform with the inverse generator of `c` is `c` times the size.
    pub proof fn lemma_inversion_dual(self, c: Seq<int>, j: int)
        requires
            self.wf(),
            c.len() == self.size(),
            0 <= j < self.size(),
        ensures
            congruent(
                eval(dft(c, self.omega_inv(), self.size()), pow(self.omega(), j as nat)),
                self.size() * c[j],
            ),
    {
        let n = self.size();
        let gi = self.omega_inv();
        let x = pow(self.omega(), j as nat);
        let backward = dft(c, gi, n);
        let px = powers(x, n);
        let cross = dft(px, gi, n);
        let picked = Seq::new(n, |l: int| n * unit(n, j)[l]);
        lemma_eval_is_lincomb(backward, x);
        lemma_lincomb_symmetric(backward, px);
        lemma_dft_symmetric(px, c, gi);
        assert forall|l: int| 0 <= l < n implies congruent(cross[l], picked[l]) && congruent(
            c[l],
            c[l],
        ) by {
            lemma_eval_powers(x, pow(gi, l as nat), n);
            self.lemma_cross_sum(j, l);
            assert(n * 1 == n && n * 0 == 0);
        }
        lemma_lincomb_congruent(cross, picked, c, c);
        lemma_lincomb_symmetric(picked, c);
        lemma_lincomb_scale(c, unit(n, j), n as int, picked);
        lemma_lincomb_unit(c, j);
    }

    /// The inverse transform undoes the transform: the coefficients that it
    /// gives for the values of a polynomial with as many canonical
    /// coefficients as the domain has roots are those coefficients.
    pub proof fn lemma_inverse_transform_of_transform(
        self,
        coefficients: Seq<int>,
        evaluations: Seq<int>,
        back: Seq<int>,
    )
        requires
            self.wf(),
            coefficients.len() == self.size(),
            forall|j: int| 0 <= j < self.size() ==> 0 <= #[trigger] coefficients[j] < modulus(),
            self.is_transform(coefficients, evaluations),
            self.is_inverse_transform(evaluations, back),
        ensures
            back == coefficients,
    {
        let n = self.size();
        let ninv = self.size_inv();
        let forward = dft(coefficients, self.omega(), n);
        self.lemma_size_bounds();
        assert forall|j: int| 0 <= j < n implies back[j] == coefficients[j] by {
            let x = pow(self.omega_inv(), j as nat);
            assert forall|i: int| 0 <= i < n implies congruent(evaluations[i], forward[i]) by {
                lemma_reduce_congruent(forward[i]);
            }
            lemma_eval_congruent(evaluations, forward, x, x);
            self.lemma_inversion(coefficients, j);
            lemma_congruent_product(ninv, ninv, eval(evaluations, x), n * coefficients[j]);
            lemma_congruent_product(n * ninv, 1, coefficients[j], coefficients[j]);
            assert(ninv * (n * coefficients[j]) == (n * ninv) * coefficients[j])
                by (nonlinear_arith);
            assert(1 * coefficients[j] == coefficients[j]);
            lemma_reduce_congruent(ninv * eval(evaluations, x));
            lemma_canonical_unique(back[j], coefficients[j]);
        }
        assert(back =~= coefficients);
    }

    /// The transform undoes the inverse transform: the values at the roots
    /// of the polynomial whose coefficients the inverse transform gives for
    /// as many canonical values as the domain has roots are those values.
    pub proof fn lemma_transform_of_inverse_transform(
        self,
        evaluations: Seq<int>,
        coefficients: Seq<int>,
        back: Seq<int>,
    )
        requires
            self.wf(),
            evaluations.len() == self.size(),
            forall|j: int| 0 <= j < self.size() ==> 0 <= #[trigger] evaluations[j] < modulus(),
            self.is_inverse_transform(evaluations, coefficients),
            self.is_transform(coefficients, back),
        ensures
            back == evaluations,
    {
        let n = self.size();
        let ninv = self.size_inv();
        let backward = dft(evaluations, self.omega_inv(), n);
        let scaled = Seq::new(n, |i: int| ninv * backward[i]);
        self.lemma_size_bounds();
        assert forall|j: int| 0 <= j < n implies back[j] == evaluations[j] by {
            let x = pow(self.omega(), j as nat);
            assert forall|i: int| 0 <= i < n implies congruent(coefficients[i], scaled[i]) by {
                lemma_reduce_congruent(ninv * backward[i]);
            }
            lemma_eval_congruent(coefficients, scaled, x, x);
            // The value of the scaled coefficients is the scaled value.
            lemma_eval_is_lincomb(scaled, x);
            lemma_eval_is_lincomb(backward, x);
            lemma_lincomb_symmetric(scaled, powers(x, n));
            lemma_lincomb_symmetric(backward, powers(x, n));
            lemma_lincomb_scale(powers(x, n), backward, ninv, scaled);
            self.lemma_inversion_dual(evaluations, j);
            lemma_congruent_product(ninv, ninv, eval(backward, x), n * evaluations[j]);
            lemma_congruent_product(n * ninv, 1, evaluations[j], evaluations[j]);
            assert(ninv * (n * evaluations[j]) == (n * ninv) * evaluations[j])
                by (nonlinear_arith);
            assert(1 * evaluations[j] == evaluations[j]);
            lemma_reduce_congruent(eval(coefficients, x));
            lemma_canonical_unique(back[j], evaluations[j]);
        }
        assert(back =~= evaluations);
    }

    /// Weighting the transform of `c` by the inverse transform of `k` gives
    /// the same sum as weighting `c` by `k`.
    pub proof fn lemma_parseval(
        self,
        k: Seq<int>,
        c: Seq<int>,
        lagrange: Seq<int>,
        evaluations: Seq<int>,
    )
        requires
            self.wf(),
            k.len() == self.size(),
            c.len() == self.size(),
            self.is_inverse_transform(k, lagrange),
            self.is_transform(c, evaluations),
        ensures
            congruent(lincomb(lagrange, evaluations), lincomb(k, c)),
    {
        let n = self.size();
        let g = self.omega();
        let gi = self.omega_inv();
        let ninv = self.size_inv();
        let dk = dft(k, gi, n);
        let dc = dft(c, g, n);
        let scaled = Seq::new(n, |i: int| ninv * dk[i]);
        let back = dft(dc, gi, n);
        let multiple = Seq::new(n, |j: int| n * c[j]);
        self.lemma_size_bounds();
        assert forall|i: int| 0 <= i < n implies congruent(lagrange[i], scaled[i]) && congruent(
            evaluations[i],
            dc[i],
        ) by {
            lemma_reduce_congruent(ninv * dk[i]);
            lemma_reduce_congruent(dc[i]);
        }
        lemma_lincomb_congruent(lagrange, scaled, evaluations, dc);
        lemma_lincomb_symmetric(scaled, dc);
        lemma_lincomb_scale(dc, dk, ninv, scaled);
        lemma_dft_symmetric(dc, k, gi);
        assert forall|j: int| 0 <= j < n implies congruent(back[j], multiple[j]) && congruent(
            k[j],
            k[j],
        ) by {
            self.lemma_inversion(c, j);
        }
        lemma_lincomb_congruent(back, multiple, k, k);
        lemma_lincomb_symmetric(multiple, k);
        lemma_lincomb_scale(k, c, n as int, multiple);
        let kc = lincomb(k, c);
        lemma_congruent_product(ninv, ninv, lincomb(dc, dk), n * kc);
        lemma_congruent_product(n * ninv, 1, kc, kc);
        assert(ninv * (n * kc) == (n * ninv) * kc) by (nonlinear_arith);
        assert(1 * kc == kc);
    }
}

} // verus!
