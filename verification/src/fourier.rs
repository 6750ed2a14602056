use crate::dft::{eval, lemma_eval_congruent};
use crate::field::{congruent, lemma_congruent_product, lemma_congruent_sum};
use crate::sums::{
    lemma_eval_concat, lemma_eval_is_lincomb, lemma_eval_push, lemma_lincomb_add,
    lemma_lincomb_scale, lemma_lincomb_symmetric, lemma_pow_congruent, lincomb, ones, powers,
};
use vstd::arithmetic::power::{
    lemma1_pow, lemma_pow1, lemma_pow_adds, lemma_pow_distributes, lemma_pow_multiplies, pow,
};
use vstd::arithmetic::power2::{lemma2_to64, lemma_pow2_unfold, pow2};
use vstd::prelude::*;

verus! {

/// The values of the polynomial with coefficients `c` at the first `n`
/// powers of `g`.
pub open spec fn dft(c: Seq<int>, g: int, n: nat) -> Seq<int> {
    Seq::new(n, |i: int| eval(c, pow(g, i as nat)))
}

/// The transform is symmetric: weighting the values of `b` by `a` gives the
/// same sum as weighting the values of `a` by `b`, both being the sum of
/// `a[i] * b[j] * g^(i * j)` over all `i` and `j`.
pub proof fn lemma_dft_symmetric(a: Seq<int>, b: Seq<int>, g: int)
    ensures
        lincomb(a, dft(b, g, a.len())) == lincomb(dft(a, g, b.len()), b),
    decreases a.len(),
{
    let r = a.len();
    let s = b.len();
    if r == 0 {
        let zeros = dft(a, g, s);
        lemma_lincomb_symmetric(zeros, b);
        lemma_lincomb_scale(b, zeros, 0, zeros);
        assert(0 * lincomb(b, zeros) == 0);
    } else {
        let front = a.drop_last();
        let v = a.last();
        let y = pow(g, (r - 1) as nat);
        assert(a =~= front.push(v));
        assert(dft(b, g, r).drop_last() =~= dft(b, g, (r - 1) as nat));
        lemma_dft_symmetric(front, b, g);
        let whole = dft(a, g, s);
        let part = dft(front, g, s);
        let shift = Seq::new(s, |j: int| v * pow(y, j as nat));
        assert forall|j: int| 0 <= j < s implies whole[j] == part[j] + shift[j] by {
            lemma_eval_push(front, v, pow(g, j as nat));
            lemma_pow_multiplies(g, j as nat, (r - 1) as nat);
            lemma_pow_multiplies(g, (r - 1) as nat, j as nat);
            assert(j * (r - 1) == (r - 1) * j) by (nonlinear_arith);
        }
        lemma_lincomb_symmetric(whole, b);
        lemma_lincomb_add(b, part, shift, whole);
        lemma_lincomb_symmetric(part, b);
        lemma_lincomb_scale(b, powers(y, s), v, shift);
        lemma_eval_is_lincomb(b, y);
        assert(v * eval(b, y) == a.last() * dft(b, g, r).last()) by {
            assert(dft(b, g, r).last() == eval(b, y));
        }
    }
}

/// The value at `y` of the polynomial whose coefficients are the powers of
/// `x` is the geometric sum of `x * y`.
pub proof fn lemma_eval_powers(x: int, y: int, n: nat)
    ensures
        eval(powers(x, n), y) == eval(ones(n), x * y),
    decreases n,
{
    if n > 0 {
        let k = (n - 1) as nat;
        assert(powers(x, n) =~= powers(x, k).push(pow(x, k)));
        assert(ones(n) =~= ones(k).push(1));
        lemma_eval_push(powers(x, k), pow(x, k), y);
        lemma_eval_push(ones(k), 1, x * y);
        lemma_eval_powers(x, y, k);
        lemma_pow_distributes(x, y, k);
        assert(1 * pow(x * y, k) == pow(x * y, k));
    }
}

/// An odd power of minus one is minus one.
pub proof fn lemma_odd_power_of_minus_one(t: nat)
    requires
        t % 2 == 1,
    ensures
        pow(-1, t) == -1,
{
    let q = (t / 2) as nat;
    lemma_pow_adds(-1, 1, 1);
    lemma_pow1(-1);
    assert(pow(-1, 2) == 1);
    lemma_pow_multiplies(-1, 2, q);
    lemma1_pow(q);
    lemma_pow_adds(-1, 2 * q, 1);
    assert(1 * (-1) == -1);
}

/// The geometric sum of `n` terms at a point congruent to one is `n`.
pub proof fn lemma_ones_at_one(n: nat, x: int)
    requires
        congruent(x, 1),
    ensures
        congruent(eval(ones(n), x), n as int),
{
    lemma_eval_congruent(ones(n), ones(n), x, 1);
    lemma_ones_at_exactly_one(n);
}

/// The geometric sum of `n` terms at one is `n`.
proof fn lemma_ones_at_exactly_one(n: nat)
    ensures
        eval(ones(n), 1) == n,
    decreases n,
{
    if n > 0 {
        let k = (n - 1) as nat;
        assert(ones(n) =~= ones(k).push(1));
        lemma_eval_push(ones(k), 1, 1);
        lemma_ones_at_exactly_one(k);
        lemma1_pow(k);
    }
}

/// Orthogonality of the roots of unity: for an element `g` of order `2^k`,
/// which its power `2^(k-1)` being minus one makes it, the sum of the powers
/// `0` to `2^k - 1` of `g^t` vanishes for every `t` strictly between `0` and
/// `2^k`.
pub proof fn lemma_orthogonal(k: nat, g: int, t: nat)
    requires
        k >= 1,
        congruent(pow(g, pow2((k - 1) as nat)), -1),
        0 < t < pow2(k),
    ensures
        congruent(eval(ones(pow2(k)), pow(g, t)), 0),
    decreases k,
{
    let h = pow2((k - 1) as nat);
    let x = pow(g, t);
    let e = eval(ones(h), x);
    lemma_pow2_unfold(k);
    assert(ones(pow2(k)) =~= ones(h) + ones(h));
    lemma_eval_concat(ones(h), ones(h), x);
    lemma_pow_multiplies(g, t, h);
    lemma_pow_multiplies(g, h, t);
    assert(t * h == h * t) by (nonlinear_arith);
    lemma_pow_congruent(pow(g, h), -1, t);
    if t % 2 == 1 {
        lemma_odd_power_of_minus_one(t);
        lemma_congruent_product(pow(x, h), -1, e, e);
        lemma_congruent_sum(e, e, pow(x, h) * e, (-1) * e);
        assert(e + (-1) * e == 0) by (nonlinear_arith);
    } else {
        let u = (t / 2) as nat;
        let g2 = g * g;
        lemma2_to64();
        assert(k >= 2) by {
            if k == 1 {
                assert(h == 1);
            }
        }
        lemma_pow2_unfold((k - 1) as nat);
        let q = pow2((k - 2) as nat);
        lemma_pow_adds(g, 1, 1);
        lemma_pow1(g);
        lemma_pow_multiplies(g, 2, q);
        lemma_pow_multiplies(g, 2, u);
        lemma_orthogonal((k - 1) as nat, g2, u);
        lemma_congruent_product(pow(x, h), pow(x, h), e, 0);
        lemma_congruent_sum(e, 0, pow(x, h) * e, pow(x, h) * 0);
        assert(0 + pow(x, h) * 0 == 0);
    }
}

} // verus!
