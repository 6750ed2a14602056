use crate::dft::eval;
use crate::fourier::{dft, lemma_dft_symmetric};
use crate::domain::Domain;
use crate::error::Error;
use crate::field::{
    congruent, lemma_canonical_unique, lemma_congruent_difference, lemma_congruent_product,
    lemma_congruent_sum, lemma_reduce_congruent, modulus,
};
use crate::inversion::{batch_inverse, inverted_at};
use crate::scalar::{values, Scalar};
use crate::sums::{
    lemma_eval_is_lincomb, lemma_lincomb_add, lemma_lincomb_congruent, lemma_lincomb_products, lemma_lincomb_scale,
    lemma_lincomb_symmetric, lemma_lincomb_unit, lincomb, ones, powers, unit,
};
use vstd::arithmetic::div_mod::{lemma_add_mod_noop, lemma_small_mod};
use vstd::arithmetic::power::pow;
use vstd::prelude::*;

verus! {

/// A polynomial in Lagrange form: its values at the roots of a domain, in
/// the domain's order. The values mean nothing without that domain.
#[derive(Clone, Debug)]
pub struct Polynomial {
    /// The value at the `i`-th root of the domain, for each `i`.
    pub evaluations: Vec<Scalar>,
}

/// `q` holds the values at the roots of the quotient of `p - y` by `X - z`:
/// at every root the quotient times the linear factor is `p - y`, and the
/// quotient has no term of the highest degree that the domain can hold, which
/// the vanishing of the sum of `q[i] * w^i` expresses.
pub open spec fn is_quotient(domain: Domain, p: Seq<int>, z: int, y: int, q: Seq<int>) -> bool {
    &&& q.len() == p.len()
    &&& forall|i: int|
        0 <= i < q.len() ==> congruent(
            #[trigger] q[i] * (pow(domain.omega(), i as nat) - z),
            p[i] - y,
        )
    &&& congruent(lincomb(q, powers(domain.omega(), domain.size())), 0)
}

/// The roots of the domain, each times the matching entry of `d`.
pub open spec fn weights(domain: Domain, d: Seq<int>) -> Seq<int> {
    Seq::new(domain.size(), |i: int| pow(domain.omega(), i as nat) * d[i])
}

/// The barycentric formula: where `d` holds the inverses of the differences
/// `z - w^i`, the sum of `a[i] * L_i(z)` is `(z^n - 1) / n` times the sum of
/// `a[i] * w^i * d[i]`.
pub proof fn lemma_barycentric(domain: Domain, a: Seq<int>, z: int, d: Seq<int>)
    requires
        domain.wf(),
        a.len() == domain.size(),
        d.len() == domain.size(),
        forall|i: int|
            0 <= i < domain.size() ==> congruent((z - pow(domain.omega(), i as nat)) * d[i], 1),
    ensures
        congruent(
            lincomb(a, domain.lagrange_basis(z)),
            domain.vanishing(z) * lincomb(a, weights(domain, d)),
        ),
{
    let n = domain.size();
    let b = domain.vanishing(z);
    let basis = domain.lagrange_basis(z);
    let wd = weights(domain, d);
    let scaled = Seq::new(n, |i: int| b * wd[i]);
    assert forall|i: int| 0 <= i < n implies congruent(a[i], a[i]) && congruent(
        basis[i],
        scaled[i],
    ) by {
        let w = pow(domain.omega(), i as nat);
        let l = domain.lagrange(i, z);
        domain.lemma_lagrange_linear(i, z);
        lemma_congruent_product(l, l, (z - w) * d[i], 1);
        lemma_congruent_product(l * (z - w), b * w, d[i], d[i]);
        assert(l * ((z - w) * d[i]) == (l * (z - w)) * d[i]) by (nonlinear_arith);
        assert((b * w) * d[i] == b * (w * d[i])) by (nonlinear_arith);
        assert(l * 1 == l);
    }
    lemma_lincomb_congruent(a, a, basis, scaled);
    lemma_lincomb_scale(a, wd, b, scaled);
}

/// Away from the roots, the entries `(y - p[i]) * d[i]` are the quotient of
/// `p - y` by `X - z`, where `y` is the value of `p` at `z` and `d` holds the
/// inverses of the differences `z - w^i`.
pub proof fn lemma_quotient_outside(
    domain: Domain,
    p: Seq<int>,
    z: int,
    d: Seq<int>,
    y: int,
    q: Seq<int>,
)
    requires
        domain.wf(),
        p.len() == domain.size(),
        d.len() == domain.size(),
        q.len() == domain.size(),
        forall|i: int|
            0 <= i < domain.size() ==> congruent((z - pow(domain.omega(), i as nat)) * d[i], 1),
        congruent(y, lincomb(p, domain.lagrange_basis(z))),
        forall|i: int| 0 <= i < domain.size() ==> congruent(q[i], (y - p[i]) * d[i]),
    ensures
        is_quotient(domain, p, z, y, q),
{
    let n = domain.size();
    let g = domain.omega();
    let b = domain.vanishing(z);
    let wd = weights(domain, d);
    let s0 = lincomb(ones(n), wd);
    let s1 = lincomb(p, wd);
    assert forall|i: int| 0 <= i < n implies congruent(
        #[trigger] q[i] * (pow(g, i as nat) - z),
        p[i] - y,
    ) by {
        let w = pow(g, i as nat);
        lemma_congruent_product(q[i], (y - p[i]) * d[i], w - z, w - z);
        lemma_congruent_product(p[i] - y, p[i] - y, (z - w) * d[i], 1);
        assert(((y - p[i]) * d[i]) * (w - z) == (p[i] - y) * ((z - w) * d[i]))
            by (nonlinear_arith);
        assert((p[i] - y) * 1 == p[i] - y);
    }
    // The sum of q[i] * w^i is y * s0 - s1.
    let shifted = Seq::new(n, |i: int| y - p[i]);
    let constant = Seq::new(n, |i: int| y * ones(n)[i]);
    let negated = Seq::new(n, |i: int| (-1) * p[i]);
    assert forall|i: int| 0 <= i < n implies congruent(
        q[i] * powers(g, n)[i],
        shifted[i] * wd[i],
    ) by {
        let w = pow(g, i as nat);
        lemma_congruent_product(q[i], (y - p[i]) * d[i], w, w);
        assert(((y - p[i]) * d[i]) * w == (y - p[i]) * (w * d[i])) by (nonlinear_arith);
    }
    lemma_lincomb_products(q, powers(g, n), shifted, wd);
    lemma_lincomb_symmetric(shifted, wd);
    assert forall|i: int| 0 <= i < n implies shifted[i] == constant[i] + negated[i] by {
        assert(y * 1 == y);
    }
    lemma_lincomb_add(wd, constant, negated, shifted);
    lemma_lincomb_scale(wd, ones(n), y, constant);
    lemma_lincomb_scale(wd, p, -1, negated);
    lemma_lincomb_symmetric(wd, ones(n));
    lemma_lincomb_symmetric(wd, p);
    assert(lincomb(shifted, wd) == y * s0 + (-1) * s1);
    // y is b * s1 and b * s0 is one.
    lemma_barycentric(domain, p, z, d);
    lemma_barycentric(domain, ones(n), z, d);
    domain.lemma_lagrange_sum(z);
    assert(congruent(b * s0, 1));
    assert(congruent(y, b * s1));
    lemma_congruent_product(y, b * s1, s0, s0);
    lemma_congruent_product(s1, s1, b * s0, 1);
    assert((b * s1) * s0 == s1 * (b * s0)) by (nonlinear_arith);
    assert(s1 * 1 == s1);
    lemma_congruent_sum(y * s0, s1, (-1) * s1, (-1) * s1);
    assert(s1 + (-1) * s1 == 0) by (nonlinear_arith);
}

/// The division is exact at every point, not only at the roots: where `key`
/// holds the values at `tau` of the Lagrange polynomials, `c` stands for the
/// value at `tau` of the polynomial and `w` for that of the quotient, `c - y`
/// is `w * (tau - z)`. With a secret for `tau` this is why an opening
/// verifies.
pub proof fn lemma_quotient_exact_at(
    domain: Domain,
    key: Seq<int>,
    tau: int,
    p: Seq<int>,
    z: int,
    y: int,
    q: Seq<int>,
    c: int,
    w: int,
)
    requires
        domain.wf(),
        key.len() == domain.size(),
        forall|i: int| 0 <= i < domain.size() ==> key[i] == domain.lagrange(i, tau),
        p.len() == domain.size(),
        is_quotient(domain, p, z, y, q),
        congruent(c, lincomb(key, p)),
        congruent(w, lincomb(key, q)),
    ensures
        congruent(c - y, w * (tau - z)),
{
    let n = domain.size();
    let g = domain.omega();
    let b = domain.vanishing(tau);
    let roots = powers(g, n);
    let e = tau - z;
    assert(key =~= domain.lagrange_basis(tau));
    // The remainders r[i] = p[i] - y - q[i] * (tau - z), weighted by the key.
    let r = Seq::new(n, |i: int| p[i] - y - q[i] * e);
    let s1 = Seq::new(n, |i: int| (-y) * ones(n)[i]);
    let s2 = Seq::new(n, |i: int| (-e) * q[i]);
    let s12 = Seq::new(n, |i: int| s1[i] + s2[i]);
    assert forall|i: int| 0 <= i < n implies r[i] == p[i] + s12[i] by {
        assert(p[i] - y - q[i] * e == p[i] + ((-y) * 1 + (-e) * q[i])) by (nonlinear_arith);
    }
    lemma_lincomb_add(key, p, s12, r);
    lemma_lincomb_add(key, s1, s2, s12);
    lemma_lincomb_scale(key, ones(n), -y, s1);
    lemma_lincomb_scale(key, q, -e, s2);
    let kp = lincomb(key, p);
    let kq = lincomb(key, q);
    let k1 = lincomb(key, ones(n));
    assert(lincomb(key, r) == kp + ((-y) * k1 + (-e) * kq));
    // Each weighted remainder is a multiple of q[i] * w^i.
    let t = Seq::new(n, |i: int| (-b) * q[i]);
    assert forall|i: int| 0 <= i < n implies congruent(key[i] * r[i], t[i] * roots[i]) by {
        let wi = pow(g, i as nat);
        let l = key[i];
        assert(congruent(q[i] * (wi - z), p[i] - y));
        lemma_congruent_difference(p[i] - y, q[i] * (wi - z), q[i] * e, q[i] * e);
        assert(q[i] * (wi - z) - q[i] * e == (-q[i]) * (tau - wi)) by (nonlinear_arith)
            requires
                e == tau - z,
        ;
        lemma_congruent_product(l, l, r[i], (-q[i]) * (tau - wi));
        domain.lemma_lagrange_linear(i, tau);
        lemma_congruent_product(-q[i], -q[i], l * (tau - wi), b * wi);
        assert(l * ((-q[i]) * (tau - wi)) == (-q[i]) * (l * (tau - wi))) by (nonlinear_arith);
        assert((-q[i]) * (b * wi) == ((-b) * q[i]) * wi) by (nonlinear_arith);
    }
    lemma_lincomb_products(key, r, t, roots);
    lemma_lincomb_symmetric(t, roots);
    lemma_lincomb_scale(roots, q, -b, t);
    lemma_lincomb_symmetric(roots, q);
    lemma_congruent_product(-b, -b, lincomb(q, roots), 0);
    assert((-b) * 0 == 0);
    assert(congruent(lincomb(key, r), 0));
    // The key sums to one.
    domain.lemma_lagrange_sum(tau);
    lemma_lincomb_symmetric(key, ones(n));
    lemma_congruent_product(-y, -y, k1, 1);
    lemma_congruent_product(-e, -e, kq, w);
    lemma_congruent_sum((-y) * k1, (-y) * 1, (-e) * kq, (-e) * w);
    lemma_congruent_sum(kp, c, (-y) * k1 + (-e) * kq, (-y) * 1 + (-e) * w);
    assert(c + ((-y) * 1 + (-e) * w) == (c - y) - w * (tau - z)) by (nonlinear_arith)
        requires
            e == tau - z,
    ;
    lemma_congruent_sum((c - y) - w * (tau - z), 0, w * (tau - z), w * (tau - z));
}

/// The quotient times `X - z` is the polynomial minus `y`, at every point
/// `x`: the division leaves no remainder.
pub proof fn lemma_quotient_exact(domain: Domain, p: Seq<int>, z: int, y: int, q: Seq<int>, x: int)
    requires
        domain.wf(),
        p.len() == domain.size(),
        is_quotient(domain, p, z, y, q),
    ensures
        congruent(domain.value_at(p, x) - y, domain.value_at(q, x) * (x - z)),
{
    let basis = domain.lagrange_basis(x);
    lemma_lincomb_symmetric(p, basis);
    lemma_lincomb_symmetric(q, basis);
    lemma_reduce_congruent(lincomb(p, basis));
    lemma_reduce_congruent(lincomb(q, basis));
    lemma_quotient_exact_at(
        domain,
        basis,
        x,
        p,
        z,
        y,
        q,
        domain.value_at(p, x),
        domain.value_at(q, x),
    );
}

/// The value in Lagrange form is the value of the interpolating polynomial:
/// where `c` holds the coefficients that the inverse transform gives for the
/// values `p`, the value at `x` is that of the polynomial with the
/// coefficients `c`.
pub proof fn lemma_value_at_is_interpolation(domain: Domain, p: Seq<int>, c: Seq<int>, x: int)
    requires
        domain.wf(),
        p.len() == domain.size(),
        domain.is_inverse_transform(p, c),
    ensures
        domain.value_at(p, x) == eval(c, x) % modulus(),
{
    let n = domain.size();
    let ninv = domain.size_inv();
    let gi = domain.omega_inv();
    let px = powers(x, n);
    let basis = domain.lagrange_basis(x);
    let dp = dft(p, gi, n);
    let dx = dft(px, gi, n);
    let scaled_p = Seq::new(n, |j: int| ninv * dp[j]);
    let scaled_x = Seq::new(n, |i: int| ninv * dx[i]);
    lemma_eval_is_lincomb(c, x);
    assert forall|j: int| 0 <= j < n implies congruent(c[j], scaled_p[j]) && congruent(
        px[j],
        px[j],
    ) by {
        lemma_reduce_congruent(ninv * dp[j]);
    }
    lemma_lincomb_congruent(c, scaled_p, px, px);
    lemma_lincomb_symmetric(scaled_p, px);
    lemma_lincomb_scale(px, dp, ninv, scaled_p);
    lemma_dft_symmetric(px, p, gi);
    assert forall|i: int| 0 <= i < n implies congruent(p[i], p[i]) && congruent(
        basis[i],
        scaled_x[i],
    ) by {
        lemma_reduce_congruent(ninv * dx[i]);
    }
    lemma_lincomb_congruent(p, p, basis, scaled_x);
    lemma_lincomb_scale(p, dx, ninv, scaled_x);
    lemma_lincomb_symmetric(p, dx);
}

/// Replacing one entry of the first sequence changes the sum of products by
/// the change of that entry times its partner.
pub proof fn lemma_lincomb_update(a: Seq<int>, b: Seq<int>, k: int, v: int)
    requires
        a.len() == b.len(),
        0 <= k < a.len(),
    ensures
        lincomb(a.update(k, v), b) == lincomb(a, b) + (v - a[k]) * b[k],
    decreases a.len(),
{
    let n = a.len();
    if k == n - 1 {
        assert(a.update(k, v).drop_last() =~= a.drop_last());
        assert(v * b[k] == a[k] * b[k] + (v - a[k]) * b[k]) by (nonlinear_arith);
    } else {
        assert(a.update(k, v).drop_last() =~= a.drop_last().update(k, v));
        lemma_lincomb_update(a.drop_last(), b.drop_last(), k, v);
    }
}

/// At the root `w^k`, the entries `(y - p[i]) * d[i]` away from `k`, and at
/// `k` the entry that makes the sum of `q[i] * w^i` vanish, are the quotient
/// of `p - y` by `X - w^k`, where `y` is `p[k]` and `d` holds the inverses of
/// the differences `w^k - w^i` and zero at `k`.
pub proof fn lemma_quotient_inside(
    domain: Domain,
    p: Seq<int>,
    z: int,
    k: int,
    d: Seq<int>,
    y: int,
    rest: Seq<int>,
    s: int,
    inverse_root: int,
    q: Seq<int>,
)
    requires
        domain.wf(),
        p.len() == domain.size(),
        d.len() == domain.size(),
        rest.len() == domain.size(),
        0 <= k < domain.size(),
        congruent(z, pow(domain.omega(), k as nat)),
        y == p[k],
        forall|i: int|
            0 <= i < domain.size() && i != k ==> congruent(
                (z - pow(domain.omega(), i as nat)) * d[i],
                1,
            ),
        forall|i: int| 0 <= i < domain.size() ==> congruent(rest[i], (y - p[i]) * d[i]),
        congruent(s, lincomb(rest, powers(domain.omega(), domain.size()))),
        congruent(inverse_root * pow(domain.omega(), k as nat), 1),
        congruent(q[k], (0 - s) * inverse_root),
        q == rest.update(k, q[k]),
    ensures
        is_quotient(domain, p, z, y, q),
{
    let n = domain.size();
    let g = domain.omega();
    let wk = pow(g, k as nat);
    assert forall|i: int| 0 <= i < n implies congruent(
        #[trigger] q[i] * (pow(g, i as nat) - z),
        p[i] - y,
    ) by {
        let w = pow(g, i as nat);
        if i == k {
            lemma_congruent_difference(w, z, z, z);
            lemma_congruent_product(q[i], q[i], w - z, 0);
            assert(q[i] * 0 == 0);
        } else {
            lemma_congruent_product(q[i], (y - p[i]) * d[i], w - z, w - z);
            lemma_congruent_product(p[i] - y, p[i] - y, (z - w) * d[i], 1);
            assert(((y - p[i]) * d[i]) * (w - z) == (p[i] - y) * ((z - w) * d[i]))
                by (nonlinear_arith);
            assert((p[i] - y) * 1 == p[i] - y);
        }
    }
    let total = lincomb(rest, powers(g, n));
    lemma_lincomb_update(rest, powers(g, n), k, q[k]);
    // rest[k] is congruent to zero, and q[k] * w^k to -s.
    assert((y - p[k]) * d[k] == 0) by (nonlinear_arith)
        requires
            y == p[k],
    ;
    lemma_congruent_product(rest[k], 0, wk, wk);
    assert(0 * wk == 0);
    lemma_congruent_product(q[k], (0 - s) * inverse_root, wk, wk);
    lemma_congruent_product(0 - s, 0 - s, inverse_root * wk, 1);
    assert(((0 - s) * inverse_root) * wk == (0 - s) * (inverse_root * wk)) by (nonlinear_arith);
    assert((0 - s) * 1 == 0 - s);
    lemma_congruent_difference(q[k] * wk, 0 - s, rest[k] * wk, 0);
    assert((q[k] - rest[k]) * wk == q[k] * wk - rest[k] * wk) by (nonlinear_arith);
    lemma_congruent_difference(0, 0, s, total);
    lemma_congruent_sum(total, total, (q[k] - rest[k]) * wk, 0 - total);
}

/// The sum of the products `a[i] * b[i]` in the field.
pub fn dot(a: &[Scalar], b: &[Scalar]) -> (r: Scalar)
    requires
        a.len() == b.len(),
    ensures
        r.value() == lincomb(values(a@), values(b@)) % modulus(),
{
    let n = a.len();
    let mut acc = Scalar::zero();
    let mut i: usize = 0;
    proof {
        lemma_small_mod(0, modulus() as nat);
    }
    while i < n
        invariant
            i <= n,
            n == a.len(),
            n == b.len(),
            acc.value() == lincomb(values(a@).take(i as int), values(b@).take(i as int))
                % modulus(),
        decreases n - i,
    {
        let term = a[i].mul(&b[i]);
        proof {
            let front = lincomb(values(a@).take(i as int), values(b@).take(i as int));
            let u = values(a@).take(i + 1);
            let v = values(b@).take(i + 1);
            assert(u.drop_last() =~= values(a@).take(i as int));
            assert(v.drop_last() =~= values(b@).take(i as int));
            lemma_add_mod_noop(front, a@[i as int].value() * b@[i as int].value(), modulus());
        }
        acc = acc.add(&term);
        i += 1;
    }
    proof {
        assert(values(a@).take(n as int) =~= values(a@));
        assert(values(b@).take(n as int) =~= values(b@));
    }
    acc
}

/// The products `a[i] * b[i]` in the field, place by place.
pub fn hadamard(a: &[Scalar], b: &[Scalar]) -> (r: Vec<Scalar>)
    requires
        a.len() == b.len(),
    ensures
        r.len() == a.len(),
        forall|i: int|
            0 <= i < r.len() ==> (#[trigger] r@[i]).value() == (a@[i].value() * b@[i].value())
                % modulus(),
{
    let n = a.len();
    let mut out: Vec<Scalar> = Vec::new();
    let mut i: usize = 0;
    while i < n
        invariant
            i <= n,
            n == a.len(),
            n == b.len(),
            out.len() == i,
            forall|j: int|
                0 <= j < i ==> (#[trigger] out@[j]).value() == (a@[j].value() * b@[j].value())
                    % modulus(),
        decreases n - i,
    {
        out.push(a[i].mul(&b[i]));
        i += 1;
    }
    out
}

/// At the root `w^k` the polynomial takes its `k`-th value.
pub proof fn lemma_value_at_root(domain: Domain, p: Seq<int>, k: int, z: int)
    requires
        domain.wf(),
        p.len() == domain.size(),
        0 <= k < domain.size(),
        congruent(z, pow(domain.omega(), k as nat)),
        0 <= p[k] < modulus(),
    ensures
        domain.value_at(p, z) == p[k],
{
    let n = domain.size();
    assert forall|i: int| 0 <= i < n implies domain.lagrange_basis(z)[i] == unit(n, k)[i] by {
        domain.lemma_lagrange_at_root(i, k, z);
    }
    assert(domain.lagrange_basis(z) =~= unit(n, k));
    lemma_lincomb_unit(p, k);
    lemma_small_mod(p[k] as nat, modulus() as nat);
}

impl Polynomial {
    /// The polynomial with the given values at the roots of its domain.
    pub fn new(evaluations: Vec<Scalar>) -> (r: Polynomial)
        ensures
            r.evaluations@ == evaluations@,
    {
        Polynomial { evaluations }
    }

    /// The place of `z` among the roots of the domain, if it is one of them.
    fn position(domain: &Domain, z: &Scalar) -> (r: Option<usize>)
        requires
            domain.wf(),
        ensures
            match r {
                Some(k) => k < domain.size() && domain.roots_view()[k as int].value() == z.value(),
                None => forall|i: int|
                    0 <= i < domain.size() ==> (#[trigger] domain.roots_view()[i]).value() != z.value(),
            },
    {
        let n = domain.roots().len();
        let mut i: usize = 0;
        while i < n
            invariant
                i <= n,
                n == domain.size(),
                forall|j: int| 0 <= j < i ==> (#[trigger] domain.roots_view()[j]).value() != z.value(),
            decreases n - i,
        {
            if domain.roots()[i].equals(z) {
                return Some(i);
            }
            i += 1;
        }
        None
    }

    /// The inverses of the differences `z - w^i`, with zero where `z` is the
    /// root `w^i`, by one batched inversion.
    fn inverse_differences(domain: &Domain, z: &Scalar) -> (d: Vec<Scalar>)
        requires
            domain.wf(),
        ensures
            d.len() == domain.size(),
            forall|i: int|
                0 <= i < domain.size() ==> if domain.roots_view()[i].value() == z.value() {
                    (#[trigger] d@[i]).value() == 0
                } else {
                    congruent((z.value() - pow(domain.omega(), i as nat)) * d@[i].value(), 1)
                },
    {
        let n = domain.roots().len();
        let mut d: Vec<Scalar> = Vec::new();
        let mut i: usize = 0;
        while i < n
            invariant
                i <= n,
                n == domain.size(),
                d.len() == i,
                forall|j: int|
                    0 <= j < i ==> (#[trigger] d@[j]).value() == (z.value()
                        - domain.roots_view()[j].value()) % modulus(),
            decreases n - i,
        {
            d.push(z.sub(&domain.roots()[i]));
            i += 1;
        }
        let ghost before = d@;
        batch_inverse(d.as_mut_slice());
        proof {
            use_type_invariant(z);
            assert forall|i: int| 0 <= i < n implies if domain.roots_view()[i].value() == z.value() {
                (#[trigger] d@[i]).value() == 0
            } else {
                congruent((z.value() - pow(domain.omega(), i as nat)) * d@[i].value(), 1)
            } by {
                let w = pow(domain.omega(), i as nat);
                let rv = domain.roots_view()[i].value();
                let diff = before[i].value();
                assert(inverted_at(before, d@, i));
                lemma_reduce_congruent(w);
                lemma_reduce_congruent(z.value() - rv);
                lemma_small_mod(1, modulus() as nat);
                if rv == z.value() {
                    lemma_small_mod(0, modulus() as nat);
                } else {
                    if diff % modulus() == 0 {
                        lemma_small_mod(diff as nat, modulus() as nat);
                        lemma_small_mod(0, modulus() as nat);
                        lemma_congruent_sum(z.value() - rv, 0, rv, rv);
                        lemma_canonical_unique(z.value(), rv);
                    }
                    lemma_congruent_difference(z.value(), z.value(), w, rv);
                    lemma_congruent_product(z.value() - w, diff, d@[i].value(), d@[i].value());
                }
            }
        }
        d
    }

    /// The value at `z`, a point that is no root of the domain, by the
    /// barycentric formula: `(z^n - 1) / n` times the sum of
    /// `p[i] * w^i / (z - w^i)`.
    fn barycentric(&self, z: &Scalar, domain: &Domain, d: &Vec<Scalar>) -> (y: Scalar)
        requires
            domain.wf(),
            self.evaluations@.len() == domain.size(),
            d@.len() == domain.size(),
            forall|i: int|
                0 <= i < domain.size() ==> congruent(
                    (z.value() - pow(domain.omega(), i as nat)) * (#[trigger] d@[i]).value(),
                    1,
                ),
        ensures
            y.value() == domain.value_at(values(self.evaluations@), z.value()),
    {
        let n = domain.roots().len();
        let weighted = hadamard(domain.roots().as_slice(), d.as_slice());
        let sum = dot(self.evaluations.as_slice(), weighted.as_slice());
        let power = z.pow(n as u64);
        let factor = power.sub(&Scalar::one()).mul(&domain.domain_size_inv());
        let y = factor.mul(&sum);
        proof {
            let p = values(self.evaluations@);
            let c = domain.size_inv();
            let zn = pow(z.value(), n as nat);
            let wd = weights(*domain, values(d@));
            assert forall|i: int| 0 <= i < n implies congruent(p[i], p[i]) && congruent(
                values(weighted@)[i],
                wd[i],
            ) by {
                let w = pow(domain.omega(), i as nat);
                lemma_reduce_congruent(w);
                lemma_reduce_congruent(domain.roots_view()[i].value() * d@[i].value());
                lemma_congruent_product(domain.roots_view()[i].value(), w, d@[i].value(), d@[i].value());
            }
            lemma_lincomb_congruent(p, p, values(weighted@), wd);
            lemma_reduce_congruent(lincomb(p, values(weighted@)));
            lemma_reduce_congruent(zn);
            lemma_congruent_difference(power.value(), zn, 1, 1);
            lemma_reduce_congruent(power.value() - 1);
            lemma_congruent_product((power.value() - 1) % modulus(), zn - 1, c, c);
            lemma_reduce_congruent(((power.value() - 1) % modulus()) * c);
            assert((zn - 1) * c == c * (zn - 1)) by (nonlinear_arith);
            assert(congruent(factor.value(), domain.vanishing(z.value())));
            lemma_congruent_product(
                factor.value(),
                domain.vanishing(z.value()),
                sum.value(),
                lincomb(p, wd),
            );
            lemma_barycentric(*domain, p, z.value(), values(d@));
            lemma_reduce_congruent(factor.value() * sum.value());
        }
        y
    }

    /// The value of the polynomial at `z`: its value at a root is the stored
    /// one, and at any other point the barycentric formula gives it. A
    /// polynomial with another number of values than the domain has roots is
    /// refused.
    pub fn evaluate(&self, z: &Scalar, domain: &Domain) -> (r: Result<Scalar, Error>)
        ensures
            r.is_ok() == (self.evaluations@.len() == domain.size()),
            r.is_err() ==> r.unwrap_err() == Error::LengthMismatch,
            r.is_ok() ==> r.unwrap().value() == domain.value_at(
                values(self.evaluations@),
                z.value(),
            ),
    {
        proof {
            use_type_invariant(domain);
        }
        if self.evaluations.len() != domain.roots().len() {
            return Err(Error::LengthMismatch);
        }
        match Polynomial::position(domain, z) {
            Some(k) => {
                let y = self.evaluations[k];
                proof {
                    use_type_invariant(&y);
                    lemma_reduce_congruent(pow(domain.omega(), k as nat));
                    lemma_value_at_root(*domain, values(self.evaluations@), k as int, z.value());
                }
                Ok(y)
            },
            None => {
                let d = Polynomial::inverse_differences(domain, z);
                Ok(self.barycentric(z, domain, &d))
            },
        }
    }

    /// The entries `(y - p[i]) * d[i]`.
    fn scaled_differences(&self, y: &Scalar, d: &Vec<Scalar>) -> (out: Vec<Scalar>)
        requires
            self.evaluations@.len() == d@.len(),
        ensures
            out@.len() == d@.len(),
            forall|i: int|
                0 <= i < out@.len() ==> congruent(
                    (#[trigger] out@[i]).value(),
                    (y.value() - self.evaluations@[i].value()) * d@[i].value(),
                ),
    {
        let n = d.len();
        let mut out: Vec<Scalar> = Vec::new();
        let mut i: usize = 0;
        while i < n
            invariant
                i <= n,
                n == d.len(),
                n == self.evaluations.len(),
                out.len() == i,
                forall|j: int|
                    0 <= j < i ==> congruent(
                        (#[trigger] out@[j]).value(),
                        (y.value() - self.evaluations@[j].value()) * d@[j].value(),
                    ),
            decreases n - i,
        {
            let difference = y.sub(&self.evaluations[i]);
            let entry = difference.mul(&d[i]);
            proof {
                let exact = y.value() - self.evaluations@[i as int].value();
                lemma_reduce_congruent(exact);
                lemma_congruent_product(
                    difference.value(),
                    exact,
                    d@[i as int].value(),
                    d@[i as int].value(),
                );
                lemma_reduce_congruent(difference.value() * d@[i as int].value());
            }
            out.push(entry);
            i += 1;
        }
        out
    }

    /// The value `y` of the polynomial at `z` and the quotient of the
    /// polynomial minus `y` by `X - z`, in Lagrange form over the same
    /// domain. The division leaves no remainder. Away from the roots the
    /// quotient's value at a root is `(p[i] - y) / (w^i - z)`; where `z` is
    /// the root `w^k` that formula divides by zero at `k`, and the value
    /// there is the one that keeps the quotient's degree below that of the
    /// polynomial: minus the sum of the other `q[i] * w^i`, divided by `w^k`.
    /// A polynomial with another number of values than the domain has roots
    /// is refused.
    pub fn divide_by_linear(&self, z: &Scalar, domain: &Domain) -> (r: Result<
        (Scalar, Polynomial),
        Error,
    >)
        ensures
            r.is_ok() == (self.evaluations@.len() == domain.size()),
            r.is_err() ==> r.unwrap_err() == Error::LengthMismatch,
            r.is_ok() ==> r.unwrap().0.value() == domain.value_at(
                values(self.evaluations@),
                z.value(),
            ),
            r.is_ok() ==> is_quotient(
                *domain,
                values(self.evaluations@),
                z.value(),
                r.unwrap().0.value(),
                values(r.unwrap().1.evaluations@),
            ),
    {
        proof {
            use_type_invariant(domain);
        }
        let n = domain.roots().len();
        if self.evaluations.len() != n {
            return Err(Error::LengthMismatch);
        }
        let ghost p = values(self.evaluations@);
        let d = Polynomial::inverse_differences(domain, z);
        match Polynomial::position(domain, z) {
            None => {
                let y = self.barycentric(z, domain, &d);
                let q = self.scaled_differences(&y, &d);
                proof {
                    lemma_reduce_congruent(lincomb(p, domain.lagrange_basis(z.value())));
                    lemma_quotient_outside(*domain, p, z.value(), values(d@), y.value(), values(q@));
                }
                Ok((y, Polynomial { evaluations: q }))
            },
            Some(k) => {
                let y = self.evaluations[k];
                let rest = self.scaled_differences(&y, &d);
                let sum = dot(rest.as_slice(), domain.roots().as_slice());
                let inverse_root = domain.roots()[if k == 0 {
                    0
                } else {
                    n - k
                }];
                let entry = Scalar::zero().sub(&sum).mul(&inverse_root);
                let mut q = rest;
                let ghost before = q@;
                q[k] = entry;
                proof {
                    let g = domain.omega();
                    let wk = pow(g, k as nat);
                    use_type_invariant(&y);
                    lemma_reduce_congruent(wk);
                    lemma_value_at_root(*domain, p, k as int, z.value());
                    assert forall|i: int| 0 <= i < n && i != k implies congruent(
                        (z.value() - pow(g, i as nat)) * values(d@)[i],
                        1,
                    ) by {
                        if domain.roots_view()[i].value() == z.value() {
                            if i < k {
                                domain.lemma_roots_distinct(i, k as int);
                            } else {
                                domain.lemma_roots_distinct(k as int, i);
                            }
                        }
                        assert(d@[i].value() == values(d@)[i]);
                    }
                    assert forall|i: int| 0 <= i < n implies congruent(
                        values(before)[i],
                        values(before)[i],
                    ) && congruent(values(domain.roots_view())[i], powers(g, n as nat)[i]) by {
                        lemma_reduce_congruent(pow(g, i as nat));
                    }
                    lemma_lincomb_congruent(
                        values(before),
                        values(before),
                        values(domain.roots_view()),
                        powers(g, n as nat),
                    );
                    lemma_reduce_congruent(lincomb(values(before), values(domain.roots_view())));
                    // The stored inverse root times the root is one.
                    domain.lemma_inverse_root(k as int);
                    domain.lemma_root_times_inverse(k as nat);
                    lemma_reduce_congruent(pow(g, domain.inverse_index(k as int) as nat));
                    lemma_congruent_product(
                        inverse_root.value(),
                        pow(domain.omega_inv(), k as nat),
                        wk,
                        wk,
                    );
                    assert(pow(domain.omega_inv(), k as nat) * wk == wk * pow(
                        domain.omega_inv(),
                        k as nat,
                    )) by (nonlinear_arith);
                    // The new entry is minus the sum times the inverse root.
                    lemma_reduce_congruent(0 - sum.value());
                    lemma_congruent_product(
                        (0 - sum.value()) % modulus(),
                        0 - sum.value(),
                        inverse_root.value(),
                        inverse_root.value(),
                    );
                    lemma_reduce_congruent(((0 - sum.value()) % modulus()) * inverse_root.value());
                    assert(values(q@) =~= values(before).update(k as int, values(q@)[k as int]));
                    lemma_quotient_inside(
                        *domain,
                        p,
                        z.value(),
                        k as int,
                        values(d@),
                        y.value(),
                        values(before),
                        sum.value(),
                        inverse_root.value(),
                        values(q@),
                    );
                }
                Ok((y, Polynomial { evaluations: q }))
            },
        }
    }
}

/// A polynomial in monomial form: its coefficients, lowest degree first.
#[derive(Clone, Debug)]
pub struct Coefficients {
    /// The coefficient of `X^i`, for each `i`.
    pub coefficients: Vec<Scalar>,
}

/// The coefficients of the quotient of `p - p(z)` by `X - z`: the
/// coefficient of `X^k` is the value at `z` of `p` without its lowest `k + 1`
/// terms, divided by `X^(k+1)`.
pub open spec fn synthetic_quotient(p: Seq<int>, z: int) -> Seq<int> {
    Seq::new(
        if p.len() == 0 {
            0nat
        } else {
            (p.len() - 1) as nat
        },
        |k: int| eval(p.skip(k + 1), z),
    )
}

/// Synthetic division is exact: the quotient times `X - z` is `p - p(z)`,
/// at every point `x`.
pub proof fn lemma_synthetic_division(p: Seq<int>, z: int, x: int)
    ensures
        (x - z) * eval(synthetic_quotient(p, z), x) == eval(p, x) - eval(p, z),
    decreases p.len(),
{
    let q = synthetic_quotient(p, z);
    if p.len() == 0 {
        assert((x - z) * 0 == 0);
    } else if p.len() == 1 {
        assert(p.skip(1).len() == 0);
        assert(eval(p.skip(1), x) == 0 && eval(p.skip(1), z) == 0);
        assert(x * 0 == 0 && z * 0 == 0 && (x - z) * 0 == 0);
    } else {
        let rest = p.skip(1);
        let q2 = synthetic_quotient(rest, z);
        assert(q.skip(1) =~= q2) by {
            assert forall|k: int| 0 <= k < q2.len() implies q.skip(1)[k] == q2[k] by {
                assert(p.skip(k + 2) =~= rest.skip(k + 1));
            }
        }
        lemma_synthetic_division(rest, z, x);
        let pr_x = eval(rest, x);
        let pr_z = eval(rest, z);
        let e2 = eval(q2, x);
        assert(q[0] == pr_z);
        assert(eval(q, x) == q[0] + x * eval(q.skip(1), x));
        assert(eval(p, x) == p[0] + x * pr_x);
        assert(eval(p, z) == p[0] + z * pr_z);
        assert((x - z) * (pr_z + x * e2) == (p[0] + x * pr_x) - (p[0] + z * pr_z))
            by (nonlinear_arith)
            requires
                (x - z) * e2 == pr_x - pr_z,
        ;
    }
}

impl Coefficients {
    /// The polynomial with the given coefficients, lowest degree first.
    pub fn new(coefficients: Vec<Scalar>) -> (r: Coefficients)
        ensures
            r.coefficients@ == coefficients@,
    {
        Coefficients { coefficients }
    }

    /// The value of the polynomial at `x`, by Horner's rule.
    pub fn evaluate(&self, x: &Scalar) -> (r: Scalar)
        ensures
            r.value() == eval(values(self.coefficients@), x.value()) % modulus(),
    {
        let ghost p = values(self.coefficients@);
        let n = self.coefficients.len();
        let mut acc = Scalar::zero();
        let mut i: usize = n;
        proof {
            lemma_small_mod(0, modulus() as nat);
            assert(p.skip(n as int).len() == 0);
        }
        while i > 0
            invariant
                i <= n,
                n == self.coefficients.len(),
                p == values(self.coefficients@),
                acc.value() == eval(p.skip(i as int), x.value()) % modulus(),
            decreases i,
        {
            i -= 1;
            let next = self.coefficients[i].add(&x.mul(&acc));
            proof {
                let tail = eval(p.skip(i + 1), x.value());
                assert(p.skip(i as int).skip(1) =~= p.skip(i + 1));
                lemma_reduce_congruent(tail);
                lemma_congruent_product(x.value(), x.value(), acc.value(), tail);
                lemma_reduce_congruent(x.value() * acc.value());
                lemma_congruent_sum(
                    p[i as int],
                    p[i as int],
                    (x.value() * acc.value()) % modulus(),
                    x.value() * tail,
                );
            }
            acc = next;
        }
        proof {
            assert(p.skip(0) =~= p);
        }
        acc
    }

    /// The quotient of the polynomial minus its value at `z` by `X - z`, by
    /// synthetic division. The division leaves no remainder: `z` is a root
    /// of the dividend. The quotient has one coefficient less than the
    /// polynomial, and none when the polynomial has none.
    pub fn divide_by_linear(&self, z: &Scalar) -> (r: Coefficients)
        ensures
            r.coefficients@.len() == synthetic_quotient(values(self.coefficients@), z.value()).len(),
            forall|k: int|
                0 <= k < r.coefficients@.len() ==> (#[trigger] r.coefficients@[k]).value()
                    == synthetic_quotient(values(self.coefficients@), z.value())[k] % modulus(),
    {
        let ghost p = values(self.coefficients@);
        let n = self.coefficients.len();
        if n <= 1 {
            return Coefficients { coefficients: Vec::new() };
        }
        let mut reversed: Vec<Scalar> = Vec::new();
        let mut acc = Scalar::zero();
        let mut i: usize = n;
        proof {
            lemma_small_mod(0, modulus() as nat);
            assert(p.skip(n as int).len() == 0);
        }
        while i > 1
            invariant
                1 <= i <= n,
                n == self.coefficients.len(),
                p == values(self.coefficients@),
                reversed.len() == n - i,
                acc.value() == eval(p.skip(i as int), z.value()) % modulus(),
                forall|j: int|
                    0 <= j < reversed.len() ==> (#[trigger] reversed@[j]).value() == eval(
                        p.skip(n - 1 - j),
                        z.value(),
                    ) % modulus(),
            decreases i,
        {
            i -= 1;
            let next = self.coefficients[i].add(&z.mul(&acc));
            proof {
                let tail = eval(p.skip(i + 1), z.value());
                assert(p.skip(i as int).skip(1) =~= p.skip(i + 1));
                lemma_reduce_congruent(tail);
                lemma_congruent_product(z.value(), z.value(), acc.value(), tail);
                lemma_reduce_congruent(z.value() * acc.value());
                lemma_congruent_sum(
                    p[i as int],
                    p[i as int],
                    (z.value() * acc.value()) % modulus(),
                    z.value() * tail,
                );
            }
            acc = next;
            reversed.push(acc);
        }
        let mut out: Vec<Scalar> = Vec::new();
        let mut k: usize = 0;
        while k < n - 1
            invariant
                k <= n - 1,
                reversed.len() == n - 1,
                out.len() == k,
                forall|j: int|
                    0 <= j < reversed.len() ==> (#[trigger] reversed@[j]).value() == eval(
                        p.skip(n - 1 - j),
                        z.value(),
                    ) % modulus(),
                forall|j: int|
                    0 <= j < k ==> (#[trigger] out@[j]).value() == eval(p.skip(j + 1), z.value())
                        % modulus(),
            decreases n - 1 - k,
        {
            out.push(reversed[n - 2 - k]);
            k += 1;
        }
        Coefficients { coefficients: out }
    }
}

} // verus!
