use crate::dft::eval;
use crate::field::{congruent, lemma_congruent_product, lemma_congruent_sum, modulus};
use vstd::arithmetic::power::{lemma_pow0, lemma_pow1, lemma_pow_adds, lemma_pow_mod_noop, pow};
use vstd::prelude::*;

verus! {

/// The sum of the products `a[i] * b[i]`, over the integers.
pub open spec fn lincomb(a: Seq<int>, b: Seq<int>) -> int
    decreases a.len(),
{
    if a.len() == 0 {
        0
    } else {
        lincomb(a.drop_last(), b.drop_last()) + a.last() * b.last()
    }
}

/// The powers `x^0, x^1, ..., x^(n-1)`.
pub open spec fn powers(x: int, n: nat) -> Seq<int> {
    Seq::new(n, |i: int| pow(x, i as nat))
}

/// The sequence of `n` ones.
pub open spec fn ones(n: nat) -> Seq<int> {
    Seq::new(n, |i: int| 1int)
}

/// The sequence of `n` entries that is one at place `j` and zero elsewhere.
pub open spec fn unit(n: nat, j: int) -> Seq<int> {
    Seq::new(
        n,
        |i: int|
            if i == j {
                1int
            } else {
                0int
            },
    )
}

/// Sums of products whose factors are congruent place by place are
/// congruent.
pub proof fn lemma_lincomb_congruent(a: Seq<int>, a2: Seq<int>, b: Seq<int>, b2: Seq<int>)
    requires
        a.len() == a2.len(),
        a.len() == b.len(),
        a.len() == b2.len(),
        forall|i: int| 0 <= i < a.len() ==> congruent(a[i], a2[i]) && congruent(b[i], b2[i]),
    ensures
        congruent(lincomb(a, b), lincomb(a2, b2)),
    decreases a.len(),
{
    if a.len() > 0 {
        lemma_lincomb_congruent(a.drop_last(), a2.drop_last(), b.drop_last(), b2.drop_last());
        lemma_congruent_product(a.last(), a2.last(), b.last(), b2.last());
        lemma_congruent_sum(
            lincomb(a.drop_last(), b.drop_last()),
            lincomb(a2.drop_last(), b2.drop_last()),
            a.last() * b.last(),
            a2.last() * b2.last(),
        );
    }
}

/// Sums of products whose products are congruent place by place are
/// congruent.
pub proof fn lemma_lincomb_products(a: Seq<int>, b: Seq<int>, c: Seq<int>, d: Seq<int>)
    requires
        a.len() == b.len(),
        a.len() == c.len(),
        a.len() == d.len(),
        forall|i: int| 0 <= i < a.len() ==> congruent(a[i] * b[i], c[i] * d[i]),
    ensures
        congruent(lincomb(a, b), lincomb(c, d)),
    decreases a.len(),
{
    if a.len() > 0 {
        lemma_lincomb_products(a.drop_last(), b.drop_last(), c.drop_last(), d.drop_last());
        assert(congruent(a[a.len() - 1] * b[a.len() - 1], c[a.len() - 1] * d[a.len() - 1]));
        lemma_congruent_sum(
            lincomb(a.drop_last(), b.drop_last()),
            lincomb(c.drop_last(), d.drop_last()),
            a.last() * b.last(),
            c.last() * d.last(),
        );
    }
}

/// The sum of products does not depend on the order of the two sequences.
pub proof fn lemma_lincomb_symmetric(a: Seq<int>, b: Seq<int>)
    requires
        a.len() == b.len(),
    ensures
        lincomb(a, b) == lincomb(b, a),
    decreases a.len(),
{
    if a.len() > 0 {
        lemma_lincomb_symmetric(a.drop_last(), b.drop_last());
        assert(a.last() * b.last() == b.last() * a.last()) by (nonlinear_arith);
    }
}

/// The sum of products is additive in its second sequence.
pub proof fn lemma_lincomb_add(a: Seq<int>, b: Seq<int>, c: Seq<int>, s: Seq<int>)
    requires
        a.len() == b.len(),
        a.len() == c.len(),
        a.len() == s.len(),
        forall|i: int| 0 <= i < a.len() ==> s[i] == b[i] + c[i],
    ensures
        lincomb(a, s) == lincomb(a, b) + lincomb(a, c),
    decreases a.len(),
{
    if a.len() > 0 {
        lemma_lincomb_add(a.drop_last(), b.drop_last(), c.drop_last(), s.drop_last());
        assert(a.last() * s.last() == a.last() * b.last() + a.last() * c.last())
            by (nonlinear_arith)
            requires
                s.last() == b.last() + c.last(),
        ;
    }
}

/// A factor common to all entries of the second sequence can be taken out of
/// the sum of products.
pub proof fn lemma_lincomb_scale(a: Seq<int>, b: Seq<int>, k: int, s: Seq<int>)
    requires
        a.len() == b.len(),
        a.len() == s.len(),
        forall|i: int| 0 <= i < a.len() ==> s[i] == k * b[i],
    ensures
        lincomb(a, s) == k * lincomb(a, b),
    decreases a.len(),
{
    if a.len() > 0 {
        lemma_lincomb_scale(a.drop_last(), b.drop_last(), k, s.drop_last());
        let rest = lincomb(a.drop_last(), b.drop_last());
        assert(k * rest + a.last() * s.last() == k * (rest + a.last() * b.last()))
            by (nonlinear_arith)
            requires
                s.last() == k * b.last(),
        ;
    } else {
        assert(k * 0 == 0);
    }
}

/// The sum of products with a unit sequence picks one entry.
pub proof fn lemma_lincomb_unit(a: Seq<int>, j: int)
    requires
        0 <= j < a.len(),
    ensures
        lincomb(a, unit(a.len(), j)) == a[j],
    decreases a.len(),
{
    let n = a.len();
    let u = unit(n, j);
    if j == n - 1 {
        let zeros = u.drop_last();
        lemma_lincomb_scale(a.drop_last(), zeros, 0, zeros);
        assert(0 * lincomb(a.drop_last(), zeros) == 0);
        assert(a.last() * 1 == a.last());
    } else {
        assert(u.drop_last() =~= unit((n - 1) as nat, j));
        lemma_lincomb_unit(a.drop_last(), j);
        assert(a.last() * 0 == 0);
    }
}

/// One more coefficient at the top adds one term to the value.
pub proof fn lemma_eval_push(c: Seq<int>, v: int, x: int)
    ensures
        eval(c.push(v), x) == eval(c, x) + v * pow(x, c.len()),
    decreases c.len(),
{
    if c.len() == 0 {
        lemma_pow0(x);
        assert(c.push(v).skip(1).len() == 0);
        assert(eval(c.push(v).skip(1), x) == 0);
        assert(x * 0 == 0);
        assert(v * 1 == v);
    } else {
        let rest = c.skip(1);
        assert(c.push(v).skip(1) =~= rest.push(v));
        lemma_eval_push(rest, v, x);
        lemma_pow_adds(x, 1, rest.len());
        lemma_pow1(x);
        let e = eval(rest, x);
        let p = pow(x, rest.len());
        assert(c[0] + x * (e + v * p) == (c[0] + x * e) + v * (x * p)) by (nonlinear_arith);
    }
}

/// The value of a polynomial is the sum of its coefficients times the powers
/// of the point.
pub proof fn lemma_eval_is_lincomb(c: Seq<int>, x: int)
    ensures
        eval(c, x) == lincomb(c, powers(x, c.len())),
    decreases c.len(),
{
    if c.len() > 0 {
        let front = c.drop_last();
        assert(c =~= front.push(c.last()));
        lemma_eval_push(front, c.last(), x);
        lemma_eval_is_lincomb(front, x);
        assert(powers(x, c.len()).drop_last() =~= powers(x, front.len()));
    }
}

/// The value of a concatenation: the second part is shifted by the length of
/// the first.
pub proof fn lemma_eval_concat(a: Seq<int>, b: Seq<int>, x: int)
    ensures
        eval(a + b, x) == eval(a, x) + pow(x, a.len()) * eval(b, x),
    decreases b.len(),
{
    if b.len() == 0 {
        assert(a + b =~= a);
        assert(pow(x, a.len()) * 0 == 0);
    } else {
        let front = b.drop_last();
        let v = b.last();
        assert(a + b =~= (a + front).push(v));
        assert(b =~= front.push(v));
        lemma_eval_concat(a, front, x);
        lemma_eval_push(a + front, v, x);
        lemma_eval_push(front, v, x);
        lemma_pow_adds(x, a.len(), front.len());
        let pa = pow(x, a.len());
        let pf = pow(x, front.len());
        let ef = eval(front, x);
        assert(pa * ef + v * (pa * pf) == pa * (ef + v * pf)) by (nonlinear_arith);
    }
}

/// The geometric sum: `(u - 1) * (1 + u + ... + u^(n-1)) = u^n - 1`.
pub proof fn lemma_geometric(u: int, n: nat)
    ensures
        (u - 1) * eval(ones(n), u) == pow(u, n) - 1,
    decreases n,
{
    if n == 0 {
        lemma_pow0(u);
        assert((u - 1) * 0 == 0);
    } else {
        let k = (n - 1) as nat;
        assert(ones(n) =~= ones(k).push(1));
        lemma_eval_push(ones(k), 1, u);
        lemma_geometric(u, k);
        lemma_pow_adds(u, 1, k);
        lemma_pow1(u);
        let e = eval(ones(k), u);
        let p = pow(u, k);
        assert((u - 1) * (e + 1 * p) == ((u - 1) * e) + u * p - p) by (nonlinear_arith);
    }
}

/// Congruent bases have congruent powers.
pub proof fn lemma_pow_congruent(a: int, b: int, e: nat)
    requires
        congruent(a, b),
    ensures
        congruent(pow(a, e), pow(b, e)),
{
    lemma_pow_mod_noop(a, e, modulus());
    lemma_pow_mod_noop(b, e, modulus());
}

} // verus!
