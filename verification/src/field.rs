use vstd::arithmetic::div_mod::*;
use vstd::prelude::*;

verus! {

/// The prime order `r` of the BLS12-381 scalar field, which is also the order
/// of the groups G1, G2 and of the pairing's target group.
pub open spec fn modulus() -> int {
    52435875175126190479447740508185965837690552500527637822603658699938581184513int
}

/// Two integers name the same field element.
pub open spec fn congruent(a: int, b: int) -> bool {
    a % modulus() == b % modulus()
}

/// `b` is the canonical representative of the inverse of `a`, with the
/// convention that the inverse of zero is zero.
pub open spec fn is_inverse_of(b: int, a: int) -> bool {
    &&& 0 <= b < modulus()
    &&& if a % modulus() == 0 {
        b == 0
    } else {
        (a * b) % modulus() == 1
    }
}

/// Sums of congruent integers are congruent.
pub proof fn lemma_congruent_sum(a: int, a2: int, b: int, b2: int)
    requires
        congruent(a, a2),
        congruent(b, b2),
    ensures
        congruent(a + b, a2 + b2),
{
    lemma_add_mod_noop(a, b, modulus());
    lemma_add_mod_noop(a2, b2, modulus());
}

/// Differences of congruent integers are congruent.
pub proof fn lemma_congruent_difference(a: int, a2: int, b: int, b2: int)
    requires
        congruent(a, a2),
        congruent(b, b2),
    ensures
        congruent(a - b, a2 - b2),
{
    lemma_sub_mod_noop(a, b, modulus());
    lemma_sub_mod_noop(a2, b2, modulus());
}

/// Products of congruent integers are congruent.
pub proof fn lemma_congruent_product(a: int, a2: int, b: int, b2: int)
    requires
        congruent(a, a2),
        congruent(b, b2),
    ensures
        congruent(a * b, a2 * b2),
{
    lemma_mul_mod_noop_general(a, b, modulus());
    lemma_mul_mod_noop_general(a2, b2, modulus());
}

/// Reducing an integer does not change the field element it names.
pub proof fn lemma_reduce_congruent(a: int)
    ensures
        congruent(a % modulus(), a),
        0 <= a % modulus() < modulus(),
{
    lemma_mod_twice(a, modulus());
}

/// Canonical representatives of the same field element are equal.
pub proof fn lemma_canonical_unique(a: int, b: int)
    requires
        0 <= a < modulus(),
        0 <= b < modulus(),
        congruent(a, b),
    ensures
        a == b,
{
    lemma_small_mod(a as nat, modulus() as nat);
    lemma_small_mod(b as nat, modulus() as nat);
}

/// A field element has at most one inverse.
pub proof fn lemma_inverse_unique(a: int, b: int, c: int)
    requires
        is_inverse_of(b, a),
        is_inverse_of(c, a),
    ensures
        b == c,
{
    if a % modulus() != 0 {
        // b = b * (a * c) = (a * b) * c = c
        lemma_congruent_product(b, b, a * c, 1);
        lemma_congruent_product(a * b, 1, c, c);
        assert(b * (a * c) == (a * b) * c) by (nonlinear_arith);
        lemma_canonical_unique(b, c);
    }
}

/// Inverting twice gives the element back: if `b` is the inverse of the
/// canonical `a`, then `a` is the inverse of `b`.
pub proof fn lemma_inverse_involution(a: int, b: int)
    requires
        0 <= a < modulus(),
        is_inverse_of(b, a),
    ensures
        is_inverse_of(a, b),
{
    lemma_small_mod(a as nat, modulus() as nat);
    lemma_small_mod(b as nat, modulus() as nat);
    if a != 0 {
        assert(a * b == b * a) by (nonlinear_arith);
        if b == 0 {
            assert(a * b == 0) by (nonlinear_arith)
                requires
                    b == 0,
            ;
        }
    }
}

/// One backward step of the batched inversion: from the inverse `t` of
/// `p * f` and a representative `s` of `p`, both the inverse of `f` and the
/// inverse of `p` are obtained by one multiplication each.
pub proof fn lemma_peel_inverse(t: int, s: int, p: int, f: int)
    requires
        (t * (p * f)) % modulus() == 1,
        congruent(s, p),
    ensures
        (f * ((t * s) % modulus())) % modulus() == 1,
        (((t * f) % modulus()) * p) % modulus() == 1,
{
    let m = modulus();
    lemma_mul_mod_noop_right(f, t * s, m);
    assert(f * (t * s) == (t * f) * s) by (nonlinear_arith);
    lemma_congruent_product(t * f, t * f, s, p);
    assert((t * f) * p == t * (p * f)) by (nonlinear_arith);
    lemma_mul_mod_noop_left(t * f, p, m);
}

} // verus!
