use crate::error::Error;
use crate::field::{
    congruent, is_inverse_of, lemma_congruent_difference, lemma_congruent_product,
    lemma_congruent_sum, lemma_reduce_congruent, modulus,
};
use crate::g1::{dlogs, g1_lincomb, G1Point};
use crate::g2::pairings_agree;
use crate::kzg::opening::pairing_identity;
use crate::kzg::srs::PublicParameters;
use crate::polynomial::{dot, hadamard};
use crate::scalar::{values, Scalar};
use crate::sums::{
    lemma_lincomb_add, lemma_lincomb_congruent, lemma_lincomb_products, lemma_lincomb_scale,
    lemma_lincomb_symmetric, lemma_lincomb_unit, lemma_pow_congruent, lincomb, powers, unit,
};
use vstd::arithmetic::div_mod::{lemma_mul_mod_noop_left, lemma_small_mod};
use vstd::arithmetic::power::{
    lemma1_pow, lemma_pow0, lemma_pow1, lemma_pow_adds, lemma_pow_distributes, pow,
};
use vstd::prelude::*;

verus! {

/// Several openings combined into one with the powers of a challenge: the
/// sums, each weighted by the challenge's powers, of the commitments, of the
/// values, of the witnesses, and of the witnesses times their points.
#[derive(Clone, Copy, Debug, PartialEq, Eq)]
pub struct AggregatedKZG {
    /// The sum of `r^i * C_i`.
    pub commitment: G1Point,
    /// The sum of `r^i * W_i`.
    pub witness: G1Point,
    /// The sum of `r^i * z_i * W_i`.
    pub shifted_witness: G1Point,
    /// The sum of `r^i * y_i`.
    pub value: Scalar,
    /// The challenge `r`.
    pub challenge: Scalar,
}

/// The powers `r^i`, each times `z[i]`.
pub open spec fn scaled_powers(r: int, z: Seq<int>) -> Seq<int> {
    Seq::new(z.len(), |i: int| pow(r, i as nat) * z[i])
}

/// The identity that the verification of an aggregate tests, on the integers
/// that the points are the multiples of: `(a - v + s) * g2 = w * tau_g2`.
pub open spec fn aggregated_identity(a: int, v: int, s: int, w: int, g2: int, tau_g2: int) -> bool {
    congruent((a - v + s) * g2, w * tau_g2)
}

impl AggregatedKZG {
    /// The aggregate is the combination of the given commitments, points,
    /// values and witnesses with the powers of the challenge `r`.
    pub open spec fn combines(
        self,
        commitments: Seq<int>,
        points: Seq<int>,
        values: Seq<int>,
        witnesses: Seq<int>,
        r: int,
    ) -> bool {
        &&& self.challenge.value() == r
        &&& self.commitment.dlog() == lincomb(commitments, powers(r, commitments.len()))
            % modulus()
        &&& self.witness.dlog() == lincomb(witnesses, powers(r, commitments.len())) % modulus()
        &&& self.shifted_witness.dlog() == lincomb(witnesses, scaled_powers(r, points))
            % modulus()
        &&& self.value.value() == lincomb(values, powers(r, commitments.len())) % modulus()
    }

    /// The powers `r^0, ..., r^(count-1)` of the challenge.
    fn challenge_powers(challenge: &Scalar, count: usize) -> (out: Vec<Scalar>)
        ensures
            out@.len() == count,
            forall|i: int|
                0 <= i < count ==> (#[trigger] out@[i]).value() == pow(challenge.value(), i as nat)
                    % modulus(),
    {
        let mut out: Vec<Scalar> = Vec::new();
        let mut current = Scalar::one();
        let mut i: usize = 0;
        proof {
            lemma_pow0(challenge.value());
            lemma_small_mod(1, modulus() as nat);
        }
        while i < count
            invariant
                i <= count,
                out.len() == i,
                current.value() == pow(challenge.value(), i as nat) % modulus(),
                forall|j: int|
                    0 <= j < i ==> (#[trigger] out@[j]).value() == pow(
                        challenge.value(),
                        j as nat,
                    ) % modulus(),
            decreases count - i,
        {
            out.push(current);
            proof {
                lemma_mul_mod_noop_left(
                    pow(challenge.value(), i as nat),
                    challenge.value(),
                    modulus(),
                );
                lemma_pow_adds(challenge.value(), i as nat, 1);
                lemma_pow1(challenge.value());
            }
            current = current.mul(challenge);
            i += 1;
        }
        out
    }

    /// The weights in the field stand for the challenge's powers.
    proof fn lemma_weights(a: Seq<int>, weights: Seq<int>, r: int)
        requires
            a.len() == weights.len(),
            forall|i: int| 0 <= i < a.len() ==> weights[i] == pow(r, i as nat) % modulus(),
        ensures
            lincomb(a, weights) % modulus() == lincomb(a, powers(r, a.len())) % modulus(),
    {
        assert forall|i: int| 0 <= i < a.len() implies congruent(a[i], a[i]) && congruent(
            weights[i],
            powers(r, a.len())[i],
        ) by {
            lemma_reduce_congruent(pow(r, i as nat));
        }
        lemma_lincomb_congruent(a, a, weights, powers(r, a.len()));
    }

    /// Combines openings at any points. The four lists must have one length,
    /// and that length must not be zero; both are tested before any group
    /// operation.
    pub fn aggregate(
        commitments: &[G1Point],
        points: &[Scalar],
        evaluations: &[Scalar],
        witnesses: &[G1Point],
        challenge: &Scalar,
    ) -> (r: Result<AggregatedKZG, Error>)
        ensures
            r.is_ok() == (commitments.len() == points.len() && commitments.len() == evaluations.len()
                && commitments.len() == witnesses.len() && commitments.len() > 0),
            r.is_err() ==> r.unwrap_err() == if commitments.len() == points.len()
                && commitments.len() == evaluations.len() && commitments.len() == witnesses.len() {
                Error::EmptyBatch
            } else {
                Error::LengthMismatch
            },
            r.is_ok() ==> r.unwrap().combines(
                dlogs(commitments@),
                values(points@),
                values(evaluations@),
                dlogs(witnesses@),
                challenge.value(),
            ),
    {
        let count = commitments.len();
        if points.len() != count || evaluations.len() != count || witnesses.len() != count {
            return Err(Error::LengthMismatch);
        }
        if count == 0 {
            return Err(Error::EmptyBatch);
        }
        let weights = AggregatedKZG::challenge_powers(challenge, count);
        let shifted = hadamard(weights.as_slice(), points);
        let commitment = match g1_lincomb(commitments, weights.as_slice()) {
            Ok(point) => point,
            Err(e) => {
                return Err(e);
            },
        };
        let witness = match g1_lincomb(witnesses, weights.as_slice()) {
            Ok(point) => point,
            Err(e) => {
                return Err(e);
            },
        };
        let shifted_witness = match g1_lincomb(witnesses, shifted.as_slice()) {
            Ok(point) => point,
            Err(e) => {
                return Err(e);
            },
        };
        let value = dot(evaluations, weights.as_slice());
        proof {
            let r = challenge.value();
            AggregatedKZG::lemma_weights(dlogs(commitments@), values(weights@), r);
            AggregatedKZG::lemma_weights(dlogs(witnesses@), values(weights@), r);
            AggregatedKZG::lemma_weights(values(evaluations@), values(weights@), r);
            let w = dlogs(witnesses@);
            let target = scaled_powers(r, values(points@));
            assert forall|i: int| 0 <= i < count implies congruent(w[i], w[i]) && congruent(
                values(shifted@)[i],
                target[i],
            ) by {
                lemma_reduce_congruent(pow(r, i as nat));
                lemma_congruent_product(
                    weights@[i].value(),
                    pow(r, i as nat),
                    points@[i].value(),
                    points@[i].value(),
                );
                lemma_reduce_congruent(weights@[i].value() * points@[i].value());
            }
            lemma_lincomb_congruent(w, w, values(shifted@), target);
        }
        Ok(AggregatedKZG { commitment, witness, shifted_witness, value, challenge: *challenge })
    }

    /// Combines openings at one point `z`. The three lists must have one
    /// length, and that length must not be zero; both are tested before any
    /// group operation.
    pub fn aggregate_at_point(
        commitments: &[G1Point],
        z: &Scalar,
        evaluations: &[Scalar],
        witnesses: &[G1Point],
        challenge: &Scalar,
    ) -> (r: Result<AggregatedKZG, Error>)
        ensures
            r.is_ok() == (commitments.len() == evaluations.len() && commitments.len()
                == witnesses.len() && commitments.len() > 0),
            r.is_err() ==> r.unwrap_err() == if commitments.len() == evaluations.len()
                && commitments.len() == witnesses.len() {
                Error::EmptyBatch
            } else {
                Error::LengthMismatch
            },
            r.is_ok() ==> r.unwrap().combines(
                dlogs(commitments@),
                Seq::new(commitments@.len(), |i: int| z.value()),
                values(evaluations@),
                dlogs(witnesses@),
                challenge.value(),
            ),
    {
        let count = commitments.len();
        if evaluations.len() != count || witnesses.len() != count {
            return Err(Error::LengthMismatch);
        }
        if count == 0 {
            return Err(Error::EmptyBatch);
        }
        let weights = AggregatedKZG::challenge_powers(challenge, count);
        let commitment = match g1_lincomb(commitments, weights.as_slice()) {
            Ok(point) => point,
            Err(e) => {
                return Err(e);
            },
        };
        let witness = match g1_lincomb(witnesses, weights.as_slice()) {
            Ok(point) => point,
            Err(e) => {
                return Err(e);
            },
        };
        let shifted_witness = witness.mul(z);
        let value = dot(evaluations, weights.as_slice());
        proof {
            let r = challenge.value();
            AggregatedKZG::lemma_weights(dlogs(commitments@), values(weights@), r);
            AggregatedKZG::lemma_weights(dlogs(witnesses@), values(weights@), r);
            AggregatedKZG::lemma_weights(values(evaluations@), values(weights@), r);
            let w = dlogs(witnesses@);
            let same = Seq::new(count as nat, |i: int| z.value());
            let target = scaled_powers(r, same);
            let scaled = Seq::new(count as nat, |i: int| z.value() * powers(r, count as nat)[i]);
            assert(target =~= scaled) by {
                assert forall|i: int| 0 <= i < count implies target[i] == scaled[i] by {
                    assert(pow(r, i as nat) * z.value() == z.value() * pow(r, i as nat))
                        by (nonlinear_arith);
                }
            }
            lemma_lincomb_scale(w, powers(r, count as nat), z.value(), scaled);
            let sum = lincomb(w, powers(r, count as nat));
            lemma_reduce_congruent(sum);
            lemma_congruent_product(witness.dlog(), sum, z.value(), z.value());
            assert(sum * z.value() == z.value() * sum) by (nonlinear_arith);
        }
        Ok(AggregatedKZG { commitment, witness, shifted_witness, value, challenge: *challenge })
    }

    /// Verifies all the combined openings with one pairing check:
    /// `e(A - [v]G + S, H) = e(W, [tau]H)` for the combined commitment `A`,
    /// value `v`, shifted witness `S` and witness `W`. Any failure of the
    /// identity is a rejection.
    pub fn verify(&self, public_parameters: &PublicParameters) -> (r: bool)
        ensures
            r == aggregated_identity(
                self.commitment.dlog(),
                self.value.value(),
                self.shifted_witness.dlog(),
                self.witness.dlog(),
                public_parameters.g2.dlog(),
                public_parameters.tau_g2.dlog(),
            ),
    {
        let value_point = G1Point::generator().mul(&self.value);
        let difference = self.commitment.sub(&value_point);
        let left = difference.add(&self.shifted_witness);
        proof {
            let a = self.commitment.dlog();
            let v = self.value.value();
            let s = self.shifted_witness.dlog();
            let g2 = public_parameters.g2.dlog();
            assert(1 * v == v);
            lemma_reduce_congruent(v);
            lemma_congruent_difference(a, a, value_point.dlog(), v);
            lemma_reduce_congruent(a - value_point.dlog());
            lemma_congruent_sum(difference.dlog(), a - v, s, s);
            lemma_reduce_congruent(difference.dlog() + s);
            lemma_congruent_product(left.dlog(), a - v + s, g2, g2);
        }
        pairings_agree(&left, &public_parameters.g2, &self.witness, &public_parameters.tau_g2)
    }
}

/// The left sides of the pairing identities of a batch, each with its
/// witness's share brought over from the right: `g2 * (c - y + z * w)`.
pub open spec fn left_terms(c: Seq<int>, z: Seq<int>, y: Seq<int>, w: Seq<int>, g2: int) -> Seq<
    int,
> {
    Seq::new(c.len(), |i: int| g2 * (c[i] - y[i] + z[i] * w[i]))
}

/// What is left on the right sides of the pairing identities: `tau_g2 * w`.
pub open spec fn right_terms(w: Seq<int>, tau_g2: int) -> Seq<int> {
    Seq::new(w.len(), |i: int| tau_g2 * w[i])
}

/// An opening meets the pairing identity exactly when its left and right
/// terms agree.
pub proof fn lemma_identity_as_terms(c: int, z: int, y: int, w: int, g2: int, tau_g2: int)
    ensures
        pairing_identity(c, z, y, w, g2, tau_g2) == congruent(
            g2 * (c - y + z * w),
            tau_g2 * w,
        ),
{
    let e = w * (g2 * z);
    assert((c - y) * g2 + e == g2 * (c - y + z * w)) by (nonlinear_arith)
        requires
            e == w * (g2 * z),
    ;
    assert(w * (tau_g2 - g2 * z) + e == tau_g2 * w) by (nonlinear_arith)
        requires
            e == w * (g2 * z),
    ;
    if pairing_identity(c, z, y, w, g2, tau_g2) {
        lemma_congruent_sum((c - y) * g2, w * (tau_g2 - g2 * z), e, e);
    }
    if congruent(g2 * (c - y + z * w), tau_g2 * w) {
        lemma_congruent_difference(g2 * (c - y + z * w), tau_g2 * w, e, e);
    }
}

/// The two sides of the aggregated identity are the sums, weighted by the
/// powers of the challenge, of the left and of the right terms of the batch.
pub proof fn lemma_aggregate_sides(
    c: Seq<int>,
    z: Seq<int>,
    y: Seq<int>,
    w: Seq<int>,
    r: int,
    g2: int,
    tau_g2: int,
    a: int,
    v: int,
    s: int,
    t: int,
)
    requires
        c.len() == z.len(),
        c.len() == y.len(),
        c.len() == w.len(),
        congruent(a, lincomb(c, powers(r, c.len()))),
        congruent(v, lincomb(y, powers(r, c.len()))),
        congruent(s, lincomb(w, scaled_powers(r, z))),
        congruent(t, lincomb(w, powers(r, c.len()))),
    ensures
        congruent((a - v + s) * g2, lincomb(powers(r, c.len()), left_terms(c, z, y, w, g2))),
        congruent(t * tau_g2, lincomb(powers(r, c.len()), right_terms(w, tau_g2))),
{
    let k = c.len();
    let weights = powers(r, k);
    let shifted = Seq::new(k, |i: int| z[i] * w[i]);
    let negated = Seq::new(k, |i: int| (-1) * y[i]);
    let partial = Seq::new(k, |i: int| negated[i] + shifted[i]);
    let combined = Seq::new(k, |i: int| c[i] + partial[i]);
    let left = left_terms(c, z, y, w, g2);
    let right = right_terms(w, tau_g2);
    assert forall|i: int| 0 <= i < k implies left[i] == g2 * combined[i] by {
        assert(c[i] - y[i] + z[i] * w[i] == c[i] + ((-1) * y[i] + z[i] * w[i]));
    }
    lemma_lincomb_scale(weights, combined, g2, left);
    lemma_lincomb_scale(weights, w, tau_g2, right);
    lemma_lincomb_add(weights, c, partial, combined);
    lemma_lincomb_add(weights, negated, shifted, partial);
    lemma_lincomb_scale(weights, y, -1, negated);
    lemma_lincomb_symmetric(weights, c);
    lemma_lincomb_symmetric(weights, y);
    lemma_lincomb_symmetric(weights, w);
    assert forall|i: int| 0 <= i < k implies congruent(
        weights[i] * shifted[i],
        w[i] * scaled_powers(r, z)[i],
    ) by {
        assert(weights[i] * (z[i] * w[i]) == w[i] * (pow(r, i as nat) * z[i]))
            by (nonlinear_arith)
            requires
                weights[i] == pow(r, i as nat),
        ;
    }
    lemma_lincomb_products(weights, shifted, w, scaled_powers(r, z));
    let sc = lincomb(c, weights);
    let sy = lincomb(y, weights);
    let sw = lincomb(w, weights);
    let ss = lincomb(weights, shifted);
    assert(lincomb(weights, combined) == sc + ((-1) * sy + ss));
    lemma_congruent_difference(a, sc, v, sy);
    lemma_congruent_sum(a - v, sc - sy, s, ss);
    lemma_congruent_product(a - v + s, sc - sy + ss, g2, g2);
    assert((sc - sy + ss) * g2 == g2 * (sc + ((-1) * sy + ss))) by (nonlinear_arith);
    lemma_congruent_product(t, sw, tau_g2, tau_g2);
    assert(sw * tau_g2 == tau_g2 * sw) by (nonlinear_arith);
}

/// Aggregation keeps validity: where every opening of a batch meets the
/// pairing identity on its own, their combination with the powers of any
/// challenge meets the aggregated identity.
pub proof fn lemma_aggregate_verifies(
    c: Seq<int>,
    z: Seq<int>,
    y: Seq<int>,
    w: Seq<int>,
    r: int,
    g2: int,
    tau_g2: int,
    a: int,
    v: int,
    s: int,
    t: int,
)
    requires
        c.len() == z.len(),
        c.len() == y.len(),
        c.len() == w.len(),
        forall|i: int| 0 <= i < c.len() ==> pairing_identity(c[i], z[i], y[i], w[i], g2, tau_g2),
        congruent(a, lincomb(c, powers(r, c.len()))),
        congruent(v, lincomb(y, powers(r, c.len()))),
        congruent(s, lincomb(w, scaled_powers(r, z))),
        congruent(t, lincomb(w, powers(r, c.len()))),
    ensures
        aggregated_identity(a, v, s, t, g2, tau_g2),
{
    let k = c.len();
    let weights = powers(r, k);
    let left = left_terms(c, z, y, w, g2);
    let right = right_terms(w, tau_g2);
    lemma_aggregate_sides(c, z, y, w, r, g2, tau_g2, a, v, s, t);
    assert forall|i: int| 0 <= i < k implies congruent(weights[i], weights[i]) && congruent(
        left[i],
        right[i],
    ) by {
        assert(pairing_identity(c[i], z[i], y[i], w[i], g2, tau_g2));
        lemma_identity_as_terms(c[i], z[i], y[i], w[i], g2, tau_g2);
    }
    lemma_lincomb_congruent(weights, weights, left, right);
}

/// Aggregation finds a single fault: where the challenge is not zero, and so
/// has an inverse, and every opening of a batch but the one at `at` meets the
/// pairing identity, the aggregate meets the aggregated identity only if
/// that opening meets the pairing identity too.
pub proof fn lemma_aggregate_finds_one_fault(
    c: Seq<int>,
    z: Seq<int>,
    y: Seq<int>,
    w: Seq<int>,
    r: int,
    r_inverse: int,
    at: int,
    g2: int,
    tau_g2: int,
    a: int,
    v: int,
    s: int,
    t: int,
)
    requires
        c.len() == z.len(),
        c.len() == y.len(),
        c.len() == w.len(),
        0 <= at < c.len(),
        congruent(r * r_inverse, 1),
        forall|i: int|
            0 <= i < c.len() && i != at ==> pairing_identity(
                c[i],
                z[i],
                y[i],
                w[i],
                g2,
                tau_g2,
            ),
        congruent(a, lincomb(c, powers(r, c.len()))),
        congruent(v, lincomb(y, powers(r, c.len()))),
        congruent(s, lincomb(w, scaled_powers(r, z))),
        congruent(t, lincomb(w, powers(r, c.len()))),
        aggregated_identity(a, v, s, t, g2, tau_g2),
    ensures
        pairing_identity(c[at], z[at], y[at], w[at], g2, tau_g2),
{
    let k = c.len();
    let weights = powers(r, k);
    let left = left_terms(c, z, y, w, g2);
    let right = right_terms(w, tau_g2);
    let fault = left[at] - right[at];
    let negated = Seq::new(k, |i: int| (-1) * right[i]);
    let gap = Seq::new(k, |i: int| left[i] + negated[i]);
    let picked = Seq::new(k, |i: int| fault * unit(k, at)[i]);
    lemma_aggregate_sides(c, z, y, w, r, g2, tau_g2, a, v, s, t);
    // The weighted sum of the gaps between the two terms vanishes.
    lemma_lincomb_add(weights, left, negated, gap);
    lemma_lincomb_scale(weights, right, -1, negated);
    let sl = lincomb(weights, left);
    let sr = lincomb(weights, right);
    lemma_congruent_difference(sl, sr, sr, sr);
    assert(sl + (-1) * sr == sl - sr);
    // Only the gap at the one place can differ from zero.
    assert forall|i: int| 0 <= i < k implies congruent(weights[i], weights[i]) && congruent(
        gap[i],
        picked[i],
    ) by {
        if i == at {
            assert(fault * 1 == fault);
            assert(left[i] + (-1) * right[i] == fault);
        } else {
            assert(pairing_identity(c[i], z[i], y[i], w[i], g2, tau_g2));
            lemma_identity_as_terms(c[i], z[i], y[i], w[i], g2, tau_g2);
            lemma_congruent_difference(left[i], right[i], right[i], right[i]);
            assert(left[i] + (-1) * right[i] == left[i] - right[i]);
            assert(fault * 0 == 0);
        }
    }
    lemma_lincomb_congruent(weights, weights, gap, picked);
    lemma_lincomb_scale(weights, unit(k, at), fault, picked);
    lemma_lincomb_unit(weights, at);
    // So the fault times the power of the challenge vanishes, and the power
    // has an inverse.
    let p = pow(r, at as nat);
    let q = pow(r_inverse, at as nat);
    assert(congruent(fault * p, 0));
    lemma_pow_distributes(r, r_inverse, at as nat);
    lemma_pow_congruent(r * r_inverse, 1, at as nat);
    lemma1_pow(at as nat);
    lemma_congruent_product(fault, fault, p * q, 1);
    lemma_congruent_product(fault * p, 0, q, q);
    assert(fault * (p * q) == (fault * p) * q) by (nonlinear_arith);
    assert(fault * 1 == fault && 0 * q == 0);
    lemma_congruent_sum(fault, 0, right[at], right[at]);
    lemma_identity_as_terms(c[at], z[at], y[at], w[at], g2, tau_g2);
}

/// The aggregate of openings that verify one by one verifies: what
/// `aggregate` combines from commitments, points, values and witnesses that
/// each meet the pairing identity meets the aggregated identity, whatever
/// the challenge.
pub proof fn lemma_aggregate_of_valid_openings(
    aggregate: AggregatedKZG,
    public_parameters: PublicParameters,
    commitments: Seq<G1Point>,
    points: Seq<Scalar>,
    evaluations: Seq<Scalar>,
    witnesses: Seq<G1Point>,
    challenge: Scalar,
)
    requires
        commitments.len() == points.len(),
        commitments.len() == evaluations.len(),
        commitments.len() == witnesses.len(),
        aggregate.combines(
            dlogs(commitments),
            values(points),
            values(evaluations),
            dlogs(witnesses),
            challenge.value(),
        ),
        forall|i: int|
            0 <= i < commitments.len() ==> pairing_identity(
                (#[trigger] commitments[i]).dlog(),
                points[i].value(),
                evaluations[i].value(),
                witnesses[i].dlog(),
                public_parameters.g2.dlog(),
                public_parameters.tau_g2.dlog(),
            ),
    ensures
        aggregated_identity(
            aggregate.commitment.dlog(),
            aggregate.value.value(),
            aggregate.shifted_witness.dlog(),
            aggregate.witness.dlog(),
            public_parameters.g2.dlog(),
            public_parameters.tau_g2.dlog(),
        ),
{
    let c = dlogs(commitments);
    let z = values(points);
    let y = values(evaluations);
    let w = dlogs(witnesses);
    let r = challenge.value();
    lemma_reduce_congruent(lincomb(c, powers(r, c.len())));
    lemma_reduce_congruent(lincomb(y, powers(r, c.len())));
    lemma_reduce_congruent(lincomb(w, powers(r, c.len())));
    lemma_reduce_congruent(lincomb(w, scaled_powers(r, z)));
    assert forall|i: int| 0 <= i < c.len() implies pairing_identity(
        c[i],
        z[i],
        y[i],
        w[i],
        public_parameters.g2.dlog(),
        public_parameters.tau_g2.dlog(),
    ) by {
        assert(commitments[i].dlog() == c[i]);
    }
    lemma_aggregate_verifies(
        c,
        z,
        y,
        w,
        r,
        public_parameters.g2.dlog(),
        public_parameters.tau_g2.dlog(),
        aggregate.commitment.dlog(),
        aggregate.value.value(),
        aggregate.shifted_witness.dlog(),
        aggregate.witness.dlog(),
    );
}

/// A single fault in a batch makes the aggregate fail: where the challenge
/// is not zero and every opening but one meets the pairing identity, what
/// `aggregate` combines does not meet the aggregated identity.
pub proof fn lemma_aggregate_of_one_faulty_opening(
    aggregate: AggregatedKZG,
    public_parameters: PublicParameters,
    commitments: Seq<G1Point>,
    points: Seq<Scalar>,
    evaluations: Seq<Scalar>,
    witnesses: Seq<G1Point>,
    challenge: Scalar,
    challenge_inverse: Scalar,
    at: int,
)
    requires
        commitments.len() == points.len(),
        commitments.len() == evaluations.len(),
        commitments.len() == witnesses.len(),
        0 <= at < commitments.len(),
        challenge.value() % modulus() != 0,
        is_inverse_of(challenge_inverse.value(), challenge.value()),
        aggregate.combines(
            dlogs(commitments),
            values(points),
            values(evaluations),
            dlogs(witnesses),
            challenge.value(),
        ),
        forall|i: int|
            0 <= i < commitments.len() && i != at ==> pairing_identity(
                (#[trigger] commitments[i]).dlog(),
                points[i].value(),
                evaluations[i].value(),
                witnesses[i].dlog(),
                public_parameters.g2.dlog(),
                public_parameters.tau_g2.dlog(),
            ),
        !pairing_identity(
            commitments[at].dlog(),
            points[at].value(),
            evaluations[at].value(),
            witnesses[at].dlog(),
            public_parameters.g2.dlog(),
            public_parameters.tau_g2.dlog(),
        ),
    ensures
        !aggregated_identity(
            aggregate.commitment.dlog(),
            aggregate.value.value(),
            aggregate.shifted_witness.dlog(),
            aggregate.witness.dlog(),
            public_parameters.g2.dlog(),
            public_parameters.tau_g2.dlog(),
        ),
{
    let c = dlogs(commitments);
    let z = values(points);
    let y = values(evaluations);
    let w = dlogs(witnesses);
    let r = challenge.value();
    let g2 = public_parameters.g2.dlog();
    let tau_g2 = public_parameters.tau_g2.dlog();
    if aggregated_identity(
        aggregate.commitment.dlog(),
        aggregate.value.value(),
        aggregate.shifted_witness.dlog(),
        aggregate.witness.dlog(),
        g2,
        tau_g2,
    ) {
        lemma_reduce_congruent(lincomb(c, powers(r, c.len())));
        lemma_reduce_congruent(lincomb(y, powers(r, c.len())));
        lemma_reduce_congruent(lincomb(w, powers(r, c.len())));
        lemma_reduce_congruent(lincomb(w, scaled_powers(r, z)));
        lemma_small_mod(1, modulus() as nat);
        assert forall|i: int| 0 <= i < c.len() && i != at implies pairing_identity(
            c[i],
            z[i],
            y[i],
            w[i],
            g2,
            tau_g2,
        ) by {
            assert(commitments[i].dlog() == c[i]);
        }
        lemma_aggregate_finds_one_fault(
            c,
            z,
            y,
            w,
            r,
            challenge_inverse.value(),
            at,
            g2,
            tau_g2,
            aggregate.commitment.dlog(),
            aggregate.value.value(),
            aggregate.shifted_witness.dlog(),
            aggregate.witness.dlog(),
        );
    }
}

} // verus!
