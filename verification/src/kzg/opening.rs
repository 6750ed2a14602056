use crate::domain::Domain;
use crate::error::Error;
use crate::field::{
    congruent, lemma_canonical_unique, lemma_congruent_difference, lemma_congruent_product,
    lemma_reduce_congruent, modulus,
};
use crate::g1::{dlogs, G1Point};
use crate::g2::pairings_agree;
use crate::kzg::srs::PublicParameters;
use crate::polynomial::{is_quotient, lemma_quotient_exact_at, Polynomial};
use crate::scalar::{values, Scalar};
use crate::sums::lincomb;
use vstd::prelude::*;

verus! {

/// An opening of a commitment at a point: the value of the committed
/// polynomial there and the commitment to the quotient that witnesses it.
#[derive(Clone, Copy, Debug, PartialEq, Eq)]
pub struct KZGWitness {
    /// The value of the polynomial at the point.
    pub value: Scalar,
    /// The commitment to the quotient polynomial.
    pub witness: G1Point,
}

/// `opening` opens, under the key with the given points, the polynomial with
/// the values `p` over `domain` at `z`: its value is the polynomial's at
/// `z`, and its witness commits to the quotient of the polynomial minus that
/// value by `X - z`.
pub open spec fn is_opening(
    domain: Domain,
    key: Seq<int>,
    p: Seq<int>,
    z: int,
    opening: KZGWitness,
) -> bool {
    &&& opening.value.value() == domain.value_at(p, z)
    &&& exists|q: Seq<int>|
        #![trigger is_quotient(domain, p, z, opening.value.value(), q)]
        is_quotient(domain, p, z, opening.value.value(), q) && opening.witness.dlog() == lincomb(
            key,
            q,
        ) % modulus()
}

/// The pairing identity that verification tests, on the integers that the
/// points are the multiples of: `(c - y) * g2 = w * (tau_g2 - z * g2)`.
pub open spec fn pairing_identity(c: int, z: int, y: int, w: int, g2: int, tau_g2: int) -> bool {
    congruent((c - y) * g2, w * (tau_g2 - g2 * z))
}

/// Opens the polynomial at `z`: evaluates it there, divides it minus that
/// value by `X - z`, and commits to the quotient with the parameters' key.
/// A polynomial with another number of values than the domain has roots or
/// the key has points is refused.
pub fn open(
    public_parameters: &PublicParameters,
    polynomial: &Polynomial,
    z: &Scalar,
    domain: &Domain,
) -> (r: Result<KZGWitness, Error>)
    ensures
        r.is_ok() == (polynomial.evaluations@.len() == domain.size()
            && polynomial.evaluations@.len() == public_parameters.commit_key@.len()),
        r.is_err() ==> r.unwrap_err() == Error::LengthMismatch,
        r.is_ok() ==> is_opening(
            *domain,
            dlogs(public_parameters.commit_key@),
            values(polynomial.evaluations@),
            z.value(),
            r.unwrap(),
        ),
{
    proof {
        use_type_invariant(domain);
    }
    let divided = polynomial.divide_by_linear(z, domain);
    let (value, quotient) = match divided {
        Ok(pair) => pair,
        Err(e) => {
            return Err(e);
        },
    };
    let witness = match public_parameters.commit_key.commit(&quotient) {
        Ok(witness) => witness,
        Err(e) => {
            return Err(e);
        },
    };
    proof {
        let q = values(quotient.evaluations@);
        assert(divided.unwrap().0 == value);
        assert(divided.unwrap().1 == quotient);
        assert(q.len() == values(polynomial.evaluations@).len());
        assert(is_quotient(*domain, values(polynomial.evaluations@), z.value(), value.value(), q));
        assert(witness.dlog() == lincomb(dlogs(public_parameters.commit_key@), q) % modulus());
        assert(value.value() == domain.value_at(values(polynomial.evaluations@), z.value()));
    }
    let opening = KZGWitness { value, witness };
    proof {
        let q = values(quotient.evaluations@);
        assert(is_quotient(
            *domain,
            values(polynomial.evaluations@),
            z.value(),
            opening.value.value(),
            q,
        ) && opening.witness.dlog() == lincomb(dlogs(public_parameters.commit_key@), q)
            % modulus());
        assert(is_opening(
            *domain,
            dlogs(public_parameters.commit_key@),
            values(polynomial.evaluations@),
            z.value(),
            opening,
        ));
    }
    Ok(opening)
}

/// Verifies that the polynomial committed to has the value `y` at `z`, by
/// the pairing check `e(C - [y]G, H) = e(W, [tau]H - [z]H)`. Any failure of
/// the identity is a rejection.
pub fn verify(
    commitment: &G1Point,
    z: &Scalar,
    y: &Scalar,
    witness: &G1Point,
    public_parameters: &PublicParameters,
) -> (r: bool)
    ensures
        r == pairing_identity(
            commitment.dlog(),
            z.value(),
            y.value(),
            witness.dlog(),
            public_parameters.g2.dlog(),
            public_parameters.tau_g2.dlog(),
        ),
{
    let value_point = G1Point::generator().mul(y);
    let left = commitment.sub(&value_point);
    let point = public_parameters.g2.mul(z);
    let right = public_parameters.tau_g2.sub(&point);
    proof {
        let c = commitment.dlog();
        let g2 = public_parameters.g2.dlog();
        let t = public_parameters.tau_g2.dlog();
        assert(1 * y.value() == y.value());
        lemma_reduce_congruent(y.value());
        lemma_congruent_difference(c, c, value_point.dlog(), y.value());
        lemma_reduce_congruent(c - value_point.dlog());
        lemma_congruent_product(left.dlog(), c - y.value(), g2, g2);
        lemma_reduce_congruent(g2 * z.value());
        lemma_congruent_difference(t, t, point.dlog(), g2 * z.value());
        lemma_reduce_congruent(t - point.dlog());
        lemma_congruent_product(witness.dlog(), witness.dlog(), right.dlog(), t - g2 * z.value());
    }
    pairings_agree(&left, &public_parameters.g2, witness, &right)
}

/// Opening round trip: the opening that `open` gives of a polynomial at `z`
/// verifies against the commitment that `commit` gives of it, under
/// parameters made for any secret; and with that witness no other value
/// verifies.
pub proof fn lemma_open_then_verify(
    domain: Domain,
    public_parameters: PublicParameters,
    tau: int,
    polynomial: Polynomial,
    z: Scalar,
    commitment: G1Point,
    opening: KZGWitness,
)
    requires
        domain.wf(),
        public_parameters.is_for(domain, tau),
        polynomial.evaluations@.len() == domain.size(),
        commitment.dlog() == lincomb(
            dlogs(public_parameters.commit_key@),
            values(polynomial.evaluations@),
        ) % modulus(),
        is_opening(
            domain,
            dlogs(public_parameters.commit_key@),
            values(polynomial.evaluations@),
            z.value(),
            opening,
        ),
    ensures
        pairing_identity(
            commitment.dlog(),
            z.value(),
            opening.value.value(),
            opening.witness.dlog(),
            public_parameters.g2.dlog(),
            public_parameters.tau_g2.dlog(),
        ),
        forall|y: Scalar|
            y.is_canonical() && opening.value.is_canonical() && y != opening.value
                ==> !pairing_identity(
                commitment.dlog(),
                z.value(),
                #[trigger] y.value(),
                opening.witness.dlog(),
                public_parameters.g2.dlog(),
                public_parameters.tau_g2.dlog(),
            ),
{
    let key = dlogs(public_parameters.commit_key@);
    let p = values(polynomial.evaluations@);
    let c = commitment.dlog();
    let w = opening.witness.dlog();
    let v = opening.value.value();
    let t = public_parameters.tau_g2.dlog();
    let q = choose|q: Seq<int>|
        #![trigger is_quotient(domain, p, z.value(), v, q)]
        is_quotient(domain, p, z.value(), v, q) && w == lincomb(key, q) % modulus();
    lemma_reduce_congruent(lincomb(key, p));
    lemma_reduce_congruent(lincomb(key, q));
    lemma_quotient_exact_at(domain, key, tau, p, z.value(), v, q, c, w);
    lemma_reduce_congruent(tau);
    lemma_congruent_difference(t, tau, z.value(), z.value());
    lemma_congruent_product(w, w, t - z.value(), tau - z.value());
    assert((c - v) * 1 == c - v);
    assert(1 * z.value() == z.value());
    assert forall|y: Scalar|
        y.is_canonical() && opening.value.is_canonical() && y != opening.value
            && pairing_identity(
            c,
            z.value(),
            #[trigger] y.value(),
            w,
            public_parameters.g2.dlog(),
            t,
        ) implies false by {
        assert((c - y.value()) * 1 == c - y.value());
        lemma_congruent_difference(c, c, c - y.value(), c - v);
        lemma_canonical_unique(y.value(), v);
        Scalar::lemma_value_injective(y, opening.value);
    }
}

} // verus!
