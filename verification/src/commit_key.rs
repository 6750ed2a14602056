use crate::dft::{eval, lemma_eval_zero_padded};
use crate::domain::Domain;
use crate::error::Error;
use crate::field::modulus;
use crate::g1::{dlogs, g1_lincomb, G1Point};
use crate::polynomial::Polynomial;
use crate::scalar::{values, Scalar};
use crate::sums::lincomb;
use vstd::arithmetic::power::pow;
use vstd::prelude::*;

verus! {

/// The key for polynomials in monomial form: the points `[tau^i]G` for the
/// powers of a secret `tau`. It serves only to derive the key in Lagrange
/// form.
#[derive(Debug)]
pub struct CommitKey {
    inner: Vec<G1Point>,
}

/// The key that commits to polynomials in Lagrange form: the points
/// `[L_i(tau)]G` for the Lagrange polynomials `L_i` of a domain.
#[derive(Debug)]
pub struct CommitKeyLagrange {
    inner: Vec<G1Point>,
}

impl View for CommitKey {
    type V = Seq<G1Point>;

    /// The points of the key.
    closed spec fn view(&self) -> Seq<G1Point> {
        self.inner@
    }
}

impl View for CommitKeyLagrange {
    type V = Seq<G1Point>;

    /// The points of the key.
    closed spec fn view(&self) -> Seq<G1Point> {
        self.inner@
    }
}

impl CommitKey {
    /// A monomial key holds at least one point.
    #[verifier::type_invariant]
    pub open spec fn is_nonempty(self) -> bool {
        self@.len() > 0
    }

    /// The key with the given points; a key without points is refused.
    pub fn new(points: Vec<G1Point>) -> (r: Result<CommitKey, Error>)
        ensures
            r.is_ok() == (points.len() > 0),
            r.is_err() ==> r.unwrap_err() == Error::Construction,
            r.is_ok() ==> r.unwrap()@ == points@,
    {
        if points.len() == 0 {
            return Err(Error::Construction);
        }
        Ok(CommitKey { inner: points })
    }

    /// The key in Lagrange form over `domain`: the inverse transform of the
    /// monomial key. A key with more points than the domain has roots is
    /// refused, and so is a domain with a single root, over which the
    /// Lagrange key would have a single point.
    pub fn into_lagrange(self, domain: &Domain) -> (r: Result<CommitKeyLagrange, Error>)
        ensures
            r.is_ok() == (self@.len() <= domain.size() && domain.size() > 1),
            r.is_err() ==> r.unwrap_err() == if self@.len() > domain.size() {
                Error::LengthMismatch
            } else {
                Error::Construction
            },
            r.is_ok() ==> domain.is_inverse_transform(dlogs(self@), dlogs(r.unwrap()@)),
    {
        proof {
            use_type_invariant(domain);
        }
        match domain.ifft_g1(self.inner) {
            Ok(points) => CommitKeyLagrange::new(points),
            Err(e) => Err(e),
        }
    }
}

impl CommitKeyLagrange {
    /// A Lagrange key holds at least two points.
    #[verifier::type_invariant]
    pub open spec fn has_two_points(self) -> bool {
        self@.len() > 1
    }

    /// The key with the given points; a key with fewer than two points is
    /// refused.
    pub fn new(points: Vec<G1Point>) -> (r: Result<CommitKeyLagrange, Error>)
        ensures
            r.is_ok() == (points.len() > 1),
            r.is_err() ==> r.unwrap_err() == Error::Construction,
            r.is_ok() ==> r.unwrap()@ == points@,
    {
        if points.len() <= 1 {
            return Err(Error::Construction);
        }
        Ok(CommitKeyLagrange { inner: points })
    }

    /// The points of the key.
    pub fn points(&self) -> (r: &Vec<G1Point>)
        ensures
            r@ == self@,
    {
        &self.inner
    }

    /// Commits to a polynomial in Lagrange form: the sum of the key's points,
    /// each multiplied by the polynomial's value at its root. A polynomial
    /// with another number of values than the key has points is refused.
    pub fn commit(&self, polynomial: &Polynomial) -> (r: Result<G1Point, Error>)
        ensures
            r.is_ok() == (self@.len() == polynomial.evaluations@.len()),
            r.is_err() ==> r.unwrap_err() == Error::LengthMismatch,
            r.is_ok() ==> r.unwrap().dlog() == lincomb(
                dlogs(self@),
                values(polynomial.evaluations@),
            ) % modulus(),
    {
        g1_lincomb(self.inner.as_slice(), polynomial.evaluations.as_slice())
    }

    /// The largest degree of a polynomial that the key can commit to: in
    /// Lagrange form, the number of points minus one.
    pub fn max_degree(&self) -> (r: usize)
        ensures
            r == self@.len() - 1,
    {
        proof {
            use_type_invariant(self);
        }
        self.inner.len() - 1
    }
}

/// Zero entries at the end of both sequences add nothing to the sum of
/// products.
proof fn lemma_lincomb_zero_padded(a: Seq<int>, b: Seq<int>, count: nat)
    requires
        a.len() == b.len(),
    ensures
        lincomb(a + Seq::new(count, |i: int| 0int), b + Seq::new(count, |i: int| 0int))
            == lincomb(a, b),
    decreases count,
{
    let zeros = Seq::new(count, |i: int| 0int);
    if count == 0 {
        assert(a + zeros =~= a);
        assert(b + zeros =~= b);
    } else {
        let fewer = Seq::new((count - 1) as nat, |i: int| 0int);
        assert((a + zeros).drop_last() =~= a + fewer);
        assert((b + zeros).drop_last() =~= b + fewer);
        lemma_lincomb_zero_padded(a, b, (count - 1) as nat);
        assert(0int * 0int == 0int);
    }
}

/// Basis equivalence: committing to the coefficients of a polynomial with a
/// monomial key gives the same point as committing to its values at the
/// roots with the Lagrange key derived from that monomial key.
pub proof fn lemma_commit_in_either_basis(
    domain: Domain,
    monomial: Seq<G1Point>,
    coefficients: Seq<Scalar>,
    lagrange: Seq<G1Point>,
    evaluations: Seq<Scalar>,
    in_monomial: G1Point,
    in_lagrange: G1Point,
)
    requires
        domain.wf(),
        monomial.len() == coefficients.len(),
        monomial.len() <= domain.size(),
        domain.is_inverse_transform(dlogs(monomial), dlogs(lagrange)),
        domain.is_transform(values(coefficients), values(evaluations)),
        in_monomial.is_valid(),
        in_lagrange.is_valid(),
        in_monomial.dlog() == lincomb(dlogs(monomial), values(coefficients)) % modulus(),
        in_lagrange.dlog() == lincomb(dlogs(lagrange), values(evaluations)) % modulus(),
    ensures
        in_monomial == in_lagrange,
{
    let n = domain.size();
    let k = dlogs(monomial);
    let c = values(coefficients);
    let count = (n - k.len()) as nat;
    let zeros = Seq::new(count, |i: int| 0int);
    let kp = k + zeros;
    let cp = c + zeros;
    assert forall|i: int| 0 <= i < n implies #[trigger] dlogs(lagrange)[i] == (
    domain.size_inv() * eval(kp, pow(domain.omega_inv(), i as nat))) % modulus() by {
        lemma_eval_zero_padded(k, kp, pow(domain.omega_inv(), i as nat));
    }
    assert forall|i: int| 0 <= i < n implies #[trigger] values(evaluations)[i] == eval(
        cp,
        pow(domain.omega(), i as nat),
    ) % modulus() by {
        lemma_eval_zero_padded(c, cp, pow(domain.omega(), i as nat));
    }
    domain.lemma_parseval(kp, cp, dlogs(lagrange), values(evaluations));
    lemma_lincomb_zero_padded(k, c, count);
    G1Point::lemma_dlog_injective(in_monomial, in_lagrange);
}

} // verus!
