use crate::commit_key::{CommitKey, CommitKeyLagrange};
use crate::dft::{eval, lemma_eval_congruent};
use crate::domain::Domain;
use crate::error::Error;
use crate::field::{congruent, lemma_congruent_product, lemma_reduce_congruent, modulus};
use crate::g1::{dlogs, G1Point};
use crate::g2::G2Point;
use crate::scalar::Scalar;
use crate::sums::powers;
use vstd::arithmetic::div_mod::{lemma_mul_mod_noop_left, lemma_small_mod};
use vstd::arithmetic::power::{lemma_pow0, lemma_pow1, lemma_pow_adds, pow};
use vstd::prelude::*;

verus! {

/// The public parameters of the scheme: the commit key in Lagrange form and
/// the two points of G2 that verification needs. They are fixed once built
/// and hold nothing from which the secret could be read.
#[derive(Debug)]
pub struct PublicParameters {
    /// The key that commits to polynomials in Lagrange form.
    pub commit_key: CommitKeyLagrange,
    /// The generator of G2.
    pub g2: G2Point,
    /// The multiple of the generator of G2 by the secret.
    pub tau_g2: G2Point,
}

impl PublicParameters {
    /// The parameters are those of the secret `tau` over `domain`: the key
    /// holds the multiples of the generator of G1 by the values at `tau` of
    /// the domain's Lagrange polynomials.
    pub open spec fn is_for(self, domain: Domain, tau: int) -> bool {
        &&& self.commit_key@.len() == domain.size()
        &&& forall|i: int|
            0 <= i < domain.size() ==> (#[trigger] self.commit_key@[i]).dlog() == domain.lagrange(
                i,
                tau,
            )
        &&& self.g2.dlog() == 1
        &&& self.tau_g2.dlog() == tau % modulus()
    }

    /// The parameters made of a key and two points that a trusted setup
    /// supplied.
    pub fn new(commit_key: CommitKeyLagrange, g2: G2Point, tau_g2: G2Point) -> (r:
        PublicParameters)
        ensures
            r.commit_key@ == commit_key@,
            r.g2 == g2,
            r.tau_g2 == tau_g2,
    {
        PublicParameters { commit_key, g2, tau_g2 }
    }

    /// The points `[tau^j]G` for `j` below `count`.
    fn monomial_points(secret: &Scalar, count: usize) -> (points: Vec<G1Point>)
        ensures
            points@.len() == count,
            forall|j: int|
                0 <= j < count ==> (#[trigger] points@[j]).dlog() == pow(secret.value(), j as nat)
                    % modulus(),
    {
        let mut points: Vec<G1Point> = Vec::new();
        let mut current = G1Point::generator();
        let mut j: usize = 0;
        proof {
            lemma_pow0(secret.value());
            lemma_small_mod(1, modulus() as nat);
        }
        while j < count
            invariant
                j <= count,
                points.len() == j,
                current.dlog() == pow(secret.value(), j as nat) % modulus(),
                forall|k: int|
                    0 <= k < j ==> (#[trigger] points@[k]).dlog() == pow(secret.value(), k as nat)
                        % modulus(),
            decreases count - j,
        {
            points.push(current);
            proof {
                lemma_mul_mod_noop_left(
                    pow(secret.value(), j as nat),
                    secret.value(),
                    modulus(),
                );
                lemma_pow_adds(secret.value(), j as nat, 1);
                lemma_pow1(secret.value());
            }
            current = current.mul(secret);
            j += 1;
        }
        points
    }

    /// Parameters for testing, from a secret that the caller has sampled and
    /// forgets after the call: the monomial key of the secret's powers is
    /// brought into Lagrange form over `domain`. A domain of a single root
    /// is refused, since its key would have a single point.
    pub fn from_secret(secret: Scalar, domain: &Domain) -> (r: Result<PublicParameters, Error>)
        ensures
            r.is_ok() == (domain.size() > 1),
            r.is_err() ==> r.unwrap_err() == Error::Construction,
            r.is_ok() ==> r.unwrap().is_for(*domain, secret.value()),
    {
        proof {
            use_type_invariant(domain);
        }
        let n = domain.roots().len();
        let points = PublicParameters::monomial_points(&secret, n);
        let ghost monomial = dlogs(points@);
        proof {
            domain.lemma_size_bounds();
        }
        let key = match CommitKey::new(points) {
            Ok(key) => key,
            Err(e) => {
                return Err(e);
            },
        };
        let commit_key = match key.into_lagrange(domain) {
            Ok(commit_key) => commit_key,
            Err(e) => {
                return Err(e);
            },
        };
        let g2 = G2Point::generator();
        let tau_g2 = g2.mul(&secret);
        proof {
            let tau = secret.value();
            let c = domain.size_inv();
            assert forall|i: int| 0 <= i < n implies (#[trigger] commit_key@[i]).dlog()
                == domain.lagrange(i, tau) by {
                let x = pow(domain.omega_inv(), i as nat);
                assert forall|j: int| 0 <= j < n implies congruent(
                    monomial[j],
                    powers(tau, n as nat)[j],
                ) by {
                    lemma_reduce_congruent(pow(tau, j as nat));
                }
                lemma_eval_congruent(monomial, powers(tau, n as nat), x, x);
                lemma_congruent_product(c, c, eval(monomial, x), eval(powers(tau, n as nat), x));
                assert(dlogs(commit_key@)[i] == commit_key@[i].dlog());
            }
            assert(1 * tau == tau);
        }
        Ok(PublicParameters { commit_key, g2, tau_g2 })
    }
}

} // verus!
