use crate::error::Error;
use crate::field::modulus;
use crate::scalar::{values, Scalar};
use crate::sums::lincomb;
use vstd::prelude::*;

verus! {

/// The compressed encoding of the multiple `[k]G` of the generator `G` of
/// the group G1, as `blstrs` computes and encodes it.
pub uninterp spec fn g1_multiple(k: int) -> Seq<u8>;

/// A point of the group G1, held as its 48-byte compressed encoding. The
/// group is cyclic of prime order, so every point is a multiple of the
/// generator by exactly one integer below the order.
#[derive(Clone, Copy, Debug, PartialEq, Eq)]
pub struct G1Point {
    pub(crate) bytes: [u8; 48],
}

/// Whether the bytes encode a point of G1.
pub open spec fn g1_encoded(bytes: Seq<u8>) -> bool {
    exists|k: int| 0 <= k < modulus() && bytes == #[trigger] g1_multiple(k)
}

impl G1Point {
    /// The compressed encoding.
    pub closed spec fn encoding(self) -> Seq<u8> {
        self.bytes@
    }

    /// Every point holds the encoding of a multiple of the generator.
    #[verifier::type_invariant]
    pub open spec fn is_valid(self) -> bool {
        g1_encoded(self.encoding())
    }

    /// The integer below the group's order whose multiple of the generator
    /// the point is.
    pub open spec fn dlog(self) -> int {
        choose|k: int| 0 <= k < modulus() && self.encoding() == #[trigger] g1_multiple(k)
    }

    /// A point is the multiple of the generator by its integer, which lies
    /// below the group's order.
    pub proof fn lemma_dlog_range(self)
        requires
            self.is_valid(),
        ensures
            0 <= self.dlog() < modulus(),
            self.encoding() == g1_multiple(self.dlog()),
    {
    }

    /// Points that are the same multiple of the generator are equal.
    pub proof fn lemma_dlog_injective(a: G1Point, b: G1Point)
        requires
            a.is_valid(),
            b.is_valid(),
            a.dlog() == b.dlog(),
        ensures
            a == b,
    {
        a.lemma_dlog_range();
        b.lemma_dlog_range();
        assert(a.bytes@ =~= b.bytes@);
        assert(a.bytes == b.bytes);
    }

    /// `blstrs::G1Affine::from_compressed`: whether the bytes are the
    /// compressed encoding of a point on the curve and in the subgroup G1,
    /// each of which is a multiple of the generator.
    #[verifier::external_body]
    fn encodes_point(bytes: &[u8; 48]) -> (r: bool)
        ensures
            r == (exists|k: int| 0 <= k < modulus() && bytes@ == #[trigger] g1_multiple(k)),
    {
        blstrs::G1Affine::from_compressed(bytes).is_some().into()
    }

    /// The point with the given compressed encoding, if there is one.
    pub fn from_compressed(bytes: [u8; 48]) -> (r: Option<G1Point>)
        ensures
            r.is_some() == g1_encoded(bytes@),
            r.is_some() ==> r.unwrap().encoding() == bytes@,
    {
        if G1Point::encodes_point(&bytes) {
            Some(G1Point { bytes })
        } else {
            None
        }
    }

    /// The compressed encoding.
    pub fn to_compressed(&self) -> (r: [u8; 48])
        ensures
            r@ == self.encoding(),
    {
        self.bytes
    }

    /// `group::prime::PrimeCurveAffine::identity` of `blstrs::G1Affine`: the
    /// neutral element, the zero multiple of the generator.
    #[verifier::external_body]
    fn neutral() -> (r: G1Point)
        ensures
            r.dlog() == 0,
    {
        let p = <blstrs::G1Affine as group::prime::PrimeCurveAffine>::identity();
        G1Point { bytes: p.to_compressed() }
    }

    /// `group::prime::PrimeCurveAffine::generator` of `blstrs::G1Affine`:
    /// the generator, which is its own first multiple.
    #[verifier::external_body]
    fn base() -> (r: G1Point)
        ensures
            r.dlog() == 1,
    {
        let p = <blstrs::G1Affine as group::prime::PrimeCurveAffine>::generator();
        G1Point { bytes: p.to_compressed() }
    }

    /// The neutral element of the group.
    pub fn identity() -> (r: G1Point)
        ensures
            r.dlog() == 0,
    {
        G1Point::neutral()
    }

    /// The generator of the group.
    pub fn generator() -> (r: G1Point)
        ensures
            r.dlog() == 1,
    {
        G1Point::base()
    }

    /// Addition of `blstrs::G1Projective` and `blstrs::G1Affine`: the sum of
    /// two multiples of the generator is the multiple by the sum.
    #[verifier::external_body]
    pub(crate) fn add(&self, rhs: &G1Point) -> (r: G1Point)
        ensures
            r.dlog() == (self.dlog() + rhs.dlog()) % modulus(),
    {
        let a = blstrs::G1Affine::from_compressed(&self.bytes).unwrap();
        let b = blstrs::G1Affine::from_compressed(&rhs.bytes).unwrap();
        let sum = blstrs::G1Projective::from(a) + b;
        G1Point { bytes: blstrs::G1Affine::from(sum).to_compressed() }
    }

    /// Subtraction of `blstrs::G1Projective` and `blstrs::G1Affine`: the
    /// difference of two multiples of the generator is the multiple by the
    /// difference.
    #[verifier::external_body]
    pub(crate) fn sub(&self, rhs: &G1Point) -> (r: G1Point)
        ensures
            r.dlog() == (self.dlog() - rhs.dlog()) % modulus(),
    {
        let a = blstrs::G1Affine::from_compressed(&self.bytes).unwrap();
        let b = blstrs::G1Affine::from_compressed(&rhs.bytes).unwrap();
        let difference = blstrs::G1Projective::from(a) - b;
        G1Point { bytes: blstrs::G1Affine::from(difference).to_compressed() }
    }

    /// Multiplication of `blstrs::G1Affine` by `blstrs::Scalar`: the
    /// multiple of a multiple of the generator is the multiple by the
    /// product.
    #[verifier::external_body]
    pub(crate) fn mul(&self, scalar: &Scalar) -> (r: G1Point)
        ensures
            r.dlog() == (self.dlog() * scalar.value()) % modulus(),
    {
        let a = blstrs::G1Affine::from_compressed(&self.bytes).unwrap();
        let s = blstrs::Scalar::from_bytes_le(&scalar.bytes).unwrap();
        G1Point { bytes: blstrs::G1Affine::from(a * s).to_compressed() }
    }

    /// `blstrs::G1Projective::multi_exp`: the sum of the points, each
    /// multiplied by its scalar. The outside function reads the first point
    /// without looking at the length, so it is given at least one.
    #[verifier::external_body]
    fn multi_exp(points: &[G1Point], scalars: &[Scalar]) -> (r: G1Point)
        requires
            points.len() == scalars.len(),
            points.len() > 0,
        ensures
            r.dlog() == lincomb(dlogs(points@), values(scalars@)) % modulus(),
    {
        let ps: Vec<blstrs::G1Projective> = points.iter().map(
            |p| blstrs::G1Affine::from_compressed(&p.bytes).unwrap().into(),
        ).collect();
        let ss: Vec<blstrs::Scalar> = scalars.iter().map(
            |s| blstrs::Scalar::from_bytes_le(&s.bytes).unwrap(),
        ).collect();
        let sum = blstrs::G1Projective::multi_exp(&ps, &ss);
        G1Point { bytes: blstrs::G1Affine::from(sum).to_compressed() }
    }
}

/// The integers whose multiples of the generator the points are.
pub open spec fn dlogs(points: Seq<G1Point>) -> Seq<int> {
    Seq::new(points.len(), |i: int| points[i].dlog())
}

/// The multi-scalar multiplication `sum of scalars[i] * points[i]`. Inputs
/// of different lengths are refused, whatever they hold.
pub fn g1_lincomb(points: &[G1Point], scalars: &[Scalar]) -> (r: Result<G1Point, Error>)
    ensures
        r.is_ok() == (points.len() == scalars.len()),
        r.is_err() ==> r.unwrap_err() == Error::LengthMismatch,
        r.is_ok() ==> r.unwrap().dlog() == lincomb(dlogs(points@), values(scalars@)) % modulus(),
{
    if points.len() != scalars.len() {
        return Err(Error::LengthMismatch);
    }
    if points.len() == 0 {
        return Ok(G1Point::identity());
    }
    Ok(G1Point::multi_exp(points, scalars))
}

} // verus!
