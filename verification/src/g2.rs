use crate::field::{congruent, modulus};
use crate::g1::G1Point;
use crate::scalar::Scalar;
use vstd::prelude::*;

verus! {

/// The compressed encoding of the multiple `[k]H` of the generator `H` of
/// the group G2, as `blstrs` computes and encodes it.
pub uninterp spec fn g2_multiple(k: int) -> Seq<u8>;

/// A point of the group G2, held as its 96-byte compressed encoding. Like
/// G1, the group is cyclic of the prime order of the scalar field.
#[derive(Clone, Copy, Debug, PartialEq, Eq)]
pub struct G2Point {
    pub(crate) bytes: [u8; 96],
}

/// Whether the bytes encode a point of G2.
pub open spec fn g2_encoded(bytes: Seq<u8>) -> bool {
    exists|k: int| 0 <= k < modulus() && bytes == #[trigger] g2_multiple(k)
}

impl G2Point {
    /// The compressed encoding.
    pub closed spec fn encoding(self) -> Seq<u8> {
        self.bytes@
    }

    /// Every point holds the encoding of a multiple of the generator.
    #[verifier::type_invariant]
    pub open spec fn is_valid(self) -> bool {
        g2_encoded(self.encoding())
    }

    /// The integer below the group's order whose multiple of the generator
    /// the point is.
    pub open spec fn dlog(self) -> int {
        choose|k: int| 0 <= k < modulus() && self.encoding() == #[trigger] g2_multiple(k)
    }

    /// `blstrs::G2Affine::from_compressed`: whether the bytes are the
    /// compressed encoding of a point on the curve and in the subgroup G2,
    /// each of which is a multiple of the generator.
    #[verifier::external_body]
    fn encodes_point(bytes: &[u8; 96]) -> (r: bool)
        ensures
            r == (exists|k: int| 0 <= k < modulus() && bytes@ == #[trigger] g2_multiple(k)),
    {
        blstrs::G2Affine::from_compressed(bytes).is_some().into()
    }

    /// The point with the given compressed encoding, if there is one.
    pub fn from_compressed(bytes: [u8; 96]) -> (r: Option<G2Point>)
        ensures
            r.is_some() == g2_encoded(bytes@),
            r.is_some() ==> r.unwrap().encoding() == bytes@,
    {
        if G2Point::encodes_point(&bytes) {
            Some(G2Point { bytes })
        } else {
            None
        }
    }

    /// The compressed encoding.
    pub fn to_compressed(&self) -> (r: [u8; 96])
        ensures
            r@ == self.encoding(),
    {
        self.bytes
    }

    /// `group::prime::PrimeCurveAffine::generator` of `blstrs::G2Affine`:
    /// the generator, which is its own first multiple.
    #[verifier::external_body]
    fn base() -> (r: G2Point)
        ensures
            r.dlog() == 1,
    {
        let p = <blstrs::G2Affine as group::prime::PrimeCurveAffine>::generator();
        G2Point { bytes: p.to_compressed() }
    }

    /// The generator of the group.
    pub fn generator() -> (r: G2Point)
        ensures
            r.dlog() == 1,
    {
        G2Point::base()
    }

    /// Subtraction of `blstrs::G2Projective` and `blstrs::G2Affine`: the
    /// difference of two multiples of the generator is the multiple by the
    /// difference.
    #[verifier::external_body]
    pub(crate) fn sub(&self, rhs: &G2Point) -> (r: G2Point)
        ensures
            r.dlog() == (self.dlog() - rhs.dlog()) % modulus(),
    {
        let a = blstrs::G2Affine::from_compressed(&self.bytes).unwrap();
        let b = blstrs::G2Affine::from_compressed(&rhs.bytes).unwrap();
        let difference = blstrs::G2Projective::from(a) - b;
        G2Point { bytes: blstrs::G2Affine::from(difference).to_compressed() }
    }

    /// Multiplication of `blstrs::G2Affine` by `blstrs::Scalar`: the
    /// multiple of a multiple of the generator is the multiple by the
    /// product.
    #[verifier::external_body]
    pub(crate) fn mul(&self, scalar: &Scalar) -> (r: G2Point)
        ensures
            r.dlog() == (self.dlog() * scalar.value()) % modulus(),
    {
        let a = blstrs::G2Affine::from_compressed(&self.bytes).unwrap();
        let s = blstrs::Scalar::from_bytes_le(&scalar.bytes).unwrap();
        G2Point { bytes: blstrs::G2Affine::from(a * s).to_compressed() }
    }
}

/// `blstrs::pairing` on two pairs of points, and the comparison of the two
/// results: the pairing is bilinear and not degenerate, so the pairing of
/// `[a]G` and `[b]H` is the power `a * b` of the pairing of the generators,
/// an element whose order is that of the scalar field.
#[verifier::external_body]
pub(crate) fn pairings_agree(a: &G1Point, b: &G2Point, c: &G1Point, d: &G2Point) -> (r: bool)
    ensures
        r == congruent(a.dlog() * b.dlog(), c.dlog() * d.dlog()),
{
    let a = blstrs::G1Affine::from_compressed(&a.bytes).unwrap();
    let b = blstrs::G2Affine::from_compressed(&b.bytes).unwrap();
    let c = blstrs::G1Affine::from_compressed(&c.bytes).unwrap();
    let d = blstrs::G2Affine::from_compressed(&d.bytes).unwrap();
    blstrs::pairing(&a, &b) == blstrs::pairing(&c, &d)
}

} // verus!
