use crate::field::modulus;
use vstd::arithmetic::power::pow;
use vstd::prelude::*;

verus! {

/// The integer that a little-endian byte string encodes.
pub open spec fn le_value(bytes: Seq<u8>) -> int
    decreases bytes.len(),
{
    if bytes.len() == 0 {
        0
    } else {
        bytes[0] as int + 256 * le_value(bytes.skip(1))
    }
}

/// The root of unity of order `2^32` that the domains are built from: the
/// power `(r - 1) / 2^32` of `7`, for the field's order `r`.
pub open spec fn largest_root_of_unity() -> int {
    10238227357739495823651030575849232062558860180284477541189508159991286009131int
}

/// A byte string encodes no negative integer.
pub proof fn lemma_le_value_nonnegative(bytes: Seq<u8>)
    ensures
        0 <= le_value(bytes),
    decreases bytes.len(),
{
    if bytes.len() > 0 {
        lemma_le_value_nonnegative(bytes.skip(1));
    }
}

/// Byte strings of one length that encode the same integer are equal.
pub proof fn lemma_le_value_injective(a: Seq<u8>, b: Seq<u8>)
    requires
        a.len() == b.len(),
        le_value(a) == le_value(b),
    ensures
        a == b,
    decreases a.len(),
{
    if a.len() > 0 {
        lemma_le_value_injective(a.skip(1), b.skip(1));
        assert(a =~= seq![a[0]] + a.skip(1));
        assert(b =~= seq![b[0]] + b.skip(1));
    } else {
        assert(a =~= b);
    }
}

/// An element of the BLS12-381 scalar field, held as its canonical 32-byte
/// little-endian encoding.
#[derive(Clone, Copy, Debug, PartialEq, Eq)]
pub struct Scalar {
    pub(crate) bytes: [u8; 32],
}

impl Scalar {
    /// The field element as an integer below the field's order.
    pub closed spec fn value(self) -> int {
        le_value(self.bytes@)
    }

    /// The canonical little-endian encoding.
    pub closed spec fn encoding(self) -> Seq<u8> {
        self.bytes@
    }

    /// Every scalar holds a canonical encoding.
    #[verifier::type_invariant]
    pub open spec fn is_canonical(self) -> bool {
        0 <= self.value() < modulus()
    }

    /// Scalars that stand for the same integer are the same scalar.
    pub proof fn lemma_value_injective(a: Scalar, b: Scalar)
        requires
            a.value() == b.value(),
        ensures
            a == b,
    {
        lemma_le_value_injective(a.bytes@, b.bytes@);
        assert(a.bytes == b.bytes);
    }

    /// `blstrs::Scalar::from(u64)`: the field element of a small integer.
    #[verifier::external_body]
    fn small(x: u64) -> (r: Scalar)
        ensures
            r.value() == x,
    {
        Scalar { bytes: blstrs::Scalar::from(x).to_bytes_le() }
    }

    /// The field element of a 64-bit integer.
    pub fn from_u64(x: u64) -> (r: Scalar)
        ensures
            r.value() == x,
    {
        Scalar::small(x)
    }

    /// The additive identity.
    pub fn zero() -> (r: Scalar)
        ensures
            r.value() == 0,
    {
        Scalar::small(0)
    }

    /// The multiplicative identity.
    pub fn one() -> (r: Scalar)
        ensures
            r.value() == 1,
    {
        Scalar::small(1)
    }

    /// `blstrs::Scalar::from_bytes_le`: whether the bytes are the canonical
    /// little-endian encoding of a field element, that is, of an integer
    /// below the field's order.
    #[verifier::external_body]
    fn encodes_element(bytes: &[u8; 32]) -> (r: bool)
        ensures
            r == (le_value(bytes@) < modulus()),
    {
        blstrs::Scalar::from_bytes_le(bytes).is_some().into()
    }

    /// The scalar with the given little-endian encoding, if the encoding is
    /// canonical.
    pub fn from_bytes_le(bytes: [u8; 32]) -> (r: Option<Scalar>)
        ensures
            r.is_some() == (le_value(bytes@) < modulus()),
            r.is_some() ==> r.unwrap().value() == le_value(bytes@),
    {
        if Scalar::encodes_element(&bytes) {
            proof {
                lemma_le_value_nonnegative(bytes@);
            }
            Some(Scalar { bytes })
        } else {
            None
        }
    }

    /// The canonical little-endian encoding.
    pub fn to_bytes_le(&self) -> (r: [u8; 32])
        ensures
            r@ == self.encoding(),
            le_value(r@) == self.value(),
    {
        self.bytes
    }

    /// Whether two scalars are the same field element.
    pub fn equals(&self, other: &Scalar) -> (r: bool)
        ensures
            r == (self.value() == other.value()),
            r == (*self == *other),
    {
        let mut i: usize = 0;
        while i < 32
            invariant
                i <= 32,
                forall|j: int| 0 <= j < i ==> self.bytes@[j] == other.bytes@[j],
            decreases 32 - i,
        {
            if self.bytes[i] != other.bytes[i] {
                proof {
                    if self.value() == other.value() {
                        Scalar::lemma_value_injective(*self, *other);
                    }
                }
                return false;
            }
            i += 1;
        }
        proof {
            assert(self.bytes@ =~= other.bytes@);
            assert(self.bytes == other.bytes);
        }
        true
    }

    /// Addition of `blstrs::Scalar`: the sum in the field.
    #[verifier::external_body]
    pub(crate) fn add(&self, rhs: &Scalar) -> (r: Scalar)
        ensures
            r.value() == (self.value() + rhs.value()) % modulus(),
    {
        let a = blstrs::Scalar::from_bytes_le(&self.bytes).unwrap();
        let b = blstrs::Scalar::from_bytes_le(&rhs.bytes).unwrap();
        Scalar { bytes: (a + b).to_bytes_le() }
    }

    /// Subtraction of `blstrs::Scalar`: the difference in the field.
    #[verifier::external_body]
    pub(crate) fn sub(&self, rhs: &Scalar) -> (r: Scalar)
        ensures
            r.value() == (self.value() - rhs.value()) % modulus(),
    {
        let a = blstrs::Scalar::from_bytes_le(&self.bytes).unwrap();
        let b = blstrs::Scalar::from_bytes_le(&rhs.bytes).unwrap();
        Scalar { bytes: (a - b).to_bytes_le() }
    }

    /// `ff::Field::pow_vartime` of `blstrs::Scalar` with a one-limb exponent:
    /// the power in the field.
    #[verifier::external_body]
    pub(crate) fn pow(&self, exponent: u64) -> (r: Scalar)
        ensures
            r.value() == pow(self.value(), exponent as nat) % modulus(),
    {
        let a = blstrs::Scalar::from_bytes_le(&self.bytes).unwrap();
        Scalar { bytes: ff::Field::pow_vartime(&a, [exponent]).to_bytes_le() }
    }

    /// `ff::PrimeField::root_of_unity` of `blstrs::Scalar`: the element that
    /// the field's implementation fixes as its root of unity of order `2^32`,
    /// the power `(r - 1) / 2^32` of its multiplicative generator `7`, where
    /// `r` is the field's order.
    #[verifier::external_body]
    pub(crate) fn root_of_unity() -> (r: Scalar)
        ensures
            r.value() == largest_root_of_unity(),
    {
        Scalar { bytes: <blstrs::Scalar as ff::PrimeField>::root_of_unity().to_bytes_le() }
    }

    /// `ff::Field::is_zero_vartime` of `blstrs::Scalar`: whether the element
    /// is the additive identity.
    #[verifier::external_body]
    pub(crate) fn is_zero(&self) -> (r: bool)
        ensures
            r == (self.value() == 0),
    {
        ff::Field::is_zero_vartime(&blstrs::Scalar::from_bytes_le(&self.bytes).unwrap())
    }

    /// Multiplication of `blstrs::Scalar`: the product in the field. The
    /// field has no zero divisors, so a product of nonzero elements is
    /// nonzero.
    #[verifier::external_body]
    pub(crate) fn mul(&self, rhs: &Scalar) -> (r: Scalar)
        ensures
            r.value() == (self.value() * rhs.value()) % modulus(),
            self.value() != 0 && rhs.value() != 0 ==> r.value() != 0,
    {
        let a = blstrs::Scalar::from_bytes_le(&self.bytes).unwrap();
        let b = blstrs::Scalar::from_bytes_le(&rhs.bytes).unwrap();
        Scalar { bytes: (a * b).to_bytes_le() }
    }

    /// `ff::Field::invert` of `blstrs::Scalar`: zero has no inverse; every
    /// other element has one, and its product with the element is one.
    #[verifier::external_body]
    pub(crate) fn invert(&self) -> (r: Option<Scalar>)
        ensures
            self.value() == 0 ==> r.is_none(),
            self.value() != 0 ==> r.is_some() && (self.value() * r.unwrap().value()) % modulus()
                == 1,
    {
        let a = blstrs::Scalar::from_bytes_le(&self.bytes).unwrap();
        let inverted: Option<blstrs::Scalar> = ff::Field::invert(&a).into();
        match inverted {
            Some(x) => Some(Scalar { bytes: x.to_bytes_le() }),
            None => None,
        }
    }
}

/// The integers that a sequence of scalars stands for.
pub open spec fn values(s: Seq<Scalar>) -> Seq<int> {
    Seq::new(s.len(), |i: int| s[i].value())
}

} // verus!
