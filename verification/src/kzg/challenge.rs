use crate::error::Error;
use crate::field::modulus;
use crate::g1::{dlogs, G1Point};
use crate::kzg::aggregated_proof::AggregatedKZG;
use crate::scalar::{le_value, values, Scalar};
use vstd::prelude::*;

verus! {

/// The compressed encoding of the point of G1 that `blstrs` hashes a message
/// to under a domain separation tag, with no augmentation.
pub uninterp spec fn hashed_point(message: Seq<u8>, tag: Seq<u8>) -> Seq<u8>;

/// `blstrs::G1Projective::hash_to_curve` with an empty augmentation: the
/// point of G1 that the message hashes to under the tag.
#[verifier::external_body]
fn hash_to_point(message: &[u8], tag: &[u8]) -> (r: G1Point)
    ensures
        r.encoding() == hashed_point(message@, tag@),
{
    let point = blstrs::G1Projective::hash_to_curve(message, tag, &[]);
    G1Point { bytes: blstrs::G1Affine::from(point).to_compressed() }
}

/// The domain separation tag of the challenge, the bytes of
/// `KZG-AGGREGATION-CHALLENGE`.
pub open spec fn challenge_tag() -> Seq<u8> {
    seq![75u8, 90u8, 71u8, 45u8, 65u8, 71u8, 71u8, 82u8, 69u8, 71u8, 65u8, 84u8, 73u8, 79u8, 78u8, 45u8, 67u8, 72u8, 65u8, 76u8, 76u8, 69u8, 78u8, 71u8, 69u8]
}

/// The encodings of the points, one after the other.
pub open spec fn point_bytes(points: Seq<G1Point>) -> Seq<u8>
    decreases points.len(),
{
    if points.len() == 0 {
        Seq::empty()
    } else {
        point_bytes(points.drop_last()) + points.last().encoding()
    }
}

/// The encodings of the scalars, one after the other.
pub open spec fn scalar_bytes(scalars: Seq<Scalar>) -> Seq<u8>
    decreases scalars.len(),
{
    if scalars.len() == 0 {
        Seq::empty()
    } else {
        scalar_bytes(scalars.drop_last()) + scalars.last().encoding()
    }
}

/// What the challenge is derived from: all the commitments, then all the
/// points, then all the values, in their encodings.
pub open spec fn transcript(
    commitments: Seq<G1Point>,
    points: Seq<Scalar>,
    evaluations: Seq<Scalar>,
) -> Seq<u8> {
    point_bytes(commitments) + scalar_bytes(points) + scalar_bytes(evaluations)
}

/// The encoding of the challenge that a hashed point gives: the last 32
/// bytes of the point's encoding, the last of them cut down to its six low
/// bits, which keeps the integer below the field's order.
pub open spec fn challenge_bytes(encoding: Seq<u8>) -> Seq<u8> {
    encoding.subrange(16, 47).push(encoding[47] % 64)
}

/// The challenge derived from openings: the scalar that the hash of their
/// transcript under the challenge's tag gives.
pub open spec fn challenge_of(
    commitments: Seq<G1Point>,
    points: Seq<Scalar>,
    evaluations: Seq<Scalar>,
) -> int {
    le_value(
        challenge_bytes(hashed_point(transcript(commitments, points, evaluations), challenge_tag())),
    )
}

/// The power `256^n`.
pub open spec fn radix_power(n: nat) -> int
    decreases n,
{
    if n == 0 {
        1
    } else {
        256 * radix_power((n - 1) as nat)
    }
}

/// A byte string encodes an integer below the weight of its last byte times
/// that byte's successor.
proof fn lemma_le_value_bound(s: Seq<u8>)
    requires
        s.len() >= 1,
    ensures
        le_value(s) < radix_power((s.len() - 1) as nat) * (s.last() + 1),
    decreases s.len(),
{
    if s.len() == 1 {
        assert(s.skip(1).len() == 0);
        assert(le_value(s.skip(1)) == 0);
        assert(1 * (s.last() + 1) == s.last() + 1);
    } else {
        let rest = s.skip(1);
        let weight = radix_power((rest.len() - 1) as nat);
        let bound = weight * (s.last() + 1);
        lemma_le_value_bound(rest);
        assert(rest.last() == s.last());
        assert((256 * weight) * (s.last() + 1) == 256 * bound) by (nonlinear_arith)
            requires
                bound == weight * (s.last() + 1),
        ;
    }
}

/// Thirty-two bytes whose last is below 64 encode an integer below the
/// field's order.
proof fn lemma_short_of_the_order(s: Seq<u8>)
    requires
        s.len() == 32,
        s[31] < 64,
    ensures
        le_value(s) < modulus(),
{
    lemma_le_value_bound(s);
    assert(radix_power(0) == 1int);
    assert(radix_power(1) == 256int);
    assert(radix_power(2) == 65536int);
    assert(radix_power(3) == 16777216int);
    assert(radix_power(4) == 4294967296int);
    assert(radix_power(5) == 1099511627776int);
    assert(radix_power(6) == 281474976710656int);
    assert(radix_power(7) == 72057594037927936int);
    assert(radix_power(8) == 18446744073709551616int);
    assert(radix_power(9) == 4722366482869645213696int);
    assert(radix_power(10) == 1208925819614629174706176int);
    assert(radix_power(11) == 309485009821345068724781056int);
    assert(radix_power(12) == 79228162514264337593543950336int);
    assert(radix_power(13) == 20282409603651670423947251286016int);
    assert(radix_power(14) == 5192296858534827628530496329220096int);
    assert(radix_power(15) == 1329227995784915872903807060280344576int);
    assert(radix_power(16) == 340282366920938463463374607431768211456int);
    assert(radix_power(17) == 87112285931760246646623899502532662132736int);
    assert(radix_power(18) == 22300745198530623141535718272648361505980416int);
    assert(radix_power(19) == 5708990770823839524233143877797980545530986496int);
    assert(radix_power(20) == 1461501637330902918203684832716283019655932542976int);
    assert(radix_power(21) == 374144419156711147060143317175368453031918731001856int);
    assert(radix_power(22) == 95780971304118053647396689196894323976171195136475136int);
    assert(radix_power(23) == 24519928653854221733733552434404946937899825954937634816int);
    assert(radix_power(24) == 6277101735386680763835789423207666416102355444464034512896int);
    assert(radix_power(25) == 1606938044258990275541962092341162602522202993782792835301376int);
    assert(radix_power(26) == 411376139330301510538742295639337626245683966408394965837152256int);
    assert(radix_power(27) == 105312291668557186697918027683670432318895095400549111254310977536int);
    assert(radix_power(28) == 26959946667150639794667015087019630673637144422540572481103610249216int);
    assert(radix_power(29) == 6901746346790563787434755862277025452451108972170386555162524223799296int);
    assert(radix_power(30) == 1766847064778384329583297500742918515827483896875618958121606201292619776int);
    assert(radix_power(31) == 452312848583266388373324160190187140051835877600158453279131187530910662656int);
    assert(radix_power(31) * (s.last() + 1) <= radix_power(31) * 64) by (nonlinear_arith)
        requires
            s.last() + 1 <= 64,
            radix_power(31) > 0,
    ;
}

/// The bytes of the domain separation tag.
fn tag_bytes() -> (r: Vec<u8>)
    ensures
        r@ == challenge_tag(),
{
    let r = vec![75u8, 90u8, 71u8, 45u8, 65u8, 71u8, 71u8, 82u8, 69u8, 71u8, 65u8, 84u8, 73u8, 79u8, 78u8, 45u8, 67u8, 72u8, 65u8, 76u8, 76u8, 69u8, 78u8, 71u8, 69u8];
    proof {
        assert(r@ =~= challenge_tag());
    }
    r
}

/// Appends the encodings of the points to `out`.
fn push_points(out: &mut Vec<u8>, points: &[G1Point])
    ensures
        final(out)@ == old(out)@ + point_bytes(points@),
{
    let ghost start = out@;
    let mut i: usize = 0;
    proof {
        assert(points@.take(0).len() == 0);
        assert(out@ =~= start + point_bytes(points@.take(0)));
    }
    while i < points.len()
        invariant
            i <= points.len(),
            out@ == start + point_bytes(points@.take(i as int)),
        decreases points.len() - i,
    {
        let bytes = points[i].to_compressed();
        let ghost before = out@;
        let mut j: usize = 0;
        while j < 48
            invariant
                j <= 48,
                bytes@.len() == 48,
                out@ == before + bytes@.take(j as int),
            decreases 48 - j,
        {
            out.push(bytes[j]);
            proof {
                assert(bytes@.take(j + 1) =~= bytes@.take(j as int).push(bytes@[j as int]));
                assert(out@ =~= before + bytes@.take(j + 1));
            }
            j += 1;
        }
        proof {
            assert(bytes@.take(48) =~= bytes@);
            assert(points@.take(i + 1).drop_last() =~= points@.take(i as int));
            assert(out@ =~= start + point_bytes(points@.take(i + 1)));
        }
        i += 1;
    }
    proof {
        assert(points@.take(points@.len() as int) =~= points@);
    }
}

/// Appends the encodings of the scalars to `out`.
fn push_scalars(out: &mut Vec<u8>, scalars: &[Scalar])
    ensures
        final(out)@ == old(out)@ + scalar_bytes(scalars@),
{
    let ghost start = out@;
    let mut i: usize = 0;
    proof {
        assert(scalars@.take(0).len() == 0);
        assert(out@ =~= start + scalar_bytes(scalars@.take(0)));
    }
    while i < scalars.len()
        invariant
            i <= scalars.len(),
            out@ == start + scalar_bytes(scalars@.take(i as int)),
        decreases scalars.len() - i,
    {
        let bytes = scalars[i].to_bytes_le();
        let ghost before = out@;
        let mut j: usize = 0;
        while j < 32
            invariant
                j <= 32,
                bytes@.len() == 32,
                out@ == before + bytes@.take(j as int),
            decreases 32 - j,
        {
            out.push(bytes[j]);
            proof {
                assert(bytes@.take(j + 1) =~= bytes@.take(j as int).push(bytes@[j as int]));
                assert(out@ =~= before + bytes@.take(j + 1));
            }
            j += 1;
        }
        proof {
            assert(bytes@.take(32) =~= bytes@);
            assert(scalars@.take(i + 1).drop_last() =~= scalars@.take(i as int));
            assert(out@ =~= start + scalar_bytes(scalars@.take(i + 1)));
        }
        i += 1;
    }
    proof {
        assert(scalars@.take(scalars@.len() as int) =~= scalars@);
    }
}

/// The bytes that the challenge of a batch of openings is derived from: the
/// encodings of all the commitments, then of all the points, then of all
/// the values.
pub fn transcript_bytes(commitments: &[G1Point], points: &[Scalar], evaluations: &[Scalar]) -> (r:
    Vec<u8>)
    ensures
        r@ == transcript(commitments@, points@, evaluations@),
{
    let mut message: Vec<u8> = Vec::new();
    push_points(&mut message, commitments);
    push_scalars(&mut message, points);
    push_scalars(&mut message, evaluations);
    proof {
        assert(message@ =~= transcript(commitments@, points@, evaluations@));
    }
    message
}

/// Cuts the encoding of a hashed point down to a scalar: the last 32 bytes
/// of the encoding, read as a little-endian integer, without the two high
/// bits of the last byte, which keeps the integer below the field's order.
pub fn challenge_from_hash(hashed: &G1Point) -> (r: Scalar)
    ensures
        r.value() == le_value(challenge_bytes(hashed.encoding())),
{
    let encoding = hashed.to_compressed();
    let mut bytes = [0u8; 32];
    let mut i: usize = 0;
    while i < 31
        invariant
            i <= 31,
            encoding@.len() == 48,
            bytes@.len() == 32,
            forall|j: int| 0 <= j < i ==> bytes@[j] == encoding@[16 + j],
        decreases 31 - i,
    {
        bytes[i] = encoding[16 + i];
        i += 1;
    }
    bytes[31] = encoding[47] % 64;
    proof {
        assert(bytes@ =~= challenge_bytes(encoding@));
        lemma_short_of_the_order(bytes@);
    }
    match Scalar::from_bytes_le(bytes) {
        Some(challenge) => challenge,
        None => Scalar::zero(),
    }
}

/// Derives the challenge of a batch of openings from the openings
/// themselves, in the manner of Fiat and Shamir: the commitments, points and
/// values are hashed to a point of G1 under the challenge's own tag, and the
/// point's encoding is cut down to a scalar. The same openings give the same
/// challenge.
pub fn derive_challenge(commitments: &[G1Point], points: &[Scalar], evaluations: &[Scalar]) -> (r:
    Scalar)
    ensures
        r.value() == challenge_of(commitments@, points@, evaluations@),
{
    let message = transcript_bytes(commitments, points, evaluations);
    let tag = tag_bytes();
    let hashed = hash_to_point(message.as_slice(), tag.as_slice());
    challenge_from_hash(&hashed)
}

impl AggregatedKZG {
    /// Combines openings at any points with the challenge derived from the
    /// openings themselves. The four lists must have one length, and that
    /// length must not be zero.
    pub fn aggregate_with_derived_challenge(
        commitments: &[G1Point],
        points: &[Scalar],
        evaluations: &[Scalar],
        witnesses: &[G1Point],
    ) -> (r: Result<AggregatedKZG, Error>)
        ensures
            r.is_ok() == (commitments.len() == points.len() && commitments.len()
                == evaluations.len() && commitments.len() == witnesses.len() && commitments.len()
                > 0),
            r.is_err() ==> r.unwrap_err() == if commitments.len() == points.len()
                && commitments.len() == evaluations.len() && commitments.len() == witnesses.len() {
                Error::EmptyBatch
            } else {
                Error::LengthMismatch
            },
            r.is_ok() ==> r.unwrap().combines(
                dlogs(commitments@),
                values(points@),
                values(evaluations@),
                dlogs(witnesses@),
                challenge_of(commitments@, points@, evaluations@),
            ),
    {
        let count = commitments.len();
        if points.len() != count || evaluations.len() != count || witnesses.len() != count {
            return Err(Error::LengthMismatch);
        }
        if count == 0 {
            return Err(Error::EmptyBatch);
        }
        let challenge = derive_challenge(commitments, points, evaluations);
        AggregatedKZG::aggregate(commitments, points, evaluations, witnesses, &challenge)
    }
}

} // verus!
