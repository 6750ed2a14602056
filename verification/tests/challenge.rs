use kzg_core::{
    challenge_from_hash, derive_challenge, open, transcript_bytes, AggregatedKZG, Domain, Error,
    G1Point, Polynomial, PublicParameters, Scalar,
};

fn sample(len: u64, seed: u64) -> Vec<Scalar> {
    (0..len)
        .map(|i| Scalar::from_u64(i * i * seed + 13 * i + seed))
        .collect()
}

struct Batch {
    commitments: Vec<G1Point>,
    points: Vec<Scalar>,
    values: Vec<Scalar>,
    witnesses: Vec<G1Point>,
}

fn batch(domain: &Domain, parameters: &PublicParameters, points: &[Scalar]) -> Batch {
    let mut out = Batch {
        commitments: Vec::new(),
        points: points.to_vec(),
        values: Vec::new(),
        witnesses: Vec::new(),
    };
    for (i, z) in points.iter().enumerate() {
        let p = Polynomial::new(sample(8, 3 + i as u64));
        let opening = open(parameters, &p, z, domain).unwrap();
        out.commitments.push(parameters.commit_key.commit(&p).unwrap());
        out.values.push(opening.value);
        out.witnesses.push(opening.witness);
    }
    out
}

fn setup() -> (Domain, PublicParameters) {
    let domain = Domain::new(7).unwrap();
    let parameters = PublicParameters::from_secret(Scalar::from_u64(1234567), &domain).unwrap();
    (domain, parameters)
}

#[test]
fn challenge_is_the_hash_of_the_transcript() {
    let commitments = vec![G1Point::generator(), G1Point::identity()];
    let points = vec![Scalar::from_u64(3), Scalar::from_u64(4)];
    let values = vec![Scalar::from_u64(5), Scalar::from_u64(6)];
    let mut message: Vec<u8> = Vec::new();
    for c in &commitments {
        message.extend_from_slice(&c.to_compressed());
    }
    for z in &points {
        message.extend_from_slice(&z.to_bytes_le());
    }
    for y in &values {
        message.extend_from_slice(&y.to_bytes_le());
    }
    assert_eq!(message.len(), 2 * (48 + 32 + 32));
    let hashed: blstrs::G1Affine =
        blstrs::G1Projective::hash_to_curve(&message, b"KZG-AGGREGATION-CHALLENGE", &[]).into();
    let encoding = hashed.to_compressed();
    let mut bytes = [0u8; 32];
    bytes.copy_from_slice(&encoding[16..48]);
    bytes[31] %= 64;
    let expected = Scalar::from_bytes_le(bytes).unwrap();
    assert_eq!(derive_challenge(&commitments, &points, &values), expected);
    assert!(expected != Scalar::zero());
}

#[test]
fn challenge_is_deterministic_and_depends_on_every_part() {
    let commitments = vec![G1Point::generator(), G1Point::identity()];
    let points = vec![Scalar::from_u64(3), Scalar::from_u64(4)];
    let values = vec![Scalar::from_u64(5), Scalar::from_u64(6)];
    let challenge = derive_challenge(&commitments, &points, &values);
    assert_eq!(challenge, derive_challenge(&commitments, &points, &values));
    let other = vec![G1Point::identity(), G1Point::generator()];
    assert!(challenge != derive_challenge(&other, &points, &values));
    let other = vec![Scalar::from_u64(3), Scalar::from_u64(5)];
    assert!(challenge != derive_challenge(&commitments, &other, &values));
    assert!(challenge != derive_challenge(&commitments, &points, &other));
    assert!(challenge != derive_challenge(&commitments, &values, &points));
    assert!(challenge != derive_challenge(&[], &[], &[]));
}

#[test]
fn aggregate_with_derived_challenge_verifies() {
    let (domain, parameters) = setup();
    let points = vec![
        Scalar::from_u64(3),
        Scalar::from_u64(3),
        domain.roots()[2],
    ];
    let b = batch(&domain, &parameters, &points);
    let aggregate = AggregatedKZG::aggregate_with_derived_challenge(
        &b.commitments,
        &b.points,
        &b.values,
        &b.witnesses,
    )
    .unwrap();
    assert_eq!(
        aggregate.challenge,
        derive_challenge(&b.commitments, &b.points, &b.values)
    );
    assert_eq!(
        aggregate,
        AggregatedKZG::aggregate(
            &b.commitments,
            &b.points,
            &b.values,
            &b.witnesses,
            &aggregate.challenge
        )
        .unwrap()
    );
    assert!(aggregate.verify(&parameters));
}

#[test]
fn aggregate_with_derived_challenge_finds_a_corrupted_entry() {
    let (domain, parameters) = setup();
    let b = batch(&domain, &parameters, &[Scalar::from_u64(9); 4]);
    for i in 0..4 {
        let mut values = b.values.clone();
        values[i] = Scalar::from_u64(i as u64);
        let aggregate = AggregatedKZG::aggregate_with_derived_challenge(
            &b.commitments,
            &b.points,
            &values,
            &b.witnesses,
        )
        .unwrap();
        assert!(!aggregate.verify(&parameters));
        let mut witnesses = b.witnesses.clone();
        witnesses[i] = G1Point::identity();
        let aggregate = AggregatedKZG::aggregate_with_derived_challenge(
            &b.commitments,
            &b.points,
            &b.values,
            &witnesses,
        )
        .unwrap();
        assert!(!aggregate.verify(&parameters));
    }
}

#[test]
fn aggregate_with_derived_challenge_refuses_malformed_batches() {
    let (domain, parameters) = setup();
    let b = batch(&domain, &parameters, &[Scalar::from_u64(9); 2]);
    assert_eq!(
        AggregatedKZG::aggregate_with_derived_challenge(&[], &[], &[], &[]).unwrap_err(),
        Error::EmptyBatch
    );
    assert_eq!(
        AggregatedKZG::aggregate_with_derived_challenge(
            &b.commitments,
            &b.points[..1],
            &b.values,
            &b.witnesses
        )
        .unwrap_err(),
        Error::LengthMismatch
    );
    assert_eq!(
        AggregatedKZG::aggregate_with_derived_challenge(
            &b.commitments,
            &b.points,
            &b.values,
            &[]
        )
        .unwrap_err(),
        Error::LengthMismatch
    );
}

#[test]
fn transcript_holds_the_encodings_in_order() {
    let commitments = vec![G1Point::identity(), G1Point::generator()];
    let points = vec![Scalar::from_u64(1), Scalar::from_u64(2)];
    let values = vec![Scalar::from_u64(0x0403), Scalar::zero()];
    let bytes = transcript_bytes(&commitments, &points, &values);
    assert_eq!(bytes.len(), 224);
    assert_eq!(bytes[..48], G1Point::identity().to_compressed());
    assert_eq!(bytes[0], 0xc0);
    assert_eq!(bytes[48..96], G1Point::generator().to_compressed());
    assert_eq!(bytes[96], 1);
    assert_eq!(bytes[128], 2);
    assert_eq!(bytes[160], 3);
    assert_eq!(bytes[161], 4);
    assert!(bytes[97..128].iter().all(|b| *b == 0));
    assert!(bytes[162..].iter().all(|b| *b == 0));
    assert!(transcript_bytes(&[], &[], &[]).is_empty());
}

#[test]
fn challenge_from_a_hashed_point() {
    // The encoding of the neutral element is 0xc0 followed by zeros.
    assert_eq!(challenge_from_hash(&G1Point::identity()), Scalar::zero());
    let encoding = G1Point::generator().to_compressed();
    let mut bytes = [0u8; 32];
    bytes.copy_from_slice(&encoding[16..48]);
    assert_eq!(bytes[31], 0xbb);
    bytes[31] = 0x3b;
    assert_eq!(
        challenge_from_hash(&G1Point::generator()).to_bytes_le(),
        bytes
    );
}
