use kzg_core::{
    open, verify, AggregatedKZG, Domain, Error, G1Point, G2Point, KZGWitness, Polynomial,
    PublicParameters, Scalar,
};

fn sample(len: u64, seed: u64) -> Vec<Scalar> {
    (0..len)
        .map(|i| Scalar::from_u64(i * i * seed + 13 * i + seed))
        .collect()
}

fn setup() -> (Domain, PublicParameters) {
    let domain = Domain::new(7).unwrap();
    let parameters = PublicParameters::from_secret(Scalar::from_u64(1234567), &domain).unwrap();
    (domain, parameters)
}

#[test]
fn opening_round_trip_away_from_the_roots() {
    let (domain, parameters) = setup();
    let p = Polynomial::new(sample(8, 3));
    let commitment = parameters.commit_key.commit(&p).unwrap();
    for z in [0u64, 9, 424242] {
        let z = Scalar::from_u64(z);
        let opening = open(&parameters, &p, &z, &domain).unwrap();
        assert_eq!(opening.value, p.evaluate(&z, &domain).unwrap());
        assert!(verify(
            &commitment,
            &z,
            &opening.value,
            &opening.witness,
            &parameters
        ));
    }
}

#[test]
fn opening_round_trip_at_the_roots() {
    let (domain, parameters) = setup();
    let p = Polynomial::new(sample(8, 5));
    let commitment = parameters.commit_key.commit(&p).unwrap();
    for k in 0..8 {
        let z = domain.roots()[k];
        let opening = open(&parameters, &p, &z, &domain).unwrap();
        assert_eq!(opening.value, p.evaluations[k]);
        assert!(verify(
            &commitment,
            &z,
            &opening.value,
            &opening.witness,
            &parameters
        ));
    }
}

#[test]
fn another_value_does_not_verify() {
    let (domain, parameters) = setup();
    let p = Polynomial::new(sample(8, 7));
    let commitment = parameters.commit_key.commit(&p).unwrap();
    let z = Scalar::from_u64(11);
    let opening = open(&parameters, &p, &z, &domain).unwrap();
    for wrong in [Scalar::zero(), Scalar::one(), Scalar::from_u64(99)] {
        assert!(wrong != opening.value);
        assert!(!verify(
            &commitment,
            &z,
            &wrong,
            &opening.witness,
            &parameters
        ));
    }
}

#[test]
fn another_point_witness_or_commitment_does_not_verify() {
    let (domain, parameters) = setup();
    let p = Polynomial::new(sample(8, 7));
    let other = Polynomial::new(sample(8, 8));
    let commitment = parameters.commit_key.commit(&p).unwrap();
    let z = Scalar::from_u64(11);
    let opening = open(&parameters, &p, &z, &domain).unwrap();
    assert!(!verify(
        &commitment,
        &Scalar::from_u64(12),
        &opening.value,
        &opening.witness,
        &parameters
    ));
    assert!(!verify(
        &commitment,
        &z,
        &opening.value,
        &G1Point::generator(),
        &parameters
    ));
    assert!(!verify(
        &parameters.commit_key.commit(&other).unwrap(),
        &z,
        &opening.value,
        &opening.witness,
        &parameters
    ));
}

#[test]
fn opening_of_a_constant_polynomial() {
    let (domain, parameters) = setup();
    let p = Polynomial::new(vec![Scalar::from_u64(6); 8]);
    let commitment = parameters.commit_key.commit(&p).unwrap();
    let opening = open(&parameters, &p, &Scalar::from_u64(3), &domain).unwrap();
    assert_eq!(
        opening,
        KZGWitness {
            value: Scalar::from_u64(6),
            witness: G1Point::identity()
        }
    );
    assert_eq!(commitment, {
        let six = vec![Scalar::from_u64(6)];
        kzg_core::g1_lincomb(&[G1Point::generator()], &six).unwrap()
    });
    assert!(verify(
        &commitment,
        &Scalar::from_u64(3),
        &opening.value,
        &opening.witness,
        &parameters
    ));
}

#[test]
fn open_refuses_a_polynomial_of_another_length() {
    let (domain, parameters) = setup();
    let z = Scalar::from_u64(3);
    let short = Polynomial::new(sample(4, 1));
    assert_eq!(
        open(&parameters, &short, &z, &domain).unwrap_err(),
        Error::LengthMismatch
    );
    let smaller = Domain::new(3).unwrap();
    assert_eq!(
        open(&parameters, &short, &z, &smaller).unwrap_err(),
        Error::LengthMismatch
    );
}

#[test]
fn parameters_need_a_domain_of_two_roots() {
    let one = Domain::new(0).unwrap();
    assert_eq!(
        PublicParameters::from_secret(Scalar::from_u64(5), &one).unwrap_err(),
        Error::Construction
    );
    let two = Domain::new(1).unwrap();
    let parameters = PublicParameters::from_secret(Scalar::from_u64(5), &two).unwrap();
    assert_eq!(parameters.commit_key.max_degree(), 1);
}

#[test]
fn parameters_hold_the_generator_and_its_multiple_by_the_secret() {
    let (_, parameters) = setup();
    assert_eq!(parameters.g2, G2Point::generator());
    let expected: blstrs::G2Affine = (<blstrs::G2Affine as group::prime::PrimeCurveAffine>::generator()
        * blstrs::Scalar::from(1234567u64))
    .into();
    assert_eq!(parameters.tau_g2.to_compressed(), expected.to_compressed());
    assert_eq!(
        G2Point::from_compressed(expected.to_compressed()).unwrap(),
        parameters.tau_g2
    );
    assert!(G2Point::from_compressed([0u8; 96]).is_none());
}

#[test]
fn parameters_from_their_parts() {
    let (domain, parameters) = setup();
    let p = Polynomial::new(sample(8, 3));
    let z = Scalar::from_u64(21);
    let commitment = parameters.commit_key.commit(&p).unwrap();
    let opening = open(&parameters, &p, &z, &domain).unwrap();
    let rebuilt = PublicParameters::new(parameters.commit_key, parameters.g2, parameters.tau_g2);
    assert!(verify(
        &commitment,
        &z,
        &opening.value,
        &opening.witness,
        &rebuilt
    ));
    // Parameters of another secret do not verify the opening.
    let other = PublicParameters::from_secret(Scalar::from_u64(7654321), &domain).unwrap();
    assert!(!verify(
        &commitment,
        &z,
        &opening.value,
        &opening.witness,
        &other
    ));
}

struct Batch {
    commitments: Vec<G1Point>,
    points: Vec<Scalar>,
    values: Vec<Scalar>,
    witnesses: Vec<G1Point>,
}

fn batch(domain: &Domain, parameters: &PublicParameters, points: &[Scalar]) -> Batch {
    let mut out = Batch {
        commitments: Vec::new(),
        points: points.to_vec(),
        values: Vec::new(),
        witnesses: Vec::new(),
    };
    for (i, z) in points.iter().enumerate() {
        let p = Polynomial::new(sample(8, 3 + i as u64));
        let opening = open(parameters, &p, z, domain).unwrap();
        out.commitments.push(parameters.commit_key.commit(&p).unwrap());
        out.values.push(opening.value);
        out.witnesses.push(opening.witness);
    }
    out
}

#[test]
fn aggregate_of_valid_openings_at_one_point_verifies() {
    let (domain, parameters) = setup();
    let z = Scalar::from_u64(77);
    let b = batch(&domain, &parameters, &[z; 4]);
    for challenge in [0u64, 1, 2, 987654321] {
        let challenge = Scalar::from_u64(challenge);
        let aggregate =
            AggregatedKZG::aggregate_at_point(&b.commitments, &z, &b.values, &b.witnesses, &challenge)
                .unwrap();
        assert_eq!(aggregate.challenge, challenge);
        assert!(aggregate.verify(&parameters));
        // With one point the check is that of a single opening.
        assert!(verify(
            &aggregate.commitment,
            &z,
            &aggregate.value,
            &aggregate.witness,
            &parameters
        ));
        let general =
            AggregatedKZG::aggregate(&b.commitments, &b.points, &b.values, &b.witnesses, &challenge)
                .unwrap();
        assert_eq!(general, aggregate);
    }
}

#[test]
fn aggregate_with_challenge_one_is_the_plain_sum() {
    let (domain, parameters) = setup();
    let z = Scalar::from_u64(5);
    let b = batch(&domain, &parameters, &[z; 3]);
    let one = Scalar::one();
    let aggregate =
        AggregatedKZG::aggregate_at_point(&b.commitments, &z, &b.values, &b.witnesses, &one).unwrap();
    let ones = vec![Scalar::one(); 3];
    assert_eq!(
        aggregate.commitment,
        kzg_core::g1_lincomb(&b.commitments, &ones).unwrap()
    );
    assert_eq!(
        aggregate.witness,
        kzg_core::g1_lincomb(&b.witnesses, &ones).unwrap()
    );
    assert_eq!(aggregate.value, kzg_core::polynomial::dot(&b.values, &ones));
}

#[test]
fn aggregate_with_a_corrupted_entry_does_not_verify() {
    let (domain, parameters) = setup();
    let z = Scalar::from_u64(77);
    let challenge = Scalar::from_u64(31337);
    let b = batch(&domain, &parameters, &[z; 3]);
    for i in 0..3 {
        let mut values = b.values.clone();
        values[i] = Scalar::from_u64(1 + i as u64);
        let aggregate =
            AggregatedKZG::aggregate_at_point(&b.commitments, &z, &values, &b.witnesses, &challenge)
                .unwrap();
        assert!(!aggregate.verify(&parameters));

        let mut witnesses = b.witnesses.clone();
        witnesses[i] = G1Point::generator();
        let aggregate =
            AggregatedKZG::aggregate_at_point(&b.commitments, &z, &b.values, &witnesses, &challenge)
                .unwrap();
        assert!(!aggregate.verify(&parameters));

        let mut points = b.points.clone();
        points[i] = Scalar::from_u64(78);
        let aggregate =
            AggregatedKZG::aggregate(&b.commitments, &points, &b.values, &b.witnesses, &challenge)
                .unwrap();
        assert!(!aggregate.verify(&parameters));
    }
    let aggregate = AggregatedKZG::aggregate_at_point(
        &b.commitments,
        &Scalar::from_u64(78),
        &b.values,
        &b.witnesses,
        &challenge,
    )
    .unwrap();
    assert!(!aggregate.verify(&parameters));
}

#[test]
fn aggregate_of_valid_openings_at_different_points_verifies() {
    let (domain, parameters) = setup();
    let points = vec![
        Scalar::from_u64(3),
        domain.roots()[5],
        Scalar::from_u64(1 << 40),
        Scalar::zero(),
    ];
    let b = batch(&domain, &parameters, &points);
    let challenge = Scalar::from_u64(271828);
    let aggregate =
        AggregatedKZG::aggregate(&b.commitments, &b.points, &b.values, &b.witnesses, &challenge)
            .unwrap();
    assert!(aggregate.verify(&parameters));
    let mut values = b.values.clone();
    values[2] = Scalar::from_u64(4);
    let aggregate =
        AggregatedKZG::aggregate(&b.commitments, &b.points, &values, &b.witnesses, &challenge)
            .unwrap();
    assert!(!aggregate.verify(&parameters));
}

#[test]
fn aggregate_of_one_opening_is_that_opening() {
    let (domain, parameters) = setup();
    let z = Scalar::from_u64(8);
    let b = batch(&domain, &parameters, &[z]);
    let aggregate = AggregatedKZG::aggregate(
        &b.commitments,
        &b.points,
        &b.values,
        &b.witnesses,
        &Scalar::from_u64(1000),
    )
    .unwrap();
    assert_eq!(aggregate.commitment, b.commitments[0]);
    assert_eq!(aggregate.witness, b.witnesses[0]);
    assert_eq!(aggregate.value, b.values[0]);
    assert!(aggregate.verify(&parameters));
}

#[test]
fn aggregate_refuses_an_empty_batch() {
    let r = Scalar::from_u64(2);
    assert_eq!(
        AggregatedKZG::aggregate(&[], &[], &[], &[], &r).unwrap_err(),
        Error::EmptyBatch
    );
    assert_eq!(
        AggregatedKZG::aggregate_at_point(&[], &r, &[], &[], &r).unwrap_err(),
        Error::EmptyBatch
    );
}

#[test]
fn aggregate_refuses_lists_of_different_lengths() {
    let (domain, parameters) = setup();
    let z = Scalar::from_u64(77);
    let r = Scalar::from_u64(2);
    let b = batch(&domain, &parameters, &[z; 3]);
    assert_eq!(
        AggregatedKZG::aggregate(&b.commitments[..2], &b.points, &b.values, &b.witnesses, &r)
            .unwrap_err(),
        Error::LengthMismatch
    );
    assert_eq!(
        AggregatedKZG::aggregate(&b.commitments, &b.points[..2], &b.values, &b.witnesses, &r)
            .unwrap_err(),
        Error::LengthMismatch
    );
    assert_eq!(
        AggregatedKZG::aggregate(&b.commitments, &b.points, &b.values[..2], &b.witnesses, &r)
            .unwrap_err(),
        Error::LengthMismatch
    );
    assert_eq!(
        AggregatedKZG::aggregate(&b.commitments, &b.points, &b.values, &b.witnesses[..2], &r)
            .unwrap_err(),
        Error::LengthMismatch
    );
    assert_eq!(
        AggregatedKZG::aggregate(&b.commitments, &[], &b.values, &b.witnesses, &r).unwrap_err(),
        Error::LengthMismatch
    );
    assert_eq!(
        AggregatedKZG::aggregate_at_point(&b.commitments, &z, &b.values[..1], &b.witnesses, &r)
            .unwrap_err(),
        Error::LengthMismatch
    );
    assert_eq!(
        AggregatedKZG::aggregate_at_point(&b.commitments, &z, &b.values, &[], &r).unwrap_err(),
        Error::LengthMismatch
    );
}

#[test]
fn a_zero_challenge_weighs_only_the_first_opening() {
    let (domain, parameters) = setup();
    let z = Scalar::from_u64(77);
    let b = batch(&domain, &parameters, &[z; 3]);
    let mut values = b.values.clone();
    values[1] = Scalar::from_u64(1);
    let aggregate =
        AggregatedKZG::aggregate_at_point(&b.commitments, &z, &values, &b.witnesses, &Scalar::zero())
            .unwrap();
    assert_eq!(aggregate.commitment, b.commitments[0]);
    assert_eq!(aggregate.value, b.values[0]);
    assert!(aggregate.verify(&parameters));
}

#[test]
fn opening_at_the_secret_itself_verifies() {
    let (domain, parameters) = setup();
    let p = Polynomial::new(sample(8, 9));
    let commitment = parameters.commit_key.commit(&p).unwrap();
    let z = Scalar::from_u64(1234567);
    let opening = open(&parameters, &p, &z, &domain).unwrap();
    assert!(verify(
        &commitment,
        &z,
        &opening.value,
        &opening.witness,
        &parameters
    ));
    assert!(!verify(
        &commitment,
        &z,
        &Scalar::from_u64(1),
        &opening.witness,
        &parameters
    ));
}
