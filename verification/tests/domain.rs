use ff::{Field, PrimeField};
use kzg_core::{Domain, Error, Scalar};

fn outside(x: &Scalar) -> blstrs::Scalar {
    blstrs::Scalar::from_bytes_le(&x.to_bytes_le()).unwrap()
}

fn inside(x: &blstrs::Scalar) -> Scalar {
    Scalar::from_bytes_le(x.to_bytes_le()).unwrap()
}

fn horner(coeffs: &[blstrs::Scalar], x: &blstrs::Scalar) -> blstrs::Scalar {
    let mut result = blstrs::Scalar::zero();
    for coeff in coeffs.iter().rev() {
        result = result * x + coeff;
    }
    result
}

#[test]
fn domain_size_is_the_smallest_power_of_two_above_the_degree() {
    for (degree, size, log) in [
        (0usize, 1usize, 0u32),
        (1, 2, 1),
        (2, 4, 2),
        (3, 4, 2),
        (4, 8, 3),
        (7, 8, 3),
        (8, 16, 4),
        (15, 16, 4),
        (16, 32, 5),
        (1000, 1024, 10),
    ] {
        let domain = Domain::new(degree).unwrap();
        assert_eq!(domain.roots().len(), size);
        assert_eq!(domain.log_size(), log);
        assert_eq!(domain.domain_size(), Scalar::from_u64(size as u64));
    }
}

#[test]
fn domain_is_deterministic() {
    let first = Domain::new(16).unwrap();
    let second = Domain::new(16).unwrap();
    assert_eq!(first.roots(), second.roots());
    assert_eq!(first.generator(), second.generator());
    assert_eq!(first.generator_inv(), second.generator_inv());
    assert_eq!(first.domain_size_inv(), second.domain_size_inv());
    let bytes: Vec<[u8; 32]> = first.roots().iter().map(|r| r.to_bytes_le()).collect();
    let again: Vec<[u8; 32]> = second.roots().iter().map(|r| r.to_bytes_le()).collect();
    assert_eq!(bytes, again);
}

#[test]
fn roots_are_the_powers_of_a_primitive_root() {
    let domain = Domain::new(15).unwrap();
    let generator = outside(&domain.generator());
    assert_eq!(domain.roots()[0], Scalar::one());
    assert_eq!(domain.roots()[1], domain.generator());
    for (i, root) in domain.roots().iter().enumerate() {
        assert_eq!(outside(root), generator.pow_vartime(&[i as u64]));
    }
    assert_eq!(generator.pow_vartime(&[16u64]), blstrs::Scalar::one());
    assert_eq!(generator.pow_vartime(&[8u64]), -blstrs::Scalar::one());
    assert_eq!(
        generator * outside(&domain.generator_inv()),
        blstrs::Scalar::one()
    );
    assert_eq!(
        blstrs::Scalar::from(16u64) * outside(&domain.domain_size_inv()),
        blstrs::Scalar::one()
    );
}

#[test]
fn generator_is_the_matching_power_of_the_root_of_unity() {
    let domain = Domain::new(3).unwrap();
    let expected = blstrs::Scalar::root_of_unity().pow_vartime(&[1u64 << 30]);
    assert_eq!(outside(&domain.generator()), expected);
    // The fourth roots of unity are 1, i, -1, -i.
    assert_eq!(outside(&domain.roots()[2]), -blstrs::Scalar::one());
    assert_eq!(
        outside(&domain.roots()[1]) + outside(&domain.roots()[3]),
        blstrs::Scalar::zero()
    );
    let largest = Domain::new(1).unwrap();
    assert_eq!(outside(&largest.generator()), -blstrs::Scalar::one());
}

#[test]
fn domain_of_two_roots() {
    let domain = Domain::new(1).unwrap();
    assert_eq!(domain.roots().len(), 2);
    assert_eq!(domain.roots()[0], Scalar::one());
    assert_eq!(outside(&domain.roots()[1]), -blstrs::Scalar::one());
    // f(x) = 3 + 5x: f(1) = 8, f(-1) = -2
    let evaluations = domain
        .fft(&[Scalar::from_u64(3), Scalar::from_u64(5)])
        .unwrap();
    assert_eq!(evaluations[0], Scalar::from_u64(8));
    assert_eq!(outside(&evaluations[1]), -blstrs::Scalar::from(2u64));
}

#[test]
fn a_degree_without_a_subgroup_is_refused() {
    assert_eq!(
        Domain::new(1usize << 32).unwrap_err(),
        Error::Construction
    );
    assert_eq!(Domain::new(usize::MAX).unwrap_err(), Error::Construction);
}

#[test]
fn fft_gives_the_values_at_the_roots() {
    let domain = Domain::new(7).unwrap();
    let coeffs: Vec<blstrs::Scalar> = (0..8u64).map(|i| blstrs::Scalar::from(i * i + 1)).collect();
    let input: Vec<Scalar> = coeffs.iter().map(inside).collect();
    let evaluations = domain.fft(&input).unwrap();
    assert_eq!(evaluations.len(), 8);
    for (root, value) in domain.roots().iter().zip(evaluations.iter()) {
        assert_eq!(outside(value), horner(&coeffs, &outside(root)));
    }
}

#[test]
fn fft_pads_a_short_polynomial_with_zeros() {
    let domain = Domain::new(7).unwrap();
    let coeffs: Vec<blstrs::Scalar> = (0..3u64).map(|i| blstrs::Scalar::from(i + 4)).collect();
    let input: Vec<Scalar> = coeffs.iter().map(inside).collect();
    let evaluations = domain.fft(&input).unwrap();
    assert_eq!(evaluations.len(), 8);
    for (root, value) in domain.roots().iter().zip(evaluations.iter()) {
        assert_eq!(outside(value), horner(&coeffs, &outside(root)));
    }
    let constant = domain.fft(&[Scalar::from_u64(9)]).unwrap();
    assert_eq!(constant, vec![Scalar::from_u64(9); 8]);
    let nothing = domain.fft(&[]).unwrap();
    assert_eq!(nothing, vec![Scalar::zero(); 8]);
}

#[test]
fn ifft_undoes_fft() {
    let domain = Domain::new(15).unwrap();
    let coeffs: Vec<Scalar> = (0..16u64).map(|i| Scalar::from_u64(7 * i + 2)).collect();
    let evaluations = domain.fft(&coeffs).unwrap();
    assert_ne!(evaluations, coeffs);
    assert_eq!(domain.ifft(&evaluations).unwrap(), coeffs);
    let back = domain.fft(&domain.ifft(&coeffs).unwrap()).unwrap();
    assert_eq!(back, coeffs);
}

#[test]
fn ifft_of_a_constant_polynomial() {
    let domain = Domain::new(3).unwrap();
    let coeffs = domain.ifft(&vec![Scalar::from_u64(6); 4]).unwrap();
    assert_eq!(
        coeffs,
        vec![
            Scalar::from_u64(6),
            Scalar::zero(),
            Scalar::zero(),
            Scalar::zero()
        ]
    );
}

#[test]
fn transforms_refuse_more_entries_than_roots() {
    let domain = Domain::new(3).unwrap();
    let five = vec![Scalar::one(); 5];
    assert_eq!(domain.fft(&five).unwrap_err(), Error::LengthMismatch);
    assert_eq!(domain.ifft(&five).unwrap_err(), Error::LengthMismatch);
    let points = vec![kzg_core::G1Point::generator(); 5];
    assert_eq!(domain.ifft_g1(points).unwrap_err(), Error::LengthMismatch);
}

#[test]
fn domain_of_one_root() {
    let domain = Domain::new(0).unwrap();
    assert_eq!(*domain.roots(), vec![Scalar::one()]);
    assert_eq!(domain.generator(), Scalar::one());
    assert_eq!(
        domain.fft(&[Scalar::from_u64(5)]).unwrap(),
        vec![Scalar::from_u64(5)]
    );
    assert_eq!(
        domain.ifft(&[Scalar::from_u64(5)]).unwrap(),
        vec![Scalar::from_u64(5)]
    );
}
