use permutation_generator::{factorial64, PermutationGenerator16, PermutationGeneratorError};

const NB_ELEMS: u8 = 9;

fn test_slice_16(ref_slice: &[u8], some_perm: Option<Vec<u8>>) {
    assert_eq!(ref_slice, some_perm.unwrap().as_slice());
}

#[test]
fn permutation_generator_16_zero() {
    let mut pg = PermutationGenerator16::new(0).unwrap();
    assert_eq!(Some(Vec::new()), pg.next_permutation());
    assert!(pg.next_permutation().is_none());
}

#[test]
fn permutation_generator_16_next_permutation() {
    let mut pg = PermutationGenerator16::new(NB_ELEMS).unwrap();
    test_slice_16(&[0, 1, 2, 3, 4, 5, 6, 7, 8], pg.next_permutation());
    test_slice_16(&[0, 1, 2, 3, 4, 5, 6, 8, 7], pg.next_permutation());
}

#[test]
fn permutation_generator_16_nth_absolute() {
    test_slice_16(
        &[0, 1, 2, 3, 4, 5, 6, 7, 8],
        PermutationGenerator16::nth_absolute(NB_ELEMS, 0).unwrap(),
    );
    test_slice_16(
        &[8, 7, 6, 5, 4, 3, 2, 1, 0],
        PermutationGenerator16::nth_absolute(NB_ELEMS, factorial64(NB_ELEMS) - 1).unwrap(),
    );
    test_slice_16(
        &[1, 0, 2, 3, 4, 5, 6, 7, 8],
        PermutationGenerator16::nth_absolute(NB_ELEMS, factorial64(NB_ELEMS - 1)).unwrap(),
    );
}

#[test]
fn permutation_generator_16_nth() {
    let mut pg = PermutationGenerator16::new(NB_ELEMS).unwrap();
    test_slice_16(
        &[8, 7, 6, 5, 4, 3, 2, 1, 0],
        pg.nth(factorial64(NB_ELEMS) - 1),
    );
    assert!(pg.next_permutation().is_none());

    let mut pg = PermutationGenerator16::new(NB_ELEMS).unwrap();
    test_slice_16(&[0, 1, 2, 3, 4, 5, 6, 7, 8], pg.nth(0));
    test_slice_16(
        &[1, 0, 2, 3, 4, 5, 6, 7, 8],
        pg.nth(factorial64(NB_ELEMS - 1) - 1),
    );
}

#[test]
fn permutation_generator_16_iter() {
    let pg = PermutationGenerator16::new(NB_ELEMS).unwrap();
    assert_eq!(factorial64(NB_ELEMS) as usize, pg.nb_remaining());
}

#[test]
fn tier_16_accepts_its_maximum_and_refuses_the_next() {
    assert!(PermutationGenerator16::new(16).is_ok());
    assert_eq!(
        PermutationGeneratorError::TooManyElements,
        PermutationGenerator16::new(17).unwrap_err()
    );
    assert_eq!(
        Err(PermutationGeneratorError::TooManyElements),
        PermutationGenerator16::nth_absolute(17, 0)
    );
    assert_eq!(20922789888000, factorial64(16));
    test_slice_16(
        &[15, 14, 13, 12, 11, 10, 9, 8, 7, 6, 5, 4, 3, 2, 1, 0],
        PermutationGenerator16::nth_absolute(16, 20922789888000 - 1).unwrap(),
    );
    assert_eq!(Ok(None), PermutationGenerator16::nth_absolute(16, 20922789888000));
}

#[test]
fn tier_16_remaining_after_steps() {
    let mut pg = PermutationGenerator16::new(NB_ELEMS).unwrap();
    assert_eq!(Some(362880), pg.checked_nb_remaining());
    assert!(pg.next_permutation().is_some());
    assert!(pg.next_permutation().is_some());
    assert_eq!(362878, pg.nb_remaining());
    assert!(pg.nth(10).is_some());
    assert_eq!(362867, pg.nb_remaining());
    assert!(pg.nth(u64::MAX).is_none());
    assert_eq!(Some(0), pg.checked_nb_remaining());
    assert!(pg.nth(0).is_none());
}

#[test]
fn tier_16_nth_zero_is_next_permutation() {
    let mut a = PermutationGenerator16::new(3).unwrap();
    let mut b = a;
    for _ in 0..8 {
        assert_eq!(a.nth(0), b.next_permutation());
    }
}
