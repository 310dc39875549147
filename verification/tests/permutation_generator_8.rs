use permutation_generator::{factorial16, PermutationGenerator8, PermutationGeneratorError};

const NB_ELEMS: u8 = 4;

fn test_slice_8(ref_slice: &[u8], some_perm: Option<Vec<u8>>) {
    assert_eq!(ref_slice, some_perm.unwrap().as_slice());
}

#[test]
fn permutation_generator_8_new() {
    let pg = PermutationGenerator8::new(14);
    assert_eq!(PermutationGeneratorError::TooManyElements, pg.unwrap_err());
}

#[test]
fn permutation_generator_8_zero() {
    let mut pg = PermutationGenerator8::new(0).unwrap();
    assert_eq!(Some(Vec::new()), pg.next_permutation());
    assert!(pg.next_permutation().is_none());
}

#[test]
fn permutation_generator_8_next_permutation() {
    let mut pg = PermutationGenerator8::new(NB_ELEMS).unwrap();
    test_slice_8(&[0, 1, 2, 3], pg.next_permutation());
    test_slice_8(&[0, 1, 3, 2], pg.next_permutation());

    let mut pg = PermutationGenerator8::new(NB_ELEMS + 1).unwrap();
    test_slice_8(&[0, 1, 2, 3, 4], pg.next_permutation());
    test_slice_8(&[0, 1, 2, 4, 3], pg.next_permutation());
}

#[test]
fn permutation_generator_8_nth_absolute() {
    test_slice_8(
        &[0, 1, 2, 3],
        PermutationGenerator8::nth_absolute(NB_ELEMS, 0).unwrap(),
    );
    test_slice_8(
        &[3, 2, 1, 0],
        PermutationGenerator8::nth_absolute(NB_ELEMS, factorial16(NB_ELEMS) - 1).unwrap(),
    );
    test_slice_8(
        &[4, 3, 2, 1, 0],
        PermutationGenerator8::nth_absolute(NB_ELEMS + 1, factorial16(NB_ELEMS + 1) - 1).unwrap(),
    );
}

#[test]
fn permutation_generator_8_nth() {
    let mut pg = PermutationGenerator8::new(NB_ELEMS).unwrap();
    test_slice_8(&[3, 2, 1, 0], pg.nth(factorial16(NB_ELEMS) - 1));
    assert!(pg.next_permutation().is_none());

    let mut pg = PermutationGenerator8::new(NB_ELEMS).unwrap();
    test_slice_8(&[0, 1, 2, 3], pg.nth(0));
    test_slice_8(&[3, 2, 1, 0], pg.nth(factorial16(NB_ELEMS) - 2));
}

#[test]
fn permutation_generator_8_iter() {
    let mut pg = PermutationGenerator8::new(NB_ELEMS).unwrap();
    let mut list: Vec<Vec<u8>> = Vec::new();
    while let Some(perm) = pg.next_permutation() {
        list.push(perm);
    }
    assert_eq!(factorial16(NB_ELEMS) as usize, list.len());
    assert_eq!(&[0, 1, 2, 3], list[0].as_slice());
    assert_eq!(
        &[3, 2, 1, 0],
        list[factorial16(NB_ELEMS) as usize - 1].as_slice()
    );
}

#[test]
fn tier_8_accepts_its_maximum_and_refuses_the_next() {
    assert!(PermutationGenerator8::new(8).is_ok());
    assert_eq!(
        PermutationGeneratorError::TooManyElements,
        PermutationGenerator8::new(9).unwrap_err()
    );
    assert_eq!(
        Err(PermutationGeneratorError::TooManyElements),
        PermutationGenerator8::nth_absolute(9, 0)
    );
    assert_eq!(40320, PermutationGenerator8::new(8).unwrap().nb_remaining());
    test_slice_8(
        &[7, 6, 5, 4, 3, 2, 1, 0],
        PermutationGenerator8::nth_absolute(8, 40319).unwrap(),
    );
}

#[test]
fn tier_8_rank_out_of_range_is_absent() {
    assert_eq!(Ok(None), PermutationGenerator8::nth_absolute(NB_ELEMS, 24));
    assert_eq!(Ok(None), PermutationGenerator8::nth_absolute(NB_ELEMS, u16::MAX));
    assert_eq!(Ok(Some(Vec::new())), PermutationGenerator8::nth_absolute(0, 0));
    assert_eq!(Ok(None), PermutationGenerator8::nth_absolute(0, 1));
}

#[test]
fn tier_8_remaining_counts_down_by_one_per_step() {
    let mut pg = PermutationGenerator8::new(NB_ELEMS).unwrap();
    for k in 0..24usize {
        assert_eq!(24 - k, pg.nb_remaining());
        assert!(pg.next_permutation().is_some());
    }
    assert_eq!(0, pg.nb_remaining());
    assert!(pg.next_permutation().is_none());
    assert_eq!(0, pg.nb_remaining());
}

#[test]
fn tier_8_nth_zero_is_next_permutation() {
    let mut a = PermutationGenerator8::new(NB_ELEMS).unwrap();
    let mut b = a;
    for _ in 0..26 {
        assert_eq!(a.nth(0), b.next_permutation());
        assert_eq!(a.nb_remaining(), b.nb_remaining());
    }
}

#[test]
fn tier_8_steps_visit_every_rank_in_order() {
    let mut pg = PermutationGenerator8::new(5).unwrap();
    let mut previous: Option<Vec<u8>> = None;
    for idx in 0..120u16 {
        let perm = pg.next_permutation().unwrap();
        assert_eq!(Ok(Some(perm.clone())), PermutationGenerator8::nth_absolute(5, idx));
        let mut sorted = perm.clone();
        sorted.sort();
        assert_eq!(vec![0, 1, 2, 3, 4], sorted);
        if let Some(before) = previous {
            assert!(before < perm);
        }
        previous = Some(perm);
    }
    assert!(pg.next_permutation().is_none());
    assert!(pg.next_permutation().is_none());
}

#[test]
fn tier_8_a_miss_exhausts_the_cursor() {
    let mut pg = PermutationGenerator8::new(NB_ELEMS).unwrap();
    assert!(pg.nth(24).is_none());
    assert!(pg.nth(0).is_none());
    assert_eq!(0, pg.nb_remaining());

    let mut pg = PermutationGenerator8::new(NB_ELEMS).unwrap();
    test_slice_8(&[0, 1, 3, 2], pg.nth(1));
    assert_eq!(22, pg.nb_remaining());
    assert!(pg.nth(u16::MAX).is_none());
    assert!(pg.nth(u16::MAX).is_none());
    assert!(pg.next_permutation().is_none());
    assert_eq!(0, pg.nb_remaining());
}

#[test]
fn tier_8_factorials() {
    let expected: [u16; 9] = [1, 1, 2, 6, 24, 120, 720, 5040, 40320];
    for n in 0..=8u8 {
        assert_eq!(expected[n as usize], factorial16(n));
    }
}
