use permutation_generator::{factorial64, SinglePermutation16};

fn single_perm_16(nb_elems: u8, idx: u64) -> Option<SinglePermutation16> {
    SinglePermutation16::new(nb_elems, factorial64(nb_elems), idx)
}

#[test]
fn single_permutation_16_new() {
    assert_eq!(None, single_perm_16(10, 3628800));
}

#[test]
fn single_permutation_16_new_unchecked_iterator() {
    assert_eq!(
        &[0, 1, 2, 3, 4, 5, 6, 7, 8, 9],
        single_perm_16(10, 0).unwrap().into_vec().as_slice()
    );

    assert_eq!(
        &[1, 0, 2, 3, 4, 5, 6, 7, 8, 9],
        single_perm_16(10, 362880).unwrap().into_vec().as_slice()
    );

    assert_eq!(
        &[2, 0, 1, 3, 4, 5, 6, 7, 8, 9],
        single_perm_16(10, 362880 * 2)
            .unwrap()
            .into_vec()
            .as_slice()
    );

    assert_eq!(
        &[3, 0, 1, 2, 4, 5, 6, 7, 8, 9],
        single_perm_16(10, 362880 * 3)
            .unwrap()
            .into_vec()
            .as_slice()
    );

    assert_eq!(
        &[9, 8, 7, 6, 5, 4, 3, 2, 1, 0],
        single_perm_16(10, 3628800 - 1)
            .unwrap()
            .into_vec()
            .as_slice()
    );
}

#[test]
fn single_permutation_16_emits_value_by_value() {
    let mut decoder = single_perm_16(16, 20922789888000 - 2).unwrap();
    assert_eq!(16, decoder.nb_remaining());
    for expected in (2..16u8).rev() {
        assert_eq!(Some(expected), decoder.next());
    }
    assert_eq!(2, decoder.nb_remaining());
    assert_eq!(Some(0), decoder.next());
    assert_eq!(Some(1), decoder.next());
    assert_eq!(None, decoder.next());
}
