use permutation_generator::{factorial16, SinglePermutation8};

fn single_perm_8(nb_elems: u8, idx: u16) -> Option<SinglePermutation8> {
    SinglePermutation8::new(nb_elems, factorial16(nb_elems), idx)
}

#[test]
fn single_permutation_8_new() {
    assert_eq!(None, single_perm_8(4, 24));
}

#[test]
fn single_permutation_8_new_unchecked_iterator() {
    assert_eq!(
        &[0, 1, 2, 3],
        single_perm_8(4, 0).unwrap().into_vec().as_slice()
    );

    assert_eq!(
        &[1, 0, 2, 3],
        single_perm_8(4, 6).unwrap().into_vec().as_slice()
    );

    assert_eq!(
        &[2, 0, 1, 3],
        single_perm_8(4, 12).unwrap().into_vec().as_slice()
    );

    assert_eq!(
        &[3, 0, 1, 2],
        single_perm_8(4, 18).unwrap().into_vec().as_slice()
    );

    assert_eq!(
        &[3, 2, 1, 0],
        single_perm_8(4, 23).unwrap().into_vec().as_slice()
    );
}

#[test]
fn single_permutation_8_emits_value_by_value() {
    let mut decoder = single_perm_8(4, 13).unwrap();
    assert_eq!(4, decoder.nb_remaining());
    assert_eq!(Some(2), decoder.next());
    assert_eq!(3, decoder.nb_remaining());
    assert_eq!(Some(0), decoder.next());
    assert_eq!(Some(3), decoder.next());
    assert_eq!(1, decoder.nb_remaining());
    assert_eq!(Some(1), decoder.next());
    assert_eq!(0, decoder.nb_remaining());
    assert_eq!(None, decoder.next());
    assert_eq!(None, decoder.next());
    assert_eq!(0, decoder.nb_remaining());
}

#[test]
fn single_permutation_8_of_no_elements_is_empty() {
    let mut decoder = single_perm_8(0, 0).unwrap();
    assert_eq!(0, decoder.nb_remaining());
    assert_eq!(None, decoder.next());
    assert!(decoder.into_vec().is_empty());
    assert_eq!(None, single_perm_8(0, 1));
}

#[test]
fn single_permutation_8_drains_what_is_left() {
    let mut decoder = single_perm_8(8, 40319).unwrap();
    assert_eq!(Some(7), decoder.next());
    assert_eq!(Some(6), decoder.next());
    assert_eq!(vec![5, 4, 3, 2, 1, 0], decoder.into_vec());
}
