use permutation_generator::{factorial128, SinglePermutation32};

#[test]
fn single_permutation_32_new() {
    assert_eq!(
        None,
        SinglePermutation32::new(30, factorial128(30), 265252859812191058636308480000000)
    );
}

#[test]
fn single_permutation_32_new_unchecked_iterator() {
    assert_eq!(
        (0..30).collect::<Vec<_>>().as_slice(),
        SinglePermutation32::new_unchecked(30, 0)
            .into_vec()
            .as_slice()
    );

    assert_eq!(
        (0..30).rev().collect::<Vec<_>>().as_slice(),
        SinglePermutation32::new_unchecked(30, 265252859812191058636308480000000 - 1)
            .into_vec()
            .as_slice()
    );
}

#[test]
fn single_permutation_32_factorial_of_thirty() {
    assert_eq!(265252859812191058636308480000000, factorial128(30));
    assert_eq!(1, factorial128(0));
    assert_eq!(1, factorial128(1));
}

#[test]
fn single_permutation_32_unchecked_and_checked_agree() {
    let a = SinglePermutation32::new_unchecked(20, 123456789012345678);
    let b = SinglePermutation32::new(20, factorial128(20), 123456789012345678).unwrap();
    assert_eq!(a, b);
    let values = a.into_vec();
    assert_eq!(values, b.into_vec());
    let mut sorted = values.clone();
    sorted.sort();
    assert_eq!((0..20).collect::<Vec<u8>>(), sorted);
    assert!(SinglePermutation32::new_unchecked(0, 0).into_vec().is_empty());
}

#[test]
fn single_permutation_32_emits_value_by_value() {
    let mut decoder = SinglePermutation32::new_unchecked(3, 4);
    assert_eq!(3, decoder.nb_remaining());
    assert_eq!(Some(2), decoder.next());
    assert_eq!(Some(0), decoder.next());
    assert_eq!(Some(1), decoder.next());
    assert_eq!(None, decoder.next());
    assert_eq!(0, decoder.nb_remaining());
}
