use qarrot_optimizer::chunk_iter::chunks;

#[test]
fn test_chunks() {
    let arr = [1, 2, 3, 4, 4, 5, 6, 7, 8, 9, 10];
    let mut iter = chunks::<4, _>(&arr);
    assert_eq!(iter.next_chunk(), Some(&[1, 2, 3, 4]));
    assert_eq!(iter.next_chunk(), Some(&[4, 5, 6, 7]));
    assert_eq!(iter.next_chunk(), None);
    assert_eq!(iter.remainder(), &[8, 9, 10]);
    assert_eq!(iter.remainder(), &[]);
}

#[test]
fn test_chunks_into() {
    let arr = [1usize, 2, 3, 4, 4, 5, 6, 7, 8, 9, 10];
    let mut buf = [0usize; 4];
    let mut iter = chunks::<4, _>(&arr);
    assert!(iter.next_chunk_into(&mut buf));
    assert_eq!(&buf, &[1, 2, 3, 4]);
    assert!(iter.next_chunk_into(&mut buf));
    assert_eq!(&buf, &[4, 5, 6, 7]);
    assert!(!iter.next_chunk_into(&mut buf));
    assert_eq!(iter.remainder(), &[8, 9, 10]);
    assert_eq!(iter.remainder(), &[]);
}

#[test]
fn a_last_full_chunk_is_left_to_the_remainder() {
    let arr = [1u8, 2, 3, 4, 5, 6, 7, 8];
    let mut iter = chunks::<4, _>(&arr);
    assert_eq!(iter.next_chunk(), Some(&[1, 2, 3, 4]));
    assert_eq!(iter.next_chunk(), None);
    assert_eq!(iter.remainder(), &[5, 6, 7, 8]);
}

#[test]
fn chunks_of_an_empty_slice() {
    let arr: [u8; 0] = [];
    let mut iter = chunks::<4, _>(&arr);
    assert_eq!(iter.next_chunk(), None);
    assert_eq!(iter.remainder(), &[] as &[u8]);
}
