use vigenere_ioc::enumerator::KeyEnumerator;
use vigenere_ioc::ALPHABET_LEN;

#[test]
fn t_enumerator_starts_at_zero() {
    let mut e = KeyEnumerator::new(3);
    assert_eq!(e.next(), Some(vec![0, 0, 0]));
    assert_eq!(e.next(), Some(vec![0, 0, 1]));
}

#[test]
fn t_enumerator_carries() {
    let mut e = KeyEnumerator::new(2);
    for _ in 0..26 {
        e.next();
    }
    // after [0,25] the carry moves left
    assert_eq!(e.next(), Some(vec![1, 0]));
}

#[test]
fn t_enumerator_exhaustive_len_2() {
    // Exactly 26^2 keys, from [0,0] to [25,25], strictly increasing
    // lexicographically, hence all distinct.
    let mut e = KeyEnumerator::new(2);
    let mut produced: Vec<Vec<usize>> = Vec::new();
    while let Some(key) = e.next() {
        produced.push(key);
    }
    assert_eq!(produced.len(), 676);
    assert_eq!(produced[0], vec![0, 0]);
    assert_eq!(produced[675], vec![25, 25]);
    for w in produced.windows(2) {
        assert!(w[0] < w[1], "not strictly increasing: {:?} then {:?}", w[0], w[1]);
    }
}

#[test]
fn t_enumerator_exhausts_len_1() {
    let mut e = KeyEnumerator::new(1);
    for expect in 0usize..ALPHABET_LEN {
        assert_eq!(e.next(), Some(vec![expect]));
    }
    assert_eq!(e.next(), None);
    assert_eq!(e.next(), None);
}
