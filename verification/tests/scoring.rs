use vigenere_ioc::scorer::calc_ioc;
use vigenere_ioc::system::CryptoSystem;

#[test]
fn t_scorer_value() {
    // "AAAA" split in two blocks "AA" / "AA": block 0 decodes to letter 0
    // twice, block 1 to letter 25 twice; the score is 2*2 + 2*2.
    let cs = CryptoSystem::new("AAAA".to_string());
    let blocks = cs.input_partition(2).unwrap();
    assert_eq!(calc_ioc(&blocks), 8);
}

#[test]
fn t_scorer_single_block() {
    // One block at position 0: plain letter counts. "ABAB": A twice, B twice.
    let cs = CryptoSystem::new("ABAB".to_string());
    let blocks = cs.input_partition(4).unwrap();
    assert_eq!(calc_ioc(&blocks), 8);
    // "AAAA" as one block: one letter counted four times.
    let cs = CryptoSystem::new("AAAA".to_string());
    let blocks = cs.input_partition(4).unwrap();
    assert_eq!(calc_ioc(&blocks), 16);
}

#[test]
fn t_scorer_empty() {
    let cs = CryptoSystem::new(String::new());
    let blocks = cs.input_partition(3).unwrap();
    assert_eq!(calc_ioc(&blocks), 0);
}

#[test]
fn t_scorer_deterministic() {
    let cs = CryptoSystem::new("COTKXNHWJGXABFZPKGJCWGHMYQGEB".to_string());
    let blocks = cs.input_partition(5).unwrap();
    let first = calc_ioc(&blocks);
    let second = calc_ioc(&blocks);
    assert_eq!(first, second);
}

#[test]
fn t_find_key_length_uniform_text() {
    // For "AAAA" the score rises with every key length up to the text length
    // (blocks desynchronize less), so candidate 4 wins; longer candidates tie
    // and never displace it.
    let cs = CryptoSystem::new("AAAA".to_string());
    assert_eq!(cs.find_key_length(), 4);
}

#[test]
fn t_find_key_length_single_letter() {
    // With one letter the length-1 divergence is negative, so the rounded
    // baseline is 0; candidate 2 ties every later score and wins the first
    // strict comparison.
    let cs = CryptoSystem::new("A".to_string());
    assert_eq!(cs.find_key_length(), 2);
}

#[test]
fn t_find_key_length_empty() {
    let cs = CryptoSystem::new(String::new());
    assert_eq!(cs.find_key_length(), 1);
}
