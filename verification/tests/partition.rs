use vigenere_ioc::system::{CipherError, CryptoSystem};
use vigenere_ioc::vigenere::decrypt;

#[test]
fn t_partition_blocks() {
    let cs = CryptoSystem::new("ABCDEFGHI".to_string());
    let blocks = cs.input_partition(3).unwrap();
    assert_eq!(blocks, vec!["ABC".to_string(), "DEF".to_string(), "GHI".to_string()]);
}

#[test]
fn t_partition_concat() {
    let text = "HELLOWORLD";
    let cs = CryptoSystem::new(text.to_string());
    for key_len in 1usize..=12 {
        let blocks = cs.input_partition(key_len).unwrap();
        let joined: String = blocks.concat();
        assert_eq!(joined, text, "concatenation differs for key_len={}", key_len);
        let total: usize = blocks.iter().map(|b| b.len()).sum();
        assert_eq!(total, text.len());
        for (i, b) in blocks.iter().enumerate() {
            if i + 1 < blocks.len() {
                assert_eq!(b.len(), key_len, "inner block short for key_len={}", key_len);
            } else {
                assert!(b.len() >= 1 && b.len() <= key_len);
            }
        }
    }
}

#[test]
fn t_partition_whole_text() {
    let cs = CryptoSystem::new("VIGENERE".to_string());
    let blocks = cs.input_partition(8).unwrap();
    assert_eq!(blocks, vec!["VIGENERE".to_string()]);
    let blocks = cs.input_partition(13).unwrap();
    assert_eq!(blocks, vec!["VIGENERE".to_string()]);
}

#[test]
fn t_partition_zero_key_rejected() {
    let cs = CryptoSystem::new("ABC".to_string());
    assert_eq!(cs.input_partition(0), Err(CipherError::InvalidArgument));
}

#[test]
fn t_partition_empty_text() {
    let cs = CryptoSystem::new(String::new());
    let blocks = cs.input_partition(4).unwrap();
    assert!(blocks.is_empty());
}

#[test]
fn t_positional_decrypt_scenario() {
    // With key length 3 the blocks are ABC / DEF / GHI; undoing only the
    // block-position shift (key 0) shifts each block back by its index.
    let cs = CryptoSystem::new("ABCDEFGHI".to_string());
    let blocks = cs.input_partition(3).unwrap();
    let expected: [[u8; 3]; 3] = [
        [0, 1, 2],   // A B C unchanged
        [2, 3, 4],   // D E F shifted back by 1: C D E
        [4, 5, 6],   // G H I shifted back by 2: E F G
    ];
    for (b, block) in blocks.iter().enumerate() {
        for (i, ch) in block.chars().enumerate() {
            assert_eq!(decrypt(ch, 0, b), expected[b][i]);
        }
    }
}
