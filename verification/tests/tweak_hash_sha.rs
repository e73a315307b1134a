use hashsig::symmetric::tweak_hash::sha::ShaTweak;
use hashsig::symmetric::tweak_hash::sha::ShaTweak128128;
use hashsig::symmetric::tweak_hash::sha::ShaTweak128192;
use hashsig::symmetric::tweak_hash::sha::ShaTweak192192;
use hashsig::symmetric::tweak_hash::sha::ShaTweakHash;
use hashsig::symmetric::tweak_hash::walk;
use hashsig::symmetric::tweak_hash::TweakableHash;
use hashsig::TWEAK_SEPARATOR_FOR_CHAIN_HASH;
use hashsig::TWEAK_SEPARATOR_FOR_MESSAGE_HASH;
use hashsig::TWEAK_SEPARATOR_FOR_TREE_HASH;
use rand::thread_rng;
use tiny_keccak::Hasher;
use tiny_keccak::Sha3;

fn sha3_256(data: &[u8]) -> [u8; 32] {
    let mut hasher = Sha3::v256();
    hasher.update(data);
    let mut digest = [0u8; 32];
    hasher.finalize(&mut digest);
    digest
}

fn parameter_128() -> [u8; 16] {
    let mut parameter = [0u8; 16];
    for (i, byte) in parameter.iter_mut().enumerate() {
        *byte = i as u8;
    }
    parameter
}

#[test]
fn test_apply_128_128() {
    let mut rng = thread_rng();

    // make sure parameters make sense
    assert!(ShaTweak128128::is_consistent());
    ShaTweak128128::internal_consistency_check();

    // test that nothing is panicking
    let parameter = ShaTweak128128::rand_parameter(&mut rng);
    let message_one = ShaTweak128128::rand_domain(&mut rng);
    let message_two = ShaTweak128128::rand_domain(&mut rng);
    let tweak_tree = ShaTweak128128::tree_tweak(0, 3);
    ShaTweak128128::apply(&parameter, &tweak_tree, &[message_one, message_two]);

    // test that nothing is panicking
    let parameter = ShaTweak128128::rand_parameter(&mut rng);
    let message_one = ShaTweak128128::rand_domain(&mut rng);
    let message_two = ShaTweak128128::rand_domain(&mut rng);
    let tweak_chain = ShaTweak128128::chain_tweak(2, 3, 4);
    ShaTweak128128::apply(&parameter, &tweak_chain, &[message_one, message_two]);
}

#[test]
fn test_apply_128_192() {
    let mut rng = thread_rng();

    // make sure parameters make sense
    assert!(ShaTweak128192::is_consistent());
    ShaTweak128192::internal_consistency_check();

    // test that nothing is panicking
    let parameter = ShaTweak128192::rand_parameter(&mut rng);
    let message_one = ShaTweak128192::rand_domain(&mut rng);
    let message_two = ShaTweak128192::rand_domain(&mut rng);
    let tweak_tree = ShaTweak128192::tree_tweak(0, 3);
    ShaTweak128192::apply(&parameter, &tweak_tree, &[message_one, message_two]);

    // test that nothing is panicking
    let parameter = ShaTweak128192::rand_parameter(&mut rng);
    let message_one = ShaTweak128192::rand_domain(&mut rng);
    let message_two = ShaTweak128192::rand_domain(&mut rng);
    let tweak_chain = ShaTweak128192::chain_tweak(2, 3, 4);
    ShaTweak128192::apply(&parameter, &tweak_chain, &[message_one, message_two]);
}

#[test]
fn test_apply_192_192() {
    let mut rng = thread_rng();

    // make sure parameters make sense
    assert!(ShaTweak192192::is_consistent());
    ShaTweak192192::internal_consistency_check();

    // test that nothing is panicking
    let parameter = ShaTweak192192::rand_parameter(&mut rng);
    let message_one = ShaTweak192192::rand_domain(&mut rng);
    let message_two = ShaTweak192192::rand_domain(&mut rng);
    let tweak_tree = ShaTweak192192::tree_tweak(0, 3);
    ShaTweak192192::apply(&parameter, &tweak_tree, &[message_one, message_two]);

    // test that nothing is panicking
    let parameter = ShaTweak192192::rand_parameter(&mut rng);
    let message_one = ShaTweak192192::rand_domain(&mut rng);
    let message_two = ShaTweak192192::rand_domain(&mut rng);
    let tweak_chain = ShaTweak192192::chain_tweak(2, 3, 4);
    ShaTweak192192::apply(&parameter, &tweak_chain, &[message_one, message_two]);
}

#[test]
fn test_tree_tweak_to_bytes() {
    let tweak = ShaTweak::TreeTweak { level: 3, pos_in_level: 0x0102_0304 };
    assert_eq!(tweak.to_bytes(), vec![0x00, 3, 1, 2, 3, 4]);
    let tweak = ShaTweak::TreeTweak { level: 255, pos_in_level: u32::MAX };
    assert_eq!(tweak.to_bytes(), vec![0x00, 255, 255, 255, 255, 255]);
    let tweak = ShaTweak::TreeTweak { level: 0, pos_in_level: 0 };
    assert_eq!(tweak.to_bytes(), vec![0x00, 0, 0, 0, 0, 0]);
}

#[test]
fn test_chain_tweak_to_bytes() {
    let tweak = ShaTweak::ChainTweak { epoch: 0x0102_0304, chain_index: 0x0506, pos_in_chain: 0x0708 };
    assert_eq!(tweak.to_bytes(), vec![0x01, 1, 2, 3, 4, 5, 6, 7, 8]);
    let tweak = ShaTweak::ChainTweak { epoch: 13, chain_index: 2, pos_in_chain: 255 };
    assert_eq!(tweak.to_bytes(), vec![0x01, 0, 0, 0, 13, 0, 2, 0, 255]);
    let tweak = ShaTweak::ChainTweak { epoch: u32::MAX, chain_index: u16::MAX, pos_in_chain: u16::MAX };
    assert_eq!(tweak.to_bytes(), vec![0x01, 255, 255, 255, 255, 255, 255, 255, 255]);
}

#[test]
fn test_tweak_constructors() {
    let tree = ShaTweak128128::tree_tweak(9, 77);
    assert!(matches!(tree, ShaTweak::TreeTweak { level: 9, pos_in_level: 77 }));
    let chain = ShaTweak128128::chain_tweak(5, 6, 7);
    assert!(matches!(chain, ShaTweak::ChainTweak { epoch: 5, chain_index: 6, pos_in_chain: 7 }));
}

#[test]
fn test_separators_distinct() {
    assert_eq!(TWEAK_SEPARATOR_FOR_TREE_HASH, 0x00);
    assert_eq!(TWEAK_SEPARATOR_FOR_CHAIN_HASH, 0x01);
    assert_eq!(TWEAK_SEPARATOR_FOR_MESSAGE_HASH, 0x02);
    assert_ne!(TWEAK_SEPARATOR_FOR_MESSAGE_HASH, TWEAK_SEPARATOR_FOR_TREE_HASH);
    assert_ne!(TWEAK_SEPARATOR_FOR_MESSAGE_HASH, TWEAK_SEPARATOR_FOR_CHAIN_HASH);
    assert_ne!(TWEAK_SEPARATOR_FOR_TREE_HASH, TWEAK_SEPARATOR_FOR_CHAIN_HASH);
}

#[test]
fn test_tree_and_chain_encodings_differ() {
    let fields: [u32; 6] = [0, 1, 2, 255, 256, 0x0100_0000];
    for a in fields {
        for b in fields {
            let tree = ShaTweak::TreeTweak { level: a as u8, pos_in_level: b }.to_bytes();
            let chain = ShaTweak::ChainTweak {
                epoch: a,
                chain_index: b as u16,
                pos_in_chain: a as u16,
            }
            .to_bytes();
            assert_ne!(tree, chain);
            assert_ne!(tree[0], chain[0]);
        }
    }
}

#[test]
fn test_to_bytes_injective_on_samples() {
    let mut encodings: Vec<Vec<u8>> = Vec::new();
    for level in [0u8, 1, 255] {
        for pos in [0u32, 1, 256, 65536, u32::MAX] {
            encodings.push(ShaTweak::TreeTweak { level, pos_in_level: pos }.to_bytes());
        }
    }
    for epoch in [0u32, 1, 256, u32::MAX] {
        for chain_index in [0u16, 1, 256] {
            for pos in [0u16, 1, 256] {
                encodings.push(
                    ShaTweak::ChainTweak { epoch, chain_index, pos_in_chain: pos }.to_bytes(),
                );
            }
        }
    }
    for i in 0..encodings.len() {
        for j in 0..i {
            assert_ne!(encodings[i], encodings[j]);
        }
    }
}

#[test]
fn test_apply_known_answer_chain() {
    let parameter = parameter_128();
    let tweak = ShaTweak128128::chain_tweak(2, 3, 4);
    let out = ShaTweak128128::apply(&parameter, &tweak, &[[0x11u8; 16]]);
    assert_eq!(out, [46, 56, 227, 93, 51, 157, 143, 135, 190, 188, 131, 113, 107, 31, 36, 8]);
}

#[test]
fn test_apply_known_answer_tree() {
    let parameter = parameter_128();
    let tweak = ShaTweak128128::tree_tweak(0, 3);
    let out = ShaTweak128128::apply(&parameter, &tweak, &[[0x11u8; 16], [0x22u8; 16]]);
    assert_eq!(out, [170, 50, 134, 34, 39, 219, 96, 229, 21, 219, 240, 252, 196, 20, 116, 97]);
}

#[test]
fn test_apply_known_answer_empty_message() {
    let parameter = parameter_128();
    let tweak = ShaTweak128128::chain_tweak(0x0102_0304, 0x0506, 0x0708);
    let out = ShaTweak128128::apply(&parameter, &tweak, &[]);
    assert_eq!(out, [252, 254, 253, 47, 150, 182, 66, 83, 32, 134, 64, 140, 103, 114, 105, 136]);
}

#[test]
fn test_apply_known_answer_192() {
    let mut parameter = [0u8; 24];
    for (i, byte) in parameter.iter_mut().enumerate() {
        *byte = 100 + i as u8;
    }
    let tweak = ShaTweak192192::tree_tweak(7, 0xdead_beef);
    let out = ShaTweak192192::apply(&parameter, &tweak, &[[0x33u8; 24]]);
    assert_eq!(
        out,
        [
            61, 183, 87, 24, 133, 72, 187, 252, 221, 185, 140, 67, 19, 220, 189, 207, 64, 47, 92,
            111, 4, 91, 17, 151
        ]
    );
}

#[test]
fn test_apply_is_truncated_sha3_of_concatenation() {
    let mut rng = thread_rng();
    for _ in 0..20 {
        let parameter = ShaTweak128192::rand_parameter(&mut rng);
        let one = ShaTweak128192::rand_domain(&mut rng);
        let two = ShaTweak128192::rand_domain(&mut rng);
        let tweak = ShaTweak128192::tree_tweak(1, 2);
        let mut input = Vec::new();
        input.extend_from_slice(&parameter);
        input.extend_from_slice(&tweak.to_bytes());
        input.extend_from_slice(&one);
        input.extend_from_slice(&two);
        let digest = sha3_256(&input);
        let out = ShaTweak128192::apply(&parameter, &tweak, &[one, two]);
        assert_eq!(&out[..], &digest[..24]);
    }
}

#[test]
fn test_tweak_hash_depends_on_every_input() {
    let parameter = parameter_128();
    let tweak = ShaTweak128128::chain_tweak(2, 3, 4);
    let message = [0x11u8; 16];
    let out = ShaTweak128128::apply(&parameter, &tweak, &[message]);
    let mut other_parameter = parameter;
    other_parameter[0] ^= 1;
    assert_ne!(ShaTweak128128::apply(&other_parameter, &tweak, &[message]), out);
    let other_tweak = ShaTweak128128::chain_tweak(2, 3, 5);
    assert_ne!(ShaTweak128128::apply(&parameter, &other_tweak, &[message]), out);
    let tree_tweak = ShaTweak128128::tree_tweak(2, 3);
    assert_ne!(ShaTweak128128::apply(&parameter, &tree_tweak, &[message]), out);
    let mut other_message = message;
    other_message[15] ^= 0x80;
    assert_ne!(ShaTweak128128::apply(&parameter, &tweak, &[other_message]), out);
    assert_ne!(out, message);
}

#[test]
fn test_domain_eq() {
    let a = [7u8; 16];
    let mut b = [7u8; 16];
    assert!(ShaTweak128128::domain_eq(&a, &b));
    b[15] = 8;
    assert!(!ShaTweak128128::domain_eq(&a, &b));
    b[15] = 7;
    b[0] = 6;
    assert!(!ShaTweak128128::domain_eq(&a, &b));
}

#[test]
fn test_is_consistent_bounds() {
    assert!(ShaTweakHash::<31, 31>::is_consistent());
    assert!(ShaTweakHash::<0, 1>::is_consistent());
    assert!(!ShaTweakHash::<32, 16>::is_consistent());
    assert!(!ShaTweakHash::<16, 32>::is_consistent());
    assert!(!ShaTweakHash::<64, 64>::is_consistent());
}

#[test]
fn test_rand_parameter_and_domain_not_all_same() {
    let mut rng = thread_rng();
    let first_parameter = ShaTweak128128::rand_parameter(&mut rng);
    let first_domain = ShaTweak128128::rand_domain(&mut rng);
    let mut parameter_differs = false;
    let mut domain_differs = false;
    for _ in 0..10 {
        parameter_differs |= ShaTweak128128::rand_parameter(&mut rng) != first_parameter;
        domain_differs |= ShaTweak128128::rand_domain(&mut rng) != first_domain;
    }
    assert!(parameter_differs);
    assert!(domain_differs);
}

#[test]
fn test_walk_no_step_returns_start() {
    let parameter = parameter_128();
    let start = [0x5au8; 16];
    for position in [0u16, 1, 7, 255] {
        let end = walk::<ShaTweak128128>(&parameter, 13, 4, &start, position, position);
        assert_eq!(end, start);
    }
}

#[test]
fn test_walk_one_step_is_apply_with_next_position() {
    let parameter = parameter_128();
    let start = [0x5au8; 16];
    let end = walk::<ShaTweak128128>(&parameter, 13, 4, &start, 6, 7);
    let tweak = ShaTweak128128::chain_tweak(13, 4, 7);
    assert_eq!(end, ShaTweak128128::apply(&parameter, &tweak, &[start]));
}

#[test]
fn test_walk_threads_every_position() {
    let parameter = parameter_128();
    let start = [0x5au8; 16];
    let mut current = start;
    for position in 1..=5u16 {
        let tweak = ShaTweak128128::chain_tweak(9, 2, position);
        current = ShaTweak128128::apply(&parameter, &tweak, &[current]);
    }
    assert_eq!(walk::<ShaTweak128128>(&parameter, 9, 2, &start, 0, 5), current);
}

#[test]
fn test_walk_composes() {
    let parameter = parameter_128();
    let start = [0xa5u8; 16];
    let whole = walk::<ShaTweak128128>(&parameter, 13, 1, &start, 0, 15);
    for mid in 0..=15u16 {
        let first = walk::<ShaTweak128128>(&parameter, 13, 1, &start, 0, mid);
        let second = walk::<ShaTweak128128>(&parameter, 13, 1, &first, mid, 15);
        assert_eq!(second, whole);
    }
}

#[test]
fn test_walk_depends_on_epoch_and_chain() {
    let parameter = parameter_128();
    let start = [0xa5u8; 16];
    let end = walk::<ShaTweak128128>(&parameter, 13, 1, &start, 0, 3);
    assert_ne!(walk::<ShaTweak128128>(&parameter, 14, 1, &start, 0, 3), end);
    assert_ne!(walk::<ShaTweak128128>(&parameter, 13, 2, &start, 0, 3), end);
    assert_ne!(walk::<ShaTweak128128>(&parameter, 13, 1, &start, 1, 4), end);
}
