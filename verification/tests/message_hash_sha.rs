use hashsig::symmetric::message_hash::bytes_to_chunks;
use hashsig::symmetric::message_hash::chunk_of_byte;
use hashsig::symmetric::message_hash::sha::Sha256MessageHash;
use hashsig::symmetric::message_hash::sha::Sha256MessageHash128x3;
use hashsig::symmetric::message_hash::sha::Sha256MessageHash192x3;
use hashsig::symmetric::message_hash::small_power_of_two;
use hashsig::symmetric::message_hash::MessageHash;
use hashsig::MESSAGE_LENGTH;
use rand::thread_rng;
use rand::Rng;
use sha2::Digest;
use sha2::Sha256;

fn chunks_to_bytes(chunks: &[u8], chunk_size: usize) -> Vec<u8> {
    let per_byte = 8 / chunk_size;
    chunks
        .chunks(per_byte)
        .map(|group| group.iter().fold(0u32, |value, chunk| (value << chunk_size) | *chunk as u32) as u8)
        .collect()
}

#[test]
fn test_apply_128x3() {
    let mut rng = thread_rng();

    let mut parameter = [0u8; 16];
    rng.fill(&mut parameter);

    let mut message = [0u8; MESSAGE_LENGTH];
    rng.fill(&mut message);

    let epoch = 13;
    let randomness = Sha256MessageHash128x3::rand(&mut rng);

    assert!(Sha256MessageHash128x3::is_consistent());
    Sha256MessageHash128x3::internal_consistency_check();
    let chunks = Sha256MessageHash128x3::apply(&parameter, epoch, &randomness, &message);
    assert_eq!(chunks.len(), 16);
}

#[test]
fn test_apply_192x3() {
    let mut rng = thread_rng();

    let mut parameter = [0u8; 24];
    rng.fill(&mut parameter);

    let mut message = [0u8; MESSAGE_LENGTH];
    rng.fill(&mut message);

    let epoch = 13;
    let randomness = Sha256MessageHash192x3::rand(&mut rng);

    assert!(Sha256MessageHash192x3::is_consistent());
    Sha256MessageHash192x3::internal_consistency_check();
    let chunks = Sha256MessageHash192x3::apply(&parameter, epoch, &randomness, &message);
    assert_eq!(chunks.len(), 48);
    assert!(chunks.iter().all(|chunk| *chunk < 16));
}

#[test]
fn test_associated_constants() {
    assert_eq!(MESSAGE_LENGTH, 32);
    assert_eq!(<Sha256MessageHash128x3 as MessageHash>::NUM_CHUNKS, 16);
    assert_eq!(<Sha256MessageHash128x3 as MessageHash>::CHUNK_SIZE, 8);
    assert_eq!(<Sha256MessageHash192x3 as MessageHash>::NUM_CHUNKS, 48);
    assert_eq!(<Sha256MessageHash192x3 as MessageHash>::CHUNK_SIZE, 4);
}

#[test]
fn test_small_power_of_two() {
    let expected = [1usize, 2, 4, 8, 16, 32, 64, 128, 256];
    for (exponent, power) in expected.iter().enumerate() {
        assert_eq!(small_power_of_two(exponent), *power);
    }
}

#[test]
fn test_chunk_of_byte() {
    let byte = 0b0110_1100u8;
    assert_eq!(chunk_of_byte(byte, 8, 0), 0b0110_1100);
    assert_eq!(chunk_of_byte(byte, 4, 0), 0b0110);
    assert_eq!(chunk_of_byte(byte, 4, 1), 0b1100);
    assert_eq!(chunk_of_byte(byte, 2, 0), 0b01);
    assert_eq!(chunk_of_byte(byte, 2, 1), 0b10);
    assert_eq!(chunk_of_byte(byte, 2, 2), 0b11);
    assert_eq!(chunk_of_byte(byte, 2, 3), 0b00);
    assert_eq!(chunk_of_byte(byte, 1, 0), 0);
    assert_eq!(chunk_of_byte(byte, 1, 1), 1);
    assert_eq!(chunk_of_byte(byte, 1, 7), 0);
}

#[test]
fn test_bytes_to_chunks_exact() {
    let bytes = [0b0110_1100u8, 0b1010_0101];
    assert_eq!(bytes_to_chunks(&bytes, 8), vec![0b0110_1100, 0b1010_0101]);
    assert_eq!(bytes_to_chunks(&bytes, 4), vec![0b0110, 0b1100, 0b1010, 0b0101]);
    assert_eq!(bytes_to_chunks(&bytes, 2), vec![1, 2, 3, 0, 2, 2, 1, 1]);
    assert_eq!(
        bytes_to_chunks(&bytes, 1),
        vec![0, 1, 1, 0, 1, 1, 0, 0, 1, 0, 1, 0, 0, 1, 0, 1]
    );
}

#[test]
fn test_bytes_to_chunks_edges() {
    for chunk_size in [1usize, 2, 4, 8] {
        assert_eq!(bytes_to_chunks(&[], chunk_size), Vec::<u8>::new());
        let zeros = bytes_to_chunks(&[0u8; 3], chunk_size);
        assert_eq!(zeros, vec![0u8; 3 * 8 / chunk_size]);
        let ones = bytes_to_chunks(&[0xffu8; 3], chunk_size);
        assert_eq!(ones, vec![((1u32 << chunk_size) - 1) as u8; 3 * 8 / chunk_size]);
    }
}

#[test]
fn test_chunks_cover_every_byte_string() {
    let mut rng = thread_rng();
    for chunk_size in [1usize, 2, 4, 8] {
        for length in 0..40usize {
            let mut bytes = vec![0u8; length];
            rng.fill(&mut bytes[..]);
            let chunks = bytes_to_chunks(&bytes, chunk_size);
            assert_eq!(chunks.len() * chunk_size, 8 * length);
            assert!(chunks.iter().all(|chunk| (*chunk as u32) < (1u32 << chunk_size)));
            assert_eq!(chunks_to_bytes(&chunks, chunk_size), bytes);
        }
    }
    for byte in 0..=255u8 {
        for chunk_size in [1usize, 2, 4, 8] {
            assert_eq!(chunks_to_bytes(&bytes_to_chunks(&[byte], chunk_size), chunk_size), vec![byte]);
        }
    }
}

#[test]
fn test_apply_known_answer_128x3() {
    let mut parameter = [0u8; 16];
    let mut randomness = [0u8; 16];
    for i in 0..16 {
        parameter[i] = i as u8;
        randomness[i] = 16 + i as u8;
    }
    let message = [0u8; MESSAGE_LENGTH];
    let chunks = Sha256MessageHash128x3::apply(&parameter, 13, &randomness, &message);
    assert_eq!(
        chunks,
        vec![108, 103, 9, 226, 120, 98, 182, 66, 45, 20, 57, 209, 178, 251, 128, 138]
    );
}

#[test]
fn test_apply_known_answer_192x3() {
    let mut parameter = [0u8; 24];
    let mut randomness = [0u8; 24];
    for i in 0..24 {
        parameter[i] = i as u8;
        randomness[i] = 50 + i as u8;
    }
    let mut message = [0u8; MESSAGE_LENGTH];
    for (i, byte) in message.iter_mut().enumerate() {
        *byte = i as u8;
    }
    let chunks = Sha256MessageHash192x3::apply(&parameter, 0x0102_0304, &randomness, &message);
    assert_eq!(
        chunks,
        vec![
            15, 9, 7, 10, 10, 11, 1, 2, 1, 10, 6, 6, 6, 14, 4, 2, 15, 11, 14, 6, 10, 10, 2, 4, 7,
            2, 10, 5, 15, 13, 9, 0, 1, 11, 12, 5, 3, 8, 9, 3, 15, 3, 7, 5, 0, 5, 7, 5
        ]
    );
}

#[test]
fn test_apply_chunks_cover_the_digest() {
    let mut rng = thread_rng();
    for _ in 0..20 {
        let mut parameter = [0u8; 24];
        rng.fill(&mut parameter);
        let mut message = [0u8; MESSAGE_LENGTH];
        rng.fill(&mut message);
        let epoch: u32 = rng.gen();
        let randomness = Sha256MessageHash192x3::rand(&mut rng);

        let mut hasher = Sha256::new();
        hasher.update(parameter);
        hasher.update([0x02]);
        hasher.update(epoch.to_le_bytes());
        hasher.update(randomness);
        hasher.update(message);
        let digest = hasher.finalize();

        let chunks = Sha256MessageHash192x3::apply(&parameter, epoch, &randomness, &message);
        assert_eq!(chunks_to_bytes(&chunks, 4), digest[..24].to_vec());

        let bits = Sha256MessageHash::<24, 24, 192, 1>::apply(&parameter, epoch, &randomness, &message);
        assert_eq!(bits.len(), 192);
        assert_eq!(chunks_to_bytes(&bits, 1), digest[..24].to_vec());

        let pairs = Sha256MessageHash::<24, 24, 64, 2>::apply(&parameter, epoch, &randomness, &message);
        assert_eq!(pairs.len(), 64);
        assert_eq!(chunks_to_bytes(&pairs, 2), digest[..16].to_vec());
    }
}

#[test]
fn test_apply_chunks_that_end_inside_a_byte() {
    let mut parameter = [0u8; 16];
    let mut randomness = [0u8; 16];
    for i in 0..16 {
        parameter[i] = i as u8;
        randomness[i] = 16 + i as u8;
    }
    let message = [0u8; MESSAGE_LENGTH];
    // the digest starts with the bytes 108, 103, 9: 0x6c, 0x67, 0x09
    let three = Sha256MessageHash::<16, 16, 3, 4>::apply(&parameter, 13, &randomness, &message);
    assert_eq!(three, vec![0x6, 0xc, 0x6]);
    let five = Sha256MessageHash::<16, 16, 5, 4>::apply(&parameter, 13, &randomness, &message);
    assert_eq!(five, vec![0x6, 0xc, 0x6, 0x7, 0x0]);
    let bits = Sha256MessageHash::<16, 16, 11, 1>::apply(&parameter, 13, &randomness, &message);
    assert_eq!(bits, vec![0, 1, 1, 0, 1, 1, 0, 0, 0, 1, 1]);
    let pairs = Sha256MessageHash::<16, 16, 7, 2>::apply(&parameter, 13, &randomness, &message);
    assert_eq!(pairs, vec![1, 2, 3, 0, 1, 2, 1]);
    let one = Sha256MessageHash::<16, 16, 1, 1>::apply(&parameter, 13, &randomness, &message);
    assert_eq!(one, vec![0]);
    let none = Sha256MessageHash::<16, 16, 0, 4>::apply(&parameter, 13, &randomness, &message);
    assert_eq!(none, Vec::<u8>::new());
}

#[test]
fn test_apply_gives_the_leading_bits_of_the_digest() {
    let mut rng = thread_rng();
    for _ in 0..20 {
        let mut parameter = [0u8; 16];
        rng.fill(&mut parameter);
        let mut message = [0u8; MESSAGE_LENGTH];
        rng.fill(&mut message);
        let epoch: u32 = rng.gen();
        let randomness = Sha256MessageHash::<16, 16, 255, 1>::rand(&mut rng);

        let mut hasher = Sha256::new();
        hasher.update(parameter);
        hasher.update([0x02]);
        hasher.update(epoch.to_le_bytes());
        hasher.update(randomness);
        hasher.update(message);
        let digest = hasher.finalize();
        let digest_bits: Vec<u8> =
            (0..256).map(|bit| (digest[bit / 8] >> (7 - bit % 8)) & 1).collect();

        let bits = Sha256MessageHash::<16, 16, 255, 1>::apply(&parameter, epoch, &randomness, &message);
        assert_eq!(bits, digest_bits[..255].to_vec());

        let nibbles = Sha256MessageHash::<16, 16, 63, 4>::apply(&parameter, epoch, &randomness, &message);
        assert_eq!(nibbles.len(), 63);
        for (i, nibble) in nibbles.iter().enumerate() {
            for j in 0..4 {
                assert_eq!((nibble >> (3 - j)) & 1, digest_bits[4 * i + j]);
            }
        }

        let pairs = Sha256MessageHash::<16, 16, 21, 2>::apply(&parameter, epoch, &randomness, &message);
        assert_eq!(pairs.len(), 21);
        for (i, pair) in pairs.iter().enumerate() {
            for j in 0..2 {
                assert_eq!((pair >> (1 - j)) & 1, digest_bits[2 * i + j]);
            }
        }
    }
}

#[test]
fn test_message_hash_depends_on_every_input() {
    let parameter = [1u8; 16];
    let randomness = [2u8; 16];
    let message = [3u8; MESSAGE_LENGTH];
    let chunks = Sha256MessageHash128x3::apply(&parameter, 13, &randomness, &message);
    assert_ne!(Sha256MessageHash128x3::apply(&[0u8; 16], 13, &randomness, &message), chunks);
    assert_ne!(Sha256MessageHash128x3::apply(&parameter, 14, &randomness, &message), chunks);
    assert_ne!(Sha256MessageHash128x3::apply(&parameter, 13 << 8, &randomness, &message), chunks);
    assert_ne!(Sha256MessageHash128x3::apply(&parameter, 13, &[0u8; 16], &message), chunks);
    assert_ne!(Sha256MessageHash128x3::apply(&parameter, 13, &randomness, &[0u8; 32]), chunks);
    assert_eq!(Sha256MessageHash128x3::apply(&parameter, 13, &randomness, &message), chunks);
}

#[test]
fn test_is_consistent_lengths() {
    assert!(Sha256MessageHash::<31, 31, 31, 8>::is_consistent());
    assert!(Sha256MessageHash::<0, 1, 8, 1>::is_consistent());
    // parameter as long as the digest
    assert!(!Sha256MessageHash::<32, 16, 16, 8>::is_consistent());
    // randomness as long as the digest
    assert!(!Sha256MessageHash::<16, 32, 16, 8>::is_consistent());
    // no randomness
    assert!(!Sha256MessageHash::<16, 0, 16, 8>::is_consistent());
    // chunks as long as the digest
    assert!(!Sha256MessageHash::<16, 16, 32, 8>::is_consistent());
    assert!(!Sha256MessageHash::<16, 16, 64, 4>::is_consistent());
    assert!(!Sha256MessageHash::<16, 16, 256, 1>::is_consistent());
    assert!(!Sha256MessageHash::<16, 16, 1_000_000, 8>::is_consistent());
}

#[test]
fn test_is_consistent_chunks() {
    // chunk sizes other than 1, 2, 4 and 8
    assert!(!Sha256MessageHash::<16, 16, 16, 0>::is_consistent());
    assert!(!Sha256MessageHash::<16, 16, 16, 3>::is_consistent());
    assert!(!Sha256MessageHash::<16, 16, 8, 16>::is_consistent());
    // chunks need not fill a whole number of bytes
    assert!(Sha256MessageHash::<16, 16, 3, 1>::is_consistent());
    assert!(Sha256MessageHash::<16, 16, 3, 4>::is_consistent());
    assert!(Sha256MessageHash::<16, 16, 9, 4>::is_consistent());
    assert!(Sha256MessageHash::<16, 16, 2, 2>::is_consistent());
    assert!(Sha256MessageHash::<16, 16, 255, 1>::is_consistent());
    assert!(Sha256MessageHash::<16, 16, 4, 2>::is_consistent());
    assert!(Sha256MessageHash::<16, 16, 0, 8>::is_consistent());
}

#[test]
fn test_sha_rand_not_all_same() {
    let mut rng = thread_rng();
    const K: usize = 10;
    let first = Sha256MessageHash128x3::rand(&mut rng);
    let mut same_as_first = 1;
    let mut all_bytes_identical = 0;
    for _ in 1..K {
        let randomness = Sha256MessageHash128x3::rand(&mut rng);
        if randomness == first {
            same_as_first += 1;
        }
        if randomness.iter().all(|byte| *byte == randomness[0]) {
            all_bytes_identical += 1;
        }
    }
    assert!(same_as_first < K);
    assert!(all_bytes_identical < K);
}
