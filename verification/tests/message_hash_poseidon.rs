use hashsig::symmetric::message_hash::poseidon::decode_to_chunks;
use hashsig::symmetric::message_hash::poseidon::encode_epoch;
use hashsig::symmetric::message_hash::poseidon::encode_message;
use hashsig::symmetric::message_hash::poseidon::field_digits;
use hashsig::symmetric::message_hash::poseidon::push_elements;
use hashsig::symmetric::message_hash::poseidon::PoseidonMessageHash;
use hashsig::symmetric::message_hash::poseidon::PoseidonMessageHash445;
use hashsig::symmetric::message_hash::poseidon::PoseidonMessageHashW1;
use hashsig::symmetric::message_hash::poseidon::COMPRESSION_WIDTH;
use hashsig::symmetric::message_hash::poseidon::FIELD_MODULUS;
use hashsig::symmetric::message_hash::radix::digits;
use hashsig::symmetric::message_hash::radix::div_small;
use hashsig::symmetric::message_hash::radix::is_zero;
use hashsig::symmetric::message_hash::radix::mul_small_add;
use hashsig::symmetric::message_hash::radix::power;
use hashsig::symmetric::message_hash::radix::power_minus_one;
use hashsig::symmetric::message_hash::radix::reaches_power_of_two;
use hashsig::MESSAGE_LENGTH;
use rand::thread_rng;
use rand::Rng;

fn le_value(bytes: &[u8]) -> u128 {
    bytes.iter().rev().fold(0u128, |value, byte| (value << 8) | *byte as u128)
}

#[test]
fn test_field_modulus() {
    assert_eq!(FIELD_MODULUS, (1u32 << 31) - (1u32 << 27) + 1);
    assert_eq!(COMPRESSION_WIDTH, 24);
}

#[test]
fn test_div_small() {
    let mut number = vec![0x78, 0x56, 0x34, 0x12];
    let remainder = div_small(&mut number, 1000);
    assert_eq!(remainder, 0x1234_5678 % 1000);
    assert_eq!(number.len(), 4);
    assert_eq!(le_value(&number), 0x1234_5678 / 1000);

    let mut number = vec![255u8; 16];
    let remainder = div_small(&mut number, FIELD_MODULUS);
    assert_eq!(remainder as u128, u128::MAX % FIELD_MODULUS as u128);
    assert_eq!(le_value(&number), u128::MAX / FIELD_MODULUS as u128);

    let mut number = vec![7u8, 0, 0];
    assert_eq!(div_small(&mut number, 1), 0);
    assert_eq!(number, vec![7, 0, 0]);
    assert_eq!(div_small(&mut number, u32::MAX), 7);
    assert_eq!(number, vec![0, 0, 0]);

    let mut number: Vec<u8> = Vec::new();
    assert_eq!(div_small(&mut number, 5), 0);
    assert!(number.is_empty());
}

#[test]
fn test_div_small_random() {
    let mut rng = thread_rng();
    for _ in 0..1000 {
        let value: u128 = rng.gen();
        let divisor: u32 = rng.gen_range(1..=u32::MAX);
        let mut number = value.to_le_bytes().to_vec();
        let remainder = div_small(&mut number, divisor);
        assert_eq!(remainder as u128, value % divisor as u128);
        assert_eq!(le_value(&number), value / divisor as u128);
    }
}

#[test]
fn test_mul_small_add() {
    let mut number: Vec<u8> = Vec::new();
    mul_small_add(&mut number, 12345, 7);
    assert_eq!(le_value(&number), 7);
    mul_small_add(&mut number, 1000, 999);
    assert_eq!(le_value(&number), 7999);
    mul_small_add(&mut number, u32::MAX, u32::MAX);
    assert_eq!(le_value(&number), 7999 * u32::MAX as u128 + u32::MAX as u128);
    mul_small_add(&mut number, 0, 0);
    assert_eq!(le_value(&number), 0);

    let mut rng = thread_rng();
    for _ in 0..1000 {
        let value: u64 = rng.gen();
        let factor: u32 = rng.gen();
        let addend: u32 = rng.gen();
        let mut number = value.to_le_bytes().to_vec();
        mul_small_add(&mut number, factor, addend);
        assert_eq!(le_value(&number), value as u128 * factor as u128 + addend as u128);
    }
}

#[test]
fn test_digits() {
    assert_eq!(digits(vec![0xd2, 0x04], 10, 6), vec![4, 3, 2, 1, 0, 0]);
    assert_eq!(digits(vec![0xd2, 0x04], 10, 2), vec![4, 3]);
    assert_eq!(digits(vec![0xd2, 0x04], 10, 0), Vec::<u32>::new());
    assert_eq!(digits(vec![0xab, 0xcd], 16, 4), vec![0xb, 0xa, 0xd, 0xc]);
    assert_eq!(digits(vec![], 7, 3), vec![0, 0, 0]);
}

#[test]
fn test_power() {
    assert_eq!(le_value(&power(10, 0)), 1);
    assert_eq!(le_value(&power(10, 5)), 100_000);
    assert_eq!(le_value(&power(0, 3)), 0);
    assert_eq!(le_value(&power(0, 0)), 1);
    assert_eq!(le_value(&power(FIELD_MODULUS, 3)), (FIELD_MODULUS as u128).pow(3));
    assert_eq!(le_value(&power_minus_one(10, 0)), 0);
    assert_eq!(le_value(&power_minus_one(10, 5)), 99_999);
    assert_eq!(le_value(&power_minus_one(FIELD_MODULUS, 3)), (FIELD_MODULUS as u128).pow(3) - 1);
    assert_eq!(le_value(&power_minus_one(1, 9)), 0);
}

#[test]
fn test_is_zero_and_reaches_power_of_two() {
    assert!(is_zero(&vec![]));
    assert!(is_zero(&vec![0, 0, 0]));
    assert!(!is_zero(&vec![0, 0, 1]));
    assert!(reaches_power_of_two(vec![1], 0));
    assert!(!reaches_power_of_two(vec![], 0));
    assert!(!reaches_power_of_two(vec![255], 8));
    assert!(reaches_power_of_two(vec![0, 1], 8));
    assert!(reaches_power_of_two(vec![0, 1], 7));
    assert!(!reaches_power_of_two(vec![0, 1], 9));
    assert!(reaches_power_of_two(vec![0, 0x10], 12));
    assert!(!reaches_power_of_two(vec![0xff, 0x0f], 12));
    assert!(!reaches_power_of_two(vec![0xff, 0x0f], 1000));
    assert!(reaches_power_of_two(power(FIELD_MODULUS, 9), 256));
    assert!(!reaches_power_of_two(power(FIELD_MODULUS, 8), 256));
    assert!(reaches_power_of_two(power(FIELD_MODULUS, 5), 154));
    assert!(!reaches_power_of_two(power(FIELD_MODULUS, 5), 155));
}

#[test]
fn test_encode_message_all_zeros() {
    // Message
    let message = [0u8; 32];

    // Expected = 9 zeros, as 9 * 31 >= 8 * 32
    let expected = [0u32; 9];

    let computed = encode_message::<9>(&message);
    assert_eq!(computed, expected);
}

#[test]
fn test_encode_message_all_max() {
    // Message
    let message = [u8::MAX; 32];

    // the digits of 2^256 - 1 in the base of the field
    let expected = [
        632010851, 1757680738, 1258182720, 429180686, 1076787967, 6855327, 1122754259, 24780238,
        429,
    ];

    let computed = encode_message::<9>(&message);
    assert_eq!(computed, expected);
}

#[test]
fn test_encode_message_mixed_bytes() {
    // Alternating 0x00 and 0xFF
    let mut message = [0u8; 32];
    for (i, byte) in message.iter_mut().enumerate() {
        *byte = if i % 2 == 0 { 0x00 } else { 0xFF };
    }

    let expected = [
        34188980, 238933643, 798931335, 858365297, 1636625937, 1957424817, 76500866, 690549978,
        427,
    ];

    let computed = encode_message::<9>(&message);
    assert_eq!(computed, expected);
}

#[test]
fn test_encode_message_rebuilds_the_message() {
    let mut rng = thread_rng();
    for _ in 0..200 {
        let mut message = [0u8; MESSAGE_LENGTH];
        rng.fill(&mut message);
        let elements = encode_message::<9>(&message);
        assert!(elements.iter().all(|element| *element < FIELD_MODULUS));
        let mut number: Vec<u8> = Vec::new();
        for element in elements.iter().rev() {
            mul_small_add(&mut number, FIELD_MODULUS, *element);
        }
        number.resize(MESSAGE_LENGTH, 0);
        assert_eq!(number, message.to_vec());
    }
}

#[test]
fn test_encode_message_shorter_keeps_the_low_digits() {
    let mut message = [0u8; MESSAGE_LENGTH];
    for (i, byte) in message.iter_mut().enumerate() {
        *byte = i as u8;
    }
    let whole = encode_message::<9>(&message);
    assert_eq!(
        whole,
        [
            261538766, 891985415, 1454058643, 1524538331, 1547278864, 1666061957, 1131512338,
            297640930, 52
        ]
    );
    assert_eq!(encode_message::<3>(&message), [261538766, 891985415, 1454058643]);
    assert_eq!(encode_message::<0>(&message), [0u32; 0]);
    let longer = encode_message::<11>(&message);
    assert_eq!(&longer[..9], &whole[..]);
    assert_eq!(&longer[9..], &[0, 0]);
}

#[test]
fn test_encode_epoch() {
    assert_eq!(encode_epoch::<2>(13), [3330, 0]);
    assert_eq!(encode_epoch::<2>(0), [2, 0]);
    assert_eq!(encode_epoch::<2>(u32::MAX), [268434656, 546]);
    assert_eq!(encode_epoch::<3>(u32::MAX), [268434656, 546, 0]);
    assert_eq!(encode_epoch::<1>(u32::MAX), [268434656]);
    assert_ne!(encode_epoch::<2>(13), encode_epoch::<2>(14));
}

#[test]
fn test_field_digits() {
    assert_eq!(field_digits::<2>(vec![1, 0, 0, 0x78]), [0, 1]);
    assert_eq!(field_digits::<2>(vec![0, 0, 0, 0x78]), [FIELD_MODULUS - 1, 0]);
    assert_eq!(field_digits::<3>(vec![]), [0, 0, 0]);
}

#[test]
fn test_decode_to_chunks() {
    let mut expected = vec![0u8; 128];
    let low = [
        3, 3, 0, 0, 0, 0, 0, 0, 0, 0, 0, 0, 0, 0, 2, 1, 1, 2, 0, 0, 0, 0, 0, 0, 0, 0, 0, 3, 3, 2,
        0, 1, 3, 0, 0, 0, 0, 0, 0, 0, 0, 1, 3, 0, 2, 3, 1, 2, 0, 0, 0, 0, 0, 0, 1, 0, 0, 3, 1, 1,
        0, 3,
    ];
    expected[..low.len()].copy_from_slice(&low);
    assert_eq!(decode_to_chunks::<128, 2, 5>(&[1, 2, 3, 4, 5]), expected);
    assert_eq!(
        decode_to_chunks::<20, 8, 5>(&[1, 2, 3, 4, 5]),
        vec![15, 0, 0, 96, 9, 0, 192, 75, 3, 0, 52, 158, 0, 16, 92, 12, 0, 0, 0, 0]
    );
    assert_eq!(decode_to_chunks::<4, 8, 1>(&[0x0102_0304]), vec![4, 3, 2, 1]);
    assert_eq!(decode_to_chunks::<8, 4, 1>(&[0x0102_0304]), vec![4, 0, 3, 0, 2, 0, 1, 0]);
    assert_eq!(decode_to_chunks::<3, 1, 1>(&[0b110]), vec![0, 1, 1]);
    assert_eq!(decode_to_chunks::<3, 8, 0>(&[]), vec![0, 0, 0]);
    assert_eq!(decode_to_chunks::<0, 8, 1>(&[77]), Vec::<u8>::new());
}

#[test]
fn test_decode_to_chunks_loses_nothing() {
    let mut rng = thread_rng();
    for _ in 0..100 {
        let mut hash = [0u32; 5];
        for element in hash.iter_mut() {
            *element = rng.gen_range(0..FIELD_MODULUS);
        }
        let chunks = PoseidonMessageHash445::decode(&hash);
        assert_eq!(chunks.len(), 128);
        assert!(chunks.iter().all(|chunk| *chunk < 4));
        // pack the chunks into bytes and read the hash back from them
        let mut number: Vec<u8> = Vec::new();
        for chunk in chunks.iter().rev() {
            mul_small_add(&mut number, 4, *chunk as u32);
        }
        let mut read_back = digits(number, FIELD_MODULUS, 5);
        read_back.reverse();
        assert_eq!(read_back, hash.to_vec());

        let bits = PoseidonMessageHashW1::decode(&hash);
        assert_eq!(bits.len(), 163);
        assert!(bits.iter().all(|bit| *bit < 2));
        let mut other = hash;
        other[4] ^= 1;
        assert_ne!(PoseidonMessageHashW1::decode(&other), bits);
    }
}

#[test]
fn test_poseidon_consistency_check() {
    assert!(PoseidonMessageHash445::is_consistent());
    PoseidonMessageHash445::internal_consistency_check();
    assert!(PoseidonMessageHashW1::is_consistent());
    PoseidonMessageHashW1::internal_consistency_check();
    // eight field elements cannot hold a message of 256 bits
    assert!(!PoseidonMessageHash::<4, 4, 5, 128, 2, 2, 8>::is_consistent());
    // one field element cannot hold an epoch with its separator
    assert!(!PoseidonMessageHash::<4, 4, 5, 128, 2, 1, 9>::is_consistent());
    // 154 bits cannot hold five field elements, 155 can
    assert!(!PoseidonMessageHash::<4, 4, 5, 77, 2, 2, 9>::is_consistent());
    assert!(!PoseidonMessageHash::<4, 4, 5, 154, 1, 2, 9>::is_consistent());
    assert!(PoseidonMessageHash::<4, 4, 5, 155, 1, 2, 9>::is_consistent());
    assert!(PoseidonMessageHash::<4, 4, 5, 20, 8, 2, 9>::is_consistent());
    assert!(!PoseidonMessageHash::<4, 4, 5, 19, 8, 2, 9>::is_consistent());
    // more field elements than the compression takes
    assert!(!PoseidonMessageHash::<7, 7, 5, 128, 2, 2, 9>::is_consistent());
    assert!(PoseidonMessageHash::<7, 6, 5, 128, 2, 2, 9>::is_consistent());
    assert!(!PoseidonMessageHash::<4, 4, 5, 128, 2, 2, 25>::is_consistent());
    // chunk sizes other than 1, 2, 4 and 8
    assert!(!PoseidonMessageHash::<4, 4, 5, 128, 3, 2, 9>::is_consistent());
    assert!(!PoseidonMessageHash::<4, 4, 5, 128, 0, 2, 9>::is_consistent());
    // far more field elements in the hash than bits in the chunks
    assert!(!PoseidonMessageHash::<4, 4, 1_000_000_000, 128, 2, 2, 9>::is_consistent());
    // no field element in the hash
    assert!(PoseidonMessageHash::<4, 4, 0, 0, 8, 2, 9>::is_consistent());
}

#[test]
fn test_hash_input() {
    let parameter = [11u32, 12, 13, 14];
    let randomness = [21u32, 22, 23, 24];
    let mut message = [0u8; MESSAGE_LENGTH];
    for (i, byte) in message.iter_mut().enumerate() {
        *byte = if i % 2 == 0 { 0x00 } else { 0xFF };
    }
    let input = PoseidonMessageHash445::hash_input(&parameter, 13, &randomness, &message);
    assert_eq!(
        input,
        vec![
            21, 22, 23, 24, 11, 12, 13, 14, 3330, 0, 34188980, 238933643, 798931335, 858365297,
            1636625937, 1957424817, 76500866, 690549978, 427
        ]
    );
    assert!(input.len() <= COMPRESSION_WIDTH);
}

#[test]
fn test_push_elements() {
    let mut buffer = vec![1u32, 2];
    push_elements(&mut buffer, &[3, 4, 5]);
    push_elements(&mut buffer, &[]);
    assert_eq!(buffer, vec![1, 2, 3, 4, 5]);
}

#[test]
fn test_rand_not_all_same() {
    let mut rng = thread_rng();
    // Setup a number of trials
    const K: usize = 10;
    let mut all_same_count = 0;

    for _ in 0..K {
        let randomness = PoseidonMessageHash445::rand(&mut rng);
        assert!(randomness.iter().all(|element| *element < FIELD_MODULUS));

        // Check if all elements in `randomness` are identical
        let first = randomness[0];
        if randomness.iter().all(|&x| x == first) {
            all_same_count += 1;
        }
    }

    // If all K trials resulted in identical values, fail the test
    assert!(
        all_same_count < K,
        "rand generated identical elements in all {} trials",
        K
    );
}
