use parallelhash::parallel_hash::{leaf_digest, parallel_hash128, ConfigError, ParallelHash};
use parallelhash::utils::Hasher;
use sha3::digest::{ExtendableOutput, Update};
use sha3::{CShake128, CShake128Core, Shake128};

fn digits(mut val: u64) -> Vec<u8> {
    let mut out = Vec::new();
    while val > 0 {
        out.insert(0, (val & 0xFF) as u8);
        val >>= 8;
    }
    out
}

fn reference_left_encode(val: u64) -> Vec<u8> {
    let mut d = digits(val);
    if d.is_empty() {
        d.push(0);
    }
    d.insert(0, d.len() as u8);
    d
}

fn reference_right_encode(val: u64) -> Vec<u8> {
    let mut d = digits(val);
    d.push(d.len() as u8);
    d
}

/// The construction written out with the hash crate alone.
fn reference(custom: &[u8], block_size: usize, message: &[u8], output_len: usize) -> Vec<u8> {
    let mut outer =
        CShake128::from_core(CShake128Core::new_with_function_name(b"ParallelHash", custom));
    outer.update(&reference_left_encode(block_size as u64));
    let mut count: u64 = 0;
    for chunk in message.chunks(block_size) {
        let mut leaf = [0u8; 32];
        let mut inner = Shake128::default();
        inner.update(chunk);
        inner.finalize_xof_into(&mut leaf);
        outer.update(&leaf);
        count += 1;
    }
    outer.update(&reference_right_encode(count));
    outer.update(&reference_right_encode(output_len as u64 * 8));
    let mut out = vec![0u8; output_len];
    outer.finalize_xof_into(&mut out);
    out
}

fn hash_in_pieces(
    custom: &[u8],
    block_size: usize,
    pieces: &[&[u8]],
    output_len: usize,
) -> Vec<u8> {
    let mut hasher = ParallelHash::new_with_custom_string(custom, block_size).unwrap();
    for piece in pieces {
        hasher.update(piece);
    }
    let mut out = vec![0u8; output_len];
    hasher.finalize(&mut out);
    out
}

fn sample_data(len: usize) -> Vec<u8> {
    let mut data = Vec::with_capacity(len);
    let mut x: u32 = 0x1234_5678;
    for _ in 0..len {
        x = x.wrapping_mul(1_664_525).wrapping_add(1_013_904_223);
        data.push((x >> 24) as u8);
    }
    data
}

#[test]
fn zero_block_size_is_a_configuration_error() {
    assert!(matches!(ParallelHash::new(0), Err(ConfigError::ZeroBlockSize)));
    assert!(matches!(
        ParallelHash::new_with_custom_string(b"custom", 0),
        Err(ConfigError::ZeroBlockSize)
    ));
    assert_eq!(ParallelHash::new(0).err(), Some(ConfigError::ZeroBlockSize));
}

#[test]
fn positive_block_sizes_are_accepted() {
    assert!(ParallelHash::new(1).is_ok());
    assert!(ParallelHash::new(5).is_ok());
    assert!(ParallelHash::new(usize::MAX).is_ok());
    assert!(ParallelHash::new_with_custom_string(b"Parallel Data", 8).is_ok());
}

#[test]
fn one_shot_rejects_zero_block_size_and_leaves_the_output() {
    let mut out = [0x5Au8; 16];
    assert_eq!(
        parallel_hash128(b"", 0, b"msg to hash", &mut out),
        Err(ConfigError::ZeroBlockSize)
    );
    assert_eq!(out, [0x5Au8; 16]);
}

#[test]
fn end_to_end_split_3_2_1_4_1() {
    let mut whole = [0u8; 32];
    let mut hasher = ParallelHash::new(5).unwrap();
    hasher.update(b"msg to hash");
    hasher.finalize(&mut whole);

    let mut split = [0u8; 32];
    let mut hasher = ParallelHash::new(5).unwrap();
    hasher.update(b"msg");
    hasher.update(b" t");
    hasher.update(b"o");
    hasher.update(b" has");
    hasher.update(b"h");
    hasher.finalize(&mut split);

    assert_eq!(whole, split);
    assert_ne!(whole, [0u8; 32]);
    assert_eq!(whole.to_vec(), reference(b"", 5, b"msg to hash", 32));
}

#[test]
fn one_byte_per_call_gives_the_same_digest() {
    let message = sample_data(100);
    for block_size in [1usize, 2, 3, 7, 8, 32, 99, 100, 101, 1000] {
        let whole = hash_in_pieces(b"abc", block_size, &[&message], 48);
        let bytes: Vec<&[u8]> = message.chunks(1).collect();
        assert_eq!(hash_in_pieces(b"abc", block_size, &bytes, 48), whole);
        assert_eq!(whole, reference(b"abc", block_size, &message, 48));
    }
}

#[test]
fn every_two_way_split_gives_the_same_digest() {
    let message = sample_data(41);
    let whole = hash_in_pieces(b"", 8, &[&message], 32);
    for cut in 0..=message.len() {
        let (a, b) = message.split_at(cut);
        assert_eq!(hash_in_pieces(b"", 8, &[a, b], 32), whole);
    }
}

#[test]
fn empty_pieces_change_nothing() {
    let message = sample_data(20);
    let whole = hash_in_pieces(b"", 6, &[&message], 32);
    let (a, b) = message.split_at(6);
    assert_eq!(hash_in_pieces(b"", 6, &[b"", a, b"", b"", b, b""], 32), whole);
}

#[test]
fn uneven_pieces_of_a_long_message() {
    let message = sample_data(5000);
    let whole = hash_in_pieces(b"long", 64, &[&message], 64);
    let mut pieces: Vec<&[u8]> = Vec::new();
    let mut rest: &[u8] = &message;
    let mut step = 1;
    while !rest.is_empty() {
        let n = step.min(rest.len());
        let (head, tail) = rest.split_at(n);
        pieces.push(head);
        rest = tail;
        step = step * 3 % 257 + 1;
    }
    assert_eq!(hash_in_pieces(b"long", 64, &pieces, 64), whole);
    assert_eq!(whole, reference(b"long", 64, &message, 64));
}

#[test]
fn empty_message_has_no_blocks() {
    let hasher = ParallelHash::new(5).unwrap();
    assert_eq!(hasher.blocks(), 0);
    let mut out = [0u8; 32];
    hasher.finalize(&mut out);

    let mut outer =
        CShake128::from_core(CShake128Core::new_with_function_name(b"ParallelHash", b""));
    outer.update(&[0x01, 0x05]);
    outer.update(&[0x00]);
    outer.update(&[0x01, 0x00, 0x02]);
    let mut expected = [0u8; 32];
    outer.finalize_xof_into(&mut expected);
    assert_eq!(out, expected);
}

#[test]
fn empty_message_digest_depends_on_the_parameters_only() {
    let a = hash_in_pieces(b"c", 9, &[], 32);
    let b = hash_in_pieces(b"c", 9, &[b""], 32);
    let c = hash_in_pieces(b"c", 9, &[b"", b""], 32);
    assert_eq!(a, b);
    assert_eq!(a, c);
    assert_eq!(a, reference(b"c", 9, b"", 32));
    assert_ne!(a, hash_in_pieces(b"d", 9, &[], 32));
    assert_ne!(a, hash_in_pieces(b"c", 10, &[], 32));
    assert_ne!(a[..16], hash_in_pieces(b"c", 9, &[], 16)[..]);
}

#[test]
fn output_has_the_length_asked_for() {
    let message = sample_data(33);
    for n in [0usize, 1, 2, 16, 31, 32, 33, 64, 167, 168, 169, 500] {
        let out = hash_in_pieces(b"", 8, &[&message], n);
        assert_eq!(out.len(), n);
        assert_eq!(out, reference(b"", 8, &message, n));
        if n >= 16 {
            assert!(out.iter().any(|b| *b != 0));
        }
    }
}

#[test]
fn output_fills_the_whole_buffer() {
    let mut out = [0xEEu8; 200];
    let mut hasher = ParallelHash::new(8).unwrap();
    hasher.update(b"fill");
    hasher.finalize(&mut out);
    assert_eq!(out.to_vec(), reference(b"", 8, b"fill", 200));
    assert_ne!(out[190..], [0xEEu8; 10]);
}

#[test]
fn shorter_output_is_not_a_prefix_of_longer_output() {
    let short = hash_in_pieces(b"", 8, &[b"message"], 16);
    let long = hash_in_pieces(b"", 8, &[b"message"], 32);
    assert_ne!(short[..], long[..16]);
}

#[test]
fn whole_blocks_are_counted_exactly() {
    for block_size in [1usize, 2, 5, 8, 33] {
        for k in [0usize, 1, 2, 3, 10] {
            let message = sample_data(k * block_size);
            let mut hasher = ParallelHash::new(block_size).unwrap();
            hasher.update(&message);
            assert_eq!(hasher.blocks(), k);
            let mut out = [0u8; 32];
            hasher.finalize(&mut out);
            assert_eq!(out.to_vec(), reference(b"", block_size, &message, 32));
        }
    }
}

#[test]
fn open_block_is_not_counted_before_the_end() {
    let mut hasher = ParallelHash::new(4).unwrap();
    hasher.update(b"abc");
    assert_eq!(hasher.blocks(), 0);
    hasher.update(b"d");
    assert_eq!(hasher.blocks(), 1);
    hasher.update(b"efghi");
    assert_eq!(hasher.blocks(), 2);
    hasher.update(b"jkl0123");
    assert_eq!(hasher.blocks(), 4);
    let mut out = [0u8; 32];
    hasher.finalize(&mut out);
    assert_eq!(out.to_vec(), reference(b"", 4, b"abcdefghijkl0123", 32));
}

#[test]
fn room_for_more_input() {
    let mut hasher = ParallelHash::new(1).unwrap();
    assert!(hasher.has_room(0));
    assert!(hasher.has_room(usize::MAX));
    hasher.update(b"a");
    assert!(hasher.has_room(usize::MAX - 1));
    assert!(!hasher.has_room(usize::MAX));

    let mut hasher = ParallelHash::new(2).unwrap();
    hasher.update(b"abc");
    assert!(hasher.has_room(usize::MAX));

    let mut hasher = ParallelHash::new(usize::MAX).unwrap();
    hasher.update(b"abc");
    assert!(hasher.has_room(usize::MAX));
}

#[test]
fn block_size_changes_the_digest() {
    let message = b"msg to hash";
    let five = hash_in_pieces(b"", 5, &[message], 32);
    let six = hash_in_pieces(b"", 6, &[message], 32);
    let large = hash_in_pieces(b"", 1000, &[message], 32);
    let larger = hash_in_pieces(b"", 1001, &[message], 32);
    assert_ne!(five, six);
    assert_ne!(five, large);
    assert_ne!(large, larger);
}

#[test]
fn customization_changes_the_digest() {
    let message = b"msg to hash";
    let plain = hash_in_pieces(b"", 5, &[message], 32);
    let a = hash_in_pieces(b"a", 5, &[message], 32);
    let b = hash_in_pieces(b"b", 5, &[message], 32);
    assert_ne!(plain, a);
    assert_ne!(a, b);
    assert_eq!(a, reference(b"a", 5, message, 32));
}

#[test]
fn message_changes_the_digest() {
    let a = hash_in_pieces(b"", 5, &[b"msg to hash"], 32);
    let b = hash_in_pieces(b"", 5, &[b"msg to hasi"], 32);
    let c = hash_in_pieces(b"", 5, &[b"msg to has"], 32);
    let d = hash_in_pieces(b"", 5, &[b"Msg to hash"], 32);
    assert_ne!(a, b);
    assert_ne!(a, c);
    assert_ne!(a, d);
}

#[test]
fn order_of_blocks_matters() {
    let a = hash_in_pieces(b"", 4, &[b"aaaabbbb"], 32);
    let b = hash_in_pieces(b"", 4, &[b"bbbbaaaa"], 32);
    assert_ne!(a, b);
}

#[test]
fn leaf_digest_is_shake128_at_32_bytes() {
    for block in [&b""[..], &b"a"[..], &b"msg t"[..], &sample_data(400)[..]] {
        let mut expected = [0u8; 32];
        let mut inner = Shake128::default();
        inner.update(block);
        inner.finalize_xof_into(&mut expected);
        assert_eq!(leaf_digest(block), expected);
    }
}

#[test]
fn leaf_digest_of_empty_block() {
    assert_eq!(
        hex::encode(leaf_digest(b"")),
        "7f9c2ba4e88f827d616045507605853ed73b8093f6efbc88eb1a6eacfa66ef26"
    );
}

#[test]
fn leaf_width_does_not_follow_the_output_length() {
    let message = sample_data(24);
    for n in [8usize, 32, 64] {
        assert_eq!(hash_in_pieces(b"", 8, &[&message], n), reference(b"", 8, &message, n));
    }
}

#[test]
fn one_shot_equals_streaming() {
    let message = sample_data(77);
    let mut out = [0u8; 40];
    assert_eq!(parallel_hash128(b"one", 10, &message, &mut out), Ok(()));
    assert_eq!(out.to_vec(), hash_in_pieces(b"one", 10, &[&message[..30], &message[30..]], 40));
    assert_eq!(out.to_vec(), reference(b"one", 10, &message, 40));
}

#[test]
fn one_shot_msg_to_hash() {
    let mut out = [0u8; 32];
    assert_eq!(parallel_hash128(&[], 5, b"msg to hash", &mut out), Ok(()));
    let mut streamed = [0u8; 32];
    let mut hasher = ParallelHash::new(5).unwrap();
    hasher.update(b"msg to hash");
    hasher.finalize(&mut streamed);
    assert_eq!(out, streamed);
}

#[test]
fn new_is_new_with_empty_custom_string() {
    let mut a = [0u8; 32];
    let mut hasher = ParallelHash::new(7).unwrap();
    hasher.update(b"same");
    hasher.finalize(&mut a);
    let mut b = [0u8; 32];
    let mut hasher = ParallelHash::new_with_custom_string(b"", 7).unwrap();
    hasher.update(b"same");
    hasher.finalize(&mut b);
    assert_eq!(a, b);
}

#[test]
fn sp800_185_sample_1() {
    let data: Vec<u8> = hex::decode("000102030405060710111213141516172021222324252627").unwrap();
    let out = hash_in_pieces(b"", 8, &[&data], 32);
    assert_eq!(
        hex::encode(out),
        "ba8dc1d1d979331d3f813603c67f72609ab5e44b94a0b8f9af46514454a2b4f5"
    );
}

#[test]
fn sp800_185_sample_2() {
    let data: Vec<u8> = hex::decode("000102030405060710111213141516172021222324252627").unwrap();
    let out = hash_in_pieces(b"Parallel Data", 8, &[&data], 32);
    assert_eq!(
        hex::encode(out),
        "fc484dcb3f84dceedc353438151bee58157d6efed0445a81f165e495795b7206"
    );
}

#[test]
fn sp800_185_sample_3() {
    let mut data: Vec<u8> = Vec::new();
    for row in 0u8..6 {
        for col in 0u8..12 {
            data.push(row * 16 + col);
        }
    }
    let out = hash_in_pieces(b"Parallel Data", 12, &[&data[..13], &data[13..]], 32);
    assert_eq!(
        hex::encode(out),
        "f7fd5312896c6685c828af7e2adb97e393e7f8d54e3c2ea4b95e5aca3796e8fc"
    );
}

#[test]
fn msg_to_hash_with_block_size_5() {
    let out = hash_in_pieces(b"", 5, &[b"msg to hash"], 32);
    assert_eq!(
        hex::encode(out),
        "e2bb6c8895e07460671cfb791c74c591fdf4ae1aaf7356166deed1e4d5e1b11b"
    );
}

fn run<H: Hasher>(mut hasher: H, pieces: &[&[u8]], output: &mut [u8]) {
    for piece in pieces {
        hasher.update(piece);
    }
    hasher.finalize(output);
}

#[test]
fn engine_behind_the_hasher_interface() {
    let mut out = [0u8; 32];
    run(ParallelHash::new(5).unwrap(), &[b"msg t", b"o hash"], &mut out);
    assert_eq!(
        hex::encode(out),
        "e2bb6c8895e07460671cfb791c74c591fdf4ae1aaf7356166deed1e4d5e1b11b"
    );
}
