use hush::blocks::{
    calcular_blocos, calcular_hash_bloco, combine_blocks, hash_range, sort_blocks, ChunkBloco,
};
use hush::engine::{
    algorithm_tag, choose_algorithm, decode_algorithm, hash_hsha256, hash_hush, hash_sha256,
    hash_with, HashAlgorithm,
};
use hush::error::HushError;
use sha2::Digest;

const EMPTY: &str = "e3b0c44298fc1c149afbf4c8996fb92427ae41e4649b934ca495991b7852b855";
const ABC: &str = "ba7816bf8f01cfea414140de5dae2223b00361a396177a9cb410ff61f20015ad";

fn bytes_150() -> Vec<u8> {
    (0..150u32).map(|i| i as u8).collect()
}

#[test]
fn sha256_of_known_inputs() {
    assert_eq!(hash_sha256(b"", 10), EMPTY);
    assert_eq!(hash_sha256(b"abc", 10), ABC);
    assert_eq!(
        hash_sha256(b"hello world", 4),
        "b94d27b9934d3e08a52e52d7da7dabfac484efe37a5380ee9088f7ace2efcde9"
    );
}

#[test]
fn sha256_does_not_depend_on_buffer_size() {
    let data = bytes_150();
    let expected = "f22b2e614e92d6453612b707385038300293d2cc292b148bc5335754b5ea30fd";
    for buffer in [0usize, 1, 7, 64, 150, 151, 4096] {
        assert_eq!(hash_sha256(&data, buffer), expected);
    }
}

#[test]
fn layout_of_150_bytes_in_blocks_of_100() {
    let blocks = calcular_blocos(150, 100);
    assert_eq!(blocks.len(), 2);
    assert_eq!((blocks[0].n_bloco, blocks[0].inicio_bloco, blocks[0].fim_bloco), (0, 0, 100));
    assert_eq!((blocks[1].n_bloco, blocks[1].inicio_bloco, blocks[1].fim_bloco), (1, 100, 150));
    assert_eq!(blocks[0].hash_bloco, "");
    assert_eq!(blocks[1].hash_bloco, "");
}

#[test]
fn layout_edge_cases() {
    assert_eq!(calcular_blocos(0, 100).len(), 0);
    let exact = calcular_blocos(300, 100);
    assert_eq!(exact.len(), 3);
    assert_eq!((exact[2].inicio_bloco, exact[2].fim_bloco), (200, 300));
    let one = calcular_blocos(100, 100);
    assert_eq!(one.len(), 1);
    assert_eq!((one[0].inicio_bloco, one[0].fim_bloco), (0, 100));
    let huge = calcular_blocos(u64::MAX, u64::MAX - 1);
    assert_eq!(huge.len(), 2);
    assert_eq!((huge[1].inicio_bloco, huge[1].fim_bloco), (u64::MAX - 1, u64::MAX));
}

#[test]
fn layout_is_contiguous_and_adds_up() {
    for (size, len) in [(1u64, 1u64), (10, 3), (1000, 256), (1024, 1024), (1025, 1024), (7, 100)] {
        let blocks = calcular_blocos(size, len);
        let mut at = 0u64;
        let mut total = 0u64;
        for (i, b) in blocks.iter().enumerate() {
            assert_eq!(b.n_bloco, i as u64);
            assert_eq!(b.inicio_bloco, at);
            assert!(b.fim_bloco > b.inicio_bloco);
            assert!(b.fim_bloco - b.inicio_bloco <= len);
            if i + 1 < blocks.len() {
                assert_eq!(b.fim_bloco - b.inicio_bloco, len);
            }
            total += b.fim_bloco - b.inicio_bloco;
            at = b.fim_bloco;
        }
        assert_eq!(at, size);
        assert_eq!(total, size);
    }
}

#[test]
fn block_digest_is_digest_of_its_range() {
    let data = bytes_150();
    let blocks = calcular_blocos(150, 100);
    let mut done = Vec::new();
    for b in blocks {
        done.push(calcular_hash_bloco(&data, b, 16).unwrap());
    }
    assert_eq!(
        done[0].hash_bloco,
        "bce0aff19cf5aa6a7469a30d61d04e4376e4bbf6381052ee9e7f33925c954d52"
    );
    assert_eq!(
        done[1].hash_bloco,
        "ef7421faf1bdfa4203d84d017ef3547424bc789e334a3de82a1a644e6c275383"
    );
    assert_eq!(done[1].n_bloco, 1);
    assert_eq!(done[1].inicio_bloco, 100);
    assert_eq!(done[1].fim_bloco, 150);
}

#[test]
fn block_that_the_data_does_not_hold_fails() {
    let data = b"abc".to_vec();
    let block = |a: u64, b: u64| ChunkBloco {
        n_bloco: 0,
        inicio_bloco: a,
        fim_bloco: b,
        hash_bloco: String::new(),
    };
    assert_eq!(calcular_hash_bloco(&data, block(0, 3), 2).unwrap().hash_bloco, ABC);
    assert_eq!(calcular_hash_bloco(&data, block(3, 3), 2).unwrap().hash_bloco, EMPTY);
    assert_eq!(calcular_hash_bloco(&data, block(1, 1), 0).unwrap().hash_bloco, EMPTY);
    assert_eq!(calcular_hash_bloco(&data, block(0, 10), 2).err(), Some(HushError::IoFailure));
    assert_eq!(calcular_hash_bloco(&data, block(0, 4), 2).err(), Some(HushError::IoFailure));
    assert_eq!(calcular_hash_bloco(&data, block(5, 10), 2).err(), Some(HushError::IoFailure));
    assert_eq!(calcular_hash_bloco(&data, block(2, 1), 2).err(), Some(HushError::IoFailure));
    assert_eq!(calcular_hash_bloco(b"", block(0, 1), 2).err(), Some(HushError::IoFailure));
}

#[test]
fn block_digest_does_not_depend_on_buffer_size() {
    let data = bytes_150();
    let block = || ChunkBloco { n_bloco: 1, inicio_bloco: 100, fim_bloco: 150, hash_bloco: String::new() };
    for buffer in [0usize, 1, 3, 49, 50, 51, 1000] {
        assert_eq!(
            hash_range(&data, block(), buffer).hash_bloco,
            "ef7421faf1bdfa4203d84d017ef3547424bc789e334a3de82a1a644e6c275383"
        );
    }
}

#[test]
fn concrete_case_150_bytes_block_100() {
    let data = bytes_150();
    let digest = hash_hsha256(&data, 10, 100);
    assert_eq!(digest, "ea0c90123fa4b2122fbaeff0a1914022ea30f4504919233d125a8b25a99c13b4");
    let alg = choose_algorithm(150, 100);
    assert_eq!(alg, HashAlgorithm::Hierarchical { block_size: 100 });
    assert_eq!(algorithm_tag(alg, "100B"), "hsha256-100B");
    assert_eq!(hash_hush(&data, "hsha256-100B", 10), Ok(digest));
}

#[test]
fn hierarchical_digest_of_four_blocks() {
    let data: Vec<u8> = (0..1000u32).map(|i| (i % 251) as u8).collect();
    assert_eq!(
        hash_hsha256(&data, 100, 256),
        "117a5bb0a5d039f910f307aaddf7ee166b8e33ef9ba4fe80cf444a0fb2a0b6ea"
    );
}

#[test]
fn block_not_smaller_than_file_gives_plain_digest() {
    let data = bytes_150();
    let plain = hash_sha256(&data, 32);
    assert_eq!(hash_hsha256(&data, 32, 150), plain);
    assert_eq!(hash_hsha256(&data, 32, 151), plain);
    assert_eq!(hash_hsha256(&data, 32, usize::MAX), plain);
    assert_eq!(hash_hsha256(b"", 32, 5), EMPTY);
    assert_eq!(hash_with(&data, HashAlgorithm::Hierarchical { block_size: u64::MAX }, 8), plain);
}

#[test]
fn digest_does_not_depend_on_completion_order() {
    let data: Vec<u8> = (0..1000u32).map(|i| (i % 251) as u8).collect();
    let mut done = Vec::new();
    for b in calcular_blocos(1000, 256) {
        done.push(calcular_hash_bloco(&data, b, 64).unwrap());
    }
    let copy = |v: &Vec<ChunkBloco>, order: &[usize]| -> Vec<ChunkBloco> {
        order
            .iter()
            .map(|&i| ChunkBloco {
                n_bloco: v[i].n_bloco,
                inicio_bloco: v[i].inicio_bloco,
                fim_bloco: v[i].fim_bloco,
                hash_bloco: v[i].hash_bloco.clone(),
            })
            .collect()
    };
    let expected = "117a5bb0a5d039f910f307aaddf7ee166b8e33ef9ba4fe80cf444a0fb2a0b6ea";
    for order in [[0usize, 1, 2, 3], [3, 2, 1, 0], [2, 0, 3, 1], [1, 3, 0, 2]] {
        assert_eq!(combine_blocks(copy(&done, &order)), expected);
        let sorted = sort_blocks(copy(&done, &order));
        let numbers: Vec<u64> = sorted.iter().map(|b| b.n_bloco).collect();
        assert_eq!(numbers, vec![0, 1, 2, 3]);
    }
}

#[test]
fn sorting_keeps_equal_numbers_in_their_order() {
    let mk = |n: u64, tag: &str| ChunkBloco {
        n_bloco: n,
        inicio_bloco: 0,
        fim_bloco: 0,
        hash_bloco: tag.to_string(),
    };
    let sorted = sort_blocks(vec![mk(2, "a"), mk(1, "b"), mk(2, "c"), mk(1, "d"), mk(0, "e")]);
    let tags: Vec<&str> = sorted.iter().map(|b| b.hash_bloco.as_str()).collect();
    assert_eq!(tags, vec!["e", "b", "d", "a", "c"]);
}

#[test]
fn single_block_stands_for_itself() {
    let one = vec![ChunkBloco { n_bloco: 0, inicio_bloco: 0, fim_bloco: 3, hash_bloco: ABC.to_string() }];
    assert_eq!(combine_blocks(one), ABC);
    assert_eq!(combine_blocks(Vec::new()), EMPTY);
}

#[test]
fn algorithm_follows_the_size_threshold() {
    assert_eq!(choose_algorithm(100, 100), HashAlgorithm::Plain);
    assert_eq!(choose_algorithm(0, 100), HashAlgorithm::Plain);
    assert_eq!(choose_algorithm(101, 100), HashAlgorithm::Hierarchical { block_size: 100 });
}

#[test]
fn algorithm_tags_are_read_and_written() {
    assert_eq!(algorithm_tag(HashAlgorithm::Plain, "50MB"), "sha256");
    let blocks_of = |block_size: u64| HashAlgorithm::Hierarchical { block_size };
    assert_eq!(algorithm_tag(blocks_of(52428800), "50MB"), "hsha256-50MB");
    assert_eq!(algorithm_tag(blocks_of(52428800), "50mb"), "hsha256-50mb");
    assert_eq!(algorithm_tag(blocks_of(52428800), "51200KB"), "hsha256-51200KB");
    assert_eq!(algorithm_tag(blocks_of(1024), "1024B"), "hsha256-1024B");
    for literal in ["50MB", "50mb", "51200KB", "52428800B"] {
        assert_eq!(decode_algorithm(&algorithm_tag(blocks_of(52428800), literal)), Ok(blocks_of(52428800)));
    }
    assert_eq!(decode_algorithm("sha256"), Ok(HashAlgorithm::Plain));
    assert_eq!(decode_algorithm("anything"), Ok(HashAlgorithm::Plain));
    assert_eq!(
        decode_algorithm("hsha256-50MB"),
        Ok(HashAlgorithm::Hierarchical { block_size: 52428800 })
    );
    assert_eq!(
        decode_algorithm("hsha256-1kb"),
        Ok(HashAlgorithm::Hierarchical { block_size: 1024 })
    );
    assert_eq!(decode_algorithm("hsha256-"), Err(HushError::InvalidSizeLiteral));
    assert_eq!(decode_algorithm("hsha256-10XB"), Err(HushError::InvalidSizeLiteral));
    assert_eq!(decode_algorithm("hsha256-0B"), Err(HushError::InvalidSizeLiteral));
    assert_eq!(decode_algorithm("hsha256-1-2"), Err(HushError::InvalidSizeLiteral));
}

#[test]
fn hash_hush_dispatches_on_the_tag() {
    let data = bytes_150();
    assert_eq!(hash_hush(&data, "sha256", 10), Ok(hash_sha256(&data, 10)));
    assert_eq!(hash_hush(&data, "hsha256-100B", 10), Ok(hash_hsha256(&data, 10, 100)));
    assert_eq!(hash_hush(&data, "hsha256-1KB", 10), Ok(hash_sha256(&data, 10)));
    assert_eq!(hash_hush(&data, "hsha256-abc", 10), Err(HushError::InvalidSizeLiteral));
}

#[test]
fn digests_agree_with_the_sha2_crate() {
    let data: Vec<u8> = (0..5000u32).map(|i| (i * 7 % 256) as u8).collect();
    let raw = sha2::Sha256::digest(&data);
    let mut expected = String::new();
    for b in raw.iter() {
        expected.push_str(&format!("{:02x}", b));
    }
    assert_eq!(hash_sha256(&data, 333), expected);
}
