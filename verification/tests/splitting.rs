use hush::parts::{
    file_name, is_part_name, part_number, part_path, sidecar_path, SplitProgress,
};
use hush::blocks::{calcular_hash_bloco, ChunkBloco};
use hush::engine::{hash_hsha256, hash_sha256, HashAlgorithm};
use hush::schedule::{pool_size, BlockWindow, FileJob};

#[test]
fn part_paths_and_sidecars() {
    assert_eq!(part_path("/out", "video.mp4", 0), "/out/video.mp4_0");
    assert_eq!(part_path("/out", "video.mp4", 12), "/out/video.mp4_12");
    assert_eq!(part_path("", "", u64::MAX), "/_18446744073709551615");
    assert_eq!(sidecar_path("/out/video.mp4_12"), "/out/video.mp4_12.sha256.txt");
}

#[test]
fn part_numbers_are_read_behind_the_last_underscore() {
    assert_eq!(part_number("video.mp4_0"), 0);
    assert_eq!(part_number("video.mp4_12"), 12);
    assert_eq!(part_number("my_file_name_007"), 7);
    assert_eq!(part_number("x_+5"), 5);
    assert_eq!(part_number("x_4294967295"), 4294967295);
    assert_eq!(part_number("x_4294967296"), 4294967296);
    assert_eq!(part_number("x_18446744073709551615"), u64::MAX);
    assert_eq!(part_number("42"), 42);
}

#[test]
fn part_numbers_default_to_zero() {
    for name in [
        "", "video.mp4", "x_", "x_abc", "x_12.sha256.txt", "x_-3", "x_+", "x_1 ",
        "x_18446744073709551616", "x_99999999999999999999", "x_1_", "x_\u{663}",
    ] {
        assert_eq!(part_number(name), 0, "{:?}", name);
    }
}

#[test]
fn part_number_round_trip_on_values() {
    for index in [0u64, 1, 9, 10, 99, 1000, 65535, 4294967295, 4294967296, u64::MAX] {
        assert_eq!(part_number(&part_path("/dir_with_9", "na_me", index)), index);
    }
}

#[test]
fn part_names_end_in_an_underscore_and_a_number() {
    assert!(is_part_name("video.mp4_0"));
    assert!(is_part_name("video.mp4_12"));
    assert!(is_part_name("my_file_007"));
    assert!(is_part_name("x_+5"));
    assert!(is_part_name("_3"));
    assert!(is_part_name("x_99999999999999999999"));
    assert!(!is_part_name("_"));
    assert!(!is_part_name("video.mp4"));
    assert!(!is_part_name("42"));
    assert!(!is_part_name(""));
    assert!(!is_part_name("x_abc"));
    assert!(!is_part_name("x_1_"));
    assert!(!is_part_name("x_+"));
    assert!(!is_part_name("x_-3"));
}

#[test]
fn digest_files_beside_the_parts_are_no_parts() {
    for index in [0u64, 1, 12, 4294967295] {
        let part = part_path("/out", "video_final.mp4", index);
        let name = file_name(&part).unwrap();
        assert!(is_part_name(&name));
        assert!(is_part_name(&part));
        assert!(!is_part_name(&sidecar_path(&name)));
        assert!(!is_part_name(&sidecar_path(&part)));
    }
    assert!(!is_part_name("video.mp4_0.sha256.txt"));
}

#[test]
fn file_name_is_the_last_component() {
    assert_eq!(file_name("/data/video.mp4"), Some("video.mp4".to_string()));
    assert_eq!(file_name("video.mp4"), Some("video.mp4".to_string()));
    assert_eq!(file_name("/data/dir/"), Some("dir".to_string()));
    assert_eq!(file_name("/data/dir/."), Some("dir".to_string()));
    assert_eq!(file_name("/data/.hidden"), Some(".hidden".to_string()));
    assert_eq!(file_name("/"), None);
    assert_eq!(file_name(""), None);
    assert_eq!(file_name("."), None);
    assert_eq!(file_name(".."), None);
    assert_eq!(file_name("/data/.."), None);
}

#[test]
fn split_moves_on_when_a_part_is_full() {
    let mut p = SplitProgress::new();
    assert_eq!(p, SplitProgress { index: 0, bytes_written: 0 });
    assert!(!p.wrote(40, 100));
    assert_eq!(p, SplitProgress { index: 0, bytes_written: 40 });
    assert!(!p.wrote(59, 100));
    assert_eq!(p, SplitProgress { index: 0, bytes_written: 99 });
    assert!(p.wrote(1, 100));
    assert_eq!(p, SplitProgress { index: 1, bytes_written: 0 });
    assert!(p.wrote(250, 100));
    assert_eq!(p, SplitProgress { index: 2, bytes_written: 0 });
    assert!(!p.wrote(0, 100));
    assert_eq!(p, SplitProgress { index: 2, bytes_written: 0 });
    assert!(p.wrote(0, 0));
    assert_eq!(p, SplitProgress { index: 3, bytes_written: 0 });
    assert!(p.wrote(usize::MAX, usize::MAX));
    assert_eq!(p, SplitProgress { index: 4, bytes_written: 0 });
}

#[test]
fn window_hands_out_each_block_once_and_in_order() {
    let mut w = BlockWindow::new(5, 2);
    assert_eq!(w.next(), Some(0));
    assert_eq!(w.next(), Some(1));
    assert_eq!(w.next(), None);
    assert!(w.has_in_flight());
    assert!(!w.is_done());
    w.complete_one();
    assert_eq!(w.next(), Some(2));
    assert_eq!(w.next(), None);
    w.complete_one();
    w.complete_one();
    assert!(!w.has_in_flight());
    assert_eq!(w.next(), Some(3));
    assert_eq!(w.next(), Some(4));
    assert_eq!(w.next(), None);
    w.complete_one();
    assert!(!w.is_done());
    w.complete_one();
    assert!(w.is_done());
    assert!(!w.has_in_flight());
    assert_eq!(w.next(), None);
}

#[test]
fn window_never_exceeds_its_limit() {
    let mut w = BlockWindow::new(100, 7);
    let mut in_flight = 0usize;
    let mut handed = 0usize;
    let mut done = 0usize;
    let mut turn = 0u32;
    while !w.is_done() {
        turn += 1;
        while let Some(i) = w.next() {
            assert_eq!(i, handed);
            handed += 1;
            in_flight += 1;
            assert!(in_flight <= 7);
            if turn % 3 == 0 {
                break;
            }
        }
        assert!(w.has_in_flight());
        w.complete_one();
        in_flight -= 1;
        done += 1;
    }
    assert_eq!(handed, 100);
    assert_eq!(done, 100);
}

#[test]
fn window_edge_cases() {
    let mut none = BlockWindow::new(0, 4);
    assert!(none.is_done());
    assert_eq!(none.next(), None);
    let mut zero_limit = BlockWindow::new(2, 0);
    assert_eq!(zero_limit.next(), Some(0));
    assert_eq!(zero_limit.next(), None);
    zero_limit.complete_one();
    assert_eq!(zero_limit.next(), Some(1));
}

#[test]
fn pool_has_at_least_one_worker() {
    assert_eq!(pool_size(0), 1);
    assert_eq!(pool_size(1), 1);
    assert_eq!(pool_size(15), 15);
}

fn data_1000() -> Vec<u8> {
    (0..1000u32).map(|i| (i % 251) as u8).collect()
}

#[test]
fn job_hands_out_the_blocks_of_a_file_within_its_limit() {
    let mut job = FileJob::plan(1000, HashAlgorithm::Hierarchical { block_size: 256 }, 3);
    let mut out: Vec<ChunkBloco> = Vec::new();
    while let Some(b) = job.next_block() {
        out.push(b);
    }
    let ranges: Vec<(u64, u64, u64)> =
        out.iter().map(|b| (b.n_bloco, b.inicio_bloco, b.fim_bloco)).collect();
    assert_eq!(ranges, vec![(0, 0, 256), (1, 256, 512), (2, 512, 768)]);
    assert!(job.has_in_flight());
    assert!(!job.is_over());
    let data = data_1000();
    job.block_done(calcular_hash_bloco(&data, out.pop().unwrap(), 64).unwrap());
    let last = job.next_block().unwrap();
    assert_eq!((last.n_bloco, last.inicio_bloco, last.fim_bloco), (3, 768, 1000));
    assert!(job.next_block().is_none());
    job.block_done(calcular_hash_bloco(&data, last, 64).unwrap());
    job.block_done(calcular_hash_bloco(&data, out.pop().unwrap(), 64).unwrap());
    assert!(!job.is_over());
    job.block_done(calcular_hash_bloco(&data, out.pop().unwrap(), 64).unwrap());
    assert!(job.is_over());
    assert!(!job.has_in_flight());
    assert_eq!(job.finish(), Some(hash_hsha256(&data, 64, 256)));
}

#[test]
fn job_takes_in_only_what_it_handed_out() {
    let data = data_1000();
    let digest = "ba7816bf8f01cfea414140de5dae2223b00361a396177a9cb410ff61f20015ad";
    let mut job = FileJob::plan(1000, HashAlgorithm::Hierarchical { block_size: 256 }, 2);
    let block = |n: u64, a: u64, b: u64, text: &str| ChunkBloco {
        n_bloco: n,
        inicio_bloco: a,
        fim_bloco: b,
        hash_bloco: text.to_string(),
    };
    assert!(!job.expects_block(&block(0, 0, 256, digest)));
    assert!(!job.is_handed_out(0));
    let first = job.next_block().unwrap();
    let second = job.next_block().unwrap();
    assert!(job.is_handed_out(0) && job.is_handed_out(1));
    assert!(!job.is_handed_out(2) && !job.is_handed_out(99));
    assert!(job.expects_block(&block(0, 0, 256, digest)));
    assert!(job.expects_block(&block(1, 256, 512, digest)));
    assert!(!job.expects_block(&first));
    assert!(!job.expects_block(&block(1, 256, 512, "")));
    assert!(!job.expects_block(&block(1, 256, 512, &digest[1..])));
    assert!(!job.expects_block(&block(1, 256, 512, &digest.to_uppercase())));
    assert!(!job.expects_block(&block(1, 256, 511, digest)));
    assert!(!job.expects_block(&block(1, 0, 256, digest)));
    assert!(!job.expects_block(&block(2, 512, 768, digest)));
    assert!(!job.expects_block(&block(4, 0, 0, digest)));
    assert!(!job.expects_block(&block(u64::MAX, 0, 0, digest)));
    let hashed = calcular_hash_bloco(&data, first, 64).unwrap();
    assert!(job.expects_block(&hashed));
    job.block_done(hashed);
    assert!(!job.expects_block(&block(0, 0, 256, digest)));
    assert!(!job.is_handed_out(0));
    assert!(job.expects_block(&calcular_hash_bloco(&data, second, 64).unwrap()));
}

#[test]
fn job_gives_no_digest_before_every_block_is_back() {
    let data = data_1000();
    let fresh = FileJob::plan(1000, HashAlgorithm::Hierarchical { block_size: 256 }, 2);
    assert_eq!(fresh.finish(), None);
    let mut job = FileJob::plan(1000, HashAlgorithm::Hierarchical { block_size: 256 }, 4);
    let mut out = Vec::new();
    while let Some(b) = job.next_block() {
        out.push(b);
    }
    for b in out.drain(..3) {
        job.block_done(calcular_hash_bloco(&data, b, 64).unwrap());
    }
    assert!(!job.is_over());
    assert_eq!(job.finish(), None);
    let handed_out = FileJob::plan(10, HashAlgorithm::Plain, 1);
    assert_eq!(handed_out.finish(), None);
}

#[test]
fn job_for_the_plain_algorithm_is_one_range() {
    let data = data_1000();
    let mut job = FileJob::plan(1000, HashAlgorithm::Plain, 0);
    let whole = job.next_block().unwrap();
    assert_eq!((whole.n_bloco, whole.inicio_bloco, whole.fim_bloco), (0, 0, 1000));
    assert!(job.next_block().is_none());
    job.block_done(calcular_hash_bloco(&data, whole, 100).unwrap());
    assert!(job.is_over());
    assert_eq!(job.finish(), Some(hash_sha256(&data, 100)));
}

#[test]
fn job_for_an_empty_file_is_over_at_once() {
    let mut job = FileJob::plan(0, HashAlgorithm::Hierarchical { block_size: 256 }, 4);
    assert!(job.next_block().is_none());
    assert!(job.is_over());
    assert_eq!(job.finish(), Some(hash_sha256(b"", 1)));
}

#[test]
fn job_with_a_failed_block_gives_no_digest() {
    let data = data_1000();
    let mut job = FileJob::plan(1000, HashAlgorithm::Hierarchical { block_size: 256 }, 2);
    let first = job.next_block().unwrap();
    let second = job.next_block().unwrap();
    job.block_failed(second.n_bloco);
    assert!(!job.is_handed_out(1));
    assert!(job.next_block().is_none());
    assert!(!job.is_over());
    job.block_done(calcular_hash_bloco(&data, first, 64).unwrap());
    assert!(job.is_over());
    assert_eq!(job.finish(), None);
}
