use hush::check::{
    begin_line, check_hash, check_line, digests_match, judge_digest, lookup_file, should_stop,
    VerificationTally,
};
use hush::engine::HashAlgorithm;
use hush::error::HushError;
use hush::pipeline::{process_files, Argumentos, SourceFile};

const ABC: &str = "ba7816bf8f01cfea414140de5dae2223b00361a396177a9cb410ff61f20015ad";
const BIG: &str = "ea0c90123fa4b2122fbaeff0a1914022ea30f4504919233d125a8b25a99c13b4";

fn settings(root: &str, block_size: u64, stop: bool) -> Argumentos {
    let mut args = Argumentos::default();
    args.in_file_path = root.to_string();
    assert_eq!(args.set_block_size(&format!("{}B", block_size)), Ok(()));
    args.buffer_size = 16;
    args.flag_stop_on_first_error = stop;
    args
}

fn file(path: &str, content: &[u8]) -> SourceFile {
    SourceFile { path: path.to_string(), content: Some(content.to_vec()) }
}

fn bytes_150() -> Vec<u8> {
    (0..150u32).map(|i| i as u8).collect()
}

fn tree(root: &str) -> Vec<SourceFile> {
    vec![
        file(&format!("{}/small.bin", root), b"abc"),
        file(&format!("{}/sub/big.bin", root), &bytes_150()),
        file(&format!("{}/sub/deep/empty", root), b""),
        file(&format!("{}/sub/kilo.bin", root), &vec![7u8; 1000]),
    ]
}

#[test]
fn generated_manifest_verifies_without_error() {
    for block_size in [1u64, 7, 100, 150, 1024, 52428800] {
        let files = tree("/data/tree");
        let args = settings("/data/tree", block_size, false);
        let generated = process_files(&args, &files);
        assert_eq!(generated.outcome, Ok(()));
        assert_eq!(generated.lines.len(), 4);
        for stop in [false, true] {
            let report = check_hash(
                &settings("/data/tree", 52428800, stop),
                &generated.lines,
                "/data/tree",
                &files,
            );
            assert!(report.success);
            assert_eq!(report.tally.lines_total, 4);
            assert_eq!(report.tally.matches, 4);
            assert_eq!(report.tally.errors, 0);
            assert_eq!(report.verdicts, vec![Ok(()); 4]);
        }
    }
}

#[test]
fn manifest_verifies_after_the_tree_was_moved() {
    let generated = process_files(&settings("/data/tree", 100, false), &tree("/data/tree"));
    let moved = tree("/mnt/copy of tree");
    let report = check_hash(
        &settings("", 1, false),
        &generated.lines,
        " /mnt/copy of tree/ ",
        &moved,
    );
    assert!(report.success);
    assert_eq!(report.tally.matches, 4);
}

#[test]
fn one_corrupted_byte_gives_exactly_one_mismatch() {
    let files = tree("/data/tree");
    let generated = process_files(&settings("/data/tree", 100, false), &files);
    for victim in 0..files.len() {
        let mut changed = tree("/data/tree");
        let content = changed[victim].content.as_mut().unwrap();
        if content.is_empty() {
            continue;
        }
        let at = content.len() / 2;
        content[at] ^= 1;
        let report = check_hash(
            &settings("/data/tree", 100, false),
            &generated.lines,
            "/data/tree",
            &changed,
        );
        assert!(!report.success);
        assert_eq!(report.tally.lines_total, 4);
        assert_eq!(report.tally.matches, 3);
        assert_eq!(report.tally.errors, 1);
        for (i, verdict) in report.verdicts.iter().enumerate() {
            if i == victim {
                assert_eq!(*verdict, Err(HushError::DigestMismatch));
            } else {
                assert_eq!(*verdict, Ok(()));
            }
        }
    }
}

#[test]
fn malformed_line_is_counted_and_the_run_goes_on() {
    let files = tree("/data/tree");
    let mut lines = process_files(&settings("/data/tree", 100, false), &files).lines;
    lines.insert(1, "no question mark*./small.bin".to_string());
    lines.insert(3, format!("{} ?sha256 ./small.bin", ABC));
    lines.push(String::new());
    let report = check_hash(&settings("/data/tree", 100, false), &lines, "/data/tree", &files);
    assert!(!report.success);
    assert_eq!(report.tally.lines_total, 7);
    assert_eq!(report.tally.matches, 4);
    assert_eq!(report.tally.errors, 3);
    assert_eq!(
        report.verdicts,
        vec![
            Ok(()),
            Err(HushError::ManifestMalformed),
            Ok(()),
            Err(HushError::ManifestMalformed),
            Ok(()),
            Ok(()),
            Err(HushError::ManifestMalformed),
        ]
    );
}

#[test]
fn stop_on_first_error_looks_at_no_later_line() {
    let files = tree("/data/tree");
    let mut lines = process_files(&settings("/data/tree", 100, false), &files).lines;
    lines.insert(1, "garbage".to_string());
    let report = check_hash(&settings("/data/tree", 100, true), &lines, "/data/tree", &files);
    assert!(!report.success);
    assert_eq!(report.tally.lines_total, 2);
    assert_eq!(report.tally.matches, 1);
    assert_eq!(report.tally.errors, 1);
    assert_eq!(report.verdicts, vec![Ok(()), Err(HushError::ManifestMalformed)]);
}

#[test]
fn empty_manifest_is_a_success() {
    let report = check_hash(&settings("/d", 100, false), &Vec::new(), "/d", &tree("/d"));
    assert!(report.success);
    assert_eq!(report.tally, VerificationTally { lines_total: 0, matches: 0, errors: 0 });
    assert!(report.verdicts.is_empty());
}

#[test]
fn each_error_of_a_line() {
    let mut files = tree("/d");
    files.push(SourceFile { path: "/d/locked".to_string(), content: None });
    let check = |line: &str| check_line(line, "/d", &files, 16);
    assert_eq!(check(&format!("{} ?sha256*./small.bin", ABC)), Ok(()));
    assert_eq!(check(&format!("{} ?hsha256-100B*./sub/big.bin", BIG)), Ok(()));
    assert_eq!(check("nothing here"), Err(HushError::ManifestMalformed));
    assert_eq!(check(&format!("{} ?sha256*./absent.bin", ABC)), Err(HushError::FileNotFound));
    assert_eq!(
        check(&format!("{} ?hsha256-12QB*./small.bin", ABC)),
        Err(HushError::InvalidSizeLiteral)
    );
    assert_eq!(
        check(&format!("{} ?hsha256-0KB*./small.bin", ABC)),
        Err(HushError::InvalidSizeLiteral)
    );
    assert_eq!(check(&format!("{} ?sha256*./locked", ABC)), Err(HushError::IoFailure));
    assert_eq!(check(&format!("{} ?sha256*./sub/big.bin", ABC)), Err(HushError::DigestMismatch));
    assert_eq!(
        check(&format!("{} ?hsha256-50B*./sub/big.bin", BIG)),
        Err(HushError::DigestMismatch)
    );
}

#[test]
fn errors_come_in_the_order_of_the_steps() {
    let mut files = tree("/d");
    files.push(SourceFile { path: "/d/locked".to_string(), content: None });
    let check = |line: &str| check_line(line, "/d", &files, 16);
    assert_eq!(check("x ?hsha256-bad*./absent"), Err(HushError::FileNotFound));
    assert_eq!(check("x ?hsha256-bad*./locked"), Err(HushError::InvalidSizeLiteral));
    assert_eq!(check("x ?sha256*./locked"), Err(HushError::IoFailure));
}

#[test]
fn digest_comparison_ignores_case_and_outer_white_space() {
    assert!(digests_match(ABC, ABC));
    assert!(digests_match(&ABC.to_uppercase(), ABC));
    assert!(digests_match(&format!("  {}\t\n", ABC.to_uppercase()), ABC));
    assert!(digests_match("", "  "));
    assert!(!digests_match(ABC, BIG));
    assert!(!digests_match(&ABC[1..], ABC));
    assert!(!digests_match("ab cd", "abcd"));
    assert_eq!(judge_digest(ABC, ABC), Ok(()));
    assert_eq!(judge_digest(ABC, BIG), Err(HushError::DigestMismatch));
    let files = tree("/d");
    let line = format!("  {}   ?sha256*./small.bin", ABC.to_uppercase());
    assert_eq!(check_line(&line, "/d", &files, 16), Ok(()));
}

#[test]
fn tally_counts_matches_and_errors() {
    let mut tally = VerificationTally::new();
    assert_eq!(tally, VerificationTally { lines_total: 0, matches: 0, errors: 0 });
    assert!(tally.is_success());
    tally.record(&Ok(()));
    assert!(tally.is_success());
    tally.record(&Err(HushError::FileNotFound));
    tally.record(&Ok(()));
    tally.record(&Err(HushError::DigestMismatch));
    assert_eq!(tally, VerificationTally { lines_total: 4, matches: 2, errors: 2 });
    assert!(!tally.is_success());
}

#[test]
fn stopping_needs_an_error_and_the_setting() {
    assert!(should_stop(&Err(HushError::DigestMismatch), true));
    assert!(!should_stop(&Err(HushError::DigestMismatch), false));
    assert!(!should_stop(&Ok(()), true));
    assert!(!should_stop(&Ok(()), false));
}

#[test]
fn lookup_goes_by_components_and_takes_the_first() {
    let files = vec![
        file("/d/a", b"first"),
        file("/d//a/", b"second"),
        file("/d/b", b"third"),
    ];
    assert_eq!(lookup_file(&files, "/d/./a").unwrap().content, Some(b"first".to_vec()));
    assert_eq!(lookup_file(&files, "/d/b/").unwrap().content, Some(b"third".to_vec()));
    assert!(lookup_file(&files, "/d/c").is_none());
    assert!(lookup_file(&files, "d/a").is_none());
    assert!(lookup_file(&Vec::new(), "/d/a").is_none());
}

#[test]
fn line_steps_follow_one_another() {
    let task = begin_line(&format!(" {}  ?hsha256-100B*.\\sub\\big.bin", BIG.to_uppercase()), " /d ")
        .unwrap();
    assert_eq!(task.recorded, BIG.to_uppercase());
    assert_eq!(task.algorithm, "hsha256-100B");
    assert_eq!(task.file_path, "/d/./sub/big.bin");
    assert_eq!(task.algorithm_for_file(false), Err(HushError::FileNotFound));
    assert_eq!(
        task.algorithm_for_file(true),
        Ok(HashAlgorithm::Hierarchical { block_size: 100 })
    );
    assert_eq!(task.judge(None), Err(HushError::IoFailure));
    assert_eq!(task.judge(Some(BIG)), Ok(()));
    assert_eq!(task.judge(Some(ABC)), Err(HushError::DigestMismatch));
    assert_eq!(begin_line("nothing", "/d").err(), Some(HushError::ManifestMalformed));
    let bad = begin_line("x ?hsha256-zz*./f", "/d").unwrap();
    assert_eq!(bad.algorithm_for_file(false), Err(HushError::FileNotFound));
    assert_eq!(bad.algorithm_for_file(true), Err(HushError::InvalidSizeLiteral));
}
