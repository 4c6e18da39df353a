use hush::error::HushError;
use hush::pipeline::{
    hash_file, manifest_line_for, pipeline_outcome, process_files, Argumentos, SourceFile,
    TFileHash, DEFAULT_BLOCK_SIZE, DEFAULT_BUFFER_SIZE, DEFAULT_WORKERS,
};

const ABC: &str = "ba7816bf8f01cfea414140de5dae2223b00361a396177a9cb410ff61f20015ad";
const EMPTY: &str = "e3b0c44298fc1c149afbf4c8996fb92427ae41e4649b934ca495991b7852b855";
const BIG: &str = "ea0c90123fa4b2122fbaeff0a1914022ea30f4504919233d125a8b25a99c13b4";

fn settings(root: &str, block_size_str: &str) -> Argumentos {
    let mut args = Argumentos::default();
    args.in_file_path = root.to_string();
    assert_eq!(args.set_block_size(block_size_str), Ok(()));
    args.buffer_size = 32;
    args
}

fn file(path: &str, content: &[u8]) -> SourceFile {
    SourceFile { path: path.to_string(), content: Some(content.to_vec()) }
}

fn bytes_150() -> Vec<u8> {
    (0..150u32).map(|i| i as u8).collect()
}

#[test]
fn default_settings() {
    let args = Argumentos::default();
    assert_eq!(args.name, "hush");
    assert_eq!(args.block_size, 52428800);
    assert_eq!(args.block_size, DEFAULT_BLOCK_SIZE);
    assert_eq!(args.block_size_str, "50MB");
    assert_eq!(args.buffer_size, 10240);
    assert_eq!(args.buffer_size, DEFAULT_BUFFER_SIZE);
    assert_eq!(args.buffer_size_str, "10KB");
    assert_eq!(args.n_workers, 15);
    assert_eq!(args.n_max_concur, DEFAULT_WORKERS);
    assert!(!args.log_enabled);
    assert!(!args.recursive_enabled);
    assert!(!args.flag_show_progress);
    assert!(!args.flag_stop_on_first_error);
    assert_eq!(args.sub_comando, "");
    assert_eq!(args.in_file_path, "");
    assert_eq!(args.in_file_filter, "");
    assert_eq!(args.out_file_path, "");
}

#[test]
fn hash_file_picks_the_algorithm_by_size() {
    let small = hash_file("/t/s", b"abc", 100, "100B", 8);
    assert_eq!(small.n_arquivo, 0);
    assert_eq!(small.path, "/t/s");
    assert_eq!(small.alg_hash, "sha256");
    assert_eq!(small.valor_hash, ABC);
    let big = hash_file("/t/b", &bytes_150(), 100, "100B", 8);
    assert_eq!(big.alg_hash, "hsha256-100B");
    assert_eq!(big.valor_hash, BIG);
    let exact = hash_file("/t/e", &bytes_150(), 150, "150B", 8);
    assert_eq!(exact.alg_hash, "sha256");
    assert_eq!(exact.valor_hash, "f22b2e614e92d6453612b707385038300293d2cc292b148bc5335754b5ea30fd");
    let kilo = hash_file("/t/k", &vec![0u8; 2049], 1024, "1KB", 100);
    assert_eq!(kilo.alg_hash, "hsha256-1KB");
    let bytes = hash_file("/t/k", &vec![0u8; 2049], 1024, "1024B", 100);
    assert_eq!(bytes.alg_hash, "hsha256-1024B");
    assert_eq!(bytes.valor_hash, kilo.valor_hash);
}

#[test]
fn manifest_line_for_a_result() {
    let result = TFileHash {
        n_arquivo: 0,
        path: "/data/tree/sub/a.bin".to_string(),
        alg_hash: "sha256".to_string(),
        valor_hash: ABC.to_string(),
    };
    assert_eq!(manifest_line_for(&result, "/data/tree"), Ok(format!("{} ?sha256*./sub/a.bin", ABC)));
    assert_eq!(manifest_line_for(&result, "/data/tre"), Err(HushError::PathNotRelocatable));
    assert_eq!(manifest_line_for(&result, "/other"), Err(HushError::PathNotRelocatable));
    assert_eq!(manifest_line_for(&result, ""), Err(HushError::PathNotRelocatable));
}

#[test]
fn outcome_counts_results_against_files() {
    assert_eq!(pipeline_outcome(0, 0), Ok(()));
    assert_eq!(pipeline_outcome(3, 3), Ok(()));
    assert_eq!(pipeline_outcome(3, 2), Err(HushError::PartialCompletion));
    assert_eq!(pipeline_outcome(2, 3), Err(HushError::PartialCompletion));
}

#[test]
fn process_files_writes_one_line_per_file() {
    let files = vec![
        file("/data/tree/small.bin", b"abc"),
        file("/data/tree/sub/big.bin", &bytes_150()),
        file("/data/tree/sub/empty", b""),
    ];
    let report = process_files(&settings("/data/tree", "100B"), &files);
    assert_eq!(report.outcome, Ok(()));
    assert_eq!(report.results.len(), 3);
    assert_eq!(
        report.lines,
        vec![
            format!("{} ?sha256*./small.bin", ABC),
            format!("{} ?hsha256-100B*./sub/big.bin", BIG),
            format!("{} ?sha256*./sub/empty", EMPTY),
        ]
    );
    assert_eq!(report.results[1].path, "/data/tree/sub/big.bin");
    assert_eq!(report.results[1].alg_hash, "hsha256-100B");
    assert_eq!(report.results[1].valor_hash, BIG);
}

#[test]
fn process_files_with_no_file() {
    let report = process_files(&settings("/data/tree", "100B"), &Vec::new());
    assert_eq!(report.outcome, Ok(()));
    assert!(report.results.is_empty());
    assert!(report.lines.is_empty());
}

#[test]
fn file_outside_the_root_gives_a_result_but_no_line() {
    let files = vec![
        file("/data/tree/a", b"abc"),
        file("/data/treehouse/b", b"abc"),
        file("/data/tree/c", b""),
    ];
    let report = process_files(&settings("/data/tree", "100B"), &files);
    assert_eq!(report.outcome, Ok(()));
    assert_eq!(report.results.len(), 3);
    assert_eq!(
        report.lines,
        vec![format!("{} ?sha256*./a", ABC), format!("{} ?sha256*./c", EMPTY)]
    );
}

#[test]
fn unreadable_file_ends_in_partial_completion() {
    let files = vec![
        file("/data/tree/a", b"abc"),
        SourceFile { path: "/data/tree/locked".to_string(), content: None },
        file("/data/tree/c", b""),
    ];
    let report = process_files(&settings("/data/tree", "100B"), &files);
    assert_eq!(report.outcome, Err(HushError::PartialCompletion));
    assert_eq!(report.results.len(), 2);
    assert_eq!(report.lines.len(), 2);
    assert_eq!(report.results[1].path, "/data/tree/c");
}

#[test]
fn root_with_backslashes_is_read_with_slashes() {
    let files = vec![file("C:/data/tree/a", b"abc")];
    let report = process_files(&settings("C:\\data\\tree", "100B"), &files);
    assert_eq!(report.lines, vec![format!("{} ?sha256*./a", ABC)]);
}

#[test]
fn every_error_has_a_message() {
    let all = [
        HushError::InvalidSizeLiteral,
        HushError::FileNotFound,
        HushError::PathNotRelocatable,
        HushError::ManifestMalformed,
        HushError::DigestMismatch,
        HushError::IoFailure,
        HushError::PartialCompletion,
    ];
    for (i, e) in all.iter().enumerate() {
        assert!(!e.message().is_empty());
        for other in &all[i + 1..] {
            assert_ne!(e.message(), other.message());
        }
    }
}

#[test]
fn tag_records_the_block_size_as_it_was_given() {
    let data = vec![5u8; 3000];
    let files = vec![file("/r/f", &data)];
    let mut digests = Vec::new();
    for literal in ["1024B", "1KB", "1kb", " 1Kb "] {
        let report = process_files(&settings("/r", literal), &files);
        assert_eq!(report.results[0].alg_hash, format!("hsha256-{}", literal.trim()));
        assert_eq!(
            report.lines,
            vec![format!("{} ?hsha256-{}*./f", report.results[0].valor_hash, literal.trim())]
        );
        digests.push(report.results[0].valor_hash.clone());
    }
    assert!(digests.iter().all(|d| *d == digests[0]));
    let report = process_files(&settings("/r", "1024KB"), &vec![file("/r/f", &vec![1u8; 1048577])]);
    assert_eq!(report.results[0].alg_hash, "hsha256-1024KB");
}

#[test]
fn settings_hold_the_block_size_twice() {
    let mut args = Argumentos::default();
    assert!(args.is_wf());
    assert_eq!(args.set_block_size("2mb"), Ok(()));
    assert_eq!(args.block_size, 2097152);
    assert_eq!(args.block_size_str, "2mb");
    assert!(args.is_wf());
    for bad in ["0B", "", "12", "12XB", "99999999999999999999999TB"] {
        assert_eq!(args.set_block_size(bad), Err(HushError::InvalidSizeLiteral));
        assert_eq!(args.block_size, 2097152);
        assert_eq!(args.block_size_str, "2mb");
    }
    assert_eq!(args.set_block_size(" 3KB\n"), Ok(()));
    assert_eq!(args.block_size, 3072);
    assert_eq!(args.block_size_str, "3KB");
    args.block_size = 5;
    assert!(!args.is_wf());
    args.block_size_str = "5B".to_string();
    assert!(args.is_wf());
    args.block_size_str = " 5B".to_string();
    assert!(!args.is_wf());
    args.block_size_str = "5".to_string();
    assert!(!args.is_wf());
    args.block_size = 0;
    args.block_size_str = "0B".to_string();
    assert!(!args.is_wf());
}

#[test]
fn empty_root_gives_no_line() {
    let files = vec![file("/a", b"abc"), file("b", b"abc")];
    let report = process_files(&settings("", "100B"), &files);
    assert_eq!(report.outcome, Ok(()));
    assert_eq!(report.results.len(), 2);
    assert_eq!(report.lines, vec![format!("{} ?sha256*./b", ABC)]);
}

#[test]
fn every_line_is_well_formed() {
    let files = vec![
        file("/data/tree/small.bin", b"abc"),
        file("/data/tree/sub/big.bin", &bytes_150()),
        file("/data/tree", b""),
        file("/data/tree/a b/c*d?e", &vec![9u8; 500]),
        file("/", b"x"),
        file("/elsewhere", b"x"),
    ];
    for root in ["/data/tree", "/data/tree/", "/", "", "/data"] {
        let report = process_files(&settings(root, "100B"), &files);
        for line in &report.lines {
            let (digest, rest) = line.split_at(64);
            assert!(digest.chars().all(|c| matches!(c, '0'..='9' | 'a'..='f')), "{:?}", line);
            let rest = rest.strip_prefix(" ?").unwrap();
            let rest =
                rest.strip_prefix("hsha256-100B").or_else(|| rest.strip_prefix("sha256")).unwrap();
            assert!(rest.starts_with("*./"), "{:?}", line);
        }
    }
}
