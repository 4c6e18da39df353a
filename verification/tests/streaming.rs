use hush::blocks::{BlockStream, ChunkBloco};
use hush::digest::{hex_encode, is_digest_text, Sha256Stream};

const ABC: &str = "ba7816bf8f01cfea414140de5dae2223b00361a396177a9cb410ff61f20015ad";
const EMPTY: &str = "e3b0c44298fc1c149afbf4c8996fb92427ae41e4649b934ca495991b7852b855";

#[test]
fn stream_digest_is_digest_of_all_that_was_fed() {
    let mut h = Sha256Stream::new();
    h.feed(b"a");
    h.feed(b"");
    h.feed(b"bc");
    assert_eq!(h.finish(), ABC);
    assert_eq!(Sha256Stream::new().finish(), EMPTY);
}

#[test]
fn stream_digest_depends_on_the_order_of_feeding() {
    let mut h = Sha256Stream::new();
    h.feed(b"bc");
    h.feed(b"a");
    assert_ne!(h.finish(), ABC);
}

#[test]
fn hex_is_lower_case_high_half_first() {
    assert_eq!(hex_encode(&vec![]), "");
    assert_eq!(hex_encode(&vec![0x00, 0x0f, 0xf0, 0xa5, 0xff, 0x10, 0x9a]), "000ff0a5ff109a");
}

#[test]
fn block_stream_asks_for_what_is_left_up_to_the_buffer() {
    let bloco = ChunkBloco { n_bloco: 3, inicio_bloco: 10, fim_bloco: 13, hash_bloco: String::new() };
    let mut s = BlockStream::begin(bloco).unwrap();
    assert_eq!(s.next_read(2), 2);
    assert_eq!(s.next_read(0), 1);
    assert_eq!(s.next_read(100), 3);
    s.feed(b"ab");
    assert_eq!(s.next_read(2), 1);
    s.feed(b"c");
    assert_eq!(s.next_read(2), 0);
    assert_eq!(s.next_read(0), 0);
    let done = s.finish().unwrap();
    assert_eq!(done.hash_bloco, ABC);
    assert_eq!((done.n_bloco, done.inicio_bloco, done.fim_bloco), (3, 10, 13));
}

#[test]
fn block_stream_of_an_empty_or_reversed_range() {
    let empty = ChunkBloco { n_bloco: 0, inicio_bloco: 5, fim_bloco: 5, hash_bloco: String::new() };
    let s = BlockStream::begin(empty).unwrap();
    assert_eq!(s.next_read(8), 0);
    assert_eq!(s.finish().unwrap().hash_bloco, EMPTY);
    let reversed = ChunkBloco { n_bloco: 0, inicio_bloco: 9, fim_bloco: 5, hash_bloco: String::new() };
    assert!(BlockStream::begin(reversed).is_none());
}

#[test]
fn block_stream_gives_no_digest_before_the_block_is_complete() {
    let block = || ChunkBloco { n_bloco: 0, inicio_bloco: 0, fim_bloco: 100, hash_bloco: String::new() };
    assert!(BlockStream::begin(block()).unwrap().finish().is_none());
    let mut s = BlockStream::begin(block()).unwrap();
    s.feed(b"abc");
    assert_eq!(s.next_read(1000), 97);
    assert!(s.finish().is_none());
    let mut s = BlockStream::begin(block()).unwrap();
    s.feed(&[7u8; 60]);
    s.feed(&[7u8; 40]);
    assert_eq!(s.finish().unwrap().hash_bloco.len(), 64);
}

#[test]
fn digest_text_is_64_lower_case_hex_digits() {
    assert!(is_digest_text(ABC));
    assert!(is_digest_text(EMPTY));
    assert!(is_digest_text(&"0".repeat(64)));
    assert!(!is_digest_text(""));
    assert!(!is_digest_text(&ABC[1..]));
    assert!(!is_digest_text(&format!("{}0", ABC)));
    assert!(!is_digest_text(&ABC.to_uppercase()));
    assert!(!is_digest_text(&format!("{}g", &ABC[1..])));
    assert!(!is_digest_text(&format!("{} ", &ABC[1..])));
}
