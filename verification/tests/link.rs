use ed2k::{Ed2k, Ed2kHasher, Ed2kLegacy};

const CHUNK: usize = 9_728_000;

fn link_of(name: &str, size: u64, hash: [u8; 16]) -> String {
    Ed2k::new(String::from(name), size, hash).link()
}

#[test]
fn link_escapes_the_pipe() {
    let id = Ed2k::new(String::from("a|b"), 0, [0u8; 16]);
    assert_eq!(
        id.link(),
        "ed2k://|file|a%7cb|0|00000000000000000000000000000000|/"
    );
}

#[test]
fn link_of_a_plain_name() {
    let hash = [
        0xd7, 0xde, 0xf2, 0x62, 0xa1, 0x27, 0xcd, 0x79, 0x09, 0x6a, 0x10, 0x8e, 0x7a, 0x9f, 0xc1,
        0x38,
    ];
    assert_eq!(
        link_of("zeros.bin", 9_728_000, hash),
        "ed2k://|file|zeros.bin|9728000|d7def262a127cd79096a108e7a9fc138|/"
    );
}

#[test]
fn link_leaves_other_ascii_alone() {
    assert_eq!(
        link_of("a b%c/d?e&f=g#h~.txt", 1, [0u8; 16]),
        "ed2k://|file|a b%c/d?e&f=g#h~.txt|1|00000000000000000000000000000000|/"
    );
    assert_eq!(
        link_of("\u{0}\u{1f}\u{7f}", 1, [0u8; 16]),
        "ed2k://|file|\u{0}\u{1f}\u{7f}|1|00000000000000000000000000000000|/"
    );
}

#[test]
fn link_escapes_every_pipe() {
    assert_eq!(
        link_of("||x|", 7, [0u8; 16]),
        "ed2k://|file|%7c%7cx%7c|7|00000000000000000000000000000000|/"
    );
}

#[test]
fn link_escapes_two_byte_characters() {
    assert_eq!(
        link_of("\u{e4}.txt", 3, [0u8; 16]),
        "ed2k://|file|%c3%a4.txt|3|00000000000000000000000000000000|/"
    );
    assert_eq!(
        link_of("\u{80}\u{7ff}", 3, [0u8; 16]),
        "ed2k://|file|%c2%80%df%bf|3|00000000000000000000000000000000|/"
    );
}

#[test]
fn link_escapes_three_byte_characters() {
    assert_eq!(
        link_of("\u{65e5}\u{672c}", 3, [0u8; 16]),
        "ed2k://|file|%e6%97%a5%e6%9c%ac|3|00000000000000000000000000000000|/"
    );
    assert_eq!(
        link_of("\u{800}\u{ffff}", 3, [0u8; 16]),
        "ed2k://|file|%e0%a0%80%ef%bf%bf|3|00000000000000000000000000000000|/"
    );
}

#[test]
fn link_escapes_four_byte_characters() {
    assert_eq!(
        link_of("\u{1f600}", 3, [0u8; 16]),
        "ed2k://|file|%f0%9f%98%80|3|00000000000000000000000000000000|/"
    );
    assert_eq!(
        link_of("\u{10000}\u{10ffff}", 3, [0u8; 16]),
        "ed2k://|file|%f0%90%80%80%f4%8f%bf%bf|3|00000000000000000000000000000000|/"
    );
}

#[test]
fn link_of_an_empty_name() {
    assert_eq!(
        link_of("", 0, [0u8; 16]),
        "ed2k://|file||0|00000000000000000000000000000000|/"
    );
}

#[test]
fn link_writes_the_size_in_decimal() {
    for (size, text) in [
        (0u64, "0"),
        (9, "9"),
        (10, "10"),
        (99, "99"),
        (100, "100"),
        (1_000_000, "1000000"),
        (907, "907"),
        (19_456_000, "19456000"),
        (u64::MAX, "18446744073709551615"),
    ] {
        assert_eq!(
            link_of("f", size, [0u8; 16]),
            format!("ed2k://|file|f|{}|00000000000000000000000000000000|/", text)
        );
    }
}

#[test]
fn link_writes_the_digest_in_lower_case_hex() {
    let hash = [
        0x00, 0x01, 0x09, 0x0a, 0x0f, 0x10, 0x1a, 0x7f, 0x80, 0x99, 0xa0, 0xab, 0xcd, 0xef, 0xf0,
        0xff,
    ];
    assert_eq!(
        link_of("f", 1, hash),
        "ed2k://|file|f|1|0001090a0f101a7f8099a0abcdeff0ff|/"
    );
}

#[test]
fn getters_give_the_parts() {
    let hash = [7u8; 16];
    let id = Ed2k::new(String::from("name|\u{e4}"), 42, hash);
    assert_eq!(id.filename(), "name|\u{e4}");
    assert_eq!(id.filesize(), 42);
    assert_eq!(id.hash(), &hash[..]);
}

#[test]
fn identifiers_compare_by_their_parts() {
    let a = Ed2k::new(String::from("a"), 1, [1u8; 16]);
    assert_eq!(a, Ed2k::new(String::from("a"), 1, [1u8; 16]));
    assert_ne!(a, Ed2k::new(String::from("b"), 1, [1u8; 16]));
    assert_ne!(a, Ed2k::new(String::from("a"), 2, [1u8; 16]));
    assert_ne!(a, Ed2k::new(String::from("a"), 1, [2u8; 16]));
}

#[test]
fn from_bytes_hashes_by_the_current_scheme() {
    let id = Ed2k::from_bytes(String::from("fox.txt"), b"The quick brown fox jumps over the lazy dog");
    assert_eq!(id.filename(), "fox.txt");
    assert_eq!(id.filesize(), 43);
    assert_eq!(
        id.link(),
        "ed2k://|file|fox.txt|43|1bee69a46ba811185c194762abaeae90|/"
    );
}

#[test]
fn from_bytes_of_a_full_block() {
    let zeros = vec![0u8; CHUNK];
    let current = Ed2k::from_bytes(String::from("zeros"), &zeros);
    let legacy = Ed2kLegacy::from_bytes(String::from("zeros"), &zeros);
    assert_eq!(
        current.link(),
        "ed2k://|file|zeros|9728000|d7def262a127cd79096a108e7a9fc138|/"
    );
    assert_eq!(
        legacy.link(),
        "ed2k://|file|zeros|9728000|fc21d9af828f92a8df64beac3357425d|/"
    );
}

#[test]
fn from_bytes_agrees_with_the_hasher() {
    let data = vec![0x5au8; CHUNK + 9];
    let mut hasher = Ed2kHasher::new();
    hasher.update(&data);
    let digest = hasher.finalize();
    let id = Ed2k::from_bytes(String::from("x"), &data);
    assert_eq!(id.hash(), &digest[..]);
    assert_eq!(id.filesize(), (CHUNK + 9) as u64);
    let id = Ed2kLegacy::from_bytes(String::from("x"), &data);
    assert_eq!(id.hash(), &digest[..]);
}

#[test]
fn legacy_from_bytes_of_nothing() {
    let id = Ed2kLegacy::from_bytes(String::new(), b"");
    assert_eq!(
        id.link(),
        "ed2k://|file||0|31d6cfe0d16ae931b73c59d7e0c089c0|/"
    );
}
