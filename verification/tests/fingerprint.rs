use pdxl::fingerprint::{clean_bytes, content_hash, entry_file_name};

fn hex(bytes: &[u8]) -> String {
    bytes.iter().map(|b| format!("{b:02x}")).collect()
}

fn clean(p: &str) -> String {
    String::from_utf8(clean_bytes(p.as_bytes())).unwrap()
}

#[test]
fn content_hash_is_stable() {
    assert_eq!(content_hash(b"abc"), content_hash(b"abc"));
    assert_ne!(content_hash(b"abc"), content_hash(b"abd"));
}

#[test]
fn entry_name_ignores_lexical_noise() {
    assert_eq!(entry_file_name("a/./b.txt"), entry_file_name("a/b.txt"));
    assert!(entry_file_name("x.txt").ends_with(".bin"));
    assert_eq!(entry_file_name("x.txt").len(), 64 + 4);
}

#[test]
fn content_hash_is_the_sha256_digest() {
    assert_eq!(
        hex(&content_hash(b"abc")),
        "ba7816bf8f01cfea414140de5dae2223b00361a396177a9cb410ff61f20015ad"
    );
}

#[test]
fn entry_name_is_the_hex_digest_of_the_clean_path() {
    assert_eq!(
        entry_file_name("x.txt"),
        "8a6dcb9c9836d0a0749d9a5907dad6ade76a1c2c853764a2be23038b8928924b.bin"
    );
    assert_eq!(
        entry_file_name("a//b.txt"),
        "5550000d3b1cf1ff9d8ad3380f759f84f8abda4b5032ee735bdfef6766d6919f.bin"
    );
    assert_eq!(
        entry_file_name(""),
        "cdb4ee2aea69cc6a83331bbe96dc2caa9a299d21329efb0336fc02a82e1839a8.bin"
    );
}

#[test]
fn clean_collapses_separators_and_dots() {
    assert_eq!(clean("a/./b.txt"), "a/b.txt");
    assert_eq!(clean("a//b//c/"), "a/b/c");
    assert_eq!(clean("./a"), "a");
    assert_eq!(clean(""), ".");
    assert_eq!(clean("."), ".");
    assert_eq!(clean("/"), "/");
}

#[test]
fn clean_resolves_parent_elements() {
    assert_eq!(clean("a/b/../c"), "a/c");
    assert_eq!(clean("a/.."), ".");
    assert_eq!(clean("a/../../b"), "../b");
    assert_eq!(clean("../../x"), "../../x");
    assert_eq!(clean("/../a"), "/a");
    assert_eq!(clean("/a/b/../../.."), "/");
}

#[test]
fn cleaning_twice_changes_nothing() {
    for p in ["a/./b/../c//", "/../x/./y", "../../a/..", "", ".", "a/b"] {
        let once = clean(p);
        assert_eq!(clean(&once), once, "{p}");
        assert_eq!(entry_file_name(&once), entry_file_name(p), "{p}");
    }
}
