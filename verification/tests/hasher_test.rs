use deduck::digest::Digester;
use deduck::digest::HashAlgorithm;
use deduck::digest::hash_bytes;
use deduck::hasher::DigestGroups;
use deduck::hasher::FileBytes;
use deduck::hasher::hash_files;

fn b(s: &str) -> Vec<u8> {
    s.as_bytes().to_vec()
}

fn item(path: &str, content: &str) -> FileBytes {
    FileBytes { path: b(path), data: b(content) }
}

#[test]
fn test_hash_files_group_duplicates_with_progress() {
    let files = vec![
        item("deduck_test_file1.txt", "hello world"),
        item("deduck_test_file2.txt", "hello world"),
        item("deduck_test_file3.txt", "different content"),
    ];

    let hash_map = hash_files(&files, HashAlgorithm::Sha256);

    let duplicate_group = hash_map
        .entries
        .iter()
        .find(|group| {
            group.paths.contains(&b("deduck_test_file1.txt"))
                && group.paths.contains(&b("deduck_test_file2.txt"))
        })
        .expect("No group found for duplicates");

    assert_eq!(duplicate_group.paths.len(), 2);
    assert!(!duplicate_group.paths.contains(&b("deduck_test_file3.txt")));
}

#[test]
fn identical_bytes_share_a_digest_for_every_algorithm() {
    for algo in [HashAlgorithm::XxHash, HashAlgorithm::Blake3, HashAlgorithm::Sha256] {
        let d1 = hash_bytes(algo, &b("same bytes"));
        let d2 = hash_bytes(algo, &b("same bytes"));
        let d3 = hash_bytes(algo, &b("other bytes"));
        assert_eq!(d1, d2);
        assert_ne!(d1, d3);
    }
}

#[test]
fn sha256_digest_has_its_known_value() {
    // the SHA-256 of "abc", as its test vectors give it
    let d = hash_bytes(HashAlgorithm::Sha256, &b("abc"));
    assert_eq!(d, b("ba7816bf8f01cfea414140de5dae2223b00361a396177a9cb410ff61f20015ad"));
    let empty = hash_bytes(HashAlgorithm::Sha256, &Vec::new());
    assert_eq!(empty, b("e3b0c44298fc1c149afbf4c8996fb92427ae41e4649b934ca495991b7852b855"));
}

#[test]
fn blake3_digest_has_its_known_value() {
    let empty = hash_bytes(HashAlgorithm::Blake3, &Vec::new());
    assert_eq!(empty, b("af1349b9f5f9a1a6a0404dea36dcc9499bcb25c9adc112b7cc9a93cae41f3262"));
}

#[test]
fn xxhash_digest_has_its_known_value() {
    // XXH64 of the empty input under seed 0, in fixed-width hex
    let empty = hash_bytes(HashAlgorithm::XxHash, &Vec::new());
    assert_eq!(empty, b("ef46db3751d8e999"));
}

#[test]
fn streaming_chunks_equal_one_shot() {
    let mut d = Digester::new(HashAlgorithm::Sha256);
    d.update("ab".as_bytes());
    d.update("c".as_bytes());
    let streamed = d.finalize();
    let whole = hash_bytes(HashAlgorithm::Sha256, &b("abc"));
    assert_eq!(streamed, whole);
}

#[test]
fn merge_unions_keys_and_concatenates_shared_groups() {
    let left_files = vec![item("a", "x"), item("b", "y")];
    let right_files = vec![item("c", "x"), item("d", "z")];
    let mut left = hash_files(&left_files, HashAlgorithm::Blake3);
    let right = hash_files(&right_files, HashAlgorithm::Blake3);
    left.merge(&right);

    let dx = hash_bytes(HashAlgorithm::Blake3, &b("x"));
    let group_x = left.entries.iter().find(|g| g.digest == dx).unwrap();
    assert_eq!(group_x.paths, vec![b("a"), b("c")]);
    assert_eq!(left.entries.len(), 3);
}

#[test]
fn merge_with_empty_changes_nothing() {
    let files = vec![item("a", "x"), item("b", "x")];
    let mut groups = hash_files(&files, HashAlgorithm::XxHash);
    let empty = DigestGroups::new();
    groups.merge(&empty);
    assert_eq!(groups.entries.len(), 1);
    assert_eq!(groups.entries[0].paths, vec![b("a"), b("b")]);
}

#[test]
fn unreadable_files_never_reach_the_hasher() {
    // the caller drops files it could not read; an empty input yields an
    // empty mapping rather than an error
    let files: Vec<FileBytes> = Vec::new();
    let groups = hash_files(&files, HashAlgorithm::Sha256);
    assert_eq!(groups.entries.len(), 0);
}
