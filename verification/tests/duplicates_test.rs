use deduck::digest::HashAlgorithm;
use deduck::duplicates::collect_digest_groups;
use deduck::duplicates::duplicates;
use deduck::duplicates::quarantine_plan;
use deduck::duplicates::select_algorithm;
use deduck::errors::DeduckError;
use deduck::hasher::FileBytes;
use deduck::hasher::hash_files;
use deduck::quarantine::QuarantineState;
use deduck::quarantine::StoredFile;

fn b(s: &str) -> Vec<u8> {
    s.as_bytes().to_vec()
}

fn file(path: &str, content: &str) -> StoredFile {
    StoredFile { path: b(path), content: b(content) }
}

fn root_names(state: &QuarantineState) -> Vec<Vec<u8>> {
    state.root_files.iter().map(|f| f.path.clone()).collect()
}

fn quarantined_names(state: &QuarantineState) -> Vec<Vec<u8>> {
    state.quarantined.as_ref().map(|q| q.iter().map(|f| f.path.clone()).collect()).unwrap_or_default()
}

#[test]
fn test_find_and_process_duplicates_with_quarantine() {
    let mut state = QuarantineState {
        root_files: vec![
            file("file1.txt", "duplicate content"),
            file("file2.txt", "duplicate content"),
            file("file3.txt", "unique content"),
            file("file4.png", "same image"),
            file("file5.png", "same image"),
        ],
        quarantined: None,
    };

    // run with quarantine enabled
    let result = duplicates(&mut state, 1, true);
    assert!(result.is_ok());
    assert_eq!(result.unwrap(), 5);

    assert!(state.quarantined.is_some());

    let quarantined = quarantined_names(&state);
    let remaining = root_names(&state);

    let mut all_files: Vec<Vec<u8>> = quarantined.iter().chain(remaining.iter()).cloned().collect();
    all_files.sort();
    let mut expected = vec![
        b("file1.txt"),
        b("file2.txt"),
        b("file3.txt"),
        b("file4.png"),
        b("file5.png"),
    ];
    expected.sort();
    assert_eq!(all_files, expected);

    // exactly one duplicate of each pair was quarantined
    let txt_dupes = [b("file1.txt"), b("file2.txt")];
    let img_dupes = [b("file4.png"), b("file5.png")];

    let quarantined_txt = txt_dupes.iter().filter(|f| quarantined.contains(f)).count();
    let remaining_txt = txt_dupes.iter().filter(|f| remaining.contains(f)).count();
    assert_eq!(quarantined_txt, 1, "One .txt duplicate should be quarantined");
    assert_eq!(remaining_txt, 1, "One .txt duplicate should remain");

    let quarantined_img = img_dupes.iter().filter(|f| quarantined.contains(f)).count();
    let remaining_img = img_dupes.iter().filter(|f| remaining.contains(f)).count();
    assert_eq!(quarantined_img, 1, "One .png duplicate should be quarantined");
    assert_eq!(remaining_img, 1, "One .png duplicate should remain");

    assert!(remaining.contains(&b("file3.txt"))); // unique
}

#[test]
fn test_find_and_process_duplicates_no_quarantine() {
    let mut state = QuarantineState {
        root_files: vec![
            file("file1.txt", "duplicate content"),
            file("file2.txt", "duplicate content"),
        ],
        quarantined: None,
    };

    let result = duplicates(&mut state, 1, false);
    assert!(result.is_ok());

    assert!(state.quarantined.is_none());

    assert!(root_names(&state).contains(&b("file1.txt")));
    assert!(root_names(&state).contains(&b("file2.txt")));
}

#[test]
fn quick_mode_reports_one_group_and_keeps_one_copy() {
    // a.txt and b.txt hold the same byte, c.txt another: quick-mode
    // detection owes exactly one duplicate group {a.txt, b.txt}
    let items = vec![
        FileBytes { path: b("a.txt"), data: b("X") },
        FileBytes { path: b("b.txt"), data: b("X") },
        FileBytes { path: b("c.txt"), data: b("Y") },
    ];
    let groups = collect_digest_groups(&hash_files(&items, HashAlgorithm::XxHash));
    assert_eq!(groups.len(), 1);
    assert_eq!(groups[0].paths, vec![b("a.txt"), b("b.txt")]);
    let plan = quarantine_plan(&groups);
    assert_eq!(plan, vec![b("b.txt")]);

    // after a clean, one of the two lives under quarantine, the other and
    // c.txt stay in the root
    let mut state = QuarantineState {
        root_files: vec![file("a.txt", "X"), file("b.txt", "X"), file("c.txt", "Y")],
        quarantined: None,
    };
    let found = duplicates(&mut state, 0, true).unwrap();
    assert_eq!(found, 3);
    assert_eq!(quarantined_names(&state), vec![b("b.txt")]);
    assert_eq!(root_names(&state), vec![b("a.txt"), b("c.txt")]);
}

#[test]
fn empty_directory_reports_zero_without_error() {
    let mut state = QuarantineState { root_files: vec![], quarantined: None };
    let found = duplicates(&mut state, 1, true).unwrap();
    assert_eq!(found, 0);
    assert!(state.quarantined.is_none());
    assert_eq!(state.root_files.len(), 0);
}

#[test]
fn unknown_scan_mode_is_a_typed_error() {
    let mut state = QuarantineState { root_files: vec![file("a.txt", "X")], quarantined: None };
    let r = duplicates(&mut state, 9, true);
    assert_eq!(r, Err(DeduckError::ConfigMissing));
    assert_eq!(state.root_files.len(), 1);
    assert!(state.quarantined.is_none());
    assert!(select_algorithm(9).is_none());
    assert_eq!(select_algorithm(0), Some(HashAlgorithm::XxHash));
    assert_eq!(select_algorithm(1), Some(HashAlgorithm::Blake3));
    assert_eq!(select_algorithm(2), Some(HashAlgorithm::Sha256));
}

#[test]
fn identical_bytes_across_extensions_stay_apart() {
    // a batch is keyed by extension and size: equal bytes under different
    // extensions are never compared, so nothing is scheduled
    let mut state = QuarantineState {
        root_files: vec![file("a.txt", "same"), file("b.png", "same")],
        quarantined: None,
    };
    let found = duplicates(&mut state, 1, true).unwrap();
    assert_eq!(found, 2);
    assert!(state.quarantined.is_none());
    assert_eq!(state.root_files.len(), 2);
}
