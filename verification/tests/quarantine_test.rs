use deduck::errors::DeduckError;
use deduck::quarantine::QuarantineState;
use deduck::quarantine::StoredFile;
use deduck::quarantine::get_quarantine_dir;

fn b(s: &str) -> Vec<u8> {
    s.as_bytes().to_vec()
}

fn file(path: &str, content: &str) -> StoredFile {
    StoredFile { path: b(path), content: b(content) }
}

fn root_names(state: &QuarantineState) -> Vec<Vec<u8>> {
    state.root_files.iter().map(|f| f.path.clone()).collect()
}

fn quarantined_names(state: &QuarantineState) -> Vec<Vec<u8>> {
    state.quarantined.as_ref().map(|q| q.iter().map(|f| f.path.clone()).collect()).unwrap_or_default()
}

#[test]
fn test_quarantine_and_restore() {
    let mut state = QuarantineState {
        root_files: vec![
            file("original/file1.txt", "hello world\n"),
            file("original/file2.txt", "hello rust\n"),
        ],
        quarantined: None,
    };

    let moved = vec![b("original/file1.txt"), b("original/file2.txt")];
    state.quarantine_duplicates(&moved).unwrap();

    assert!(!root_names(&state).contains(&b("original/file1.txt")));
    assert!(!root_names(&state).contains(&b("original/file2.txt")));
    assert!(quarantined_names(&state).contains(&b("file1.txt")));
    assert!(quarantined_names(&state).contains(&b("file2.txt")));

    state.restore_quarantined(&b("restore")).unwrap();

    assert!(state.quarantined.is_none());

    assert!(root_names(&state).contains(&b("restore/file1.txt")));
    assert!(root_names(&state).contains(&b("restore/file2.txt")));
}

#[test]
fn round_trip_keeps_names_and_contents() {
    let mut state = QuarantineState {
        root_files: vec![file("root/a.txt", "A"), file("root/sub/b.txt", "B"), file("root/c.txt", "C")],
        quarantined: None,
    };
    state.quarantine_duplicates(&vec![b("root/sub/b.txt"), b("root/c.txt")]).unwrap();
    assert_eq!(state.root_files.len(), 1);
    assert_eq!(quarantined_names(&state), vec![b("b.txt"), b("c.txt")]);
    state.restore_quarantined(&b("root")).unwrap();
    assert!(state.quarantined.is_none());

    let mut pairs: Vec<(Vec<u8>, Vec<u8>)> = state
        .root_files
        .iter()
        .map(|f| {
            let name = f.path.rsplit(|&c| c == b'/').next().unwrap().to_vec();
            (name, f.content.clone())
        })
        .collect();
    pairs.sort();
    assert_eq!(
        pairs,
        vec![(b("a.txt"), b("A")), (b("b.txt"), b("B")), (b("c.txt"), b("C"))]
    );
}

#[test]
fn quarantine_missing_source_is_io_error() {
    let mut state = QuarantineState { root_files: vec![file("a.txt", "A")], quarantined: None };
    let r = state.quarantine_duplicates(&vec![b("missing.txt")]);
    assert_eq!(r, Err(DeduckError::IoError));
    // the directory was still created
    assert!(state.quarantined.is_some());
    assert_eq!(state.root_files.len(), 1);
}

#[test]
fn quarantine_name_collision_is_io_error_and_partial() {
    let mut state = QuarantineState {
        root_files: vec![file("one/x.txt", "1"), file("two/x.txt", "2"), file("y.txt", "3")],
        quarantined: None,
    };
    let r = state.quarantine_duplicates(&vec![b("one/x.txt"), b("two/x.txt"), b("y.txt")]);
    assert_eq!(r, Err(DeduckError::IoError));
    // the first move stays; the colliding one and everything after it do not happen
    assert_eq!(quarantined_names(&state), vec![b("x.txt")]);
    assert!(root_names(&state).contains(&b("two/x.txt")));
    assert!(root_names(&state).contains(&b("y.txt")));
}

#[test]
fn restore_without_quarantine_is_not_found() {
    let mut state = QuarantineState { root_files: vec![file("a.txt", "A")], quarantined: None };
    let r = state.restore_quarantined(&b("root"));
    assert_eq!(r, Err(DeduckError::NotFound));
    assert_eq!(state.root_files.len(), 1);
}

#[test]
fn restore_overwrites_same_path() {
    let mut state = QuarantineState {
        root_files: vec![file("root/a.txt", "old")],
        quarantined: Some(vec![file("a.txt", "new")]),
    };
    state.restore_quarantined(&b("root")).unwrap();
    assert_eq!(state.root_files.len(), 1);
    assert_eq!(state.root_files[0].path, b("root/a.txt"));
    assert_eq!(state.root_files[0].content, b("new"));
}

#[test]
fn purge_after_quarantine_leaves_nothing_recoverable() {
    let mut state = QuarantineState {
        root_files: vec![file("a.txt", "X"), file("b.txt", "X")],
        quarantined: None,
    };
    state.quarantine_duplicates(&vec![b("b.txt")]).unwrap();
    assert!(state.quarantined.is_some());

    let report = state.run_purge(&b("root"));
    assert!(state.quarantined.is_none());
    assert_eq!(report.files_deleted, 1);
    assert_eq!(report.space_freed, 1);
    assert_eq!(report.deleted_files, vec![b("root/.deduck_quarantine/b.txt")]);

    // nothing is recoverable: a restore now fails with NotFound
    let r = state.restore_quarantined(&b("root"));
    assert_eq!(r, Err(DeduckError::NotFound));
}

#[test]
fn purge_twice_is_not_an_error() {
    let mut state = QuarantineState {
        root_files: vec![file("a.txt", "X")],
        quarantined: Some(vec![file("b.txt", "Y")]),
    };
    let first = state.run_purge(&b("r"));
    assert_eq!(first.files_deleted, 1);
    assert!(state.quarantined.is_none());

    let second = state.run_purge(&b("r"));
    assert_eq!(second.files_deleted, 0);
    assert_eq!(second.space_freed, 0);
    assert!(state.quarantined.is_none());
    assert_eq!(state.root_files.len(), 1);
}

#[test]
fn quarantine_dir_is_under_the_root() {
    assert_eq!(get_quarantine_dir(&b("/data/photos")), b("/data/photos/.deduck_quarantine"));
}
