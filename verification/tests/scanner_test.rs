use deduck::bytes::extension;
use deduck::bytes::file_name;
use deduck::config::parse_usize;
use deduck::errors::DeduckError;
use deduck::report::Report;
use deduck::scanner::FsEntry;
use deduck::scanner::scan_directory;

fn b(s: &str) -> Vec<u8> {
    s.as_bytes().to_vec()
}

fn entry(path: &str, size: u64, is_file: bool) -> FsEntry {
    FsEntry { path: b(path), size, is_file }
}

#[test]
fn test_scan_directory_basic() {
    let entries = vec![entry("dir/file1.txt", 0, true), entry("dir/file2.txt", 0, true)];
    let result = scan_directory(true, &entries).unwrap();

    let mut found: Vec<Vec<u8>> = result.iter().map(|r| file_name(&r.path)).collect();
    found.sort();
    assert_eq!(found, vec![b("file1.txt"), b("file2.txt")]);
}

#[test]
fn scanner_skips_everything_but_regular_files() {
    let entries = vec![
        entry("root", 0, false),
        entry("root/sub", 0, false),
        entry("root/sub/a.txt", 12, true),
        entry("root/link", 0, false),
        entry("root/.hidden/b.png", 7, true),
    ];
    let records = scan_directory(true, &entries).unwrap();
    assert_eq!(records.len(), 2);
    assert_eq!(records[0].path, b("root/sub/a.txt"));
    assert_eq!(records[0].size, 12);
    assert_eq!(records[0].ext, Some(b("txt")));
    assert_eq!(records[1].path, b("root/.hidden/b.png"));
    assert_eq!(records[1].ext, Some(b("png")));
}

#[test]
fn scanner_on_missing_root_is_not_found() {
    let entries: Vec<FsEntry> = Vec::new();
    assert_eq!(scan_directory(false, &entries).unwrap_err(), DeduckError::NotFound);
}

#[test]
fn scanner_on_empty_directory_finds_nothing() {
    let entries: Vec<FsEntry> = Vec::new();
    let records = scan_directory(true, &entries).unwrap();
    assert_eq!(records.len(), 0);
}

#[test]
fn extensions_come_from_the_file_name_lowercased() {
    assert_eq!(extension(&b("dir/a.TXT")), Some(b("txt")));
    assert_eq!(extension(&b("archive.tar.gz")), Some(b("gz")));
    assert_eq!(extension(&b(".bashrc")), None);
    assert_eq!(extension(&b("noext")), None);
    assert_eq!(extension(&b("dir.d/noext")), None);
    assert_eq!(extension(&b("trailing.")), Some(b("")));
}

#[test]
fn file_name_is_the_last_component() {
    assert_eq!(file_name(&b("a/b/c.txt")), b("c.txt"));
    assert_eq!(file_name(&b("plain")), b("plain"));
    assert_eq!(file_name(&b("dir/")), b(""));
}

#[test]
fn scan_mode_values_parse_back() {
    assert_eq!(parse_usize(&b("0")), Some(0));
    assert_eq!(parse_usize(&b("2")), Some(2));
    assert_eq!(parse_usize(&b("007")), Some(7));
    assert_eq!(parse_usize(&b("")), None);
    assert_eq!(parse_usize(&b("12a")), None);
    assert_eq!(parse_usize(&b("-1")), None);
    assert_eq!(parse_usize(&b("99999999999999999999999999")), None);
}

#[test]
fn report_accumulates_events() {
    let mut report = Report::new();
    assert_eq!(report.files_found, 0);
    report.set_files_found(12);
    report.add_file(b("x/a.txt"), 100);
    report.add_file(b("x/b.txt"), 23);
    assert_eq!(report.files_found, 12);
    assert_eq!(report.files_deleted, 2);
    assert_eq!(report.space_freed, 123);
    assert_eq!(report.deleted_files, vec![b("x/a.txt"), b("x/b.txt")]);
}
