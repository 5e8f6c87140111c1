use deduck::filters::batch;
use deduck::scanner::make_record;

fn b(s: &str) -> Vec<u8> {
    s.as_bytes().to_vec()
}

#[test]
fn test_batch() {
    let records = vec![
        make_record(b("report1.pdf"), 2_000_000),
        make_record(b("report2.pdf"), 2_000_000),
        make_record(b("image.png"), 1_000_000),
        make_record(b("ignore.txt"), 1_000_000),
    ];
    let allowed_exts = vec![b("pdf"), b("png")];

    let result = batch(&records, &allowed_exts);

    assert_eq!(result.len(), 2);

    let pdf_group = result.get(&b("pdf"), 2_000_000).unwrap();
    assert_eq!(pdf_group.len(), 2);

    let png_group = result.get(&b("png"), 1_000_000).unwrap();
    assert_eq!(png_group.len(), 1);

    assert!(result.get(&b("txt"), 1_000_000).is_none());
}

#[test]
fn batch_keeps_all_paths_of_a_key() {
    let records = vec![
        make_record(b("a/x.txt"), 3),
        make_record(b("b/y.txt"), 3),
        make_record(b("c/z.txt"), 4),
    ];
    let allowed = vec![b("txt")];
    let result = batch(&records, &allowed);
    assert_eq!(result.len(), 2);
    let shared = result.get(&b("txt"), 3).unwrap();
    assert_eq!(shared.len(), 2);
    assert_eq!(shared[0], b("a/x.txt"));
    assert_eq!(shared[1], b("b/y.txt"));
    let single = result.get(&b("txt"), 4).unwrap();
    assert_eq!(single.len(), 1);
}

#[test]
fn batch_lowercases_extensions() {
    let records = vec![make_record(b("UPPER.PDF"), 7), make_record(b("lower.pdf"), 7)];
    let allowed = vec![b("pdf")];
    let result = batch(&records, &allowed);
    assert_eq!(result.len(), 1);
    let group = result.get(&b("pdf"), 7).unwrap();
    assert_eq!(group.len(), 2);
}

#[test]
fn batch_drops_disallowed_and_missing_extensions() {
    let records = vec![
        make_record(b("noext"), 5),
        make_record(b("a.exe"), 5),
        make_record(b("b.txt"), 5),
    ];
    let allowed = vec![b("txt")];
    let result = batch(&records, &allowed);
    assert_eq!(result.len(), 1);
    assert!(result.get(&b("exe"), 5).is_none());
    let group = result.get(&b("txt"), 5).unwrap();
    assert_eq!(group.len(), 1);
    assert_eq!(group[0], b("b.txt"));
}

#[test]
fn shared_paths_skips_singleton_batches() {
    let records = vec![
        make_record(b("a.txt"), 3),
        make_record(b("b.txt"), 3),
        make_record(b("c.txt"), 9),
    ];
    let allowed = vec![b("txt")];
    let result = batch(&records, &allowed);
    let shared = result.shared_paths();
    assert_eq!(shared.len(), 2);
    assert!(shared.contains(&b("a.txt")));
    assert!(shared.contains(&b("b.txt")));
    assert!(!shared.contains(&b("c.txt")));
}
