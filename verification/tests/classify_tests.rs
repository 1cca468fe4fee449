use dedup::record::FileRecord;
use dedup::classify::Classification;
use dedup::classify::dedup_name_size;

fn rec(file_name: &str, size: u64) -> FileRecord {
    let path = format!("/root/{}", file_name);
    FileRecord::new(file_name, path, size)
}

fn paths_sorted(rs: &[FileRecord]) -> Vec<String> {
    let mut v: Vec<String> = rs.iter().map(|r| r.path.clone()).collect();
    v.sort();
    v
}

#[test]
fn empty_input_classifies_to_nothing() {
    let (c, log) = dedup_name_size(&Vec::new());
    assert_eq!(c.originals.len(), 0);
    assert_eq!(c.duplicates.len(), 0);
    assert_eq!(log.len(), 0);
}

#[test]
fn shortest_name_is_original_in_every_order() {
    // "photo" must end up the original and the two suffixed copies the
    // duplicates, whatever the arrival order.
    let names = ["photo.jpg", "photo 2.jpg", "photo (1).jpg"];
    let orders: [[usize; 3]; 6] = [
        [0, 1, 2],
        [0, 2, 1],
        [1, 0, 2],
        [1, 2, 0],
        [2, 0, 1],
        [2, 1, 0],
    ];
    for order in orders.iter() {
        let files: Vec<FileRecord> = order.iter().map(|&k| rec(names[k], 42)).collect();
        let (c, _log) = dedup_name_size(&files);
        assert_eq!(c.originals.len(), 1);
        assert_eq!(c.originals[0].path, "/root/photo.jpg");
        assert_eq!(
            paths_sorted(&c.duplicates),
            vec!["/root/photo (1).jpg".to_string(), "/root/photo 2.jpg".to_string()]
        );
    }
}

#[test]
fn reassignment_promotes_shorter_name() {
    // A = "photo 2" arrives first, B = "photo" second: the original is
    // reassigned to B and A is demoted to a duplicate.
    let files = vec![rec("photo 2.jpg", 7), rec("photo.jpg", 7)];
    let (c, log) = dedup_name_size(&files);
    assert_eq!(c.originals.len(), 1);
    assert_eq!(c.originals[0].path, "/root/photo.jpg");
    assert_eq!(c.duplicates.len(), 1);
    assert_eq!(c.duplicates[0].path, "/root/photo 2.jpg");
    assert_eq!(log, vec![("photo".to_string(), "photo 2".to_string())]);
}

#[test]
fn reassignment_same_result_in_other_order() {
    // B = "photo" first, A = "photo 2" second: same final state, but no
    // reassignment happens.
    let files = vec![rec("photo.jpg", 7), rec("photo 2.jpg", 7)];
    let (c, log) = dedup_name_size(&files);
    assert_eq!(c.originals.len(), 1);
    assert_eq!(c.originals[0].path, "/root/photo.jpg");
    assert_eq!(c.duplicates.len(), 1);
    assert_eq!(c.duplicates[0].path, "/root/photo 2.jpg");
    assert_eq!(log.len(), 0);
}

#[test]
fn different_sizes_never_become_duplicates() {
    // Two records normalize to "doc" but differ in size: the first keeps
    // the key, the second is dropped, and neither is a duplicate.
    let files = vec![rec("doc.txt", 5), rec("doc 2.txt", 9)];
    let (c, _log) = dedup_name_size(&files);
    assert_eq!(c.originals.len(), 1);
    assert_eq!(c.originals[0].path, "/root/doc.txt");
    assert_eq!(c.duplicates.len(), 0);
}

#[test]
fn classification_partitions_coherent_input() {
    // With sizes agreeing per normalized name, every record lands in
    // exactly one of the two collections.
    let files = vec![
        rec("a.txt", 1),
        rec("a 2.txt", 1),
        rec("b.txt", 2),
        rec("c (1).txt", 3),
        rec("c.txt", 3),
        rec("d.txt", 4),
    ];
    let (c, _log) = dedup_name_size(&files);
    let mut all = paths_sorted(&c.originals);
    all.extend(paths_sorted(&c.duplicates));
    all.sort();
    let mut expected = paths_sorted(&files);
    expected.sort();
    assert_eq!(all, expected);
    assert_eq!(c.originals.len(), 4);
    assert_eq!(c.duplicates.len(), 2);
}

#[test]
fn equal_length_tie_keeps_first_arrival() {
    // "photo 2" and "photo 3" have equal-length names; the fold keeps the
    // one that arrived first as the original.
    let files = vec![rec("photo 2.jpg", 3), rec("photo 3.jpg", 3)];
    let (c, log) = dedup_name_size(&files);
    assert_eq!(c.originals.len(), 1);
    assert_eq!(c.originals[0].path, "/root/photo 2.jpg");
    assert_eq!(c.duplicates.len(), 1);
    assert_eq!(c.duplicates[0].path, "/root/photo 3.jpg");
    assert_eq!(log.len(), 0);
}

#[test]
fn classify_record_reports_reassignment() {
    let mut c = Classification::new();
    let ev1 = c.classify_record(rec("photo 2.jpg", 7));
    assert!(ev1.is_none());
    let ev2 = c.classify_record(rec("photo.jpg", 7));
    assert_eq!(ev2, Some(("photo".to_string(), "photo 2".to_string())));
}
