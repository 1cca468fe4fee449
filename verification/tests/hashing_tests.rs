use dedup::record::FileRecord;
use dedup::classify::dedup_name_size;
use dedup::groups::DupGroup;
use dedup::groups::build_groups;
use dedup::hashing::content_hash;
use dedup::hashing::check_dup_hash;
use dedup::hashing::check_group_hashes;
use dedup::hashing::check_hashes;
use dedup::report::HashingUpdate;
use dedup::report::report_step;

fn rec(file_name: &str, size: u64) -> FileRecord {
    let path = format!("/root/{}", file_name);
    FileRecord::new(file_name, path, size)
}

#[test]
fn content_hash_is_a_function_of_the_bytes() {
    let a = content_hash(b"some file contents");
    let b = content_hash(b"some file contents");
    let c = content_hash(b"other file contents");
    assert_eq!(a, b);
    assert_ne!(a, c);
    assert_ne!(content_hash(b""), content_hash(b"x"));
}

#[test]
fn check_dup_hash_decides_by_hash() {
    let orig = content_hash(b"payload");
    assert!(check_dup_hash(&Some(b"payload".to_vec()), orig));
    assert!(!check_dup_hash(&Some(b"payloae".to_vec()), orig));
    assert!(!check_dup_hash(&None, orig));
}

#[test]
fn group_keeps_true_duplicate_rejects_false_one() {
    // An original with two candidate duplicates, one byte-identical and
    // one with different bytes: only the identical one survives and one
    // rejection is reported.
    let mut group = DupGroup {
        original: rec("photo.jpg", 3),
        duplicates: vec![rec("photo 2.jpg", 3), rec("photo 3.jpg", 3)],
    };
    let orig_content = Some(b"abc".to_vec());
    let dup_contents = vec![Some(b"abc".to_vec()), Some(b"xyz".to_vec())];
    let rejected = check_group_hashes(&mut group, &orig_content, &dup_contents);
    assert_eq!(group.duplicates.len(), 1);
    assert_eq!(group.duplicates[0].path, "/root/photo 2.jpg");
    assert_eq!(rejected.len(), 1);
    assert_eq!(rejected[0].path, "/root/photo 3.jpg");
}

#[test]
fn unreadable_duplicate_is_rejected() {
    let mut group = DupGroup {
        original: rec("photo.jpg", 3),
        duplicates: vec![rec("photo 2.jpg", 3)],
    };
    let orig_content = Some(b"abc".to_vec());
    let dup_contents = vec![None];
    let rejected = check_group_hashes(&mut group, &orig_content, &dup_contents);
    assert_eq!(group.duplicates.len(), 0);
    assert_eq!(rejected.len(), 1);
}

#[test]
fn unreadable_original_leaves_group_untouched() {
    // O's file is gone: the group stays as it was and nothing counts as a
    // false positive.
    let mut group = DupGroup {
        original: rec("photo.jpg", 3),
        duplicates: vec![rec("photo 2.jpg", 3), rec("photo 3.jpg", 3)],
    };
    let dup_contents = vec![Some(b"abc".to_vec()), Some(b"xyz".to_vec())];
    let rejected = check_group_hashes(&mut group, &None, &dup_contents);
    assert_eq!(group.duplicates.len(), 2);
    assert_eq!(rejected.len(), 0);

    let groups = vec![group];
    let contents = vec![(None, dup_contents)];
    let (out, discarded) = check_hashes(groups, &contents);
    assert_eq!(out.len(), 1);
    assert_eq!(out[0].duplicates.len(), 2);
    assert_eq!(discarded, 0);
}

#[test]
fn verification_twice_removes_nothing_more() {
    // Idempotence: a second pass over the survivors, with the same bytes,
    // removes nothing and prunes nothing.
    let groups = vec![
        DupGroup {
            original: rec("a.txt", 3),
            duplicates: vec![rec("a 2.txt", 3), rec("a 3.txt", 3)],
        },
        DupGroup {
            original: rec("b.txt", 3),
            duplicates: vec![rec("b 2.txt", 3)],
        },
    ];
    let contents = vec![
        (
            Some(b"aaa".to_vec()),
            vec![Some(b"aaa".to_vec()), Some(b"zzz".to_vec())],
        ),
        (Some(b"bbb".to_vec()), vec![Some(b"mmm".to_vec())]),
    ];
    let (first, discarded_first) = check_hashes(groups, &contents);
    assert_eq!(discarded_first, 2);
    assert_eq!(first.len(), 1);
    assert_eq!(first[0].duplicates.len(), 1);

    // Second pass: re-read the same bytes for what survived.
    let contents_again = vec![(Some(b"aaa".to_vec()), vec![Some(b"aaa".to_vec())])];
    let (second, discarded_second) = check_hashes(first.clone(), &contents_again);
    assert_eq!(discarded_second, 0);
    assert_eq!(second.len(), first.len());
    assert_eq!(second[0].duplicates.len(), first[0].duplicates.len());
    assert_eq!(second[0].duplicates[0].path, first[0].duplicates[0].path);
}

#[test]
fn end_to_end_scenario() {
    // Directory holds a.txt and a 2.txt (byte-identical), b.txt and
    // b (1).txt (different bytes of the same length). With hashing on,
    // the surviving duplicate set is {a 2.txt}; b (1).txt is rejected as a
    // false positive and reported.
    let files = vec![
        rec("a.txt", 4),
        rec("a 2.txt", 4),
        rec("b.txt", 4),
        rec("b (1).txt", 4),
    ];
    let (c, _log) = dedup_name_size(&files);
    let groups = build_groups(&c, &None);
    assert_eq!(groups.len(), 2);
    assert_eq!(groups[0].original.path, "/root/a.txt");
    assert_eq!(groups[0].duplicates.len(), 1);
    assert_eq!(groups[0].duplicates[0].path, "/root/a 2.txt");
    assert_eq!(groups[1].original.path, "/root/b.txt");
    assert_eq!(groups[1].duplicates[0].path, "/root/b (1).txt");

    // What --print-wrong-hash would log: the rejected record of b's group.
    let mut b_group = groups[1].clone();
    let rejected = check_group_hashes(
        &mut b_group,
        &Some(b"bbbb".to_vec()),
        &vec![Some(b"cccc".to_vec())],
    );
    assert_eq!(rejected.len(), 1);
    assert_eq!(rejected[0].name, "b (1)");

    let contents = vec![
        (Some(b"aaaa".to_vec()), vec![Some(b"aaaa".to_vec())]),
        (Some(b"bbbb".to_vec()), vec![Some(b"cccc".to_vec())]),
    ];
    let (out, discarded) = check_hashes(groups, &contents);
    assert_eq!(discarded, 1);
    assert_eq!(out.len(), 1);
    assert_eq!(out[0].original.path, "/root/a.txt");
    assert_eq!(out[0].duplicates.len(), 1);
    assert_eq!(out[0].duplicates[0].path, "/root/a 2.txt");
}

#[test]
fn empty_group_list_passes_through() {
    let (out, discarded) = check_hashes(Vec::new(), &Vec::new());
    assert_eq!(out.len(), 0);
    assert_eq!(discarded, 0);
}

#[test]
fn report_step_counts_and_stops() {
    assert_eq!(report_step(0, &HashingUpdate::Completed), (1, false));
    assert_eq!(report_step(5, &HashingUpdate::Refresh), (5, false));
    assert_eq!(report_step(7, &HashingUpdate::Done), (7, true));
}
