use dedup::record::get_undestroyed_name;
use dedup::record::strip_extension;
use dedup::record::filter_accepts;
use dedup::record::FileRecord;
use dedup::record::Filter;

#[test]
fn undestroyed_strips_space_digit() {
    assert_eq!(get_undestroyed_name("photo 2"), "photo");
    assert_eq!(get_undestroyed_name("photo 3"), "photo");
    assert_eq!(get_undestroyed_name("photo 4"), "photo");
}

#[test]
fn undestroyed_strips_paren_digit() {
    assert_eq!(get_undestroyed_name("photo (1)"), "photo");
    assert_eq!(get_undestroyed_name("photo (2)"), "photo");
    assert_eq!(get_undestroyed_name("photo (3)"), "photo");
}

#[test]
fn undestroyed_leaves_other_names() {
    assert_eq!(get_undestroyed_name("photo"), "photo");
    assert_eq!(get_undestroyed_name("photo 5"), "photo 5");
    assert_eq!(get_undestroyed_name("photo (4)"), "photo (4)");
    assert_eq!(get_undestroyed_name("photo2"), "photo2");
    assert_eq!(get_undestroyed_name("a"), "a");
    assert_eq!(get_undestroyed_name(""), "");
}

#[test]
fn undestroyed_on_bare_suffix() {
    assert_eq!(get_undestroyed_name(" 2"), "");
    assert_eq!(get_undestroyed_name(" (1)"), "");
}

#[test]
fn undestroyed_handles_non_ascii() {
    assert_eq!(get_undestroyed_name("café 2"), "café");
    assert_eq!(get_undestroyed_name("café"), "café");
}

#[test]
fn strip_extension_cuts_last_dot() {
    assert_eq!(strip_extension("a.txt"), "a");
    assert_eq!(strip_extension("archive.tar.gz"), "archive.tar");
    assert_eq!(strip_extension("foo."), "foo");
}

#[test]
fn strip_extension_keeps_dotfiles() {
    assert_eq!(strip_extension(".bashrc"), ".bashrc");
    assert_eq!(strip_extension("noext"), "noext");
    assert_eq!(strip_extension(""), "");
    assert_eq!(strip_extension("."), ".");
}

#[test]
fn file_record_new_normalizes() {
    let r = FileRecord::new("photo 2.jpg", "/pics/photo 2.jpg".to_string(), 10);
    assert_eq!(r.name, "photo 2");
    assert_eq!(r.name_undup, "photo");
    assert_eq!(r.path, "/pics/photo 2.jpg");
    assert_eq!(r.size, 10);

    let plain = FileRecord::new("photo.jpg", "/pics/photo.jpg".to_string(), 10);
    assert_eq!(plain.name, "photo");
    assert_eq!(plain.name_undup, "photo");
}

#[test]
fn filter_none_accepts_everything() {
    assert!(filter_accepts(&None, "photo 2"));
    assert!(filter_accepts(&None, "photo"));
}

#[test]
fn filter_notwo_rejects_space_two() {
    let f = Some(Filter::Notwo);
    assert!(!filter_accepts(&f, "photo 2"));
    assert!(filter_accepts(&f, "photo 3"));
    assert!(filter_accepts(&f, "photo"));
}

#[test]
fn filter_onlytwo_keeps_space_two() {
    let f = Some(Filter::Onlytwo);
    assert!(filter_accepts(&f, "photo 2"));
    assert!(!filter_accepts(&f, "photo 3"));
    assert!(!filter_accepts(&f, "photo"));
}

#[test]
fn filter_onlynum_keeps_space_digits() {
    let f = Some(Filter::Onlynum);
    assert!(filter_accepts(&f, "photo 2"));
    assert!(filter_accepts(&f, "photo 3"));
    assert!(filter_accepts(&f, "photo 4"));
    assert!(!filter_accepts(&f, "photo (1)"));
    assert!(!filter_accepts(&f, "photo"));
}
