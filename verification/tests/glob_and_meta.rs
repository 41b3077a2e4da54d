use lstree::glob::{any_glob_match, glob_match};
use lstree::meta::{file_name, Date, FileType, Meta, Size};

#[test]
fn star_matches_runs_of_bytes() {
    assert!(glob_match(&b"*.txt".to_vec(), &b"note.txt".to_vec()));
    assert!(glob_match(&b"*.txt".to_vec(), &b".txt".to_vec()));
    assert!(!glob_match(&b"*.txt".to_vec(), &b"note.txt.bak".to_vec()));
    assert!(glob_match(&b"*".to_vec(), &b"".to_vec()));
    assert!(glob_match(&b"a*b*c".to_vec(), &b"axxbyyc".to_vec()));
    assert!(!glob_match(&b"a*b*c".to_vec(), &b"axxbyy".to_vec()));
}

#[test]
fn question_mark_matches_one_byte() {
    assert!(glob_match(&b"a?c".to_vec(), &b"abc".to_vec()));
    assert!(!glob_match(&b"a?c".to_vec(), &b"ac".to_vec()));
    assert!(!glob_match(&b"a?c".to_vec(), &b"abbc".to_vec()));
}

#[test]
fn literals_match_themselves_alone() {
    assert!(glob_match(&b"abc".to_vec(), &b"abc".to_vec()));
    assert!(!glob_match(&b"abc".to_vec(), &b"abd".to_vec()));
    assert!(glob_match(&b"".to_vec(), &b"".to_vec()));
    assert!(!glob_match(&b"".to_vec(), &b"x".to_vec()));
}

#[test]
fn any_glob_match_scans_the_set() {
    let globs = vec![b"*.log".to_vec(), b"tmp?".to_vec()];
    assert!(any_glob_match(&globs, &b"run.log".to_vec()));
    assert!(any_glob_match(&globs, &b"tmp1".to_vec()));
    assert!(!any_glob_match(&globs, &b"keep.txt".to_vec()));
    assert!(!any_glob_match(&vec![], &b"anything".to_vec()));
}

#[test]
fn file_name_takes_the_last_component() {
    assert_eq!(file_name(&b"a/b/c.txt".to_vec()), b"c.txt".to_vec());
    assert_eq!(file_name(&b"plain".to_vec()), b"plain".to_vec());
    assert_eq!(file_name(&b"".to_vec()), b"".to_vec());
    assert_eq!(file_name(&b"dir/".to_vec()), b"".to_vec());
}

fn sample(path: &[u8]) -> Meta {
    Meta {
        path: path.to_vec(),
        kind: FileType::File,
        size: Some(12),
        modified: Date::Timestamp(99),
        sub_metas: None,
    }
}

#[test]
fn name_holds_filename_and_kind() {
    let m = sample(b"x/y/z.rs");
    let n = m.name();
    assert_eq!(n.bytes, b"z.rs".to_vec());
    assert_eq!(n.file_type, FileType::File);
}

#[test]
fn display_path_gains_a_leading_dot() {
    assert_eq!(sample(b"x/y").path(), b"./x/y".to_vec());
    assert_eq!(sample(b"/abs/y").path(), b"/abs/y".to_vec());
    assert_eq!(sample(b"./x").path(), b"./x".to_vec());
    assert_eq!(sample(b".").path(), b".".to_vec());
    // a dotfile name is relative and not rooted at the current directory
    assert_eq!(sample(b".foo").path(), b"./.foo".to_vec());
    assert_eq!(sample(b"").path(), b"./".to_vec());
}

#[test]
fn accessors_report_the_resolved_metadata() {
    let m = sample(b"f");
    assert_eq!(m.size().map(|s| s.get_bytes()), Some(12));
    assert_eq!(m.file_type(), FileType::File);
    assert_eq!(m.modified_date(), Date::Timestamp(99));
    assert_eq!(Size::new(7).get_bytes(), 7);
}
