use lstree::backend::BackendMeta;
use lstree::dal::DAL;
use lstree::flags::{Display, Flags, Layout, Recursion};
use lstree::glob::any_glob_match;
use lstree::mem_backend::MemBackend;
use lstree::meta::{Date, FileType, Meta};

fn backend() -> MemBackend {
    let mut b = MemBackend::new();
    b.add(b"r".to_vec(), BackendMeta { is_dir: true, size: None, modified: None });
    b.add(
        b"r/one".to_vec(),
        BackendMeta { is_dir: false, size: Some(5), modified: Some(10) },
    );
    b.add(b"r/sub".to_vec(), BackendMeta { is_dir: true, size: None, modified: Some(20) });
    b.add(
        b"r/sub/two".to_vec(),
        BackendMeta { is_dir: false, size: Some(7), modified: Some(30) },
    );
    b
}

fn flags(display: Display, layout: Layout, globs: Vec<Vec<u8>>) -> Flags {
    Flags {
        display,
        layout,
        recursion: Recursion { enabled: false, depth: 1 },
        ignore_globs: globs,
        sorts: vec![],
    }
}

#[test]
fn depth_zero_returns_empty() {
    let dal = DAL::new(b"/w".to_vec(), backend());
    let f = flags(Display::All, Layout::Tree, vec![]);
    let root = dal.from_path(&b"r".to_vec()).expect("stat failed");
    let r = dal.recurse_into(&root, 0, &f).expect("listing failed");
    assert!(r.is_empty());
    // regardless of kind and filters
    let file = dal.from_path(&b"r/one".to_vec()).expect("stat failed");
    let f2 = flags(Display::DirectoryOnly, Layout::Grid, vec![b"*".to_vec()]);
    assert!(dal.recurse_into(&file, 0, &f2).expect("listing failed").is_empty());
}

#[test]
fn file_node_has_no_children_at_any_depth() {
    let dal = DAL::new(b"/w".to_vec(), backend());
    let f = flags(Display::All, Layout::Tree, vec![]);
    let file = dal.from_path(&b"r/one".to_vec()).expect("stat failed");
    assert_eq!(file.file_type(), FileType::File);
    for depth in [1usize, 2, 50] {
        let r = dal.recurse_into(&file, depth, &f).expect("listing failed");
        assert!(r.is_empty());
    }
}

#[test]
fn directory_only_tree_keeps_directories_alone() {
    let dal = DAL::new(b"/w".to_vec(), backend());
    let f = flags(Display::DirectoryOnly, Layout::Tree, vec![]);
    let root = dal.from_path(&b"r".to_vec()).expect("stat failed");
    let r = dal.recurse_into(&root, 2, &f).expect("listing failed");
    assert_eq!(r.len(), 1);
    for c in r.iter() {
        assert_eq!(c.file_type(), FileType::Directory);
        for g in c.sub_metas.as_ref().expect("child not expanded").iter() {
            assert_eq!(g.file_type(), FileType::Directory);
        }
    }
}

#[test]
fn filtering_again_changes_nothing() {
    let dal = DAL::new(b"/w".to_vec(), backend());
    let globs = vec![b"on?".to_vec()];
    let f = flags(Display::All, Layout::Grid, globs.clone());
    let root = dal.from_path(&b"r".to_vec()).expect("stat failed");
    let once = dal.recurse_into(&root, 1, &f).expect("listing failed");
    // every survivor already fails every glob, so a second pass keeps all
    let twice: Vec<&Meta> =
        once.iter().filter(|c| !any_glob_match(&globs, &c.name().bytes)).collect();
    assert_eq!(twice.len(), once.len());
    let names: Vec<Vec<u8>> = once.iter().map(|c| c.name().bytes).collect();
    assert_eq!(names, vec![b"sub".to_vec()]);
}

#[test]
fn invalid_name_is_a_hard_error() {
    let mut b = MemBackend::new();
    b.add(b"r".to_vec(), BackendMeta { is_dir: true, size: None, modified: None });
    // an enumerated child whose path ends in `/` has no extractable filename
    b.add(b"r/".to_vec(), BackendMeta { is_dir: false, size: Some(1), modified: None });
    b.add(b"r//".to_vec(), BackendMeta { is_dir: false, size: Some(1), modified: None });
    let dal = DAL::new(b"/w".to_vec(), b);
    let f = flags(Display::All, Layout::Grid, vec![]);
    let root = dal.from_path(&b"r".to_vec()).expect("stat failed");
    let r = dal.recurse_into(&root, 1, &f);
    assert_eq!(r.unwrap_err(), lstree::backend::IoError::InvalidName);
}

#[test]
fn unexpanded_and_expanded_empty_differ() {
    let dal = DAL::new(b"/w".to_vec(), backend());
    let f = flags(Display::All, Layout::Grid, vec![]);
    let fresh = dal.from_path(&b"r/sub".to_vec()).expect("stat failed");
    assert!(fresh.sub_metas.is_none());
    let mut expanded = fresh;
    let subs = dal.recurse_into(&expanded, 0, &f).expect("listing failed");
    expanded.sub_metas = Some(subs);
    assert!(expanded.sub_metas.as_ref().expect("expanded").is_empty());
}

#[test]
fn a_failing_child_resolution_aborts_with_its_error() {
    let mut b = MemBackend::new();
    b.add(b"r".to_vec(), BackendMeta { is_dir: true, size: None, modified: None });
    // a listed directory marker whose own path resolves to nothing
    b.add(b"r/gone/".to_vec(), BackendMeta { is_dir: true, size: None, modified: None });
    let dal = DAL::new(b"/w".to_vec(), b);
    let f = flags(Display::All, Layout::Grid, vec![]);
    let root = dal.from_path(&b"r".to_vec()).expect("stat failed");
    let r = dal.recurse_into(&root, 1, &f);
    assert_eq!(r.unwrap_err(), lstree::backend::IoError::NotFound);
}

#[test]
fn re_resolving_an_identity_reports_the_same_entry() {
    let dal = DAL::new(b"/w".to_vec(), backend());
    let first = dal.from_path(&b"r/sub".to_vec()).expect("stat failed");
    let second = dal.from_path(&b"r/sub".to_vec()).expect("stat failed");
    assert_eq!(first.path, second.path);
    assert_eq!(first.file_type(), second.file_type());
    assert_eq!(first.modified_date(), second.modified_date());
    // even where the table holds a second row under the same path, the
    // first row keeps deciding
    let mut b = backend();
    b.add(b"r/sub".to_vec(), BackendMeta { is_dir: false, size: Some(9), modified: None });
    let dal2 = DAL::new(b"/w".to_vec(), b);
    let third = dal2.from_path(&b"r/sub".to_vec()).expect("stat failed");
    assert_eq!(third.file_type(), FileType::Directory);
}

#[test]
fn fresh_nodes_carry_backend_metadata() {
    let dal = DAL::new(b"/w".to_vec(), backend());
    let m = dal.from_path(&b"r/one".to_vec()).expect("stat failed");
    assert_eq!(m.file_type(), FileType::File);
    assert_eq!(m.size().map(|s| s.get_bytes()), Some(5));
    assert_eq!(m.modified_date(), Date::Timestamp(10));
    assert!(m.sub_metas.is_none());
    let d = dal.from_path(&b"r".to_vec()).expect("stat failed");
    assert_eq!(d.file_type(), FileType::Directory);
    assert_eq!(d.modified_date(), Date::Invalid);
}
