use lstree::backend::{Backend, BackendMeta};
use lstree::dal::DAL;
use lstree::driver::Core;
use lstree::flags::{Display, Flags, Layout, Recursion};
use lstree::mem_backend::MemBackend;
use lstree::meta::FileType;

fn file_meta(size: u64) -> BackendMeta {
    BackendMeta { is_dir: false, size: Some(size), modified: Some(1_700_000_000) }
}

fn dir_meta() -> BackendMeta {
    BackendMeta { is_dir: true, size: None, modified: Some(1_700_000_000) }
}

/// The tree every scenario uses: root `a` holding files `b.txt`, `c.txt`
/// and a subdirectory `d` holding `e.txt`.
fn sample_backend() -> MemBackend {
    let mut b = MemBackend::new();
    b.add(b"a".to_vec(), dir_meta());
    b.add(b"a/b.txt".to_vec(), file_meta(1));
    b.add(b"a/c.txt".to_vec(), file_meta(2));
    b.add(b"a/d".to_vec(), dir_meta());
    b.add(b"a/d/e.txt".to_vec(), file_meta(3));
    b
}

fn flags(display: Display, layout: Layout, depth: usize, globs: Vec<Vec<u8>>) -> Flags {
    Flags {
        display,
        layout,
        recursion: Recursion { enabled: false, depth },
        ignore_globs: globs,
        sorts: vec![],
    }
}

#[test]
fn grid_depth_one_lists_first_level() {
    let dal = DAL::new(b"/tmp".to_vec(), sample_backend());
    let core = Core::new(flags(Display::All, Layout::Grid, 1, vec![]));
    let roots = core.run(&dal, &vec![b"a".to_vec()]).expect("listing failed");
    assert_eq!(roots.len(), 1);
    let children = roots[0].sub_metas.as_ref().expect("root not expanded");
    let names: Vec<Vec<u8>> = children.iter().map(|c| c.name().bytes).collect();
    assert_eq!(names, vec![b"b.txt".to_vec(), b"c.txt".to_vec(), b"d".to_vec()]);
    for c in children.iter() {
        let grand = c.sub_metas.as_ref().expect("child not expanded");
        assert!(grand.is_empty());
    }
}

#[test]
fn tree_depth_two_expands_subdirectory() {
    let dal = DAL::new(b"/tmp".to_vec(), sample_backend());
    let mut f = flags(Display::All, Layout::Tree, 2, vec![]);
    f.recursion.depth = 2;
    let core = Core::new(f);
    let roots = core.run(&dal, &vec![b"a".to_vec()]).expect("listing failed");
    let children = roots[0].sub_metas.as_ref().expect("root not expanded");
    let d = children
        .iter()
        .find(|c| c.name().bytes == b"d".to_vec())
        .expect("subdirectory missing");
    let grand = d.sub_metas.as_ref().expect("subdirectory not expanded");
    assert_eq!(grand.len(), 1);
    assert_eq!(grand[0].name().bytes, b"e.txt".to_vec());
    assert_eq!(grand[0].file_type(), FileType::File);
}

#[test]
fn ignore_glob_filters_matching_names() {
    let dal = DAL::new(b"/tmp".to_vec(), sample_backend());
    let core = Core::new(flags(Display::All, Layout::Grid, 1, vec![b"*.txt".to_vec()]));
    let roots = core.run(&dal, &vec![b"a".to_vec()]).expect("listing failed");
    let children = roots[0].sub_metas.as_ref().expect("root not expanded");
    let names: Vec<Vec<u8>> = children.iter().map(|c| c.name().bytes).collect();
    assert_eq!(names, vec![b"d".to_vec()]);
}

#[test]
fn directory_only_grid_never_expands() {
    let backend = sample_backend();
    let f = flags(Display::DirectoryOnly, Layout::Grid, 3, vec![]);
    let dal = DAL::new(b"/tmp".to_vec(), backend);
    let root = dal.from_path(&b"a".to_vec()).expect("stat failed");
    let children = dal.recurse_into(&root, 3, &f).expect("listing failed");
    assert!(children.is_empty());
    // and the driver leaves such a root unexpanded
    let core = Core::new(flags(Display::DirectoryOnly, Layout::Grid, 3, vec![]));
    let roots = core.run(&dal, &vec![b"a".to_vec()]).expect("listing failed");
    assert!(roots[0].sub_metas.is_none());
}

#[test]
fn stat_failure_aborts_the_batch() {
    let dal = DAL::new(b"/tmp".to_vec(), sample_backend());
    let core = Core::new(flags(Display::All, Layout::Grid, 1, vec![]));
    let r = core.run(&dal, &vec![b"missing".to_vec()]);
    assert_eq!(r.unwrap_err(), lstree::backend::IoError::NotFound);
}

#[test]
fn mem_backend_stat_finds_entries() {
    let b = sample_backend();
    let m = b.stat(&b"a/d".to_vec()).expect("stat failed");
    assert!(m.is_dir);
    assert!(b.stat(&b"a/x".to_vec()).is_err());
}
