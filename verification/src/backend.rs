use vstd::prelude::*;

verus! {

/// The error taxonomy of the storage layer: a path that does not exist, a
/// permission failure, an enumerated child with no extractable filename,
/// and any backend failure that survives retries.
#[derive(Clone, Copy, Debug, PartialEq, Eq, Structural)]
pub enum IoError {
    NotFound,
    Denied,
    InvalidName,
    Other,
}

/// What a backend reports of one entry: its kind, its byte count when the
/// backend has one, and its modification time in seconds when it has one.
#[derive(Clone, Copy, Debug)]
pub struct BackendMeta {
    pub is_dir: bool,
    pub size: Option<u64>,
    pub modified: Option<i64>,
}

/// The byte strings of a sequence of byte vectors.
pub open spec fn paths_of(s: Seq<Vec<u8>>) -> Seq<Seq<u8>> {
    s.map_values(|v: Vec<u8>| v@)
}

/// A storage backend bound to one root: it resolves a path to metadata and
/// enumerates the direct children of a directory. Implementations report
/// transient failures only after their own retries are exhausted.
///
/// Each implementation pins down, through the four spec functions, what a
/// successful call may hand back and when a failure may come: exactly for
/// a backend with a known model, and vacuously for real storage, whose
/// contents are outside any model.
pub trait Backend {
    /// What a successful resolution of `path` may report.
    spec fn stat_ok(&self, path: Seq<u8>, m: BackendMeta) -> bool;

    /// What a failed resolution of `path` may report; a backend with a
    /// full model also says here when failure is owed at all.
    spec fn stat_err(&self, path: Seq<u8>, e: IoError) -> bool;

    /// What a successful enumeration of the directory `dir` may hand back.
    spec fn list_ok(&self, dir: Seq<u8>, entries: Seq<Vec<u8>>) -> bool;

    /// What a failed enumeration of `dir` may report.
    spec fn list_err(&self, dir: Seq<u8>, e: IoError) -> bool;

    /// The metadata of the entry at `path` (backend-relative), or the
    /// error class of the failure.
    fn stat(&self, path: &Vec<u8>) -> (r: Result<BackendMeta, IoError>)
        ensures
            r matches Ok(m) ==> self.stat_ok(path@, m),
            r matches Err(e) ==> self.stat_err(path@, e),
    ;

    /// The direct children of the directory `dir` (backend-relative,
    /// ending in `/`), as backend-relative paths in enumeration order. The
    /// listed directory itself may appear among the entries, and a
    /// directory entry may carry a trailing `/`.
    fn list(&self, dir: &Vec<u8>) -> (r: Result<Vec<Vec<u8>>, IoError>)
        ensures
            r matches Ok(v) ==> self.list_ok(dir@, v@),
            r matches Err(e) ==> self.list_err(dir@, e),
    ;
}

} // verus!
