use vstd::prelude::*;
use crate::backend::{Backend, BackendMeta, IoError};

verus! {

#[verifier::external_type_specification]
#[verifier::external_body]
pub struct ExOperator(opendal::Operator);

#[verifier::external_type_specification]
#[verifier::external_body]
pub struct ExRuntime(tokio::runtime::Runtime);

/// The filesystem backend: one opendal operator bound to a working root
/// and wrapped in opendal's retry layer, together with the runtime that
/// drives the operator's asynchronous calls to completion.
///
/// The runtime's `block_on` panics when entered from within an
/// asynchronous execution context: construct and use this backend from
/// synchronous code only.
pub struct FsBackend {
    pub op: opendal::Operator,
    pub rt: tokio::runtime::Runtime,
}

impl FsBackend {
    /// Relies on opendal's `Operator::new` over the `Fs` service, bound to
    /// `root`, on `RetryLayer` for automatic retry of transient failures,
    /// and on tokio's current-thread runtime builder: opendal's filesystem
    /// service runs its file operations on a tokio runtime, so the backend
    /// carries one of its own.
    #[verifier::external_body]
    pub fn new(root: &Vec<u8>) -> (r: Result<FsBackend, IoError>) {
        let rs = String::from_utf8_lossy(root).into_owned();
        let builder = opendal::services::Fs::default().root(&rs);
        let rt = match tokio::runtime::Builder::new_current_thread().enable_all().build() {
            Ok(rt) => rt,
            Err(_) => return Err(IoError::Other),
        };
        match opendal::Operator::new(builder) {
            Ok(op) => Ok(FsBackend { op: op.layer(opendal::layers::RetryLayer::new()), rt }),
            Err(_) => Err(IoError::Other),
        }
    }
}

/// Relies on opendal's `Operator::stat`: the metadata of the entry at the
/// given root-relative path, driven to completion by the backend's own
/// runtime, whose context tokio's file operations require; opendal's error
/// kinds map one to one onto the library's.
#[verifier::external_body]
fn op_stat(op: &opendal::Operator, rt: &tokio::runtime::Runtime, path: &Vec<u8>) -> (r: Result<
    BackendMeta,
    IoError,
>)
    ensures
        r matches Err(e) ==> e != IoError::InvalidName,
{
    let p = String::from_utf8_lossy(path).into_owned();
    match rt.block_on(op.stat(&p)) {
        Ok(m) => Ok(BackendMeta {
            is_dir: m.is_dir(),
            size: Some(m.content_length()),
            modified: m.last_modified().map(|t| t.into_inner().as_second()),
        }),
        Err(e) => Err(match e.kind() {
            opendal::ErrorKind::NotFound => IoError::NotFound,
            opendal::ErrorKind::PermissionDenied => IoError::Denied,
            _ => IoError::Other,
        }),
    }
}

/// Relies on opendal's `Operator::list`, driven by the backend's own
/// runtime: the entries under the given directory path, one root-relative
/// path each (the listed directory itself may be among them, and
/// directories carry a trailing `/`).
#[verifier::external_body]
fn op_list(op: &opendal::Operator, rt: &tokio::runtime::Runtime, dir: &Vec<u8>) -> (r: Result<
    Vec<Vec<u8>>,
    IoError,
>)
    ensures
        r matches Err(e) ==> e != IoError::InvalidName,
{
    let d = String::from_utf8_lossy(dir).into_owned();
    match rt.block_on(op.list(&d)) {
        Ok(es) => Ok(es.iter().map(|e| e.path().as_bytes().to_vec()).collect()),
        Err(e) => Err(match e.kind() {
            opendal::ErrorKind::NotFound => IoError::NotFound,
            opendal::ErrorKind::PermissionDenied => IoError::Denied,
            _ => IoError::Other,
        }),
    }
}

impl Backend for FsBackend {
    /// What is on disk lies outside any model: a successful resolution may
    /// report anything.
    open spec fn stat_ok(&self, path: Seq<u8>, m: BackendMeta) -> bool {
        true
    }

    /// The disk owes this backend nothing, but its wrapper's conversion
    /// never produces the library's own filename error.
    open spec fn stat_err(&self, path: Seq<u8>, e: IoError) -> bool {
        e != IoError::InvalidName
    }

    /// As with `stat_ok`: a successful enumeration may hand back anything.
    open spec fn list_ok(&self, dir: Seq<u8>, entries: Seq<Vec<u8>>) -> bool {
        true
    }

    /// As with `stat_err`.
    open spec fn list_err(&self, dir: Seq<u8>, e: IoError) -> bool {
        e != IoError::InvalidName
    }

    fn stat(&self, path: &Vec<u8>) -> (r: Result<BackendMeta, IoError>) {
        op_stat(&self.op, &self.rt, path)
    }

    fn list(&self, dir: &Vec<u8>) -> (r: Result<Vec<Vec<u8>>, IoError>) {
        op_list(&self.op, &self.rt, dir)
    }
}

} // verus!
