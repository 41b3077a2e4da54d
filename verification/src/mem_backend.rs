use vstd::prelude::*;
use crate::backend::{paths_of, Backend, BackendMeta, IoError};
use crate::meta::{bytes_eq, clone_bytes};

verus! {

/// An in-memory backend: a fixed table of paths and their metadata, so the
/// traversal and filter policy can be exercised without touching storage.
pub struct MemBackend {
    pub entries: Vec<(Vec<u8>, BackendMeta)>,
}

impl MemBackend {
    pub fn new() -> (r: MemBackend)
        ensures
            r.entries@.len() == 0,
    {
        MemBackend { entries: Vec::new() }
    }

    /// Records one entry under its backend-relative path.
    pub fn add(&mut self, path: Vec<u8>, meta: BackendMeta)
        ensures
            final(self).entries@ == old(self).entries@.push((path, meta)),
    {
        self.entries.push((path, meta));
    }
}

/// The first table row under `path`, if the table holds one: lookups are
/// deterministic, so resolving one identity twice reports the same entry.
pub open spec fn table_lookup(entries: Seq<(Vec<u8>, BackendMeta)>, path: Seq<u8>) -> Option<
    BackendMeta,
>
    decreases entries.len(),
{
    if entries.len() == 0 {
        None
    } else if entries[0].0@ == path {
        Some(entries[0].1)
    } else {
        table_lookup(entries.skip(1), path)
    }
}

/// The length of the prefix that a direct child of `dir` must carry: the
/// whole of `dir`, or nothing when `dir` is `/` alone (the root).
pub open spec fn spec_dir_prefix_len(dir: Seq<u8>) -> int {
    if dir.len() == 1 && dir[0] == 47u8 {
        0
    } else {
        dir.len() as int
    }
}

/// Whether `p` names a direct child of the directory prefix `dir`: it
/// extends the prefix, and the remainder holds no `/` except possibly one
/// trailing `/`, as real backends mark directory entries.
pub open spec fn spec_direct_child(p: Seq<u8>, dir: Seq<u8>) -> bool {
    let plen = spec_dir_prefix_len(dir);
    &&& p.len() > plen
    &&& (forall|m: int| 0 <= m < plen ==> p[m] == dir[m])
    &&& (forall|j: int| plen <= j < p.len() && p[j] == 47u8 ==> j == p.len() - 1)
}

/// The paths of the table rows naming direct children of `dir`, once
/// each, in table order.
pub open spec fn table_children(entries: Seq<(Vec<u8>, BackendMeta)>, dir: Seq<u8>) -> Seq<
    Seq<u8>,
>
    decreases entries.len(),
{
    if entries.len() == 0 {
        Seq::empty()
    } else {
        let rest = table_children(entries.drop_last(), dir);
        if spec_direct_child(entries.last().0@, dir) {
            rest.push(entries.last().0@)
        } else {
            rest
        }
    }
}

/// Whether `p` names a direct child of the directory prefix `dir`.
fn is_direct_child(p: &Vec<u8>, dir: &Vec<u8>) -> (r: bool)
    ensures
        r == spec_direct_child(p@, dir@),
{
    let plen: usize = if dir.len() == 1 && dir[0] == 47u8 {
        0
    } else {
        dir.len()
    };
    if p.len() <= plen {
        return false;
    }
    let mut i: usize = 0;
    while i < plen
        invariant
            i <= plen,
            plen < p@.len(),
            plen <= dir@.len(),
            plen == spec_dir_prefix_len(dir@),
            forall|m: int| 0 <= m < i ==> p@[m] == dir@[m],
        decreases plen - i,
    {
        if p[i] != dir[i] {
            return false;
        }
        i = i + 1;
    }
    let mut j: usize = plen;
    while j < p.len()
        invariant
            plen <= j <= p@.len(),
            plen < p@.len(),
            plen == spec_dir_prefix_len(dir@),
            forall|m: int| 0 <= m < plen ==> p@[m] == dir@[m],
            forall|m: int| plen <= m < j && p@[m] == 47u8 ==> m == p@.len() - 1,
        decreases p@.len() - j,
    {
        if p[j] == 47u8 && j != p.len() - 1 {
            return false;
        }
        j = j + 1;
    }
    true
}

/// Where the first `i` rows miss `path`, the lookup is decided by the
/// rows from `i` on.
proof fn lemma_table_lookup_from(entries: Seq<(Vec<u8>, BackendMeta)>, path: Seq<u8>, i: int)
    requires
        0 <= i <= entries.len(),
        forall|m: int| 0 <= m < i ==> entries[m].0@ != path,
    ensures
        table_lookup(entries, path) == table_lookup(entries.skip(i), path),
    decreases i,
{
    if i > 0 {
        assert(entries[0].0@ != path);
        assert(forall|m: int| 0 <= m < i - 1 ==> entries.skip(1)[m].0@ != path);
        lemma_table_lookup_from(entries.skip(1), path, i - 1);
        assert(entries.skip(1).skip(i - 1) =~= entries.skip(i));
    } else {
        assert(entries.skip(0) =~= entries);
    }
}

/// Lookups are deterministic: two resolutions of one identity against an
/// unchanged table report the same entry — in particular the same kind.
pub proof fn lemma_stat_deterministic(
    backend: MemBackend,
    path: Seq<u8>,
    m1: BackendMeta,
    m2: BackendMeta,
)
    requires
        backend.stat_ok(path, m1),
        backend.stat_ok(path, m2),
    ensures
        m1 == m2,
{
}

impl Backend for MemBackend {
    /// A successful lookup reports exactly the first table row under the
    /// asked-for path.
    open spec fn stat_ok(&self, path: Seq<u8>, m: BackendMeta) -> bool {
        table_lookup(self.entries@, path) == Some(m)
    }

    /// A lookup fails only with `NotFound`, and only when the table holds
    /// nothing under the path: success is owed everywhere else.
    open spec fn stat_err(&self, path: Seq<u8>, e: IoError) -> bool {
        e == IoError::NotFound && table_lookup(self.entries@, path) is None
    }

    /// An enumeration hands back exactly the paths of the rows naming
    /// direct children of the queried directory, once each, in table
    /// order.
    open spec fn list_ok(&self, dir: Seq<u8>, entries: Seq<Vec<u8>>) -> bool {
        paths_of(entries) == table_children(self.entries@, dir)
    }

    /// An enumeration of this table never fails.
    open spec fn list_err(&self, dir: Seq<u8>, e: IoError) -> bool {
        false
    }

    fn stat(&self, path: &Vec<u8>) -> (r: Result<BackendMeta, IoError>) {
        let mut i: usize = 0;
        while i < self.entries.len()
            invariant
                i <= self.entries@.len(),
                forall|m: int| 0 <= m < i ==> self.entries@[m].0@ != path@,
            decreases self.entries@.len() - i,
        {
            if bytes_eq(&self.entries[i].0, path) {
                proof {
                    lemma_table_lookup_from(self.entries@, path@, i as int);
                    assert(self.entries@.skip(i as int)[0] == self.entries@[i as int]);
                }
                return Ok(self.entries[i].1);
            }
            i = i + 1;
        }
        proof {
            lemma_table_lookup_from(self.entries@, path@, self.entries@.len() as int);
        }
        Err(IoError::NotFound)
    }

    fn list(&self, dir: &Vec<u8>) -> (r: Result<Vec<Vec<u8>>, IoError>) {
        let mut out: Vec<Vec<u8>> = Vec::new();
        proof {
            assert(self.entries@.take(0) =~= Seq::<(Vec<u8>, BackendMeta)>::empty());
            assert(paths_of(out@) =~= table_children(self.entries@.take(0), dir@));
        }
        let mut i: usize = 0;
        while i < self.entries.len()
            invariant
                i <= self.entries@.len(),
                paths_of(out@) == table_children(self.entries@.take(i as int), dir@),
            decreases self.entries@.len() - i,
        {
            proof {
                assert(self.entries@.take(i + 1).drop_last() =~= self.entries@.take(i as int));
                assert(self.entries@.take(i + 1).last() == self.entries@[i as int]);
            }
            if is_direct_child(&self.entries[i].0, dir) {
                let c = clone_bytes(&self.entries[i].0);
                out.push(c);
                proof {
                    assert(paths_of(out@) =~= table_children(self.entries@.take(i + 1), dir@));
                }
            } else {
                proof {
                    assert(paths_of(out@) =~= table_children(self.entries@.take(i + 1), dir@));
                }
            }
            i = i + 1;
        }
        proof {
            assert(self.entries@.take(self.entries@.len() as int) =~= self.entries@);
        }
        Ok(out)
    }
}

} // verus!
