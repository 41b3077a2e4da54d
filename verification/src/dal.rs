use vstd::prelude::*;
use crate::backend::{paths_of, Backend, BackendMeta, IoError};
use crate::flags::{Display, Flags, Layout};
use crate::glob::{any_glob_match, matches_any};
use crate::meta::{bytes_eq, clone_bytes, file_name, file_name_of, Date, FileType, Meta};

verus! {

/// A child that the filter policy admits: its filename matches no ignore
/// glob, and in a directory-only tree it is a directory.
pub open spec fn child_admissible(m: Meta, flags: Flags) -> bool {
    &&& !matches_any(flags.ignore_globs@, file_name_of(m.path@))
    &&& (flags.layout is Tree && flags.display is DirectoryOnly ==> m.kind is Directory)
}

/// An enumerated entry as the listing treats it: one trailing `/`, as
/// backends mark directory entries, is dropped.
pub open spec fn normalize_entry(p: Seq<u8>) -> Seq<u8> {
    if p.len() > 0 && p.last() == 47u8 {
        p.drop_last()
    } else {
        p
    }
}

/// Whether the filter policy drops the entry `ep`, given the report `b`
/// its resolution returned: its filename matches an ignore glob, or a
/// directory-only tree finds it is no directory.
pub open spec fn entry_skipped(ep: Seq<u8>, b: BackendMeta, flags: Flags) -> bool {
    ||| matches_any(flags.ignore_globs@, file_name_of(ep))
    ||| (flags.layout is Tree && flags.display is DirectoryOnly && !b.is_dir)
}

/// How a successful listing's result `v` relates to the enumerated
/// entries `es` at remaining depth `d`: walking the entries in order,
/// the listed directory itself is passed over; every other entry carries
/// a filename, was resolved to some admissible report, and either the
/// policy drops it or the next node of `v` is built from it, its own
/// children in turn a full listing one level down. So `v` holds exactly
/// the surviving children, once each, in enumeration order, recursively
/// populated to the depth.
pub open spec fn survivors_ok<B: Backend>(
    backend: B,
    src_path: Seq<u8>,
    flags: Flags,
    d: int,
    es: Seq<Seq<u8>>,
    v: Seq<Meta>,
) -> bool
    decreases d, 0int, es.len(),
{
    if es.len() == 0 {
        v.len() == 0
    } else {
        let ep = normalize_entry(es.last());
        if ep == src_path {
            survivors_ok(backend, src_path, flags, d, es.drop_last(), v)
        } else {
            file_name_of(ep).len() > 0 && exists|b: BackendMeta|
                #[trigger] backend.stat_ok(ep, b) && (if entry_skipped(ep, b, flags) {
                    survivors_ok(backend, src_path, flags, d, es.drop_last(), v)
                } else {
                    v.len() > 0 && v.last().path@ == ep && meta_fields_match(v.last(), b)
                        && v.last().sub_metas is Some && (if d <= 1 {
                        v.last().sub_metas->Some_0@.len() == 0
                    } else {
                        listing_ok(
                            backend,
                            flags,
                            d - 1,
                            ep,
                            v.last().kind,
                            v.last().sub_metas->Some_0@,
                        )
                    }) && survivors_ok(backend, src_path, flags, d, es.drop_last(), v.drop_last())
                })
        }
    }
}

/// What one full listing of the node at `src_path` (of kind `src_kind`)
/// owes at remaining depth `d`: nothing below an exhausted depth, under a
/// directory-only flat layout, or under a file; otherwise some report of
/// the node's own re-resolution decides — a directory's children are
/// exactly the surviving entries of some admitted enumeration, and
/// anything else has none.
pub open spec fn listing_ok<B: Backend>(
    backend: B,
    flags: Flags,
    d: int,
    src_path: Seq<u8>,
    src_kind: FileType,
    v: Seq<Meta>,
) -> bool
    decreases d, 1int, 0int,
{
    if d <= 0 || (flags.display is DirectoryOnly && !(flags.layout is Tree)) || src_kind is File {
        v.len() == 0
    } else {
        exists|b: BackendMeta|
            #[trigger] backend.stat_ok(src_path, b) && (if b.is_dir {
                exists|es: Seq<Vec<u8>>|
                    #[trigger] backend.list_ok(src_path.push(47u8), es) && survivors_ok(
                        backend,
                        src_path,
                        flags,
                        d,
                        paths_of(es),
                        v,
                    )
            } else {
                v.len() == 0
            })
    }
}

/// Where a failed listing's error can come from: the node's own
/// re-resolution, the enumeration of its directory path, or — under some
/// admitted enumeration — a child's resolution, a child with no filename
/// (the library's own `InvalidName`), or the same causes one level down
/// inside a kept child.
pub open spec fn recursion_err<B: Backend>(
    backend: B,
    src_path: Seq<u8>,
    d: int,
    e: IoError,
) -> bool
    decreases d,
{
    ||| backend.stat_err(src_path, e)
    ||| backend.list_err(src_path.push(47u8), e)
    ||| exists|es: Seq<Vec<u8>>|
        #[trigger] backend.list_ok(src_path.push(47u8), es) && exists|j: int|
            #![trigger es[j]]
            0 <= j < es.len() && {
                let ep = normalize_entry(es[j]@);
                ||| backend.stat_err(ep, e)
                ||| (e == IoError::InvalidName && file_name_of(ep).len() == 0)
                ||| (d > 1 && recursion_err(backend, ep, d - 1, e))
            }
}

/// A fully expanded subtree under a remaining depth `d`: the node has been
/// expanded, a node at exhausted depth or of file kind has no children,
/// and every child is admissible and itself fully expanded one level down.
pub open spec fn subtree_ok(m: Meta, flags: Flags, d: int) -> bool
    decreases m,
{
    &&& m.sub_metas is Some
    &&& (d <= 0 ==> m.sub_metas->Some_0@.len() == 0)
    &&& (m.kind is File ==> m.sub_metas->Some_0@.len() == 0)
    &&& forall|i: int|
        0 <= i < m.sub_metas->Some_0@.len() ==> child_admissible(
            #[trigger] m.sub_metas->Some_0@[i],
            flags,
        ) && subtree_ok(m.sub_metas->Some_0@[i], flags, d - 1)
}

/// The resolved metadata fields of `m` against one backend report.
pub open spec fn meta_fields_match(m: Meta, b: BackendMeta) -> bool {
    &&& m.kind == (if b.is_dir {
        FileType::Directory
    } else {
        FileType::File
    })
    &&& m.size == b.size
    &&& m.modified == (match b.modified {
        Some(t) => Date::Timestamp(t),
        None => Date::Invalid,
    })
}

/// How a freshly resolved node relates to what the backend reported: the
/// identity is the path asked for, the kind and metadata are the report's,
/// and the node is not yet expanded.
pub open spec fn meta_matches(m: Meta, path: Seq<u8>, b: BackendMeta) -> bool {
    &&& m.path@ == path
    &&& meta_fields_match(m, b)
    &&& m.sub_metas is None
}

/// A node whose metadata some successful resolution of its own identity
/// could have reported: with a modelled backend, nothing is fabricated.
pub open spec fn meta_backed<B: Backend>(backend: B, m: Meta) -> bool {
    exists|b: BackendMeta| #[trigger] backend.stat_ok(m.path@, b) && meta_fields_match(m, b)
}

/// A node of a built forest all of whose metadata, and its descendants',
/// is backed by the backend's own reports.
pub open spec fn tree_backed<B: Backend>(backend: B, m: Meta) -> bool
    decreases m,
{
    &&& meta_backed(backend, m)
    &&& (m.sub_metas matches Some(cs) ==> forall|i: int|
        0 <= i < cs@.len() ==> tree_backed(backend, #[trigger] cs@[i]))
}

/// Builds the node for one entry from what the backend reported of it.
pub fn meta_from(path: &Vec<u8>, b: &BackendMeta) -> (r: Meta)
    ensures
        meta_matches(r, path@, *b),
{
    Meta {
        path: clone_bytes(path),
        kind: if b.is_dir {
            FileType::Directory
        } else {
            FileType::File
        },
        size: b.size,
        modified: match b.modified {
            Some(t) => Date::Timestamp(t),
            None => Date::Invalid,
        },
        sub_metas: None,
    }
}

/// The data access layer: one storage backend bound to one working root,
/// exposing metadata resolution and the recursion and filter policy.
pub struct DAL<B: Backend> {
    pub work_dir: Vec<u8>,
    pub backend: B,
}

impl<B: Backend> DAL<B> {
    /// Binds the given backend, already rooted at `work_dir`, as this
    /// layer's single storage handle.
    pub fn new(work_dir: Vec<u8>, backend: B) -> (r: DAL<B>)
        ensures
            r.work_dir == work_dir,
            r.backend == backend,
    {
        DAL { work_dir, backend }
    }

    /// Resolves one path to an unexpanded node. Whatever the backend
    /// reported, the node carries the asked-for identity, the reported
    /// kind, size and date, and no children yet.
    pub fn from_path(&self, path: &Vec<u8>) -> (r: Result<Meta, IoError>)
        ensures
            r matches Ok(m) ==> exists|b: BackendMeta|
                #[trigger] self.backend.stat_ok(path@, b) && meta_matches(m, path@, b),
            r matches Err(e) ==> self.backend.stat_err(path@, e),
    {
        match self.backend.stat(path) {
            Ok(b) => {
                let m = meta_from(path, &b);
                proof {
                    assert(self.backend.stat_ok(path@, b) && meta_matches(m, path@, b));
                }
                Ok(m)
            },
            Err(e) => Err(e),
        }
    }

    /// Lists the admitted children of `src`, recursing depth-first and
    /// attaching each child's own children before returning.
    ///
    /// A zero depth, a directory-only display outside a tree layout, and a
    /// file node each yield an empty listing with no enumeration. An
    /// enumerated child with no filename is a hard error; the first error
    /// of any kind aborts the whole listing.
    pub fn recurse_into(&self, src: &Meta, depth: usize, flags: &Flags) -> (r: Result<
        Vec<Meta>,
        IoError,
    >)
        ensures
            depth == 0 ==> (r matches Ok(v) && v@.len() == 0),
            flags.display is DirectoryOnly && !(flags.layout is Tree) ==> (r matches Ok(v)
                && v@.len() == 0),
            src.kind is File ==> (r matches Ok(v) && v@.len() == 0),
            r matches Ok(v) ==> forall|i: int|
                0 <= i < v@.len() ==> child_admissible(#[trigger] v@[i], *flags) && subtree_ok(
                    v@[i],
                    *flags,
                    depth - 1,
                ) && tree_backed(self.backend, v@[i]),
            r matches Ok(v) ==> listing_ok(
                self.backend,
                *flags,
                depth as int,
                src.path@,
                src.kind,
                v@,
            ),
            r matches Err(e) ==> recursion_err(self.backend, src.path@, depth as int, e),
        decreases depth,
    {
        if depth == 0 {
            return Ok(Vec::new());
        }
        if matches!(flags.display, Display::DirectoryOnly) && !matches!(
            flags.layout,
            Layout::Tree,
        ) {
            return Ok(Vec::new());
        }
        if matches!(src.kind, FileType::File) {
            return Ok(Vec::new());
        }
        // confirm the current kind with a fresh stat: a stale node whose
        // entry has become a file must not be enumerated
        let fresh = match self.backend.stat(&src.path) {
            Ok(b) => b,
            Err(e) => {
                return Err(e);
            },
        };
        if !fresh.is_dir {
            proof {
                assert(self.backend.stat_ok(src.path@, fresh));
            }
            return Ok(Vec::new());
        }
        let mut dir = clone_bytes(&src.path);
        dir.push(47u8);
        let entries = match self.backend.list(&dir) {
            Ok(v) => v,
            Err(e) => {
                return Err(e);
            },
        };
        let mut subs: Vec<Meta> = Vec::new();
        proof {
            assert(entries@.take(0) =~= Seq::<Vec<u8>>::empty());
            assert(paths_of(entries@.take(0)).len() == 0);
        }
        let mut idx: usize = 0;
        while idx < entries.len()
            invariant
                idx <= entries@.len(),
                depth >= 1,
                !(src.kind is File),
                !(flags.display is DirectoryOnly && !(flags.layout is Tree)),
                survivors_ok(
                    self.backend,
                    src.path@,
                    *flags,
                    depth as int,
                    paths_of(entries@.take(idx as int)),
                    subs@,
                ),
                self.backend.list_ok(src.path@.push(47u8), entries@),
                forall|i: int|
                    0 <= i < subs@.len() ==> child_admissible(#[trigger] subs@[i], *flags)
                        && subtree_ok(subs@[i], *flags, depth - 1) && tree_backed(
                        self.backend,
                        subs@[i],
                    ),
            decreases entries@.len() - idx,
        {
            let ghost pre = paths_of(entries@.take(idx as int));
            let ghost pe = paths_of(entries@.take(idx + 1));
            proof {
                assert(pe.drop_last() =~= pre);
                assert(pe.last() == entries@[idx as int]@);
            }
            // a backend may mark a directory entry with a trailing `/`
            let mut ep = clone_bytes(&entries[idx]);
            if ep.len() > 0 && ep[ep.len() - 1] == 47u8 {
                let _trailing = ep.pop();
            }
            proof {
                assert(ep@ == normalize_entry(entries@[idx as int]@));
            }
            // a backend may return the listed directory itself
            if !bytes_eq(&ep, &src.path) {
                let child0 = match self.from_path(&ep) {
                    Ok(m) => m,
                    Err(e) => {
                        proof {
                            assert(self.backend.stat_err(ep@, e));
                            assert(0 <= idx < entries@.len() && self.backend.stat_err(
                                normalize_entry(entries@[idx as int]@),
                                e,
                            ));
                            assert(recursion_err(self.backend, src.path@, depth as int, e));
                        }
                        return Err(e);
                    },
                };
                proof {
                    let b = choose|b: BackendMeta|
                        #[trigger] self.backend.stat_ok(ep@, b) && meta_matches(child0, ep@, b);
                    assert(child0.path@ == ep@);
                }
                let name = file_name(&ep);
                if name.len() == 0 {
                    proof {
                        assert(0 <= idx < entries@.len() && file_name_of(
                            normalize_entry(entries@[idx as int]@),
                        ).len() == 0);
                        assert(recursion_err(
                            self.backend,
                            src.path@,
                            depth as int,
                            IoError::InvalidName,
                        ));
                    }
                    return Err(IoError::InvalidName);
                }
                if any_glob_match(&flags.ignore_globs, &name) {
                    // dropped by an ignore glob
                    proof {
                        let b = choose|b: BackendMeta|
                            #[trigger] self.backend.stat_ok(ep@, b) && meta_matches(
                                child0,
                                ep@,
                                b,
                            );
                        assert(entry_skipped(ep@, b, *flags));
                        assert(survivors_ok(
                            self.backend,
                            src.path@,
                            *flags,
                            depth as int,
                            pe,
                            subs@,
                        ));
                    }
                } else {
                    let keep = !(matches!(flags.layout, Layout::Tree) && matches!(
                        flags.display,
                        Display::DirectoryOnly,
                    )) || matches!(child0.kind, FileType::Directory);
                    if keep {
                        let ghost old_subs = subs@;
                        let mut child = child0;
                        let grand = match self.recurse_into(&child, depth - 1, flags) {
                            Ok(v) => v,
                            Err(e) => {
                                proof {
                                    assert(depth - 1 != 0);
                                    assert(recursion_err(
                                        self.backend,
                                        ep@,
                                        depth - 1,
                                        e,
                                    ));
                                    assert(0 <= idx < entries@.len() && depth > 1
                                        && recursion_err(
                                        self.backend,
                                        normalize_entry(entries@[idx as int]@),
                                        depth - 1,
                                        e,
                                    ));
                                    assert(recursion_err(
                                        self.backend,
                                        src.path@,
                                        depth as int,
                                        e,
                                    ));
                                }
                                return Err(e);
                            },
                        };
                        child.sub_metas = Some(grand);
                        proof {
                            assert(child.path@ == ep@);
                            assert(child_admissible(child, *flags));
                            assert(subtree_ok(child, *flags, depth - 1));
                            let b = choose|b: BackendMeta|
                                #[trigger] self.backend.stat_ok(ep@, b) && meta_matches(
                                    child0,
                                    ep@,
                                    b,
                                );
                            assert(self.backend.stat_ok(child.path@, b) && meta_fields_match(
                                child,
                                b,
                            ));
                            assert(tree_backed(self.backend, child));
                        }
                        subs.push(child);
                        proof {
                            let b = choose|b: BackendMeta|
                                #[trigger] self.backend.stat_ok(ep@, b) && meta_matches(
                                    child0,
                                    ep@,
                                    b,
                                );
                            assert(!entry_skipped(ep@, b, *flags));
                            assert(subs@.last() == child);
                            assert(subs@.drop_last() =~= old_subs);
                            if depth <= 1 {
                                assert(child.sub_metas->Some_0@.len() == 0);
                            } else {
                                assert(listing_ok(
                                    self.backend,
                                    *flags,
                                    depth - 1,
                                    ep@,
                                    child.kind,
                                    child.sub_metas->Some_0@,
                                ));
                            }
                            assert(survivors_ok(
                                self.backend,
                                src.path@,
                                *flags,
                                depth as int,
                                pe,
                                subs@,
                            ));
                        }
                    } else {
                        // a directory-only tree drops this non-directory
                        proof {
                            let b = choose|b: BackendMeta|
                                #[trigger] self.backend.stat_ok(ep@, b) && meta_matches(
                                    child0,
                                    ep@,
                                    b,
                                );
                            assert(entry_skipped(ep@, b, *flags));
                            assert(survivors_ok(
                                self.backend,
                                src.path@,
                                *flags,
                                depth as int,
                                pe,
                                subs@,
                            ));
                        }
                    }
                }
            } else {
                // the backend listed the directory itself: passed over
                proof {
                    assert(survivors_ok(
                        self.backend,
                        src.path@,
                        *flags,
                        depth as int,
                        pe,
                        subs@,
                    ));
                }
            }
            idx = idx + 1;
        }
        proof {
            assert(entries@.take(entries@.len() as int) =~= entries@);
            assert(self.backend.stat_ok(src.path@, fresh));
            assert(self.backend.list_ok(src.path@.push(47u8), entries@));
            assert(survivors_ok(
                self.backend,
                src.path@,
                *flags,
                depth as int,
                paths_of(entries@),
                subs@,
            ));
            assert(listing_ok(self.backend, *flags, depth as int, src.path@, src.kind, subs@));
        }
        Ok(subs)
    }
}

/// Every node at or below a directory-only tree listing is a directory.
pub open spec fn all_directories(m: Meta) -> bool
    decreases m,
{
    m.sub_metas matches Some(cs) ==> forall|i: int|
        0 <= i < cs@.len() ==> (#[trigger] cs@[i]).kind is Directory && all_directories(cs@[i])
}

/// In a directory-only tree, a fully expanded subtree holds directories
/// alone: every child at every level has kind `Directory`.
pub proof fn lemma_directory_only_tree(m: Meta, flags: Flags, d: int)
    requires
        flags.layout is Tree,
        flags.display is DirectoryOnly,
        subtree_ok(m, flags, d),
    ensures
        all_directories(m),
    decreases m,
{
    let cs = m.sub_metas->Some_0;
    assert forall|i: int| 0 <= i < cs@.len() implies (#[trigger] cs@[i]).kind is Directory
        && all_directories(cs@[i]) by {
        assert(child_admissible(cs@[i], flags));
        assert(subtree_ok(cs@[i], flags, d - 1));
        lemma_directory_only_tree(cs@[i], flags, d - 1);
    }
}

} // verus!
