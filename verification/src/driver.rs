use vstd::prelude::*;
use crate::backend::{Backend, IoError};
use crate::dal::{
    child_admissible, listing_ok, meta_matches, recursion_err, subtree_ok, tree_backed, DAL,
};
use crate::flags::Flags;
use crate::meta::Meta;
use crate::sort::{sort_metas, sorted_by_chain, spec_sort};

verus! {

/// The depth the recursion driver hands down: a tree layout and explicit
/// recursion each use the configured depth; otherwise one level.
pub open spec fn spec_effective_depth(flags: Flags) -> int {
    if flags.layout is Tree {
        flags.recursion.depth as int
    } else if flags.recursion.enabled {
        flags.recursion.depth as int
    } else {
        1
    }
}

/// Whether a root is expanded at all: trees always, and otherwise every
/// display mode but directory-only.
pub open spec fn spec_expands(flags: Flags) -> bool {
    flags.layout is Tree || !(flags.display is DirectoryOnly)
}

/// What holds of one fetched root: it carries the identity it was asked
/// under; an expanded root holds admissible, fully expanded children, and
/// an unexpanded one is marked so.
pub open spec fn root_ok(m: Meta, path: Seq<u8>, flags: Flags) -> bool {
    &&& m.path@ == path
    &&& if spec_expands(flags) {
        m.sub_metas matches Some(cs) && forall|j: int|
            0 <= j < cs@.len() ==> child_admissible(#[trigger] cs@[j], flags) && subtree_ok(
                cs@[j],
                flags,
                spec_effective_depth(flags) - 1,
            )
    } else {
        m.sub_metas is None
    }
}

/// What the listing pipeline owes of one expanded root: its attached
/// children are one full listing of it at the effective depth — exactly
/// the surviving enumerated entries, recursively populated.
pub open spec fn root_listing_ok<B: Backend>(backend: B, m: Meta, flags: Flags) -> bool {
    spec_expands(flags) ==> listing_ok(
        backend,
        flags,
        spec_effective_depth(flags),
        m.path@,
        m.kind,
        m.sub_metas->Some_0@,
    )
}

/// The traversal driver: it owns the configuration and turns caller-given
/// root paths into a sorted forest of resolved nodes.
pub struct Core {
    pub flags: Flags,
}

impl Core {
    /// Takes the configuration. Terminal-dependent presentation (colors,
    /// icons, tty probing) is the caller's concern and stays outside.
    pub fn new(flags: Flags) -> (r: Core)
        ensures
            r.flags == flags,
    {
        Core { flags }
    }

    fn effective_depth(&self) -> (r: usize)
        ensures
            r == spec_effective_depth(self.flags),
    {
        if matches!(self.flags.layout, crate::flags::Layout::Tree) {
            self.flags.recursion.depth
        } else if self.flags.recursion.enabled {
            self.flags.recursion.depth
        } else {
            1
        }
    }

    /// Resolves each caller-supplied root and, where the policy expands
    /// it, attaches its children; the first failing root aborts the batch.
    fn fetch<B: Backend>(&self, dal: &DAL<B>, paths: &Vec<Vec<u8>>) -> (r: Result<
        Vec<Meta>,
        IoError,
    >)
        ensures
            paths@.len() == 0 ==> r is Ok,
            r matches Ok(v) ==> v@.len() == paths@.len() && forall|i: int|
                0 <= i < v@.len() ==> root_ok(#[trigger] v@[i], paths@[i]@, self.flags)
                    && tree_backed(dal.backend, v@[i]) && root_listing_ok(
                    dal.backend,
                    v@[i],
                    self.flags,
                ),
            r matches Err(e) ==> exists|i: int|
                0 <= i < paths@.len() && (dal.backend.stat_err(#[trigger] paths@[i]@, e)
                    || recursion_err(
                    dal.backend,
                    paths@[i]@,
                    spec_effective_depth(self.flags),
                    e,
                )),
    {
        let depth = self.effective_depth();
        let mut out: Vec<Meta> = Vec::new();
        let mut i: usize = 0;
        while i < paths.len()
            invariant
                i <= paths@.len(),
                out@.len() == i,
                depth == spec_effective_depth(self.flags),
                forall|m: int|
                    0 <= m < i ==> root_ok(#[trigger] out@[m], paths@[m]@, self.flags)
                        && tree_backed(dal.backend, out@[m]) && root_listing_ok(
                        dal.backend,
                        out@[m],
                        self.flags,
                    ),
            decreases paths@.len() - i,
        {
            let mut meta = match dal.from_path(&paths[i]) {
                Ok(m) => m,
                Err(e) => {
                    proof {
                        assert(0 <= i < paths@.len() && dal.backend.stat_err(
                            paths@[i as int]@,
                            e,
                        ));
                    }
                    return Err(e);
                },
            };
            let ghost fresh = meta;
            proof {
                let b = choose|b: crate::backend::BackendMeta|
                    #[trigger] dal.backend.stat_ok(paths@[i as int]@, b) && meta_matches(
                        meta,
                        paths@[i as int]@,
                        b,
                    );
                assert(meta.path@ == paths@[i as int]@);
            }
            let expands = matches!(self.flags.layout, crate::flags::Layout::Tree) || !matches!(
                self.flags.display,
                crate::flags::Display::DirectoryOnly,
            );
            if expands {
                let subs = match dal.recurse_into(&meta, depth, &self.flags) {
                    Ok(v) => v,
                    Err(e) => {
                        proof {
                            assert(0 <= i < paths@.len() && recursion_err(
                                dal.backend,
                                paths@[i as int]@,
                                spec_effective_depth(self.flags),
                                e,
                            ));
                        }
                        return Err(e);
                    },
                };
                let ghost subs_v = subs@;
                meta.sub_metas = Some(subs);
                proof {
                    assert(meta.sub_metas->Some_0@ == subs_v);
                    assert(listing_ok(
                        dal.backend,
                        self.flags,
                        spec_effective_depth(self.flags),
                        meta.path@,
                        meta.kind,
                        meta.sub_metas->Some_0@,
                    ));
                    assert(root_listing_ok(dal.backend, meta, self.flags));
                }
            } else {
                proof {
                    assert(!spec_expands(self.flags));
                    assert(root_listing_ok(dal.backend, meta, self.flags));
                }
            }
            proof {
                assert(root_ok(meta, paths@[i as int]@, self.flags));
                let b = choose|b: crate::backend::BackendMeta|
                    #[trigger] dal.backend.stat_ok(paths@[i as int]@, b) && meta_matches(
                        fresh,
                        paths@[i as int]@,
                        b,
                    );
                assert(dal.backend.stat_ok(meta.path@, b) && crate::dal::meta_fields_match(
                    meta,
                    b,
                ));
                assert(tree_backed(dal.backend, meta));
            }
            out.push(meta);
            i = i + 1;
        }
        Ok(out)
    }

    /// Orders a fetched forest canonically: the top level alone, per the
    /// configured key chain; each subtree keeps enumeration order unless
    /// the caller sorts it itself.
    fn sort(&self, metas: &mut Vec<Meta>)
        ensures
            final(metas)@ == spec_sort(self.flags.sorts@, old(metas)@),
            sorted_by_chain(self.flags.sorts@, final(metas)@),
            final(metas)@.to_multiset() =~= old(metas)@.to_multiset(),
    {
        sort_metas(&self.flags.sorts, metas);
    }

    /// Resolves every root, expands each per the recursion policy, and
    /// hands back the forest in the canonical order of the key chain. Each
    /// returned node is one fetched root, fully expanded and filtered.
    pub fn run<B: Backend>(&self, dal: &DAL<B>, paths: &Vec<Vec<u8>>) -> (r: Result<
        Vec<Meta>,
        IoError,
    >)
        ensures
            paths@.len() == 0 ==> r is Ok,
            r matches Err(e) ==> exists|i: int|
                0 <= i < paths@.len() && (dal.backend.stat_err(#[trigger] paths@[i]@, e)
                    || recursion_err(
                    dal.backend,
                    paths@[i]@,
                    spec_effective_depth(self.flags),
                    e,
                )),
            r matches Ok(v) ==> {
                &&& v@.len() == paths@.len()
                &&& sorted_by_chain(self.flags.sorts@, v@)
                &&& forall|i: int|
                    0 <= i < v@.len() ==> tree_backed(dal.backend, #[trigger] v@[i])
                        && root_listing_ok(dal.backend, v@[i], self.flags)
                &&& forall|i: int|
                    0 <= i < v@.len() ==> exists|p: int|
                        0 <= p < paths@.len() && root_ok(#[trigger] v@[i], paths@[p]@, self.flags)
            },
    {
        let mut list = match self.fetch(dal, paths) {
            Ok(v) => v,
            Err(e) => {
                return Err(e);
            },
        };
        let ghost fetched = list@;
        self.sort(&mut list);
        proof {
            broadcast use vstd::seq_lib::group_to_multiset_ensures;

            assert(list@.len() == list@.to_multiset().len());
            assert(fetched.len() == fetched.to_multiset().len());
            assert forall|i: int| 0 <= i < list@.len() implies tree_backed(
                dal.backend,
                #[trigger] list@[i],
            ) && root_listing_ok(dal.backend, list@[i], self.flags) && exists|p: int|
                0 <= p < paths@.len() && root_ok(list@[i], paths@[p]@, self.flags) by {
                assert(list@.to_multiset().count(list@[i]) > 0);
                assert(fetched.contains(list@[i]));
                let p = choose|p: int| 0 <= p < fetched.len() && fetched[p] == list@[i];
                assert(root_ok(fetched[p], paths@[p]@, self.flags));
                assert(tree_backed(dal.backend, fetched[p]));
                assert(root_listing_ok(dal.backend, fetched[p], self.flags));
            }
        }
        Ok(list)
    }
}

} // verus!
