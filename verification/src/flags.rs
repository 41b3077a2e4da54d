use vstd::prelude::*;
use crate::sort::Sorter;

verus! {

/// Which entries a listing shows.
#[derive(Clone, Copy, Debug, PartialEq, Eq, Structural)]
pub enum Display {
    All,
    VisibleOnly,
    DirectoryOnly,
    SystemProtected,
}

/// How the forest is rendered; `Tree` is the only layout that expands
/// below the first level in directory-only mode.
#[derive(Clone, Copy, Debug, PartialEq, Eq, Structural)]
pub enum Layout {
    Grid,
    Tree,
    OneLine,
}

/// Whether recursion was requested, and how deep it may go.
#[derive(Clone, Copy, Debug, PartialEq, Eq, Structural)]
pub struct Recursion {
    pub enabled: bool,
    pub depth: usize,
}

/// The configuration that the traversal and the sort obey: display mode,
/// layout, recursion bound, ignore-glob patterns and the sort key chain.
pub struct Flags {
    pub display: Display,
    pub layout: Layout,
    pub recursion: Recursion,
    pub ignore_globs: Vec<Vec<u8>>,
    pub sorts: Vec<Sorter>,
}

} // verus!
