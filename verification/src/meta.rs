use vstd::prelude::*;

verus! {

/// The kind of a filesystem entry, fixed when the entry is first resolved.
#[derive(Clone, Copy, Debug, PartialEq, Eq, Structural)]
pub enum FileType {
    File,
    Directory,
}

/// A modification time in whole seconds, or `Invalid` when the backend
/// reports none.
#[derive(Clone, Copy, Debug, PartialEq, Eq, Structural)]
pub enum Date {
    Invalid,
    Timestamp(i64),
}

/// A byte count.
#[derive(Clone, Copy, Debug, PartialEq, Eq, Structural)]
pub struct Size {
    pub bytes: u64,
}

impl Size {
    pub fn new(bytes: u64) -> (r: Size)
        ensures
            r.bytes == bytes,
    {
        Size { bytes }
    }

    pub fn get_bytes(&self) -> (r: u64)
        ensures
            r == self.bytes,
    {
        self.bytes
    }
}

/// The display name of an entry: its filename component and its kind.
#[derive(Debug)]
pub struct Name {
    pub bytes: Vec<u8>,
    pub file_type: FileType,
}

/// One filesystem entry: its backend-relative identity, resolved metadata,
/// and its children. `sub_metas` is `None` while the node has never been
/// expanded, and `Some` (possibly empty) once it has.
#[derive(Debug)]
pub struct Meta {
    pub path: Vec<u8>,
    pub kind: FileType,
    pub size: Option<u64>,
    pub modified: Date,
    pub sub_metas: Option<Vec<Meta>>,
}

/// The filename component of a path: everything after the last `/`.
/// A path that ends in `/` has no filename.
pub open spec fn file_name_of(p: Seq<u8>) -> Seq<u8>
    decreases p.len(),
{
    if p.len() == 0 {
        p
    } else if p.last() == 47u8 {
        Seq::empty()
    } else {
        file_name_of(p.drop_last()).push(p.last())
    }
}

/// The path as shown to a reader: absolute paths, `.` itself, and paths
/// already rooted at `./` stand as they are; any other relative path —
/// a dotfile name among them — gains a leading `./`.
pub open spec fn display_path_of(p: Seq<u8>) -> Seq<u8> {
    if (p.len() > 0 && p[0] == 47u8) || p == seq![46u8] || (p.len() >= 2 && p[0] == 46u8 && p[1]
        == 47u8) {
        p
    } else {
        seq![46u8, 47u8] + p
    }
}

impl Meta {
    /// The display name of this entry.
    pub fn name(&self) -> (r: Name)
        ensures
            r.bytes@ == file_name_of(self.path@),
            r.file_type == self.kind,
    {
        Name { bytes: file_name(&self.path), file_type: self.kind }
    }

    /// The display path of this entry.
    pub fn path(&self) -> (r: Vec<u8>)
        ensures
            r@ == display_path_of(self.path@),
    {
        let rooted = (self.path.len() > 0 && self.path[0] == 47u8) || (self.path.len() == 1
            && self.path[0] == 46u8) || (self.path.len() >= 2 && self.path[0] == 46u8
            && self.path[1] == 47u8);
        proof {
            if self.path@.len() == 1 && self.path@[0] == 46u8 {
                assert(self.path@ =~= seq![46u8]);
            }
            if self.path@ == seq![46u8] {
                assert(self.path@.len() == 1 && self.path@[0] == 46u8);
            }
        }
        if rooted {
            clone_bytes(&self.path)
        } else {
            let mut r: Vec<u8> = Vec::new();
            r.push(46u8);
            r.push(47u8);
            let mut i: usize = 0;
            while i < self.path.len()
                invariant
                    i <= self.path@.len(),
                    r@ == seq![46u8, 47u8] + self.path@.take(i as int),
                decreases self.path@.len() - i,
            {
                r.push(self.path[i]);
                i = i + 1;
                proof {
                    assert(self.path@.take(i as int) == self.path@.take(i - 1).push(
                        self.path@[i - 1],
                    ));
                }
            }
            proof {
                assert(self.path@.take(self.path@.len() as int) == self.path@);
            }
            r
        }
    }

    /// The size of this entry, when the backend reported one.
    pub fn size(&self) -> (r: Option<Size>)
        ensures
            match r {
                Some(s) => self.size == Some(s.bytes),
                None => self.size is None,
            },
    {
        match self.size {
            Some(b) => Some(Size::new(b)),
            None => None,
        }
    }

    /// The kind of this entry.
    pub fn file_type(&self) -> (r: FileType)
        ensures
            r == self.kind,
    {
        self.kind
    }

    /// The modification date of this entry.
    pub fn modified_date(&self) -> (r: Date)
        ensures
            r == self.modified,
    {
        self.modified
    }
}

/// Copies a byte vector.
pub fn clone_bytes(v: &Vec<u8>) -> (r: Vec<u8>)
    ensures
        r@ == v@,
{
    let mut r: Vec<u8> = Vec::new();
    let mut i: usize = 0;
    while i < v.len()
        invariant
            i <= v@.len(),
            r@ == v@.take(i as int),
        decreases v@.len() - i,
    {
        r.push(v[i]);
        i = i + 1;
        proof {
            assert(v@.take(i as int) == v@.take(i - 1).push(v@[i - 1]));
        }
    }
    proof {
        assert(v@.take(v@.len() as int) == v@);
    }
    r
}

/// Whether two byte vectors hold the same bytes.
pub fn bytes_eq(a: &Vec<u8>, b: &Vec<u8>) -> (r: bool)
    ensures
        r == (a@ == b@),
{
    if a.len() != b.len() {
        return false;
    }
    let mut i: usize = 0;
    while i < a.len()
        invariant
            i <= a@.len(),
            a@.len() == b@.len(),
            forall|m: int| 0 <= m < i ==> a@[m] == b@[m],
        decreases a@.len() - i,
    {
        if a[i] != b[i] {
            return false;
        }
        i = i + 1;
    }
    proof {
        assert(a@ =~= b@);
    }
    true
}

/// `file_name_of` of a path whose suffix from `k` on holds no `/`, where
/// `k` is `0` or sits just after a `/`, is exactly that suffix.
proof fn lemma_file_name_suffix(p: Seq<u8>, k: int)
    requires
        0 <= k <= p.len(),
        forall|m: int| k <= m < p.len() ==> p[m] != 47u8,
        k > 0 ==> p[k - 1] == 47u8,
    ensures
        file_name_of(p) == p.skip(k),
    decreases p.len(),
{
    if p.len() == 0 {
        assert(file_name_of(p) == p.skip(k));
    } else if k == p.len() {
        // suffix empty: p ends with '/' (k > 0) or p is empty
        if k > 0 {
            assert(p.last() == 47u8);
            assert(file_name_of(p) == Seq::<u8>::empty());
            assert(p.skip(k) =~= Seq::<u8>::empty());
        }
    } else {
        assert(p.last() != 47u8);
        lemma_file_name_suffix(p.drop_last(), k);
        assert(file_name_of(p) == file_name_of(p.drop_last()).push(p.last()));
        assert(p.drop_last().skip(k).push(p.last()) =~= p.skip(k));
    }
}

/// The filename component of `p`: the bytes after the last `/`.
pub fn file_name(p: &Vec<u8>) -> (r: Vec<u8>)
    ensures
        r@ == file_name_of(p@),
{
    let mut k: usize = p.len();
    while k > 0 && p[k - 1] != 47u8
        invariant
            k <= p@.len(),
            forall|m: int| k <= m < p@.len() ==> p@[m] != 47u8,
        decreases k,
    {
        k = k - 1;
    }
    proof {
        lemma_file_name_suffix(p@, k as int);
    }
    let mut r: Vec<u8> = Vec::new();
    let mut i: usize = k;
    while i < p.len()
        invariant
            k <= i <= p@.len(),
            r@ == p@.subrange(k as int, i as int),
        decreases p@.len() - i,
    {
        r.push(p[i]);
        i = i + 1;
        proof {
            assert(p@.subrange(k as int, i as int) == p@.subrange(k as int, i - 1).push(
                p@[i - 1],
            ));
        }
    }
    proof {
        assert(p@.subrange(k as int, p@.len() as int) == p@.skip(k as int));
    }
    r
}

} // verus!
