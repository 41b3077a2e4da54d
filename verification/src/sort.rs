use vstd::prelude::*;
use vstd::multiset::Multiset;
use crate::meta::{Date, FileType, Meta, file_name_of};

verus! {

/// The outcome of comparing two nodes.
#[derive(Clone, Copy, Debug, PartialEq, Eq, Structural)]
pub enum Order {
    Less,
    Equal,
    Greater,
}

/// One comparison key of the sort chain.
#[derive(Clone, Copy, Debug, PartialEq, Eq, Structural)]
pub enum SortColumn {
    Kind,
    Name,
    Size,
    Date,
}

/// The direction of one comparison key.
#[derive(Clone, Copy, Debug, PartialEq, Eq, Structural)]
pub enum SortOrder {
    Default,
    Reverse,
}

/// A comparison key together with its direction.
#[derive(Clone, Copy, Debug, PartialEq, Eq, Structural)]
pub struct Sorter {
    pub column: SortColumn,
    pub order: SortOrder,
}

pub open spec fn ord_of(a: int, b: int) -> Order {
    if a < b {
        Order::Less
    } else if a > b {
        Order::Greater
    } else {
        Order::Equal
    }
}

/// Lexicographic comparison of two byte strings.
pub open spec fn spec_bytes_cmp(a: Seq<u8>, b: Seq<u8>) -> Order
    decreases a.len(),
{
    if a.len() == 0 && b.len() == 0 {
        Order::Equal
    } else if a.len() == 0 {
        Order::Less
    } else if b.len() == 0 {
        Order::Greater
    } else if a[0] != b[0] {
        ord_of(a[0] as int, b[0] as int)
    } else {
        spec_bytes_cmp(a.skip(1), b.skip(1))
    }
}

/// Directories order before files.
pub open spec fn kind_rank(k: FileType) -> int {
    if k is Directory {
        0
    } else {
        1
    }
}

/// A missing size orders before any reported size.
pub open spec fn size_rank(s: Option<u64>) -> int {
    match s {
        None => -1,
        Some(v) => v as int,
    }
}

/// An invalid date orders before any timestamp.
pub open spec fn date_rank(d: Date) -> int {
    match d {
        Date::Invalid => -9223372036854775809,
        Date::Timestamp(t) => t as int,
    }
}

pub open spec fn base_cmp(c: SortColumn, a: Meta, b: Meta) -> Order {
    match c {
        SortColumn::Kind => ord_of(kind_rank(a.kind), kind_rank(b.kind)),
        SortColumn::Name => spec_bytes_cmp(file_name_of(a.path@), file_name_of(b.path@)),
        SortColumn::Size => ord_of(size_rank(a.size), size_rank(b.size)),
        SortColumn::Date => ord_of(date_rank(a.modified), date_rank(b.modified)),
    }
}

pub open spec fn flip(o: Order) -> Order {
    match o {
        Order::Less => Order::Greater,
        Order::Equal => Order::Equal,
        Order::Greater => Order::Less,
    }
}

/// One key of the chain, with its direction applied. A reversed key flips
/// its outcome; ties are unaffected.
pub open spec fn key_cmp(s: Sorter, a: Meta, b: Meta) -> Order {
    if s.order is Reverse {
        flip(base_cmp(s.column, a, b))
    } else {
        base_cmp(s.column, a, b)
    }
}

/// The whole chain: keys apply left to right, falling through on a tie;
/// when every key ties, the identity path decides.
pub open spec fn chain_cmp(ss: Seq<Sorter>, a: Meta, b: Meta) -> Order
    decreases ss.len(),
{
    if ss.len() == 0 {
        spec_bytes_cmp(a.path@, b.path@)
    } else if key_cmp(ss[0], a, b) is Equal {
        chain_cmp(ss.skip(1), a, b)
    } else {
        key_cmp(ss[0], a, b)
    }
}

pub open spec fn chain_le(ss: Seq<Sorter>, a: Meta, b: Meta) -> bool {
    !(chain_cmp(ss, a, b) is Greater)
}

pub open spec fn sorted_by_chain(ss: Seq<Sorter>, s: Seq<Meta>) -> bool {
    forall|i: int, j: int| 0 <= i < j < s.len() ==> chain_le(ss, s[i], s[j])
}

proof fn lemma_bytes_cmp_flip(a: Seq<u8>, b: Seq<u8>)
    ensures
        spec_bytes_cmp(b, a) == flip(spec_bytes_cmp(a, b)),
    decreases a.len(),
{
    if a.len() > 0 && b.len() > 0 && a[0] == b[0] {
        lemma_bytes_cmp_flip(a.skip(1), b.skip(1));
    }
}

proof fn lemma_bytes_cmp_eq(a: Seq<u8>, b: Seq<u8>)
    ensures
        spec_bytes_cmp(a, b) is Equal ==> a == b,
    decreases a.len(),
{
    if a.len() > 0 && b.len() > 0 && a[0] == b[0] {
        lemma_bytes_cmp_eq(a.skip(1), b.skip(1));
        if spec_bytes_cmp(a, b) is Equal {
            assert(a.skip(1) == b.skip(1));
            assert forall|i: int| 0 <= i < a.len() implies a[i] == b[i] by {
                if i > 0 {
                    assert(a[i] == a.skip(1)[i - 1]);
                    assert(b[i] == b.skip(1)[i - 1]);
                }
            }
            assert(a =~= b);
        }
    }
}

proof fn lemma_bytes_cmp_trans(a: Seq<u8>, b: Seq<u8>, c: Seq<u8>)
    ensures
        spec_bytes_cmp(a, b) is Less && spec_bytes_cmp(b, c) is Less ==> spec_bytes_cmp(a, c)
            is Less,
        spec_bytes_cmp(a, b) is Greater && spec_bytes_cmp(b, c) is Greater ==> spec_bytes_cmp(
            a,
            c,
        ) is Greater,
    decreases a.len() + b.len() + c.len(),
{
    if a.len() > 0 && b.len() > 0 && c.len() > 0 {
        lemma_bytes_cmp_trans(a.skip(1), b.skip(1), c.skip(1));
    }
}

/// A key that ties lets either side stand for the other in that key.
proof fn lemma_key_subst(s: Sorter, a: Meta, b: Meta, c: Meta)
    requires
        key_cmp(s, a, b) is Equal,
    ensures
        key_cmp(s, a, c) == key_cmp(s, b, c),
        key_cmp(s, c, a) == key_cmp(s, c, b),
{
    if s.column is Name {
        lemma_bytes_cmp_eq(file_name_of(a.path@), file_name_of(b.path@));
        lemma_bytes_cmp_eq(file_name_of(b.path@), file_name_of(a.path@));
        lemma_bytes_cmp_flip(file_name_of(a.path@), file_name_of(b.path@));
    }
}

proof fn lemma_key_trans(s: Sorter, a: Meta, b: Meta, c: Meta)
    requires
        key_cmp(s, a, b) is Less,
        key_cmp(s, b, c) is Less,
    ensures
        key_cmp(s, a, c) is Less,
{
    if s.column is Name {
        lemma_bytes_cmp_trans(
            file_name_of(a.path@),
            file_name_of(b.path@),
            file_name_of(c.path@),
        );
        lemma_bytes_cmp_flip(file_name_of(a.path@), file_name_of(b.path@));
        lemma_bytes_cmp_flip(file_name_of(b.path@), file_name_of(c.path@));
        lemma_bytes_cmp_flip(file_name_of(a.path@), file_name_of(c.path@));
        lemma_bytes_cmp_trans(
            file_name_of(c.path@),
            file_name_of(b.path@),
            file_name_of(a.path@),
        );
    }
}

/// The chain comparison flips with its arguments.
pub proof fn lemma_chain_cmp_flip(ss: Seq<Sorter>, a: Meta, b: Meta)
    ensures
        chain_cmp(ss, b, a) == flip(chain_cmp(ss, a, b)),
    decreases ss.len(),
{
    if ss.len() == 0 {
        lemma_bytes_cmp_flip(a.path@, b.path@);
    } else {
        lemma_key_cmp_flip(ss[0], a, b);
        if key_cmp(ss[0], a, b) is Equal {
            lemma_chain_cmp_flip(ss.skip(1), a, b);
        }
    }
}

proof fn lemma_key_cmp_flip(s: Sorter, a: Meta, b: Meta)
    ensures
        key_cmp(s, b, a) == flip(key_cmp(s, a, b)),
{
    if s.column is Name {
        lemma_bytes_cmp_flip(file_name_of(a.path@), file_name_of(b.path@));
    }
}

/// The chain order is transitive.
pub proof fn lemma_chain_le_trans(ss: Seq<Sorter>, a: Meta, b: Meta, c: Meta)
    requires
        chain_le(ss, a, b),
        chain_le(ss, b, c),
    ensures
        chain_le(ss, a, c),
    decreases ss.len(),
{
    if ss.len() == 0 {
        lemma_bytes_cmp_trans(a.path@, b.path@, c.path@);
        lemma_bytes_cmp_eq(a.path@, b.path@);
        lemma_bytes_cmp_eq(b.path@, c.path@);
    } else {
        let k = ss[0];
        let kab = key_cmp(k, a, b);
        let kbc = key_cmp(k, b, c);
        lemma_key_cmp_flip(k, a, b);
        lemma_key_cmp_flip(k, b, c);
        if kab is Equal && kbc is Equal {
            lemma_key_subst(k, a, b, c);
            lemma_chain_le_trans(ss.skip(1), a, b, c);
        } else if kab is Equal {
            lemma_key_subst(k, a, b, c);
        } else if kbc is Equal {
            lemma_key_cmp_flip(k, b, c);
            lemma_key_subst(k, b, c, a);
            lemma_key_cmp_flip(k, a, b);
            lemma_key_cmp_flip(k, a, c);
        } else {
            lemma_key_trans(k, a, b, c);
        }
    }
}

/// When every key of the chain ties, the comparison is exactly the
/// identity comparison: nodes equal on all configured keys fall back to a
/// single canonical order by path.
pub proof fn lemma_tie_breaks_by_identity(ss: Seq<Sorter>, a: Meta, b: Meta)
    requires
        forall|k: int| 0 <= k < ss.len() ==> key_cmp(#[trigger] ss[k], a, b) is Equal,
    ensures
        chain_cmp(ss, a, b) == spec_bytes_cmp(a.path@, b.path@),
    decreases ss.len(),
{
    if ss.len() > 0 {
        assert(key_cmp(ss[0], a, b) is Equal);
        assert(forall|k: int|
            0 <= k < ss.skip(1).len() ==> key_cmp(#[trigger] ss.skip(1)[k], a, b) is Equal);
        lemma_tie_breaks_by_identity(ss.skip(1), a, b);
    }
}

/// Two nodes that the whole chain finds equal carry the same identity.
pub proof fn lemma_chain_equal_same_identity(ss: Seq<Sorter>, a: Meta, b: Meta)
    requires
        chain_cmp(ss, a, b) is Equal,
    ensures
        a.path@ == b.path@,
    decreases ss.len(),
{
    if ss.len() == 0 {
        lemma_bytes_cmp_eq(a.path@, b.path@);
    } else {
        if key_cmp(ss[0], a, b) is Equal {
            lemma_chain_equal_same_identity(ss.skip(1), a, b);
        }
    }
}

/// Insertion of one node into a sorted run: it passes every node the chain
/// does not place after it, and stops before the first that it does.
pub open spec fn spec_insert(ss: Seq<Sorter>, s: Seq<Meta>, x: Meta) -> Seq<Meta>
    decreases s.len(),
{
    if s.len() == 0 {
        seq![x]
    } else if chain_cmp(ss, s[0], x) is Greater {
        seq![x] + s
    } else {
        seq![s[0]] + spec_insert(ss, s.skip(1), x)
    }
}

/// The canonical order of a sequence of nodes under a key chain: the
/// result of inserting each node in turn. It is a function of the input
/// sequence and the chain alone, so two runs over an unchanged input with
/// the same chain give the same output.
pub open spec fn spec_sort(ss: Seq<Sorter>, s: Seq<Meta>) -> Seq<Meta>
    decreases s.len(),
{
    if s.len() == 0 {
        s
    } else {
        spec_insert(ss, spec_sort(ss, s.drop_last()), s.last())
    }
}

proof fn lemma_insert_len(ss: Seq<Sorter>, s: Seq<Meta>, x: Meta)
    ensures
        spec_insert(ss, s, x).len() == s.len() + 1,
    decreases s.len(),
{
    if s.len() > 0 && !(chain_cmp(ss, s[0], x) is Greater) {
        lemma_insert_len(ss, s.skip(1), x);
    }
}

proof fn lemma_sort_len(ss: Seq<Sorter>, s: Seq<Meta>)
    ensures
        spec_sort(ss, s).len() == s.len(),
    decreases s.len(),
{
    if s.len() > 0 {
        lemma_sort_len(ss, s.drop_last());
        lemma_insert_len(ss, spec_sort(ss, s.drop_last()), s.last());
    }
}

/// Where the first `k` nodes of `s` are not placed after `x` and the node
/// at `k` (if any) is, inserting `x` splits `s` exactly at `k`.
proof fn lemma_insert_at(ss: Seq<Sorter>, s: Seq<Meta>, x: Meta, k: int)
    requires
        0 <= k <= s.len(),
        forall|m: int| 0 <= m < k ==> !(chain_cmp(ss, s[m], x) is Greater),
        k < s.len() ==> chain_cmp(ss, s[k], x) is Greater,
    ensures
        spec_insert(ss, s, x) == s.take(k) + seq![x] + s.skip(k),
    decreases s.len(),
{
    if s.len() == 0 {
        assert(spec_insert(ss, s, x) =~= s.take(k) + seq![x] + s.skip(k));
    } else if k == 0 {
        assert(chain_cmp(ss, s[0], x) is Greater);
        assert(s.take(0) + seq![x] + s.skip(0) =~= seq![x] + s);
    } else {
        assert(!(chain_cmp(ss, s[0], x) is Greater));
        assert(forall|m: int| 0 <= m < k - 1 ==> !(chain_cmp(ss, s.skip(1)[m], x) is Greater));
        lemma_insert_at(ss, s.skip(1), x, k - 1);
        assert(seq![s[0]] + (s.skip(1).take(k - 1) + seq![x] + s.skip(1).skip(k - 1)) =~= s.take(
            k,
        ) + seq![x] + s.skip(k));
    }
}

proof fn lemma_insert_multiset(ss: Seq<Sorter>, s: Seq<Meta>, x: Meta)
    ensures
        spec_insert(ss, s, x).to_multiset() =~= s.to_multiset().insert(x),
    decreases s.len(),
{
    broadcast use vstd::seq_lib::lemma_multiset_commutative;
    broadcast use vstd::seq_lib::group_to_multiset_ensures;

    if s.len() == 0 {
        assert(seq![x] =~= Seq::<Meta>::empty().push(x));
        assert(Seq::<Meta>::empty().push(x).to_multiset() =~= Seq::<Meta>::empty()
            .to_multiset()
            .insert(x));
        assert(spec_insert(ss, s, x).to_multiset() =~= s.to_multiset().insert(x));
    } else if chain_cmp(ss, s[0], x) is Greater {
        assert(seq![x] =~= Seq::<Meta>::empty().push(x));
        assert((seq![x] + s).to_multiset() =~= seq![x].to_multiset().add(s.to_multiset()));
        assert(seq![x].to_multiset() =~= Multiset::<Meta>::empty().insert(x));
        assert(Multiset::<Meta>::empty().insert(x).add(s.to_multiset()) =~= s.to_multiset()
            .insert(x));
    } else {
        lemma_insert_multiset(ss, s.skip(1), x);
        assert(seq![s[0]] =~= Seq::<Meta>::empty().push(s[0]));
        assert((seq![s[0]] + spec_insert(ss, s.skip(1), x)).to_multiset() =~= seq![s[0]]
            .to_multiset()
            .add(spec_insert(ss, s.skip(1), x).to_multiset()));
        assert(seq![s[0]].to_multiset() =~= Multiset::<Meta>::empty().insert(s[0]));
        assert(s =~= seq![s[0]] + s.skip(1));
        assert(s.to_multiset() =~= seq![s[0]].to_multiset().add(s.skip(1).to_multiset()));
        assert(spec_insert(ss, s, x).to_multiset() =~= s.to_multiset().insert(x));
    }
}

/// Sorting keeps exactly the nodes it was given.
pub proof fn lemma_spec_sort_multiset(ss: Seq<Sorter>, s: Seq<Meta>)
    ensures
        spec_sort(ss, s).to_multiset() =~= s.to_multiset(),
    decreases s.len(),
{
    broadcast use vstd::seq_lib::group_to_multiset_ensures;

    if s.len() > 0 {
        lemma_spec_sort_multiset(ss, s.drop_last());
        lemma_insert_multiset(ss, spec_sort(ss, s.drop_last()), s.last());
        assert(s =~= s.drop_last().push(s.last()));
        assert(s.drop_last().push(s.last()).to_multiset() =~= s.drop_last().to_multiset().insert(
            s.last(),
        ));
    }
}

proof fn lemma_insert_sorted(ss: Seq<Sorter>, s: Seq<Meta>, x: Meta)
    requires
        sorted_by_chain(ss, s),
    ensures
        sorted_by_chain(ss, spec_insert(ss, s, x)),
    decreases s.len(),
{
    lemma_insert_len(ss, s, x);
    if s.len() == 0 {
    } else if chain_cmp(ss, s[0], x) is Greater {
        let r = seq![x] + s;
        lemma_chain_cmp_flip(ss, s[0], x);
        assert forall|i: int, j: int| 0 <= i < j < r.len() implies chain_le(ss, r[i], r[j]) by {
            if i == 0 {
                if j == 1 {
                    assert(r[j] == s[0]);
                } else {
                    assert(chain_le(ss, s[0], s[j - 1]));
                    lemma_chain_le_trans(ss, x, s[0], s[j - 1]);
                }
            } else {
                assert(chain_le(ss, s[i - 1], s[j - 1]));
            }
        }
    } else {
        assert(forall|i: int, j: int|
            0 <= i < j < s.skip(1).len() ==> chain_le(ss, s.skip(1)[i], s.skip(1)[j]));
        lemma_insert_sorted(ss, s.skip(1), x);
        lemma_insert_len(ss, s.skip(1), x);
        let t = spec_insert(ss, s.skip(1), x);
        let r = seq![s[0]] + t;
        lemma_insert_at_members(ss, s.skip(1), x);
        assert forall|i: int, j: int| 0 <= i < j < r.len() implies chain_le(ss, r[i], r[j]) by {
            if i == 0 {
                // r[j] is either x or some s[m]; either way s[0] is not after it
                lemma_chain_cmp_flip(ss, s[0], x);
                if exists|m: int| 1 <= m < s.len() && t[j - 1] == s[m] {
                    let m = choose|m: int| 1 <= m < s.len() && t[j - 1] == s[m];
                    assert(chain_le(ss, s[0], s[m]));
                } else {
                    assert(t[j - 1] == x);
                }
            } else {
                assert(chain_le(ss, t[i - 1], t[j - 1]));
            }
        }
    }
}

/// Every node of an insertion's result is the inserted node or one of the
/// run's own.
proof fn lemma_insert_at_members(ss: Seq<Sorter>, s: Seq<Meta>, x: Meta)
    ensures
        forall|j: int|
            0 <= j < spec_insert(ss, s, x).len() ==> (#[trigger] spec_insert(ss, s, x)[j] == x
                || exists|m: int| 0 <= m < s.len() && spec_insert(ss, s, x)[j] == s[m]),
    decreases s.len(),
{
    lemma_insert_len(ss, s, x);
    if s.len() == 0 {
    } else if chain_cmp(ss, s[0], x) is Greater {
        assert forall|j: int| 0 <= j < spec_insert(ss, s, x).len() implies (#[trigger] spec_insert(
            ss,
            s,
            x,
        )[j] == x || exists|m: int| 0 <= m < s.len() && spec_insert(ss, s, x)[j] == s[m]) by {
            if j > 0 {
                assert(spec_insert(ss, s, x)[j] == s[j - 1]);
            }
        }
    } else {
        lemma_insert_at_members(ss, s.skip(1), x);
        lemma_insert_len(ss, s.skip(1), x);
        let t = spec_insert(ss, s.skip(1), x);
        assert forall|j: int| 0 <= j < spec_insert(ss, s, x).len() implies (#[trigger] spec_insert(
            ss,
            s,
            x,
        )[j] == x || exists|m: int| 0 <= m < s.len() && spec_insert(ss, s, x)[j] == s[m]) by {
            if j == 0 {
                assert(spec_insert(ss, s, x)[0] == s[0]);
            } else {
                assert(spec_insert(ss, s, x)[j] == t[j - 1]);
                if t[j - 1] == x {
                } else {
                    let m = choose|m: int| 0 <= m < s.skip(1).len() && t[j - 1] == s.skip(1)[m];
                    assert(s.skip(1)[m] == s[m + 1]);
                }
            }
        }
    }
}

/// The canonical order is sorted under the chain.
pub proof fn lemma_spec_sort_sorted(ss: Seq<Sorter>, s: Seq<Meta>)
    ensures
        sorted_by_chain(ss, spec_sort(ss, s)),
    decreases s.len(),
{
    if s.len() > 0 {
        lemma_spec_sort_sorted(ss, s.drop_last());
        lemma_insert_sorted(ss, spec_sort(ss, s.drop_last()), s.last());
    }
}

/// Two nodes tied on every configured key come out of the sort in the
/// order of their identity paths, whichever order they went in.
pub proof fn lemma_sort_pair_tie(ss: Seq<Sorter>, a: Meta, b: Meta)
    requires
        forall|k: int| 0 <= k < ss.len() ==> key_cmp(#[trigger] ss[k], a, b) is Equal,
        spec_bytes_cmp(a.path@, b.path@) is Less,
    ensures
        spec_sort(ss, seq![a, b]) == seq![a, b],
        spec_sort(ss, seq![b, a]) == seq![a, b],
{
    lemma_tie_breaks_by_identity(ss, a, b);
    lemma_chain_cmp_flip(ss, a, b);
    assert(chain_cmp(ss, a, b) is Less);
    assert(chain_cmp(ss, b, a) is Greater);
    let sa = seq![a];
    let sb = seq![b];
    assert(sa.len() == 1 && sa.drop_last().len() == 0);
    assert(sb.len() == 1 && sb.drop_last().len() == 0);
    assert(spec_sort(ss, sa.drop_last()) == sa.drop_last());
    assert(spec_sort(ss, sb.drop_last()) == sb.drop_last());
    assert(spec_insert(ss, sa.drop_last(), a) =~= sa);
    assert(spec_insert(ss, sb.drop_last(), b) =~= sb);
    assert(spec_sort(ss, sa) == spec_insert(ss, sa.drop_last(), a));
    assert(spec_sort(ss, sb) == spec_insert(ss, sb.drop_last(), b));
    assert(spec_sort(ss, sa) == sa);
    assert(spec_sort(ss, sb) == sb);
    let ab = seq![a, b];
    let ba = seq![b, a];
    assert(ab.drop_last() =~= sa && ab.last() == b);
    assert(ba.drop_last() =~= sb && ba.last() == a);
    assert(spec_sort(ss, ab) == spec_insert(ss, sa, b));
    assert(spec_sort(ss, ba) == spec_insert(ss, sb, a));
    // a is not placed after b, so b goes behind a
    assert(spec_insert(ss, sa, b) =~= seq![a] + spec_insert(ss, sa.skip(1), b));
    assert(spec_insert(ss, sa.skip(1), b) =~= seq![b]);
    assert(spec_sort(ss, ab) =~= ab);
    // b is placed after a, so a goes in front
    assert(spec_insert(ss, sb, a) =~= seq![a] + sb);
    assert(spec_sort(ss, ba) =~= ab);
}

/// One canonical order: two sorted arrangements of the same nodes are the
/// same sequence, provided no two distinct nodes compare equal — as when
/// every node carries its own identity, since a full tie orders by it.
pub proof fn lemma_canonical_order(ss: Seq<Sorter>, s1: Seq<Meta>, s2: Seq<Meta>)
    requires
        sorted_by_chain(ss, s1),
        sorted_by_chain(ss, s2),
        s1.to_multiset() =~= s2.to_multiset(),
        forall|a: Meta, b: Meta|
            s1.contains(a) && s1.contains(b) && chain_cmp(ss, a, b) is Equal ==> a == b,
    ensures
        s1 =~= s2,
    decreases s1.len(),
{
    broadcast use vstd::seq_lib::group_to_multiset_ensures;

    assert(s1.len() == s1.to_multiset().len());
    assert(s2.len() == s2.to_multiset().len());
    if s1.len() > 0 {
        // each head sits somewhere in the other sequence, so the two heads
        // are not after one another; only equal nodes compare equal
        assert(s2.to_multiset().count(s1[0]) > 0);
        assert(s1.to_multiset().count(s2[0]) > 0);
        assert(s1.contains(s2[0]));
        assert(s2.contains(s1[0]));
        let j = choose|j: int| 0 <= j < s1.len() && s1[j] == s2[0];
        let k = choose|k: int| 0 <= k < s2.len() && s2[k] == s1[0];
        if j == 0 || k == 0 {
            assert(s1[0] == s2[0]);
        } else {
            assert(chain_le(ss, s1[0], s1[j]));
            assert(chain_le(ss, s2[0], s2[k]));
            lemma_chain_cmp_flip(ss, s1[0], s2[0]);
            assert(chain_cmp(ss, s1[0], s2[0]) is Equal);
            assert(s1[0] == s2[0]);
        }
        let t1 = s1.drop_first();
        let t2 = s2.drop_first();
        assert(t1 =~= s1.remove(0));
        assert(t2 =~= s2.remove(0));
        assert(s1.remove(0).to_multiset() =~= s1.to_multiset().remove(s1[0]));
        assert(s2.remove(0).to_multiset() =~= s2.to_multiset().remove(s2[0]));
        assert(t1.to_multiset() =~= t2.to_multiset());
        assert(forall|i: int, m: int| 0 <= i < m < t1.len() ==> chain_le(ss, t1[i], t1[m]));
        assert(forall|i: int, m: int| 0 <= i < m < t2.len() ==> chain_le(ss, t2[i], t2[m]));
        assert forall|a: Meta, b: Meta|
            t1.contains(a) && t1.contains(b) && chain_cmp(ss, a, b) is Equal implies a == b by {
            if t1.contains(a) && t1.contains(b) {
                let ia = choose|ia: int| 0 <= ia < t1.len() && t1[ia] == a;
                let ib = choose|ib: int| 0 <= ib < t1.len() && t1[ib] == b;
                assert(s1[ia + 1] == a);
                assert(s1[ib + 1] == b);
                assert(s1.contains(a));
                assert(s1.contains(b));
            }
        }
        lemma_canonical_order(ss, t1, t2);
        assert forall|i: int| 0 <= i < s1.len() implies s1[i] == s2[i] by {
            if i > 0 {
                assert(s1[i] == t1[i - 1]);
                assert(s2[i] == t2[i - 1]);
            }
        }
    }
}

/// Comparison of two byte strings.
pub fn bytes_cmp(a: &Vec<u8>, b: &Vec<u8>) -> (r: Order)
    ensures
        r == spec_bytes_cmp(a@, b@),
{
    let mut i: usize = 0;
    proof {
        assert(a@.skip(0) =~= a@);
        assert(b@.skip(0) =~= b@);
    }
    while i < a.len() && i < b.len()
        invariant
            i <= a@.len(),
            i <= b@.len(),
            spec_bytes_cmp(a@, b@) == spec_bytes_cmp(a@.skip(i as int), b@.skip(i as int)),
        decreases a@.len() - i,
    {
        let x = a[i];
        let y = b[i];
        proof {
            assert(a@.skip(i as int)[0] == a@[i as int]);
            assert(b@.skip(i as int)[0] == b@[i as int]);
        }
        if x < y {
            return Order::Less;
        }
        if x > y {
            return Order::Greater;
        }
        proof {
            assert(a@.skip(i as int).skip(1) =~= a@.skip(i + 1));
            assert(b@.skip(i as int).skip(1) =~= b@.skip(i + 1));
        }
        i = i + 1;
    }
    if a.len() == b.len() {
        Order::Equal
    } else if a.len() < b.len() {
        Order::Less
    } else {
        Order::Greater
    }
}

fn exec_base_cmp(c: &SortColumn, a: &Meta, b: &Meta) -> (r: Order)
    ensures
        r == base_cmp(*c, *a, *b),
{
    match c {
        SortColumn::Kind => {
            let ar: u8 = if matches!(a.kind, FileType::Directory) {
                0
            } else {
                1
            };
            let br: u8 = if matches!(b.kind, FileType::Directory) {
                0
            } else {
                1
            };
            if ar < br {
                Order::Less
            } else if ar > br {
                Order::Greater
            } else {
                Order::Equal
            }
        },
        SortColumn::Name => {
            let an = crate::meta::file_name(&a.path);
            let bn = crate::meta::file_name(&b.path);
            bytes_cmp(&an, &bn)
        },
        SortColumn::Size => {
            match (&a.size, &b.size) {
                (None, None) => Order::Equal,
                (None, Some(_)) => Order::Less,
                (Some(_), None) => Order::Greater,
                (Some(x), Some(y)) => {
                    if x < y {
                        Order::Less
                    } else if x > y {
                        Order::Greater
                    } else {
                        Order::Equal
                    }
                },
            }
        },
        SortColumn::Date => {
            match (&a.modified, &b.modified) {
                (Date::Invalid, Date::Invalid) => Order::Equal,
                (Date::Invalid, Date::Timestamp(_)) => Order::Less,
                (Date::Timestamp(_), Date::Invalid) => Order::Greater,
                (Date::Timestamp(x), Date::Timestamp(y)) => {
                    if x < y {
                        Order::Less
                    } else if x > y {
                        Order::Greater
                    } else {
                        Order::Equal
                    }
                },
            }
        },
    }
}

/// Compares two nodes under the whole key chain, identity last.
pub fn by_meta(sorters: &Vec<Sorter>, a: &Meta, b: &Meta) -> (r: Order)
    ensures
        r == chain_cmp(sorters@, *a, *b),
{
    let mut i: usize = 0;
    proof {
        assert(sorters@.skip(0) =~= sorters@);
    }
    while i < sorters.len()
        invariant
            i <= sorters@.len(),
            chain_cmp(sorters@, *a, *b) == chain_cmp(sorters@.skip(i as int), *a, *b),
        decreases sorters@.len() - i,
    {
        let s = sorters[i];
        let base = exec_base_cmp(&s.column, a, b);
        let k = if matches!(s.order, SortOrder::Reverse) {
            match base {
                Order::Less => Order::Greater,
                Order::Equal => Order::Equal,
                Order::Greater => Order::Less,
            }
        } else {
            base
        };
        proof {
            assert(sorters@.skip(i as int)[0] == sorters@[i as int]);
            assert(sorters@.skip(i as int).skip(1) =~= sorters@.skip(i + 1));
        }
        if !matches!(k, Order::Equal) {
            return k;
        }
        i = i + 1;
    }
    bytes_cmp(&a.path, &b.path)
}

/// Orders the given nodes under the key chain, in place. The result is the
/// canonical order `spec_sort` of the input: a function of the input and
/// the chain alone, sorted, holding exactly the nodes given.
pub fn sort_metas(sorters: &Vec<Sorter>, metas: &mut Vec<Meta>)
    ensures
        final(metas)@ == spec_sort(sorters@, old(metas)@),
        sorted_by_chain(sorters@, final(metas)@),
        final(metas)@.to_multiset() =~= old(metas)@.to_multiset(),
{
    let ghost orig = metas@;
    proof {
        lemma_spec_sort_sorted(sorters@, orig);
        lemma_spec_sort_multiset(sorters@, orig);
    }
    if metas.len() <= 1 {
        proof {
            if orig.len() == 1 {
                let d = orig.drop_last();
                assert(d.len() == 0);
                assert(spec_sort(sorters@, d) == d);
                assert(spec_insert(sorters@, d, orig.last()) =~= seq![orig.last()]);
                assert(spec_sort(sorters@, orig) == spec_insert(sorters@, d, orig.last()));
                assert(seq![orig.last()] =~= orig);
            }
        }
        return ;
    }
    let mut i: usize = 1;
    proof {
        let t1 = orig.take(1);
        assert(t1.len() == 1);
        let d = t1.drop_last();
        assert(d.len() == 0);
        assert(spec_sort(sorters@, d) == d);
        assert(spec_insert(sorters@, d, t1.last()) =~= seq![t1.last()]);
        assert(spec_sort(sorters@, t1) == spec_insert(sorters@, d, t1.last()));
        assert(t1.last() == orig[0]);
        assert(orig =~= spec_sort(sorters@, t1) + orig.skip(1));
    }
    while i < metas.len()
        invariant
            1 <= i <= orig.len(),
            metas@.len() == orig.len(),
            metas@ == spec_sort(sorters@, orig.take(i as int)) + orig.skip(i as int),
        decreases orig.len() - i,
    {
        proof {
            lemma_sort_len(sorters@, orig.take(i as int));
        }
        let ghost sorted = spec_sort(sorters@, orig.take(i as int));
        proof {
            assert(metas@[i as int] == orig.skip(i as int)[0]);
            assert(orig.skip(i as int)[0] == orig[i as int]);
        }
        let mut k: usize = 0;
        let mut hit = false;
        while k < i && !hit
            invariant
                k <= i,
                i < metas@.len(),
                metas@ == sorted + orig.skip(i as int),
                sorted.len() == i,
                metas@[i as int] == orig[i as int],
                forall|m: int|
                    0 <= m < k ==> !(chain_cmp(sorters@, sorted[m], orig[i as int]) is Greater),
                hit ==> k < i && chain_cmp(sorters@, sorted[k as int], orig[i as int]) is Greater,
            decreases i - k + (if hit {
                0int
            } else {
                1int
            }),
        {
            let o = by_meta(sorters, &metas[k], &metas[i]);
            proof {
                assert(metas@[k as int] == sorted[k as int]);
            }
            if matches!(o, Order::Greater) {
                hit = true;
            } else {
                k = k + 1;
            }
        }
        proof {
            lemma_insert_at(sorters@, sorted, orig[i as int], k as int);
        }
        let x = metas.remove(i);
        metas.insert(k, x);
        proof {
            assert(orig.take(i as int).push(orig[i as int]) =~= orig.take(i + 1));
            assert(orig.take(i + 1).drop_last() =~= orig.take(i as int));
            assert(orig.take(i + 1).last() == orig[i as int]);
            assert(spec_sort(sorters@, orig.take(i + 1)) == spec_insert(
                sorters@,
                sorted,
                orig[i as int],
            ));
            assert(metas@ =~= sorted.take(k as int) + seq![orig[i as int]] + sorted.skip(
                k as int,
            ) + orig.skip(i + 1));
            assert(metas@ =~= spec_sort(sorters@, orig.take(i + 1)) + orig.skip(i + 1));
        }
        i = i + 1;
    }
    proof {
        assert(orig.take(orig.len() as int) =~= orig);
        assert(orig.skip(orig.len() as int) =~= Seq::<Meta>::empty());
        assert(metas@ =~= spec_sort(sorters@, orig));
    }
}

} // verus!
