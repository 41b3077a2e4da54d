use vstd::prelude::*;

verus! {

/// Glob matching over bytes: `*` matches any run of bytes, `?` matches any
/// one byte, any other byte matches itself alone.
pub open spec fn glob_matches(p: Seq<u8>, s: Seq<u8>) -> bool
    decreases p.len() + s.len(),
{
    if p.len() == 0 {
        s.len() == 0
    } else if p[0] == 42u8 {
        glob_matches(p.skip(1), s) || (s.len() > 0 && glob_matches(p, s.skip(1)))
    } else if s.len() == 0 {
        false
    } else {
        (p[0] == 63u8 || p[0] == s[0]) && glob_matches(p.skip(1), s.skip(1))
    }
}

fn glob_match_at(p: &Vec<u8>, i: usize, s: &Vec<u8>, j: usize) -> (r: bool)
    requires
        i <= p@.len(),
        j <= s@.len(),
    ensures
        r == glob_matches(p@.skip(i as int), s@.skip(j as int)),
    decreases p@.len() - i + s@.len() - j,
{
    if i == p.len() {
        return j == s.len();
    }
    proof {
        assert(p@.skip(i as int)[0] == p@[i as int]);
        assert(p@.skip(i as int).skip(1) =~= p@.skip(i + 1));
    }
    if p[i] == 42u8 {
        if glob_match_at(p, i + 1, s, j) {
            return true;
        }
        if j < s.len() {
            proof {
                assert(s@.skip(j as int).skip(1) =~= s@.skip(j + 1));
            }
            return glob_match_at(p, i, s, j + 1);
        }
        return false;
    }
    if j == s.len() {
        return false;
    }
    proof {
        assert(s@.skip(j as int)[0] == s@[j as int]);
        assert(s@.skip(j as int).skip(1) =~= s@.skip(j + 1));
    }
    if p[i] == 63u8 || p[i] == s[j] {
        return glob_match_at(p, i + 1, s, j + 1);
    }
    false
}

/// Whether the pattern `p` matches the whole of `s`.
pub fn glob_match(p: &Vec<u8>, s: &Vec<u8>) -> (r: bool)
    ensures
        r == glob_matches(p@, s@),
{
    proof {
        assert(p@.skip(0) =~= p@);
        assert(s@.skip(0) =~= s@);
    }
    glob_match_at(p, 0, s, 0)
}

/// Whether any pattern of the set matches the name.
pub open spec fn matches_any(globs: Seq<Vec<u8>>, name: Seq<u8>) -> bool {
    exists|k: int| 0 <= k < globs.len() && glob_matches(globs[k]@, name)
}

/// Whether any pattern of the set matches the name.
pub fn any_glob_match(globs: &Vec<Vec<u8>>, name: &Vec<u8>) -> (r: bool)
    ensures
        r == matches_any(globs@, name@),
{
    let mut k: usize = 0;
    while k < globs.len()
        invariant
            k <= globs@.len(),
            forall|m: int| 0 <= m < k ==> !glob_matches(globs@[m]@, name@),
        decreases globs@.len() - k,
    {
        if glob_match(&globs[k], name) {
            return true;
        }
        k = k + 1;
    }
    false
}

/// The names that survive the ignore-glob set: those no pattern matches.
pub open spec fn filter_names(globs: Seq<Vec<u8>>, names: Seq<Seq<u8>>) -> Seq<Seq<u8>> {
    names.filter(|n: Seq<u8>| !matches_any(globs, n))
}

proof fn lemma_filter_all_kept<A>(s: Seq<A>, pred: spec_fn(A) -> bool)
    requires
        forall|i: int| 0 <= i < s.len() ==> pred(#[trigger] s[i]),
    ensures
        s.filter(pred) == s,
    decreases s.len(),
{
    reveal(Seq::filter);
    if s.len() > 0 {
        assert(pred(s[s.len() - 1]));
        assert forall|i: int| 0 <= i < s.drop_last().len() implies pred(
            #[trigger] s.drop_last()[i],
        ) by {
            assert(s.drop_last()[i] == s[i]);
        }
        lemma_filter_all_kept(s.drop_last(), pred);
        assert(pred(s.last()));
        assert(s.filter(pred) == s.drop_last().filter(pred).push(s.last()));
        assert(s.drop_last().push(s.last()) =~= s);
    }
}

proof fn lemma_filter_members<A>(s: Seq<A>, pred: spec_fn(A) -> bool)
    ensures
        forall|i: int| 0 <= i < s.filter(pred).len() ==> pred(#[trigger] s.filter(pred)[i]),
    decreases s.len(),
{
    reveal(Seq::filter);
    if s.len() > 0 {
        lemma_filter_members(s.drop_last(), pred);
        assert forall|i: int| 0 <= i < s.filter(pred).len() implies pred(
            #[trigger] s.filter(pred)[i],
        ) by {
            let sub = s.drop_last().filter(pred);
            if pred(s.last()) {
                if i < sub.len() {
                    assert(s.filter(pred)[i] == sub[i]);
                }
            }
        }
    }
}

/// Applying the same ignore-glob set twice yields the same names as
/// applying it once.
pub proof fn lemma_filter_idempotent(globs: Seq<Vec<u8>>, names: Seq<Seq<u8>>)
    ensures
        filter_names(globs, filter_names(globs, names)) == filter_names(globs, names),
{
    let pred = |n: Seq<u8>| !matches_any(globs, n);
    lemma_filter_members(names, pred);
    lemma_filter_all_kept(names.filter(pred), pred);
}

} // verus!
