//! Searching and rewriting byte strings.

use crate::text::{occurs_at, occurs_in, replaced, replaced_from};
use vstd::prelude::*;

verus! {

/// The positions, from `i` on, at which `pat` stands in `s`, taken from the
/// left and without overlap.
pub open spec fn hits_from(s: Seq<u8>, pat: Seq<u8>, i: int) -> Seq<int>
    decreases s.len() - i,
{
    if i < 0 || pat.len() == 0 || i + pat.len() > s.len() {
        Seq::empty()
    } else if occurs_at(s, pat, i) {
        seq![i] + hits_from(s, pat, i + pat.len())
    } else {
        hits_from(s, pat, i + 1)
    }
}

/// The positions at which `pat` stands in `s`, taken from the left and without
/// overlap; an empty `pat` stands nowhere.
pub open spec fn hits(s: Seq<u8>, pat: Seq<u8>) -> Seq<int> {
    hits_from(s, pat, 0)
}

/// Every hit is an occurrence, hits rise without overlap, and an occurrence
/// means that there is a hit at or before it.
pub proof fn lemma_hits(s: Seq<u8>, pat: Seq<u8>, i: int)
    requires
        0 <= i,
        pat.len() > 0,
    ensures
        forall|a: int| 0 <= a < hits_from(s, pat, i).len() ==> occurs_at(
            s,
            pat,
            #[trigger] hits_from(s, pat, i)[a],
        ) && hits_from(s, pat, i)[a] >= i,
        forall|a: int, b: int| 0 <= a < b < hits_from(s, pat, i).len() ==> (
        #[trigger] hits_from(s, pat, i)[a]) + pat.len() <= #[trigger] hits_from(s, pat, i)[b],
        forall|j: int|
            i <= j && #[trigger] occurs_at(s, pat, j) ==> hits_from(s, pat, i).len() > 0
                && hits_from(s, pat, i)[0] <= j,
    decreases s.len() - i,
{
    if i + pat.len() <= s.len() {
        if occurs_at(s, pat, i) {
            lemma_hits(s, pat, i + pat.len());
            let rest = hits_from(s, pat, i + pat.len());
            let all = hits_from(s, pat, i);
            assert(all =~= seq![i] + rest);
            assert forall|a: int| 0 <= a < all.len() implies occurs_at(s, pat, #[trigger] all[a])
                && all[a] >= i by {
                if a > 0 {
                    assert(all[a] == rest[a - 1]);
                }
            }
            assert forall|a: int, b: int| 0 <= a < b < all.len() implies (#[trigger] all[a])
                + pat.len() <= #[trigger] all[b] by {
                assert(all[b] == rest[b - 1]);
                if a > 0 {
                    assert(all[a] == rest[a - 1]);
                }
            }
        } else {
            lemma_hits(s, pat, i + 1);
            assert(hits_from(s, pat, i) == hits_from(s, pat, i + 1));
        }
    } else {
        assert(hits_from(s, pat, i).len() == 0);
    }
}

/// Whether `pat` stands in `data` at `i`.
pub fn matches_at(data: &[u8], pat: &[u8], i: usize) -> (r: bool)
    ensures
        r == occurs_at(data@, pat@, i as int),
{
    if pat.len() > data.len() || i > data.len() - pat.len() {
        return false;
    }
    let mut j: usize = 0;
    while j < pat.len()
        invariant
            j <= pat.len(),
            i + pat.len() <= data.len(),
            forall|k: int| 0 <= k < j ==> data@[i + k] == pat@[k],
        decreases pat.len() - j,
    {
        if data[i + j] != pat[j] {
            proof {
                assert(data@.subrange(i as int, i + pat@.len())[j as int] != pat@[j as int]);
            }
            return false;
        }
        j = j + 1;
    }
    assert(data@.subrange(i as int, i + pat@.len()) =~= pat@);
    true
}

/// The positions at which `pattern` stands in `data`, taken from the left and
/// without overlap.
pub fn find_all(data: &[u8], pattern: &[u8]) -> (r: Vec<usize>)
    ensures
        r@.map_values(|x: usize| x as int) == hits(data@, pattern@),
{
    let mut r: Vec<usize> = Vec::new();
    let plen = pattern.len();
    if plen == 0 {
        assert(r@.map_values(|x: usize| x as int) =~= Seq::<int>::empty());
        return r;
    }
    let mut i: usize = 0;
    assert(r@.map_values(|x: usize| x as int) + hits_from(data@, pattern@, 0) =~= hits(
        data@,
        pattern@,
    ));
    while i <= data.len() && plen <= data.len() - i
        invariant
            plen == pattern@.len(),
            plen > 0,
            i <= data@.len(),
            r@.map_values(|x: usize| x as int) + hits_from(data@, pattern@, i as int) == hits(
                data@,
                pattern@,
            ),
        decreases data@.len() - i,
    {
        let ghost before = r@;
        if matches_at(data, pattern, i) {
            r.push(i);
            proof {
                assert(r@.map_values(|x: usize| x as int) =~= before.map_values(
                    |x: usize| x as int,
                ).push(i as int));
                assert(before.map_values(|x: usize| x as int) + (seq![i as int] + hits_from(
                    data@,
                    pattern@,
                    i + plen,
                )) =~= r@.map_values(|x: usize| x as int) + hits_from(data@, pattern@, i + plen));
            }
            i = i + plen;
        } else {
            i = i + 1;
        }
    }
    assert(hits_from(data@, pattern@, i as int) =~= Seq::<int>::empty());
    assert(r@.map_values(|x: usize| x as int) =~= hits(data@, pattern@));
    r
}

/// Whether the non-empty `needle` stands in `haystack`.
pub fn contains(haystack: &[u8], needle: &[u8]) -> (r: bool)
    ensures
        r == (needle@.len() > 0 && occurs_in(haystack@, needle@)),
{
    let found = find_all(haystack, needle);
    proof {
        let h = hits(haystack@, needle@);
        assert(found@.map_values(|x: usize| x as int).len() == found@.len());
        if needle@.len() > 0 {
            lemma_hits(haystack@, needle@, 0);
            if found@.len() > 0 {
                assert(occurs_at(haystack@, needle@, h[0]));
            }
            if occurs_in(haystack@, needle@) {
                let j = choose|j: int| #[trigger] occurs_at(haystack@, needle@, j);
                assert(h.len() > 0);
            }
        }
    }
    found.len() > 0
}

/// `haystack` with `replacement` in place of each occurrence of `needle`.
pub fn replace_bytes(haystack: &[u8], needle: &[u8], replacement: &[u8]) -> (r: Vec<u8>)
    ensures
        r@ == replaced(haystack@, needle@, replacement@),
{
    let mut out: Vec<u8> = Vec::new();
    let mut i: usize = 0;
    while i < haystack.len()
        invariant
            i <= haystack@.len(),
            out@ + replaced_from(haystack@, needle@, replacement@, i as int) == replaced(
                haystack@,
                needle@,
                replacement@,
            ),
        decreases haystack@.len() - i,
    {
        let ghost before = out@;
        if needle.len() > 0 && matches_at(haystack, needle, i) {
            append(&mut out, replacement);
            proof {
                let rest = replaced_from(haystack@, needle@, replacement@, i + needle@.len());
                assert(before + (replacement@ + rest) =~= out@ + rest);
            }
            i = i + needle.len();
        } else {
            out.push(haystack[i]);
            proof {
                let rest = replaced_from(haystack@, needle@, replacement@, i + 1);
                assert(before + (seq![haystack@[i as int]] + rest) =~= out@ + rest);
            }
            i = i + 1;
        }
    }
    assert(out@ + Seq::<u8>::empty() =~= out@);
    out
}

/// Append `more` to `out`.
pub fn append(out: &mut Vec<u8>, more: &[u8])
    ensures
        final(out)@ == old(out)@ + more@,
{
    let mut i: usize = 0;
    let ghost start = out@;
    while i < more.len()
        invariant
            i <= more@.len(),
            out@ == start + more@.take(i as int),
        decreases more@.len() - i,
    {
        out.push(more[i]);
        assert(start + more@.take(i + 1) =~= (start + more@.take(i as int)).push(more@[i as int]));
        i = i + 1;
    }
    assert(more@.take(more@.len() as int) =~= more@);
}

/// Every hit is an occurrence, hits rise without overlap, and every occurrence is
/// a hit or overlaps the hit before it: none is passed over, however far in it
/// stands.
pub proof fn law_no_occurrence_is_missed(s: Seq<u8>, pat: Seq<u8>, j: int)
    requires
        pat.len() > 0,
        0 <= j,
        j + pat.len() <= s.len(),
        s.subrange(j, j + pat.len()) == pat,
    ensures
        exists|a: int|
            0 <= a < hits(s, pat).len() && (#[trigger] hits(s, pat)[a]) <= j < hits(s, pat)[a]
                + pat.len(),
        forall|a: int|
            0 <= a < hits(s, pat).len() ==> 0 <= (#[trigger] hits(s, pat)[a]) && hits(s, pat)[a]
                + pat.len() <= s.len() && s.subrange(hits(s, pat)[a], hits(s, pat)[a] + pat.len())
                == pat,
        forall|a: int, b: int|
            0 <= a < b < hits(s, pat).len() ==> (#[trigger] hits(s, pat)[a]) + pat.len()
                <= #[trigger] hits(s, pat)[b],
{
    assert(occurs_at(s, pat, j));
    lemma_covered(s, pat, 0, j);
    lemma_hits(s, pat, 0);
    let all = hits(s, pat);
    let a = choose|a: int|
        0 <= a < hits_from(s, pat, 0).len() && (#[trigger] hits_from(s, pat, 0)[a]) <= j
            < hits_from(s, pat, 0)[a] + pat.len();
    assert(all[a] <= j < all[a] + pat.len());
    assert forall|a: int| 0 <= a < hits(s, pat).len() implies 0 <= (#[trigger] hits(s, pat)[a])
        && hits(s, pat)[a] + pat.len() <= s.len() && s.subrange(
        hits(s, pat)[a],
        hits(s, pat)[a] + pat.len(),
    ) == pat by {
        assert(occurs_at(s, pat, hits_from(s, pat, 0)[a]));
    }
}

proof fn lemma_covered(s: Seq<u8>, pat: Seq<u8>, i: int, j: int)
    requires
        pat.len() > 0,
        0 <= i <= j,
        occurs_at(s, pat, j),
    ensures
        exists|a: int|
            0 <= a < hits_from(s, pat, i).len() && (#[trigger] hits_from(s, pat, i)[a]) <= j
                < hits_from(s, pat, i)[a] + pat.len(),
    decreases s.len() - i,
{
    let all = hits_from(s, pat, i);
    if occurs_at(s, pat, i) {
        let rest = hits_from(s, pat, i + pat.len());
        assert(all =~= seq![i] + rest);
        if j < i + pat.len() {
            assert(all[0] <= j < all[0] + pat.len());
        } else {
            lemma_covered(s, pat, i + pat.len(), j);
            let a = choose|a: int|
                0 <= a < rest.len() && (#[trigger] rest[a]) <= j < rest[a] + pat.len();
            assert(all[a + 1] == rest[a]);
        }
    } else {
        lemma_covered(s, pat, i + 1, j);
    }
}

} // verus!
