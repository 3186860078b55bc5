//! Positions of values in sequences.
use vstd::prelude::*;

verus! {

/// The index of the first occurrence of `x` in `s`, or `-1`.
pub open spec fn first_index<T>(s: Seq<T>, x: T) -> int
    decreases s.len(),
{
    if s.len() == 0 {
        -1
    } else {
        let p = first_index(s.drop_last(), x);
        if p >= 0 {
            p
        } else if s.last() == x {
            s.len() - 1
        } else {
            -1
        }
    }
}

pub proof fn lemma_first_index<T>(s: Seq<T>, x: T)
    ensures
        -1 <= first_index(s, x) < s.len(),
        first_index(s, x) == -1 <==> !s.contains(x),
        first_index(s, x) >= 0 ==> s[first_index(s, x)] == x,
        forall|k: int| 0 <= k < first_index(s, x) ==> s[k] != x,
    decreases s.len(),
{
    if s.len() > 0 {
        let r = s.drop_last();
        lemma_first_index(r, x);
        if r.contains(x) {
            let k = choose|k: int| 0 <= k < r.len() && r[k] == x;
            assert(s[k] == x);
        }
        if s.contains(x) && !r.contains(x) {
            let k = choose|k: int| 0 <= k < s.len() && s[k] == x;
            if k < r.len() {
                assert(r[k] == x);
            }
        }
        if s.last() == x {
            assert(s[s.len() - 1] == x);
        }
        assert forall|k: int| 0 <= k < first_index(s, x) implies s[k] != x by {
            if first_index(r, x) < 0 {
                assert(!r.contains(x));
                assert(r[k] == s[k]);
            } else {
                assert(r[k] == s[k]);
            }
        }
    }
}

/// Scans `s` from the front for `x`, as `first_index` names it.
pub proof fn lemma_first_index_scan<T>(s: Seq<T>, x: T, j: int)
    requires
        0 <= j <= s.len(),
        forall|k: int| 0 <= k < j ==> s[k] != x,
    ensures
        j < s.len() && s[j] == x ==> first_index(s, x) == j,
        j == s.len() ==> first_index(s, x) == -1,
{
    lemma_first_index(s, x);
    if j == s.len() {
        if s.contains(x) {
            let k = choose|k: int| 0 <= k < s.len() && s[k] == x;
        }
    }
}

/// In a sequence that already holds `x`, appending leaves its first position alone.
pub proof fn lemma_first_index_push<T>(s: Seq<T>, y: T, x: T)
    requires
        s.contains(x),
    ensures
        first_index(s.push(y), x) == first_index(s, x),
{
    lemma_first_index(s, x);
    assert(s.push(y).drop_last() =~= s);
}

} // verus!
