//! First-occurrence lookup over sequences, shared by the configuration
//! map and the membership registry.

use vstd::prelude::*;

verus! {

/// Index of the first occurrence of `k` in `s`, or -1 when absent.
pub open spec fn first_idx<A>(s: Seq<A>, k: A) -> int
    decreases s.len(),
{
    if s.len() == 0 {
        -1
    } else if s[0] == k {
        0
    } else {
        let r = first_idx(s.skip(1), k);
        if r < 0 {
            -1
        } else {
            r + 1
        }
    }
}

/// `first_idx` finds exactly the first occurrence, or reports absence.
pub broadcast proof fn lemma_first_idx<A>(s: Seq<A>, k: A)
    ensures
        #![trigger first_idx(s, k)]
        first_idx(s, k) == -1 ==> !s.contains(k),
        first_idx(s, k) != -1 ==> {
            let r = first_idx(s, k);
            &&& 0 <= r < s.len()
            &&& s[r] == k
            &&& forall|j: int| 0 <= j < r ==> s[j] != k
        },
    decreases s.len(),
{
    if s.len() > 0 && s[0] != k {
        lemma_first_idx(s.skip(1), k);
        assert forall|i: int| 1 <= i < s.len() implies s.skip(1)[i - 1] == s[i] by {}
        if first_idx(s, k) == -1 && s.contains(k) {
            let w = choose|i: int| 0 <= i < s.len() && s[i] == k;
            assert(s.skip(1)[w - 1] == k);
            assert(s.skip(1).contains(k));
        }
    }
}

/// How pushing one value moves the first occurrence of `k`.
pub proof fn lemma_first_idx_push<A>(s: Seq<A>, x: A, k: A)
    ensures
        s.contains(k) ==> first_idx(s.push(x), k) == first_idx(s, k),
        !s.contains(k) && k == x ==> first_idx(s.push(x), k) == s.len(),
        !s.contains(k) && k != x ==> first_idx(s.push(x), k) == -1,
{
    lemma_first_idx(s, k);
    lemma_first_idx(s.push(x), k);
    let t = s.push(x);
    if s.contains(k) {
        let fi = first_idx(s, k);
        assert(0 <= fi < s.len() && s[fi] == k);
        assert(t[fi] == k);
        let fj = first_idx(t, k);
        if fj == -1 {
            assert(t.contains(k));
        }
        assert(0 <= fj < t.len() && t[fj] == k);
        if fj < fi {
            assert(s[fj] == t[fj]);
        }
        if fj > fi {
            assert(t[fi] != k);
        }
    } else {
        let fj = first_idx(t, k);
        if k == x {
            assert(t[s.len() as int] == k);
            if fj == -1 {
                assert(t.contains(k));
            }
            if 0 <= fj < s.len() {
                assert(s[fj] == t[fj]);
                assert(s.contains(k));
            }
        } else {
            if fj != -1 {
                if fj < s.len() {
                    assert(s[fj] == t[fj]);
                    assert(s.contains(k));
                } else {
                    assert(t[fj] == x);
                }
            }
        }
    }
}

/// No value occurs twice in `s`.
pub open spec fn distinct<A>(s: Seq<A>) -> bool {
    forall|i: int, j: int| 0 <= i < j < s.len() ==> s[i] != s[j]
}

} // verus!
