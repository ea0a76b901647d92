use vstd::prelude::*;

verus! {

/// A sequence without repeats drawn from `0..n` has at most `n` elements.
pub proof fn lemma_distinct_below_len(s: Seq<usize>, n: usize)
    requires
        s.no_duplicates(),
        forall|k: int| 0 <= k < s.len() ==> #[trigger] s[k] < n,
    ensures
        s.len() <= n,
    decreases n,
{
    if n == 0 {
        if s.len() > 0 {
            assert(s[0] < n);
        }
    } else if s.contains((n - 1) as usize) {
        let i = choose|i: int| 0 <= i < s.len() && s[i] == (n - 1) as usize;
        let t = s.remove(i);
        assert forall|k: int| 0 <= k < t.len() implies #[trigger] t[k] < (n - 1) as usize by {
            if k < i {
                assert(t[k] == s[k]);
            } else {
                assert(t[k] == s[k + 1]);
            }
        }
        assert forall|a: int, b: int| 0 <= a < t.len() && 0 <= b < t.len() && a != b implies t[a] != t[b] by {
            let sa = if a < i { a } else { a + 1 };
            let sb = if b < i { b } else { b + 1 };
            assert(t[a] == s[sa]);
            assert(t[b] == s[sb]);
        }
        lemma_distinct_below_len(t, (n - 1) as usize);
    } else {
        assert forall|k: int| 0 <= k < s.len() implies #[trigger] s[k] < (n - 1) as usize by {
            assert(s[k] < n);
            if s[k] == (n - 1) as usize {
                assert(s.contains((n - 1) as usize));
            }
        }
        lemma_distinct_below_len(s, (n - 1) as usize);
    }
}

/// A sequence that holds every value of `0..n` has at least `n` elements.
pub proof fn lemma_covering_len(s: Seq<usize>, n: usize)
    requires
        forall|v: usize| v < n ==> #[trigger] s.contains(v),
    ensures
        s.len() >= n,
    decreases n,
{
    if n > 0 {
        let top = (n - 1) as usize;
        assert(s.contains(top));
        let i = choose|i: int| 0 <= i < s.len() && s[i] == top;
        let t = s.remove(i);
        assert forall|v: usize| v < top implies #[trigger] t.contains(v) by {
            assert(s.contains(v));
            let k = choose|k: int| 0 <= k < s.len() && s[k] == v;
            if k < i {
                assert(t[k] == v);
            } else {
                assert(k != i);
                assert(t[k - 1] == v);
            }
        }
        lemma_covering_len(t, top);
    }
}

/// Among `n + 1` values drawn from `0..n`, two are equal.
pub proof fn lemma_pigeonhole(s: Seq<usize>, n: usize)
    requires
        s.len() > n,
        forall|k: int| 0 <= k < s.len() ==> #[trigger] s[k] < n,
    ensures
        exists|i: int, j: int| 0 <= i < j < s.len() && s[i] == s[j],
{
    if s.no_duplicates() {
        lemma_distinct_below_len(s, n);
    } else {
        let (i, j) = choose|i: int, j: int| 0 <= i < s.len() && 0 <= j < s.len() && i != j && s[i] == s[j];
        if i < j {
            assert(s[i] == s[j]);
        } else {
            assert(s[j] == s[i]);
        }
    }
}

} // verus!
