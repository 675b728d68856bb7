//! Keeping some of the elements of a sequence, in order.
use vstd::prelude::*;

verus! {

/// Those of the first `n` elements of `s` whose position satisfies `keep`, in order.
pub open spec fn sift<T>(s: Seq<T>, n: int, keep: spec_fn(int) -> bool) -> Seq<T>
    decreases n,
{
    if n <= 0 {
        Seq::empty()
    } else if keep(n - 1) {
        sift(s, n - 1, keep).push(s[n - 1])
    } else {
        sift(s, n - 1, keep)
    }
}

/// The elements of `s` whose flag is set.
pub open spec fn flagged<T>(s: Seq<T>, flags: Seq<bool>) -> Seq<T> {
    sift(s, s.len() as int, |i: int| flags[i])
}

/// Two predicates that agree on the positions in question keep the same elements.
pub proof fn lemma_sift_same<T>(
    s: Seq<T>,
    n: int,
    a: spec_fn(int) -> bool,
    b: spec_fn(int) -> bool,
)
    requires
        forall|i: int| 0 <= i < n ==> #[trigger] a(i) == b(i),
    ensures
        sift(s, n, a) == sift(s, n, b),
    decreases n,
{
    if n > 0 {
        lemma_sift_same(s, n - 1, a, b);
    }
}

/// Keeping everything changes nothing.
pub proof fn lemma_sift_all<T>(s: Seq<T>, n: int, keep: spec_fn(int) -> bool)
    requires
        0 <= n <= s.len(),
        forall|i: int| 0 <= i < n ==> #[trigger] keep(i),
    ensures
        sift(s, n, keep) == s.take(n),
    decreases n,
{
    if n > 0 {
        lemma_sift_all(s, n - 1, keep);
        assert(keep(n - 1));
        assert(s.take(n - 1).push(s[n - 1]) =~= s.take(n));
    } else {
        assert(s.take(0) =~= Seq::empty());
    }
}

/// What is kept stands at rising positions of the sequence, and every such position is kept.
pub proof fn lemma_sift_positions<T>(s: Seq<T>, n: int, keep: spec_fn(int) -> bool) -> (pos: Seq<
    int,
>)
    requires
        0 <= n <= s.len(),
    ensures
        pos.len() == sift(s, n, keep).len(),
        forall|k: int|
            0 <= k < pos.len() ==> 0 <= (#[trigger] pos[k]) < n && keep(pos[k]) && sift(
                s,
                n,
                keep,
            )[k] == s[pos[k]],
        forall|j: int, k: int| 0 <= j < k < pos.len() ==> (#[trigger] pos[j]) < (#[trigger] pos[k]),
        forall|i: int|
            0 <= i < n && #[trigger] keep(i) ==> exists|k: int|
                0 <= k < pos.len() && #[trigger] pos[k] == i,
    decreases n,
{
    if n <= 0 {
        Seq::empty()
    } else {
        let before = lemma_sift_positions(s, n - 1, keep);
        if keep(n - 1) {
            let pos = before.push(n - 1);
            assert forall|i: int| 0 <= i < n && #[trigger] keep(i) implies exists|k: int|
                0 <= k < pos.len() && #[trigger] pos[k] == i by {
                if i == n - 1 {
                    assert(pos[before.len() as int] == i);
                } else {
                    let k = choose|k: int| 0 <= k < before.len() && #[trigger] before[k] == i;
                    assert(pos[k] == i);
                }
            }
            pos
        } else {
            before
        }
    }
}

/// Keeps the elements whose flag is set.
pub fn keep_flagged<T>(v: Vec<T>, flags: &Vec<bool>) -> (r: Vec<T>)
    requires
        flags@.len() == v@.len(),
    ensures
        r@ == flagged(v@, flags@),
{
    let ghost s = v@;
    let ghost keep = |i: int| flags@[i];
    let mut out: Vec<T> = Vec::new();
    let n: usize = v.len();
    let mut i: usize = 0;
    for x in it: v
        invariant
            it.seq() == s,
            n == s.len(),
            i == it.index(),
            flags@.len() == s.len(),
            keep == (|i: int| flags@[i]),
            out@ == sift(s, i as int, keep),
    {
        if flags[i] {
            out.push(x);
        }
        i += 1;
    }
    out
}

/// A vector of `n` equal flags.
pub fn flags(n: usize, b: bool) -> (r: Vec<bool>)
    ensures
        r@.len() == n,
        forall|i: int| 0 <= i < n ==> #[trigger] r@[i] == b,
{
    let mut r: Vec<bool> = Vec::new();
    let mut i: usize = 0;
    while i < n
        invariant
            i <= n,
            r@.len() == i,
            forall|j: int| 0 <= j < i ==> #[trigger] r@[j] == b,
        decreases n - i,
    {
        r.push(b);
        i += 1;
    }
    r
}

} // verus!
