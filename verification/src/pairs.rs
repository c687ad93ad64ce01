//! The pairs of positions that `combinations(2)` of itertools enumerates.
use itertools::Itertools;
use vstd::prelude::*;

verus! {

/// The pairs `[i, j]` with `first <= i < j < n`, in lexicographic order.
pub open spec fn pairs_from(first: nat, n: nat) -> Seq<Seq<usize>>
    decreases n - first,
{
    if first >= n {
        Seq::empty()
    } else {
        Seq::new((n - first - 1) as nat, |k: int| seq![first as usize, (first + 1 + k) as usize])
            + pairs_from(first + 1, n)
    }
}

/// The pair of positions `a`, `b`.
pub open spec fn pair_of(a: int, b: int) -> Seq<usize> {
    seq![a as usize, b as usize]
}

/// The two-element combinations of the positions `0..n`, in the order in
/// which itertools yields them.
pub open spec fn index_pairs_spec(n: nat) -> Seq<Seq<usize>> {
    pairs_from(0, n)
}

/// `(0..n).combinations(2)` of itertools, collected: every pair of positions
/// `i < j`, in lexicographic order.
#[verifier::external_body]
pub(crate) fn index_pairs(n: usize) -> (r: Vec<Vec<usize>>)
    ensures
        r@.len() == index_pairs_spec(n as nat).len(),
        forall|k: int| 0 <= k < r@.len() ==> #[trigger] r@[k]@ == index_pairs_spec(n as nat)[k],
{
    (0..n).combinations(2).collect()
}

proof fn lemma_pairs_from(first: nat, n: nat)
    requires
        n <= usize::MAX,
    ensures
        forall|k: int|
            0 <= k < pairs_from(first, n).len() ==> {
                let p = #[trigger] pairs_from(first, n)[k];
                &&& p.len() == 2
                &&& first <= p[0] < p[1] < n
            },
        forall|a: int, b: int|
            first <= a < b < n ==> #[trigger] pairs_from(first, n).contains(pair_of(a, b)),
    decreases n - first,
{
    if first < n {
        lemma_pairs_from(first + 1, n);
        let head = Seq::new(
            (n - first - 1) as nat,
            |k: int| seq![first as usize, (first + 1 + k) as usize],
        );
        let rest = pairs_from(first + 1, n);
        assert(pairs_from(first, n) == head + rest);
        assert forall|k: int| 0 <= k < pairs_from(first, n).len() implies {
            let p = #[trigger] pairs_from(first, n)[k];
            &&& p.len() == 2
            &&& first <= p[0] < p[1] < n
        } by {
            if k < head.len() {
                assert(pairs_from(first, n)[k] == head[k]);
            } else {
                assert(pairs_from(first, n)[k] == rest[k - head.len()]);
            }
        }
        assert forall|a: int, b: int| first <= a < b < n implies #[trigger] pairs_from(
            first,
            n,
        ).contains(pair_of(a, b)) by {
            if a == first {
                let k = b - first - 1;
                assert(pairs_from(first, n)[k] == head[k]);
                assert(head[k] =~= pair_of(a, b));
            } else {
                assert(rest.contains(pair_of(a, b)));
                let k = choose|k: int| 0 <= k < rest.len() && rest[k] == pair_of(a, b);
                assert(pairs_from(first, n)[head.len() + k] == rest[k]);
            }
        }
    }
}

/// Every element is a pair `[i, j]` with `i < j < n`, and every such pair
/// is an element.
pub proof fn lemma_index_pairs(n: nat)
    requires
        n <= usize::MAX,
    ensures
        forall|k: int|
            0 <= k < index_pairs_spec(n).len() ==> {
                let p = #[trigger] index_pairs_spec(n)[k];
                &&& p.len() == 2
                &&& p[0] < p[1] < n
            },
        forall|a: int, b: int|
            0 <= a < b < n ==> #[trigger] index_pairs_spec(n).contains(pair_of(a, b)),
{
    lemma_pairs_from(0, n);
}

} // verus!
