//! Pairs of positions, for relations that hold one fact for every two
//! members of a list.

use vstd::prelude::*;

verus! {

/// `p` comes before `q` when pairs are ordered by their first position
/// and then by their second.
pub open spec fn pair_before(p: (usize, usize), q: (usize, usize)) -> bool {
    p.0 < q.0 || (p.0 == q.0 && p.1 < q.1)
}

/// `pairs` holds every pair of positions below `n` whose first is not
/// after its second, each once and in ascending order.
pub open spec fn is_pairing(n: nat, pairs: Seq<(usize, usize)>) -> bool {
    &&& forall|k: int| 0 <= k < pairs.len() ==> (#[trigger] pairs[k]).0 <= pairs[k].1 < n
    &&& forall|a: usize, b: usize| a <= b < n ==> #[trigger] pairs.contains((a, b))
    &&& forall|i: int, j: int|
        0 <= i < j < pairs.len() ==> pair_before(#[trigger] pairs[i], #[trigger] pairs[j])
}

/// Lists the pairs of positions in a list of `n` members, a member with
/// itself included: `(0, 0)`, `(0, 1)`, and so on to `(n - 1, n - 1)`.
pub fn index_pairs(n: usize) -> (pairs: Vec<(usize, usize)>)
    ensures
        is_pairing(n as nat, pairs@),
{
    let mut pairs: Vec<(usize, usize)> = Vec::new();
    let mut a: usize = 0;
    while a < n
        invariant
            a <= n,
            forall|k: int| 0 <= k < pairs.len() ==> (#[trigger] pairs[k]).0 <= pairs[k].1 < n,
            forall|k: int| 0 <= k < pairs.len() ==> (#[trigger] pairs[k]).0 < a,
            forall|x: usize, y: usize| x <= y < n && x < a ==> #[trigger] pairs@.contains((x, y)),
            forall|i: int, j: int|
                0 <= i < j < pairs.len() ==> pair_before(#[trigger] pairs[i], #[trigger] pairs[j]),
        decreases n - a,
    {
        let mut b: usize = a;
        while b < n
            invariant
                a < n,
                a <= b <= n,
                forall|k: int| 0 <= k < pairs.len() ==> (#[trigger] pairs[k]).0 <= pairs[k].1 < n,
                forall|k: int|
                    0 <= k < pairs.len() ==> pair_before(#[trigger] pairs[k], (a, b)),
                forall|x: usize, y: usize|
                    x <= y < n && pair_before((x, y), (a, b)) ==> #[trigger] pairs@.contains(
                        (x, y),
                    ),
                forall|i: int, j: int|
                    0 <= i < j < pairs.len() ==> pair_before(
                        #[trigger] pairs[i],
                        #[trigger] pairs[j],
                    ),
            decreases n - b,
        {
            let ghost before = pairs@;
            pairs.push((a, b));
            proof {
                assert forall|x: usize, y: usize|
                    x <= y < n && pair_before((x, y), (a, (b + 1) as usize)) implies #[trigger] pairs@.contains(
                    (x, y),
                ) by {
                    if (x, y) == (a, b) {
                        assert(pairs@[before.len() as int] == (x, y));
                    } else {
                        assert(before.contains((x, y)));
                        let k = choose|k: int| 0 <= k < before.len() && before[k] == (x, y);
                        assert(pairs@[k] == (x, y));
                    }
                }
            }
            b += 1;
        }
        proof {
            assert forall|x: usize, y: usize| x <= y < n && x < a + 1 implies #[trigger] pairs@.contains(
                (x, y),
            ) by {
                assert(pair_before((x, y), (a, b)));
            }
        }
        a += 1;
    }
    pairs
}

} // verus!
