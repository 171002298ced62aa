use vstd::prelude::*;
use rayon::slice::ParallelSliceMut;

verus! {

broadcast use vstd::seq_lib::to_multiset_contains;

/// Relies on rayon's ParallelSliceMut::par_sort_by_key, a stable sort: the same
/// entries ordered by key, entries of equal key keeping their order, which here
/// is the order of their second component.
#[verifier::external_body]
fn sort_by_key_stable(v: &mut Vec<(u64, usize)>)
    requires
        forall|i: int, j: int| 0 <= i < j < old(v).len() ==> old(v)@[i].1 < old(v)@[j].1,
    ensures
        final(v)@.to_multiset() == old(v)@.to_multiset(),
        forall|i: int, j: int|
            0 <= i < j < final(v).len() ==> final(v)@[i].0 < final(v)@[j].0 || (final(v)@[i].0
                == final(v)@[j].0 && final(v)@[i].1 < final(v)@[j].1),
{
    v.par_sort_by_key(|e| e.0);
}

/// `order` lists each position of `scores` once, highest score first, equal
/// scores in their original order.
pub open spec fn is_ranking(scores: Seq<u64>, order: Seq<usize>) -> bool {
    &&& order.len() == scores.len()
    &&& forall|i: int| 0 <= i < order.len() ==> #[trigger] order[i] < scores.len()
    &&& forall|k: usize| k < scores.len() ==> #[trigger] order.contains(k)
    &&& forall|i: int, j: int|
        0 <= i < j < order.len() ==> scores[order[i] as int] > scores[order[j] as int] || (
        scores[order[i] as int] == scores[order[j] as int] && order[i] < order[j])
}

/// Ranks positions by descending score; ties keep their order.
pub fn rank_by_score(scores: &Vec<u64>) -> (r: Vec<usize>)
    ensures
        is_ranking(scores@, r@),
{
    let n = scores.len();
    let mut entries: Vec<(u64, usize)> = Vec::new();
    let mut i: usize = 0;
    while i < n
        invariant
            i <= n == scores.len(),
            entries.len() == i,
            forall|j: int|
                0 <= j < i ==> #[trigger] entries@[j].1 == j && entries@[j].0 == u64::MAX
                    - scores@[j],
        decreases n - i,
    {
        entries.push((u64::MAX - scores[i], i));
        i = i + 1;
    }
    let ghost before = entries@;
    sort_by_key_stable(&mut entries);
    let ghost after = entries@;
    proof {
        before.to_multiset_ensures();
        after.to_multiset_ensures();
        assert forall|a: int| 0 <= a < after.len() implies after[a].1 < n && after[a].0 == u64::MAX
            - scores@[after[a].1 as int] by {
            assert(after.contains(after[a]));
            assert(after.to_multiset().count(after[a]) > 0);
            assert(before.to_multiset().count(after[a]) > 0);
            assert(before.contains(after[a]));
            let m = choose|m: int| 0 <= m < before.len() && before[m] == after[a];
            assert(before[m].1 == m);
        }
        assert forall|k: int| 0 <= k < n implies after.contains(before[k]) by {
            assert(before.contains(before[k]));
            assert(before.to_multiset().count(before[k]) > 0);
            assert(after.to_multiset().count(before[k]) > 0);
        }
    }
    let mut r: Vec<usize> = Vec::new();
    let mut a: usize = 0;
    while a < entries.len()
        invariant
            a <= entries.len() == n,
            entries@ == after,
            r.len() == a,
            forall|b: int| 0 <= b < a ==> #[trigger] r@[b] == after[b].1,
        decreases entries.len() - a,
    {
        r.push(entries[a].1);
        a = a + 1;
    }
    proof {
        assert forall|k: usize| k < n implies #[trigger] r@.contains(k) by {
            assert(after.contains(before[k as int]));
            let a = choose|a: int| 0 <= a < after.len() && after[a] == before[k as int];
            assert(r@[a] == k);
        }
    }
    r
}

} // verus!
