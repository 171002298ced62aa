use vstd::prelude::*;
use itertools::Itertools;
use crate::feedback::{Mark, classify, compute_bucket};
use crate::reduce::reduce;
use crate::words::{words_of, all_of_length};

verus! {

/// The values paired with key `k`, in their order.
pub open spec fn values_with_key(pairs: Seq<(Vec<Mark>, usize)>, k: Seq<Mark>) -> Seq<usize> {
    pairs.filter(|e: (Vec<Mark>, usize)| e.0@ == k).map_values(|e: (Vec<Mark>, usize)| e.1)
}

/// Relies on itertools::Itertools::into_group_map: one entry per distinct key,
/// holding the values of that key in input order (its entries are then taken
/// out of the map in whatever order the map walks them).
#[verifier::external_body]
fn group_by_pattern(pairs: Vec<(Vec<Mark>, usize)>) -> (r: Vec<(Vec<Mark>, Vec<usize>)>)
    ensures
        forall|a: int, b: int| 0 <= a < b < r.len() ==> r@[a].0@ != r@[b].0@,
        forall|a: int|
            0 <= a < r.len() ==> r@[a].1@ == values_with_key(pairs@, r@[a].0@) && r@[a].1.len()
                > 0,
        forall|i: int|
            #![trigger pairs@[i]]
            0 <= i < pairs.len() ==> exists|a: int|
                #![trigger r@[a]]
                0 <= a < r.len() && r@[a].0@ == pairs@[i].0@,
{
    pairs.into_iter().into_group_map().into_iter().collect()
}

/// The number of words of `ws` that give pattern `k` for guess `g`: the size of
/// that pattern's bucket.
pub open spec fn bucket_size(g: Seq<char>, ws: Seq<Seq<char>>, k: Seq<Mark>) -> nat {
    reduce(g, k, ws).len()
}

/// `sizes` lists the buckets into which `g` splits `ws`: one entry per distinct
/// pattern `keys` names, each the non-zero size of its bucket, and every word's
/// pattern is among the keys.
pub open spec fn is_bucket_partition(
    g: Seq<char>,
    ws: Seq<Seq<char>>,
    keys: Seq<Seq<Mark>>,
    sizes: Seq<usize>,
) -> bool {
    &&& keys.len() == sizes.len()
    &&& forall|a: int, b: int| 0 <= a < b < keys.len() ==> keys[a] != keys[b]
    &&& forall|a: int|
        0 <= a < keys.len() ==> sizes[a] == bucket_size(g, ws, keys[a]) && sizes[a] > 0
    &&& forall|i: int| 0 <= i < ws.len() ==> keys.contains(classify(g, ws[i]))
}

/// The sum of a list of sizes.
pub open spec fn total(sizes: Seq<usize>) -> int
    decreases sizes.len(),
{
    if sizes.len() == 0 {
        0
    } else {
        total(sizes.drop_last()) + sizes.last()
    }
}

proof fn lemma_pairs_count(
    g: Seq<char>,
    ws: Seq<Seq<char>>,
    pairs: Seq<(Vec<Mark>, usize)>,
    k: Seq<Mark>,
)
    requires
        pairs.len() == ws.len(),
        forall|i: int| 0 <= i < ws.len() ==> #[trigger] pairs[i].0@ == classify(g, ws[i]),
    ensures
        values_with_key(pairs, k).len() == bucket_size(g, ws, k),
    decreases ws.len(),
{
    reveal(Seq::filter);
    if ws.len() > 0 {
        let pl = pairs.drop_last();
        let wl = ws.drop_last();
        assert forall|i: int| 0 <= i < wl.len() implies #[trigger] pl[i].0@ == classify(g, wl[i]) by {
            assert(pl[i] == pairs[i]);
        }
        lemma_pairs_count(g, wl, pl, k);
        assert(pairs.last().0@ == classify(g, ws.last()));
    }
}

/// Splits `words` by the pattern each gives for `guess` and returns the size of
/// every bucket, in no particular order.
pub fn compute_bucket_sizes(guess: &Vec<char>, words: &Vec<Vec<char>>) -> (r: Vec<usize>)
    requires
        all_of_length(words_of(words@), guess@.len()),
    ensures
        exists|keys: Seq<Seq<Mark>>| is_bucket_partition(guess@, words_of(words@), keys, r@),
{
    let ghost ws = words_of(words@);
    let mut pairs: Vec<(Vec<Mark>, usize)> = Vec::new();
    let mut i: usize = 0;
    while i < words.len()
        invariant
            i <= words.len(),
            ws == words_of(words@),
            all_of_length(ws, guess@.len()),
            pairs.len() == i,
            forall|j: int| 0 <= j < i ==> #[trigger] pairs@[j].0@ == classify(guess@, ws[j]),
        decreases words.len() - i,
    {
        assert(ws[i as int] == words@[i as int]@);
        let pattern = compute_bucket(guess, &words[i]);
        pairs.push((pattern, i));
        i = i + 1;
    }
    let ghost pv = pairs@;
    let groups = group_by_pattern(pairs);
    let mut sizes: Vec<usize> = Vec::new();
    let mut a: usize = 0;
    while a < groups.len()
        invariant
            a <= groups.len(),
            sizes.len() == a,
            forall|b: int| 0 <= b < a ==> #[trigger] sizes@[b] == groups@[b].1.len(),
        decreases groups.len() - a,
    {
        sizes.push(groups[a].1.len());
        a = a + 1;
    }
    let ghost keys = groups@.map_values(|e: (Vec<Mark>, Vec<usize>)| e.0@);
    proof {
        assert forall|b: int| 0 <= b < keys.len() implies sizes@[b] == bucket_size(
            guess@,
            ws,
            keys[b],
        ) && sizes@[b] > 0 by {
            lemma_pairs_count(guess@, ws, pv, keys[b]);
        }
        assert forall|j: int| 0 <= j < ws.len() implies keys.contains(classify(guess@, ws[j])) by {
            assert(pv[j].0@ == classify(guess@, ws[j]));
            let b = choose|b: int| 0 <= b < groups.len() && groups@[b].0@ == pv[j].0@;
            assert(keys[b] == classify(guess@, ws[j]));
        }
        assert(is_bucket_partition(guess@, ws, keys, sizes@));
    }
    sizes
}

/// Sum over the keys of the size of each key's bucket.
pub open spec fn sum_over_keys(g: Seq<char>, ws: Seq<Seq<char>>, keys: Seq<Seq<Mark>>) -> int
    decreases keys.len(),
{
    if keys.len() == 0 {
        0
    } else {
        sum_over_keys(g, ws, keys.drop_last()) + bucket_size(g, ws, keys.last())
    }
}

/// How many entries of `keys` equal `p`.
pub open spec fn hits(keys: Seq<Seq<Mark>>, p: Seq<Mark>) -> int
    decreases keys.len(),
{
    if keys.len() == 0 {
        0
    } else {
        hits(keys.drop_last(), p) + if keys.last() == p {
            1int
        } else {
            0int
        }
    }
}

proof fn lemma_hits_distinct(keys: Seq<Seq<Mark>>, p: Seq<Mark>)
    requires
        forall|a: int, b: int| 0 <= a < b < keys.len() ==> keys[a] != keys[b],
    ensures
        hits(keys, p) == if keys.contains(p) {
            1int
        } else {
            0int
        },
    decreases keys.len(),
{
    if keys.len() > 0 {
        let kl = keys.drop_last();
        lemma_hits_distinct(kl, p);
        if keys.last() == p {
            if kl.contains(p) {
                let a = choose|a: int| 0 <= a < kl.len() && kl[a] == p;
                assert(keys[a] == keys[keys.len() - 1]);
            }
        } else {
            if keys.contains(p) {
                let a = choose|a: int| 0 <= a < keys.len() && keys[a] == p;
                assert(kl[a] == p);
            }
            if kl.contains(p) {
                let a = choose|a: int| 0 <= a < kl.len() && kl[a] == p;
                assert(keys[a] == p);
            }
        }
    }
}

proof fn lemma_sum_step(g: Seq<char>, ws: Seq<Seq<char>>, keys: Seq<Seq<Mark>>)
    requires
        ws.len() > 0,
    ensures
        sum_over_keys(g, ws, keys) == sum_over_keys(g, ws.drop_last(), keys) + hits(
            keys,
            classify(g, ws.last()),
        ),
    decreases keys.len(),
{
    reveal(Seq::filter);
    if keys.len() > 0 {
        lemma_sum_step(g, ws, keys.drop_last());
    }
}

proof fn lemma_sum_covers(g: Seq<char>, ws: Seq<Seq<char>>, keys: Seq<Seq<Mark>>)
    requires
        forall|a: int, b: int| 0 <= a < b < keys.len() ==> keys[a] != keys[b],
        forall|i: int| 0 <= i < ws.len() ==> keys.contains(classify(g, ws[i])),
    ensures
        sum_over_keys(g, ws, keys) == ws.len(),
    decreases ws.len(),
{
    if ws.len() == 0 {
        lemma_sum_empty(g, ws, keys);
    } else {
        let wl = ws.drop_last();
        assert forall|i: int| 0 <= i < wl.len() implies keys.contains(classify(g, wl[i])) by {
            assert(wl[i] == ws[i]);
        }
        lemma_sum_covers(g, wl, keys);
        lemma_sum_step(g, ws, keys);
        assert(keys.contains(classify(g, ws[ws.len() - 1])));
        lemma_hits_distinct(keys, classify(g, ws.last()));
    }
}

proof fn lemma_sum_empty(g: Seq<char>, ws: Seq<Seq<char>>, keys: Seq<Seq<Mark>>)
    requires
        ws.len() == 0,
    ensures
        sum_over_keys(g, ws, keys) == 0,
    decreases keys.len(),
{
    reveal(Seq::filter);
    if keys.len() > 0 {
        lemma_sum_empty(g, ws, keys.drop_last());
    }
}

proof fn lemma_total_is_sum(
    g: Seq<char>,
    ws: Seq<Seq<char>>,
    keys: Seq<Seq<Mark>>,
    sizes: Seq<usize>,
)
    requires
        keys.len() == sizes.len(),
        forall|a: int| 0 <= a < keys.len() ==> sizes[a] == bucket_size(g, ws, keys[a]),
    ensures
        total(sizes) == sum_over_keys(g, ws, keys),
    decreases keys.len(),
{
    if keys.len() > 0 {
        let kl = keys.drop_last();
        let sl = sizes.drop_last();
        assert forall|a: int| 0 <= a < kl.len() implies sl[a] == bucket_size(g, ws, kl[a]) by {
            assert(sl[a] == sizes[a]);
            assert(kl[a] == keys[a]);
        }
        lemma_total_is_sum(g, ws, kl, sl);
    }
}

/// The buckets of a guess hold every candidate exactly once: their sizes add
/// up to the number of candidates.
pub proof fn lemma_partition_total(
    g: Seq<char>,
    ws: Seq<Seq<char>>,
    keys: Seq<Seq<Mark>>,
    sizes: Seq<usize>,
)
    requires
        is_bucket_partition(g, ws, keys, sizes),
    ensures
        total(sizes) == ws.len(),
{
    lemma_total_is_sum(g, ws, keys, sizes);
    lemma_sum_covers(g, ws, keys);
}

} // verus!
