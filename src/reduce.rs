use vstd::prelude::*;
use crate::feedback::{Mark, classify, compute_bucket, same_pattern};
use crate::words::{words_of, all_of_length, copy_word};

verus! {

/// The words of `s` that give pattern `p` when `g` is guessed, in their order.
pub open spec fn reduce(g: Seq<char>, p: Seq<Mark>, s: Seq<Seq<char>>) -> Seq<Seq<char>> {
    s.filter(|w: Seq<char>| classify(g, w) == p)
}

/// Keeps the words of `dict` that are consistent with `marks` having been
/// received for `guess`, in their order.
pub fn reduce_dictionary(guess: &Vec<char>, marks: &Vec<Mark>, dict: &Vec<Vec<char>>) -> (r: Vec<
    Vec<char>,
>)
    requires
        all_of_length(words_of(dict@), guess@.len()),
    ensures
        words_of(r@) == reduce(guess@, marks@, words_of(dict@)),
        r.len() <= dict.len(),
{
    let mut out: Vec<Vec<char>> = Vec::new();
    let mut i: usize = 0;
    while i < dict.len()
        invariant
            i <= dict.len(),
            all_of_length(words_of(dict@), guess@.len()),
            words_of(out@) == reduce(guess@, marks@, words_of(dict@).take(i as int)),
        decreases dict.len() - i,
    {
        assert(words_of(dict@)[i as int] == dict@[i as int]@);
        let pattern = compute_bucket(guess, &dict[i]);
        let ghost before = words_of(dict@).take(i as int);
        let ghost after = words_of(dict@).take(i + 1);
        assert(after.drop_last() =~= before);
        proof {
            reveal(Seq::filter);
        }
        if same_pattern(&pattern, marks) {
            out.push(copy_word(&dict[i]));
        }
        assert(words_of(out@) =~= reduce(guess@, marks@, after));
        i = i + 1;
    }
    assert(words_of(dict@).take(dict.len() as int) =~= words_of(dict@));
    proof {
        lemma_reduce_shrinks(guess@, marks@, words_of(dict@));
    }
    out
}

/// Reducing a second time with the same guess and pattern changes nothing.
pub proof fn lemma_reduce_idempotent(g: Seq<char>, p: Seq<Mark>, s: Seq<Seq<char>>)
    ensures
        reduce(g, p, reduce(g, p, s)) == reduce(g, p, s),
    decreases s.len(),
{
    if s.len() > 0 {
        lemma_reduce_idempotent(g, p, s.drop_last());
        reveal(Seq::filter);
        let sub = reduce(g, p, s.drop_last());
        if classify(g, s.last()) == p {
            assert(reduce(g, p, s) == sub.push(s.last()));
            assert(sub.push(s.last()).drop_last() =~= sub);
            assert(reduce(g, p, sub.push(s.last())) == reduce(g, p, sub).push(s.last()));
        }
    }
}

/// Reducing never adds a word: the answer set only shrinks.
pub proof fn lemma_reduce_shrinks(g: Seq<char>, p: Seq<Mark>, s: Seq<Seq<char>>)
    ensures
        reduce(g, p, s).len() <= s.len(),
{
    s.lemma_filter_len(|w: Seq<char>| classify(g, w) == p);
}

} // verus!
