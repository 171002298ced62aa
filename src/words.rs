use vstd::prelude::*;
use vstd::std_specs::iter::IteratorSpec;

verus! {

/// The letters of each word of a list.
pub open spec fn words_of(d: Seq<Vec<char>>) -> Seq<Seq<char>> {
    d.map_values(|v: Vec<char>| v@)
}

/// Every word of the list has `n` letters.
pub open spec fn all_of_length(ws: Seq<Seq<char>>, n: nat) -> bool {
    forall|i: int| 0 <= i < ws.len() ==> #[trigger] ws[i].len() == n
}

/// A copy of a word.
pub fn copy_word(w: &Vec<char>) -> (r: Vec<char>)
    ensures
        r@ == w@,
{
    let r = w.clone();
    assert(r@ =~= w@);
    r
}

/// The letters of a text, in order.
pub fn word_of(s: &str) -> (r: Vec<char>)
    ensures
        r@ == s@,
{
    broadcast use vstd::string::axiom_spec_iter, vstd::string::next_postcondition;

    let mut it = s.chars();
    let mut r: Vec<char> = Vec::new();
    loop
        invariant
            r@ + it.remaining() == s@,
        decreases s@.len() - r.len(),
    {
        let ghost before = it.remaining();
        match it.next() {
            Some(c) => {
                r.push(c);
                assert(r@ + it.remaining() =~= s@) by {
                    assert(before =~= seq![c] + it.remaining());
                }
            },
            None => {
                assert(r@ =~= s@);
                return r;
            },
        }
    }
}

} // verus!
