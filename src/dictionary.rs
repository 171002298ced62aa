use vstd::prelude::*;
use crate::words::{words_of, word_of};

verus! {

/// What `str::to_lowercase` makes of a text.
pub uninterp spec fn lower_of(s: Seq<char>) -> Seq<char>;

/// Relies on str::to_lowercase: the lowercase form, which depends on the
/// characters of the text alone.
#[verifier::external_body]
fn lowercase(s: &str) -> (r: String)
    ensures
        r@ == lower_of(s@),
{
    s.to_lowercase()
}

/// A dictionary line is kept when it has `length` letters and is its own
/// lowercase form.
pub open spec fn is_dictionary_word(line: Seq<char>, lowered: Seq<char>, length: nat) -> bool {
    line.len() == length && lowered == line
}

/// Decides on a line given its lowercase form.
pub fn accepts_line(line: &str, lowered: &str, length: usize) -> (r: bool)
    ensures
        r == is_dictionary_word(line@, lowered@, length as nat),
{
    let letters = word_of(line);
    if letters.len() != length {
        return false;
    }
    let low = word_of(lowered);
    if low.len() != letters.len() {
        return false;
    }
    let mut k: usize = 0;
    while k < low.len()
        invariant
            k <= low.len() == letters.len(),
            letters@ == line@,
            low@ == lowered@,
            forall|j: int| 0 <= j < k ==> low@[j] == letters@[j],
        decreases low.len() - k,
    {
        if low[k] != letters[k] {
            return false;
        }
        k = k + 1;
    }
    assert(low@ =~= letters@);
    true
}

/// Whether a line belongs in the dictionary.
pub fn keep_line(line: &str, length: usize) -> (r: bool)
    ensures
        r == is_dictionary_word(line@, lower_of(line@), length as nat),
{
    let lowered = lowercase(line);
    accepts_line(line, lowered.as_str(), length)
}

/// The lines that belong in the dictionary, as words, in their order.
pub open spec fn dictionary_words(lines: Seq<Seq<char>>, length: nat) -> Seq<Seq<char>> {
    lines.filter(|l: Seq<char>| is_dictionary_word(l, lower_of(l), length))
}

/// Keeps the lines of `length` letters that are all lowercase.
pub fn read_dict(lines: &Vec<String>, length: usize) -> (r: Vec<Vec<char>>)
    ensures
        words_of(r@) == dictionary_words(lines@.map_values(|l: String| l@), length as nat),
{
    let ghost ls = lines@.map_values(|l: String| l@);
    let mut out: Vec<Vec<char>> = Vec::new();
    let mut i: usize = 0;
    while i < lines.len()
        invariant
            i <= lines.len(),
            ls == lines@.map_values(|l: String| l@),
            words_of(out@) == dictionary_words(ls.take(i as int), length as nat),
        decreases lines.len() - i,
    {
        proof {
            reveal(Seq::filter);
        }
        assert(ls.take(i + 1).drop_last() =~= ls.take(i as int));
        assert(ls[i as int] == lines@[i as int]@);
        let line = lines[i].as_str();
        if keep_line(line, length) {
            out.push(word_of(line));
        }
        assert(words_of(out@) =~= dictionary_words(ls.take(i + 1), length as nat));
        i = i + 1;
    }
    assert(ls.take(lines.len() as int) =~= ls);
    out
}

} // verus!
