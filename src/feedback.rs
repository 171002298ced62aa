use vstd::prelude::*;

verus! {

/// The mark that one guessed letter receives.
#[derive(PartialEq, Eq, Structural, Clone, Copy, Debug, Hash)]
pub enum Mark {
    NotPresent,
    WrongPosition,
    RightPosition,
}

/// Guess positions before `n` that hold letter `c` and are not exact matches.
pub open spec fn misses_before(g: Seq<char>, w: Seq<char>, c: char, n: int) -> nat
    decreases n,
{
    if n <= 0 {
        0
    } else {
        misses_before(g, w, c, n - 1) + if g[n - 1] == c && g[n - 1] != w[n - 1] {
            1nat
        } else {
            0nat
        }
    }
}

/// Target positions before `n` that hold letter `c` and are not exact matches:
/// the occurrences of `c` still free to justify a wrong-position mark.
pub open spec fn spare_before(g: Seq<char>, w: Seq<char>, c: char, n: int) -> nat
    decreases n,
{
    if n <= 0 {
        0
    } else {
        spare_before(g, w, c, n - 1) + if w[n - 1] == c && g[n - 1] != w[n - 1] {
            1nat
        } else {
            0nat
        }
    }
}

/// The mark of guess position `i`: exact where the letters agree; otherwise a
/// wrong-position mark for as many leftmost non-exact occurrences of the letter
/// as the target has free occurrences of it, and absent for the rest.
pub open spec fn mark_at(g: Seq<char>, w: Seq<char>, i: int) -> Mark {
    if g[i] == w[i] {
        Mark::RightPosition
    } else if misses_before(g, w, g[i], i) < spare_before(g, w, g[i], w.len() as int) {
        Mark::WrongPosition
    } else {
        Mark::NotPresent
    }
}

/// The feedback pattern of guess `g` against word `w`.
pub open spec fn classify(g: Seq<char>, w: Seq<char>) -> Seq<Mark> {
    Seq::new(g.len(), |i: int| mark_at(g, w, i))
}

/// The pattern in which every one of `n` positions is exact.
pub open spec fn all_exact(n: nat) -> Seq<Mark> {
    Seq::new(n, |i: int| Mark::RightPosition)
}

/// Positions before `n` that carry mark `m`.
pub open spec fn count_marks(p: Seq<Mark>, m: Mark, n: int) -> nat
    decreases n,
{
    if n <= 0 {
        0
    } else {
        count_marks(p, m, n - 1) + if p[n - 1] == m {
            1nat
        } else {
            0nat
        }
    }
}

/// Positions before `n` where `g` and `w` hold the same letter.
pub open spec fn same_letters(g: Seq<char>, w: Seq<char>, n: int) -> nat
    decreases n,
{
    if n <= 0 {
        0
    } else {
        same_letters(g, w, n - 1) + if g[n - 1] == w[n - 1] {
            1nat
        } else {
            0nat
        }
    }
}

/// Guess positions before `n` that hold letter `c` and are marked wrong-position.
pub open spec fn wrong_marks_of(g: Seq<char>, w: Seq<char>, c: char, n: int) -> nat
    decreases n,
{
    if n <= 0 {
        0
    } else {
        wrong_marks_of(g, w, c, n - 1) + if g[n - 1] == c && mark_at(g, w, n - 1)
            == Mark::WrongPosition {
            1nat
        } else {
            0nat
        }
    }
}

fn count_misses(g: &Vec<char>, w: &Vec<char>, c: char, end: usize) -> (r: usize)
    requires
        end <= g.len(),
        g.len() == w.len(),
    ensures
        r == misses_before(g@, w@, c, end as int),
{
    let mut r: usize = 0;
    let mut k: usize = 0;
    while k < end
        invariant
            k <= end <= g.len(),
            g.len() == w.len(),
            r == misses_before(g@, w@, c, k as int),
            r <= k,
        decreases end - k,
    {
        if g[k] == c && g[k] != w[k] {
            r = r + 1;
        }
        k = k + 1;
    }
    r
}

fn count_spare(g: &Vec<char>, w: &Vec<char>, c: char) -> (r: usize)
    requires
        g.len() == w.len(),
    ensures
        r == spare_before(g@, w@, c, w.len() as int),
{
    let mut r: usize = 0;
    let mut k: usize = 0;
    while k < w.len()
        invariant
            k <= w.len(),
            g.len() == w.len(),
            r == spare_before(g@, w@, c, k as int),
            r <= k,
        decreases w.len() - k,
    {
        if w[k] == c && g[k] != w[k] {
            r = r + 1;
        }
        k = k + 1;
    }
    r
}

/// Scores `guess` against `word` letter by letter. Exact matches are settled
/// first; each remaining guessed letter is then marked wrong-position only while
/// the word still holds an unmatched occurrence of it, leftmost guesses first.
pub fn compute_bucket(guess: &Vec<char>, word: &Vec<char>) -> (r: Vec<Mark>)
    requires
        guess.len() == word.len(),
    ensures
        r@ == classify(guess@, word@),
{
    let n = guess.len();
    let mut result: Vec<Mark> = Vec::new();
    let mut i: usize = 0;
    while i < n
        invariant
            n == guess.len(),
            guess.len() == word.len(),
            i <= n,
            result.len() == i,
            forall|k: int| 0 <= k < i ==> result@[k] == mark_at(guess@, word@, k),
        decreases n - i,
    {
        let c = guess[i];
        if c == word[i] {
            result.push(Mark::RightPosition);
        } else {
            let earlier = count_misses(guess, word, c, i);
            let spare = count_spare(guess, word, c);
            if earlier < spare {
                result.push(Mark::WrongPosition);
            } else {
                result.push(Mark::NotPresent);
            }
        }
        i = i + 1;
    }
    assert(result@ =~= classify(guess@, word@));
    result
}

/// Whether two patterns carry the same marks.
pub fn same_pattern(a: &Vec<Mark>, b: &Vec<Mark>) -> (r: bool)
    ensures
        r == (a@ == b@),
{
    if a.len() != b.len() {
        return false;
    }
    let mut k: usize = 0;
    while k < a.len()
        invariant
            k <= a.len() == b.len(),
            forall|j: int| 0 <= j < k ==> a@[j] == b@[j],
        decreases a.len() - k,
    {
        if a[k] != b[k] {
            return false;
        }
        k = k + 1;
    }
    assert(a@ =~= b@);
    true
}

/// A word scored against itself is exact at every position.
pub proof fn lemma_self_all_exact(w: Seq<char>)
    ensures
        classify(w, w) == all_exact(w.len()),
{
    assert(classify(w, w) =~= all_exact(w.len()));
}

/// The exact marks of a pattern are precisely the positions where guess and
/// word share a letter, so they never outnumber the positions.
pub proof fn lemma_exact_marks(g: Seq<char>, w: Seq<char>)
    requires
        g.len() == w.len(),
    ensures
        count_marks(classify(g, w), Mark::RightPosition, g.len() as int) == same_letters(
            g,
            w,
            g.len() as int,
        ),
        same_letters(g, w, g.len() as int) <= g.len(),
{
    lemma_exact_marks_prefix(g, w, g.len() as int);
}

proof fn lemma_exact_marks_prefix(g: Seq<char>, w: Seq<char>, n: int)
    requires
        g.len() == w.len(),
        0 <= n <= g.len(),
    ensures
        count_marks(classify(g, w), Mark::RightPosition, n) == same_letters(g, w, n),
        same_letters(g, w, n) <= n,
    decreases n,
{
    if n > 0 {
        lemma_exact_marks_prefix(g, w, n - 1);
    }
}

/// Repeated letters: the wrong-position marks on a letter are exactly the
/// smaller of its non-exact occurrences in the guess and its non-exact
/// occurrences in the word, so never more than the word has left unmatched.
pub proof fn lemma_repeated_letters(g: Seq<char>, w: Seq<char>, c: char)
    requires
        g.len() == w.len(),
    ensures
        wrong_marks_of(g, w, c, g.len() as int) == if misses_before(g, w, c, g.len() as int)
            < spare_before(g, w, c, w.len() as int) {
            misses_before(g, w, c, g.len() as int)
        } else {
            spare_before(g, w, c, w.len() as int)
        },
        wrong_marks_of(g, w, c, g.len() as int) <= spare_before(g, w, c, w.len() as int),
{
    lemma_repeated_letters_prefix(g, w, c, g.len() as int);
}

proof fn lemma_repeated_letters_prefix(g: Seq<char>, w: Seq<char>, c: char, n: int)
    requires
        g.len() == w.len(),
        0 <= n <= g.len(),
    ensures
        wrong_marks_of(g, w, c, n) == if misses_before(g, w, c, n) < spare_before(
            g,
            w,
            c,
            w.len() as int,
        ) {
            misses_before(g, w, c, n)
        } else {
            spare_before(g, w, c, w.len() as int)
        },
    decreases n,
{
    if n > 0 {
        lemma_repeated_letters_prefix(g, w, c, n - 1);
    }
}

} // verus!
