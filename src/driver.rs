use vstd::prelude::*;
use crate::feedback::{Mark, classify, all_exact, compute_bucket};
use crate::reduce::{reduce, reduce_dictionary};
use crate::words::{words_of, all_of_length, copy_word};

verus! {

/// Where a game stands before the next guess.
#[derive(Debug)]
pub enum Status {
    /// No word is consistent with the feedback received: it contradicts itself
    /// or the word list.
    Stuck,
    /// Exactly one word remains: the answer.
    Solved(Vec<char>),
    /// Several words remain.
    Playing,
}

/// What one guess against a known target leads to.
#[derive(Debug)]
pub enum Outcome {
    /// The guess is the target.
    Guessed,
    /// The words still consistent with the feedback the guess received.
    Narrowed(Vec<Vec<char>>),
}

/// Tells a finished game (stuck or solved) from one still in play.
pub fn round_status(possible: &Vec<Vec<char>>) -> (r: Status)
    ensures
        r is Stuck <==> possible.len() == 0,
        r is Playing <==> possible.len() > 1,
        r is Solved <==> possible.len() == 1,
        r is Solved ==> r->Solved_0@ == possible@[0]@,
{
    if possible.len() == 0 {
        Status::Stuck
    } else if possible.len() == 1 {
        Status::Solved(copy_word(&possible[0]))
    } else {
        Status::Playing
    }
}

/// Whether every mark of a pattern is exact.
pub fn is_all_exact(marks: &Vec<Mark>) -> (r: bool)
    ensures
        r == (marks@ == all_exact(marks.len() as nat)),
{
    let mut k: usize = 0;
    while k < marks.len()
        invariant
            k <= marks.len(),
            forall|j: int| 0 <= j < k ==> marks@[j] == Mark::RightPosition,
        decreases marks.len() - k,
    {
        if marks[k] != Mark::RightPosition {
            assert(marks@[k as int] != all_exact(marks.len() as nat)[k as int]);
            return false;
        }
        k = k + 1;
    }
    assert(marks@ =~= all_exact(marks.len() as nat));
    true
}

/// Plays `guess` against a known `target`: either it is the target, or the
/// answer set narrows to the words consistent with the feedback it received.
pub fn play_guess(guess: &Vec<char>, target: &Vec<char>, possible: &Vec<Vec<char>>) -> (r: Outcome)
    requires
        guess.len() == target.len(),
        all_of_length(words_of(possible@), guess@.len()),
    ensures
        r is Guessed <==> classify(guess@, target@) == all_exact(guess.len() as nat),
        r is Narrowed ==> words_of(r->Narrowed_0@) == reduce(
            guess@,
            classify(guess@, target@),
            words_of(possible@),
        ),
{
    let outcome = compute_bucket(guess, target);
    if is_all_exact(&outcome) {
        Outcome::Guessed
    } else {
        Outcome::Narrowed(reduce_dictionary(guess, &outcome, possible))
    }
}

/// A pattern is all exact only when the guess is the word itself.
pub proof fn lemma_all_exact_only_for_target(g: Seq<char>, t: Seq<char>)
    requires
        g.len() == t.len(),
        classify(g, t) == all_exact(g.len()),
    ensures
        g == t,
{
    assert forall|i: int| 0 <= i < g.len() implies g[i] == t[i] by {
        assert(classify(g, t)[i] == Mark::RightPosition);
    }
    assert(g =~= t);
}

/// The target is consistent with the feedback it gives, so reducing by that
/// feedback keeps it among the possible answers.
pub proof fn lemma_target_survives(g: Seq<char>, t: Seq<char>, s: Seq<Seq<char>>)
    requires
        s.contains(t),
    ensures
        reduce(g, classify(g, t), s).contains(t),
{
    let i = choose|i: int| 0 <= i < s.len() && s[i] == t;
    s.lemma_filter_contains(|w: Seq<char>| classify(g, w) == classify(g, t), i);
}

proof fn lemma_reduce_drops(g: Seq<char>, p: Seq<Mark>, s: Seq<Seq<char>>, i: int)
    requires
        0 <= i < s.len(),
        classify(g, s[i]) != p,
    ensures
        reduce(g, p, s).len() < s.len(),
    decreases s.len(),
{
    reveal(Seq::filter);
    let sl = s.drop_last();
    if i == s.len() - 1 {
        sl.lemma_filter_len(|w: Seq<char>| classify(g, w) == p);
    } else {
        assert(sl[i] == s[i]);
        lemma_reduce_drops(g, p, sl, i);
    }
}

/// Guessing a word that is still possible but is not the target rules that
/// word out, so the answer set strictly shrinks while keeping the target: a
/// game that guesses possible answers ends within as many rounds as there are
/// words.
pub proof fn lemma_possible_guess_shrinks(g: Seq<char>, t: Seq<char>, s: Seq<Seq<char>>)
    requires
        g.len() == t.len(),
        s.contains(g),
        g != t,
    ensures
        reduce(g, classify(g, t), s).len() < s.len(),
        s.contains(t) ==> reduce(g, classify(g, t), s).contains(t),
{
    let i = choose|i: int| 0 <= i < s.len() && s[i] == g;
    crate::feedback::lemma_self_all_exact(g);
    if classify(g, g) == classify(g, t) {
        lemma_all_exact_only_for_target(g, t);
    }
    lemma_reduce_drops(g, classify(g, t), s, i);
    if s.contains(t) {
        lemma_target_survives(g, t, s);
    }
}

/// The mark a feedback character stands for: `-` absent, `+` wrong position,
/// anything else exact.
pub open spec fn mark_of_char(c: char) -> Mark {
    if c == '-' {
        Mark::NotPresent
    } else if c == '+' {
        Mark::WrongPosition
    } else {
        Mark::RightPosition
    }
}

/// Reads a pattern written one character per mark.
pub fn marks_from_chars(s: &Vec<char>) -> (r: Vec<Mark>)
    ensures
        r@ == s@.map_values(|c: char| mark_of_char(c)),
{
    let mut r: Vec<Mark> = Vec::new();
    let mut k: usize = 0;
    while k < s.len()
        invariant
            k <= s.len(),
            r.len() == k,
            forall|j: int| 0 <= j < k ==> r@[j] == mark_of_char(s@[j]),
        decreases s.len() - k,
    {
        let c = s[k];
        let m = if c == '-' {
            Mark::NotPresent
        } else if c == '+' {
            Mark::WrongPosition
        } else {
            Mark::RightPosition
        };
        r.push(m);
        k = k + 1;
    }
    assert(r@ =~= s@.map_values(|c: char| mark_of_char(c)));
    r
}

/// The position of the first space at or after `from`, or the length.
pub open spec fn field_end(s: Seq<char>, from: int) -> int
    decreases s.len() - from,
{
    if from >= s.len() {
        s.len() as int
    } else if s[from] == ' ' {
        from
    } else {
        field_end(s, from + 1)
    }
}

fn find_space(s: &Vec<char>, from: usize) -> (r: usize)
    requires
        from <= s.len(),
    ensures
        r == field_end(s@, from as int),
        from <= r <= s.len(),
{
    let mut i: usize = from;
    while i < s.len() && s[i] != ' '
        invariant
            from <= i <= s.len(),
            field_end(s@, from as int) == field_end(s@, i as int),
        decreases s.len() - i,
    {
        i = i + 1;
    }
    i
}

fn slice_chars(s: &Vec<char>, lo: usize, hi: usize) -> (r: Vec<char>)
    requires
        lo <= hi <= s.len(),
    ensures
        r@ == s@.subrange(lo as int, hi as int),
{
    let mut r: Vec<char> = Vec::new();
    let mut k: usize = lo;
    while k < hi
        invariant
            lo <= k <= hi <= s.len(),
            r@ == s@.subrange(lo as int, k as int),
        decreases hi - k,
    {
        r.push(s[k]);
        assert(r@ =~= s@.subrange(lo as int, k + 1));
        k = k + 1;
    }
    r
}

/// The guess and the pattern of a feedback line `<word> <pattern>`: the word
/// ends at the first space and the pattern at the next one (or at the end).
/// `None` where the line has no space or the pattern's length differs from the
/// word's.
pub open spec fn feedback_line(line: Seq<char>) -> Option<(Seq<char>, Seq<Mark>)> {
    let p = field_end(line, 0);
    let q = field_end(line, p + 1);
    if p >= line.len() || q - (p + 1) != p {
        None
    } else {
        Some(
            (
                line.subrange(0, p),
                line.subrange(p + 1, q).map_values(|c: char| mark_of_char(c)),
            ),
        )
    }
}

/// Reads a feedback line `<word> <pattern>`.
pub fn parse_feedback_line(line: &Vec<char>) -> (r: Option<(Vec<char>, Vec<Mark>)>)
    ensures
        r is None <==> feedback_line(line@) is None,
        r is Some ==> feedback_line(line@) == Some((r->Some_0.0@, r->Some_0.1@)),
{
    let p = find_space(line, 0);
    if p >= line.len() {
        return None;
    }
    let q = find_space(line, p + 1);
    if q - (p + 1) != p {
        return None;
    }
    let word = slice_chars(line, 0, p);
    let pattern = slice_chars(line, p + 1, q);
    let marks = marks_from_chars(&pattern);
    Some((word, marks))
}

} // verus!
