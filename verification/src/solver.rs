//! The solving session: the possible answers as a bitset, the minimax
//! choice of the next guess, filtering by feedback, and simulated games.
use vstd::prelude::*;

use crate::corpus::{sorted_words, Corpus};
use crate::error::SolverError;
use crate::types::{
    is_valid_packed, lemma_score_bound, lemma_score_self_is_solved, lemma_solved_iff_same_letters,
    lemma_valid_letters_determine_word, score_code, score_guess, slots, Feedback, Word,
    FEEDBACK_STATES,
};

verus! {

// ---------------------------------------------------------------------------
// Bit sets of answers
// ---------------------------------------------------------------------------

/// Bit `i` of a bit set stored in 64-bit blocks.
pub open spec fn bit_of(words: Seq<u64>, i: int) -> bool {
    (words[i / 64] >> ((i % 64) as u64)) & 1u64 == 1u64
}

/// Number of set flags among the first `n`.
pub open spec fn count_true(s: Seq<bool>, n: int) -> nat
    decreases n,
{
    if n <= 0 {
        0
    } else {
        count_true(s, n - 1) + if s[n - 1] {
            1nat
        } else {
            0nat
        }
    }
}

/// Indices below `n` of the set flags, in increasing order.
pub open spec fn true_indices(s: Seq<bool>, n: int) -> Seq<usize>
    decreases n,
{
    if n <= 0 {
        Seq::empty()
    } else if s[n - 1] {
        true_indices(s, n - 1).push((n - 1) as usize)
    } else {
        true_indices(s, n - 1)
    }
}

proof fn lemma_bit_set_clear(w: u64, k: u64, m: u64)
    requires
        k < 64,
        m < 64,
    ensures
        ((w | (1u64 << k)) >> m) & 1u64 == if m == k {
            1u64
        } else {
            (w >> m) & 1u64
        },
        ((w & !(1u64 << k)) >> m) & 1u64 == if m == k {
            0u64
        } else {
            (w >> m) & 1u64
        },
{
    assert(k < 64 && m < 64 ==> ((w | (1u64 << k)) >> m) & 1u64 == if m == k {
        1u64
    } else {
        (w >> m) & 1u64
    }) by (bit_vector);
    assert(k < 64 && m < 64 ==> ((w & !(1u64 << k)) >> m) & 1u64 == if m == k {
        0u64
    } else {
        (w >> m) & 1u64
    }) by (bit_vector);
}

proof fn lemma_full_and_low_masks(t: u64, m: u64)
    requires
        0 < t < 64,
        m < 64,
    ensures
        (0xffff_ffff_ffff_ffffu64 >> m) & 1u64 == 1u64,
        (((1u64 << t) - 1u64) as u64 >> m) & 1u64 == if m < t {
            1u64
        } else {
            0u64
        },
{
    assert(m < 64 ==> (0xffff_ffff_ffff_ffffu64 >> m) & 1u64 == 1u64) by (bit_vector);
    assert(0 < t < 64 && m < 64 ==> (((1u64 << t) - 1u64) as u64 >> m) & 1u64 == if m < t {
        1u64
    } else {
        0u64
    }) by (bit_vector);
}

/// Whether bit `index` is set.
fn get_bit(words: &[u64], index: usize) -> (b: bool)
    requires
        index / 64 < words@.len(),
    ensures
        b == bit_of(words@, index as int),
{
    (words[index / 64] >> ((index % 64) as u64)) & 1u64 == 1u64
}

/// Sets or clears bit `index`, leaving every other bit as it was.
fn set_bit(words: &mut Vec<u64>, index: usize, enabled: bool)
    requires
        index / 64 < old(words)@.len(),
    ensures
        final(words)@.len() == old(words)@.len(),
        forall|j: int|
            0 <= j < 64 * old(words)@.len() ==> #[trigger] bit_of(final(words)@, j) == if j
                == index {
                enabled
            } else {
                bit_of(old(words)@, j)
            },
{
    let mask = 1u64 << ((index % 64) as u64);
    let slot = index / 64;
    let old_block = words[slot];
    let new_block = if enabled {
        old_block | mask
    } else {
        old_block & !mask
    };
    words.set(slot, new_block);
    proof {
        assert forall|j: int| 0 <= j < 64 * old(words)@.len() implies #[trigger] bit_of(
            words@,
            j,
        ) == if j == index {
            enabled
        } else {
            bit_of(old(words)@, j)
        } by {
            let k = (index % 64) as u64;
            let m = (j % 64) as u64;
            lemma_bit_set_clear(old_block, k, m);
            if j / 64 != slot as int {
                assert(j != index);
            } else if j != index {
                assert(m != k);
            }
        }
    }
}

// ---------------------------------------------------------------------------
// The solver
// ---------------------------------------------------------------------------

/// One round of a simulated game.
#[derive(Clone, Debug)]
pub struct SolveStep {
    pub guess: Word,
    pub feedback: Feedback,
    pub remaining_answers: usize,
}

/// The rounds a simulated game took to find its answer.
#[derive(Clone, Debug)]
pub struct SolveTrace {
    pub answer: Word,
    pub steps: Vec<SolveStep>,
}

/// Where a session stands after feedback.
#[derive(Clone, Copy, Debug, PartialEq, Eq, Structural)]
pub enum SolverStatus {
    InProgress,
    Solved(Word),
}

/// A solving session over a corpus: the answers still possible, the guess
/// waiting for feedback, the opening guess (until the first feedback), and
/// the answer once found.
#[derive(Debug)]
pub struct OfficialSolver<'a> {
    corpus: &'a Corpus,
    remaining: Vec<u64>,
    remaining_count: usize,
    pending_guess: Option<usize>,
    cached_guess: Option<usize>,
    solved_word: Option<Word>,
}

/// The best-ranked guess leaves the smallest largest group of any guess;
/// among guesses with the same largest group it leaves the smallest sum of
/// squared group sizes; among those that tie on both it is a possible answer
/// whenever any of them is; and among full ties it has the lowest index.
pub proof fn lemma_best_guess_minimizes(c: Corpus, alive: Seq<bool>, r: int, g: int)
    requires
        is_best_guess(c, alive, r),
        0 <= g < c.num_guesses(),
    ensures
        ({
            let list = true_indices(alive, alive.len() as int);
            &&& worst_bucket(c, r, list) <= worst_bucket(c, g, list)
            &&& worst_bucket(c, r, list) == worst_bucket(c, g, list) ==> bucket_sq_sum(c, r, list)
                <= bucket_sq_sum(c, g, list)
            &&& worst_bucket(c, r, list) == worst_bucket(c, g, list) && bucket_sq_sum(c, r, list)
                == bucket_sq_sum(c, g, list) && prefers(c, alive, g) ==> prefers(c, alive, r)
            &&& worst_bucket(c, r, list) == worst_bucket(c, g, list) && bucket_sq_sum(c, r, list)
                == bucket_sq_sum(c, g, list) && prefers(c, alive, g) == prefers(c, alive, r) ==> r
                <= g
        }),
{
    if g != r {
        assert(ranks_before(c, alive, r, g));
    }
}

impl<'a> OfficialSolver<'a> {
    /// The corpus the session plays on.
    pub closed spec fn corpus_of(&self) -> Corpus {
        *self.corpus
    }

    /// For each answer, whether it is still possible.
    pub closed spec fn alive(&self) -> Seq<bool> {
        Seq::new(
            self.corpus.num_answers() as nat,
            |a: int| bit_of(self.remaining@, a),
        )
    }

    /// The guess waiting for feedback.
    pub closed spec fn pending(&self) -> Option<usize> {
        self.pending_guess
    }

    /// The guess to play next without searching (the opening guess, until
    /// feedback arrives).
    pub closed spec fn cached(&self) -> Option<usize> {
        self.cached_guess
    }

    /// The answer, once feedback has solved the game.
    pub closed spec fn solved(&self) -> Option<Word> {
        self.solved_word
    }

    /// Number of answers still possible.
    pub open spec fn alive_count(&self) -> nat {
        count_true(self.alive(), self.alive().len() as int)
    }

    /// The indices of the answers still possible, in increasing order.
    pub open spec fn alive_answers(&self) -> Seq<usize> {
        true_indices(self.alive(), self.alive().len() as int)
    }

    /// The session's internal consistency.
    pub closed spec fn inv(&self) -> bool {
        &&& self.corpus.wf()
        &&& self.remaining@.len() == (self.corpus.num_answers() + 63) / 64
        &&& self.remaining_count == self.alive_count()
        &&& self.pending_guess matches Some(g) ==> g < self.corpus.num_guesses()
        &&& self.cached_guess matches Some(g) ==> g < self.corpus.num_guesses()
    }
}


/// Number of entries among the first `k` of `list` that satisfy `p`.
pub open spec fn count_where(list: Seq<usize>, p: spec_fn(usize) -> bool, k: int) -> nat
    decreases k,
{
    if k <= 0 {
        0
    } else {
        count_where(list, p, k - 1) + if p(list[k - 1]) {
            1nat
        } else {
            0nat
        }
    }
}

/// The flags that stay set when each set flag is kept only if `p` holds.
pub open spec fn keep_where(s: Seq<bool>, p: spec_fn(usize) -> bool) -> Seq<bool> {
    Seq::new(s.len(), |a: int| s[a] && p(a as usize))
}

proof fn lemma_true_indices(s: Seq<bool>, n: int)
    requires
        0 <= n <= s.len(),
        s.len() <= usize::MAX,
    ensures
        true_indices(s, n).len() == count_true(s, n),
        forall|i: int|
            0 <= i < true_indices(s, n).len() ==> (#[trigger] true_indices(s, n)[i] as int) < n
                && s[true_indices(s, n)[i] as int],
        forall|i: int, j: int|
            0 <= i < j < true_indices(s, n).len() ==> #[trigger] true_indices(s, n)[i]
                < #[trigger] true_indices(s, n)[j],
        forall|x: int|
            0 <= x < n && s[x] ==> exists|i: int|
                0 <= i < true_indices(s, n).len() && #[trigger] true_indices(s, n)[i] == x,
    decreases n,
{
    if n > 0 {
        lemma_true_indices(s, n - 1);
        let t = true_indices(s, n - 1);
        if s[n - 1] {
            assert forall|x: int| 0 <= x < n && s[x] implies exists|i: int|
                0 <= i < true_indices(s, n).len() && #[trigger] true_indices(s, n)[i] == x by {
                if x == n - 1 {
                    assert(true_indices(s, n)[t.len() as int] == x);
                } else {
                    let i = choose|i: int| 0 <= i < t.len() && #[trigger] t[i] == x;
                    assert(true_indices(s, n)[i] == x);
                }
            }
        }
    }
}

proof fn lemma_count_where_agree(l1: Seq<usize>, l2: Seq<usize>, p: spec_fn(usize) -> bool, k: int)
    requires
        0 <= k <= l1.len(),
        k <= l2.len(),
        forall|i: int| 0 <= i < k ==> l1[i] == l2[i],
    ensures
        count_where(l1, p, k) == count_where(l2, p, k),
    decreases k,
{
    if k > 0 {
        lemma_count_where_agree(l1, l2, p, k - 1);
    }
}

proof fn lemma_count_where_bound(l: Seq<usize>, p: spec_fn(usize) -> bool, k: int)
    requires
        0 <= k,
    ensures
        count_where(l, p, k) <= k,
    decreases k,
{
    if k > 0 {
        lemma_count_where_bound(l, p, k - 1);
    }
}

/// Keeping the set flags that satisfy `p` keeps as many flags as there are
/// set indices that satisfy `p`.
proof fn lemma_count_keep_where(s: Seq<bool>, p: spec_fn(usize) -> bool, n: int)
    requires
        0 <= n <= s.len(),
        s.len() <= usize::MAX,
    ensures
        count_true(keep_where(s, p), n) == count_where(
            true_indices(s, n),
            p,
            true_indices(s, n).len() as int,
        ),
    decreases n,
{
    if n > 0 {
        lemma_count_keep_where(s, p, n - 1);
        let t = true_indices(s, n - 1);
        if s[n - 1] {
            let t2 = t.push((n - 1) as usize);
            lemma_count_where_agree(t2, t, p, t.len() as int);
        }
    }
}

proof fn lemma_count_true_bound(s: Seq<bool>, n: int)
    requires
        0 <= n,
    ensures
        count_true(s, n) <= n,
    decreases n,
{
    if n > 0 {
        lemma_count_true_bound(s, n - 1);
    }
}

/// What `issue_guess(guess)` does to a session `s0`, leaving `s1` and
/// returning `r`: when the word is found among the guesses, it becomes the
/// guess waiting for feedback and is returned; otherwise `UnknownGuess`
/// with nothing changed (for a sorted guess list, exactly when the word is
/// not a guess). Nothing else changes.
pub open spec fn issues(s0: OfficialSolver, s1: OfficialSolver, guess: Word, r: Result<Word, SolverError>) -> bool {
    let c = s0.corpus_of();
    &&& s1.inv()
    &&& s1.corpus_of() == c
    &&& s1.alive() == s0.alive()
    &&& s1.cached() == s0.cached()
    &&& s1.solved() == s0.solved()
    &&& match r {
        Ok(w) => {
            &&& w == guess
            &&& s1.pending() matches Some(g) && g < c.num_guesses() && c.guess_list()[g as int] == guess
        },
        Err(e) => {
            &&& e is UnknownGuess
            &&& s1.pending() == s0.pending()
            &&& sorted_words(c.guess_list()) ==> !c.guess_list().contains(guess)
        },
    }
}

impl<'a> OfficialSolver<'a> {
    /// A fresh session: every answer possible, the corpus's opening guess
    /// ready, nothing pending or solved.
    pub fn try_new(corpus: &'a Corpus) -> (r: Result<Self, SolverError>)
        requires
            corpus.wf(),
        ensures
            r matches Ok(s) && {
                &&& s.inv()
                &&& s.corpus_of() == *corpus
                &&& s.alive() == Seq::new(corpus.num_answers() as nat, |a: int| true)
                &&& s.alive_count() == corpus.num_answers()
                &&& s.pending() is None
                &&& s.cached() == Some(corpus.opening() as usize)
                &&& s.solved() is None
            },
    {
        Ok(Self::fresh(corpus))
    }

    fn fresh(corpus: &'a Corpus) -> (s: Self)
        requires
            corpus.wf(),
        ensures
            s.inv(),
            s.corpus_of() == *corpus,
            s.alive() == Seq::new(corpus.num_answers() as nat, |a: int| true),
            s.alive_count() == corpus.num_answers(),
            s.pending() is None,
            s.cached() == Some(corpus.opening() as usize),
            s.solved() is None,
    {
        let answer_count = corpus.answer_count();
        let block_count = (answer_count + 63) / 64;
        let mut remaining: Vec<u64> = vec![0xffff_ffff_ffff_ffffu64; block_count];
        let trailing = answer_count % 64;
        if trailing != 0 {
            let last_index = remaining.len() - 1;
            let shift = trailing as u64;
            assert(0 < shift < 64 ==> (1u64 << shift) >= 1u64) by (bit_vector);
            remaining.set(last_index, (1u64 << shift) - 1u64);
        }
        let ghost all = Seq::new(corpus.num_answers() as nat, |a: int| true);
        let solver = Self {
            corpus,
            remaining,
            remaining_count: answer_count,
            pending_guess: None,
            cached_guess: Some(corpus.first_guess_index()),
            solved_word: None,
        };
        proof {
            assert forall|a: int| 0 <= a < answer_count implies bit_of(solver.remaining@, a) by {
                let m = (a % 64) as u64;
                if trailing != 0 && a / 64 == block_count - 1 {
                    lemma_full_and_low_masks(trailing as u64, m);
                } else {
                    lemma_full_and_low_masks(1, m);
                }
            }
            assert(solver.alive() =~= all);
            assert forall|n: int| 0 <= n <= all.len() implies count_true(all, n) == n by {
                lemma_count_true_all(all, n);
            }
        }
        solver
    }

    /// A fresh session (see `try_new`).
    pub fn new(corpus: &'a Corpus) -> (s: Self)
        requires
            corpus.wf(),
        ensures
            s.inv(),
            s.corpus_of() == *corpus,
            s.alive() == Seq::new(corpus.num_answers() as nat, |a: int| true),
            s.alive_count() == corpus.num_answers(),
            s.pending() is None,
            s.cached() == Some(corpus.opening() as usize),
            s.solved() is None,
    {
        match Self::try_new(corpus) {
            Ok(solver) => solver,
            Err(_) => Self::fresh(corpus),
        }
    }

    /// Starts the session over on the same corpus.
    pub fn reset(&mut self)
        requires
            old(self).inv(),
        ensures
            final(self).inv(),
            final(self).corpus_of() == old(self).corpus_of(),
            final(self).alive() == Seq::new(
                old(self).corpus_of().num_answers() as nat,
                |a: int| true,
            ),
            final(self).pending() is None,
            final(self).cached() == Some(old(self).corpus_of().opening() as usize),
            final(self).solved() is None,
    {
        *self = Self::new(self.corpus);
    }

    /// Number of answers still possible.
    pub fn remaining_answers(&self) -> (n: usize)
        requires
            self.inv(),
        ensures
            n == self.alive_count(),
    {
        self.remaining_count
    }

    /// The indices of the answers still possible, in increasing order.
    fn iter_remaining_answers(&self) -> (r: Vec<usize>)
        requires
            self.inv(),
        ensures
            r@ == self.alive_answers(),
    {
        let answer_count = self.corpus.answer_count();
        let mut list: Vec<usize> = Vec::new();
        let mut index: usize = 0;
        while index < answer_count
            invariant
                self.inv(),
                answer_count == self.corpus_of().num_answers(),
                index <= answer_count,
                list@ == true_indices(self.alive(), index as int),
            decreases answer_count - index,
        {
            if get_bit(self.remaining.as_slice(), index) {
                list.push(index);
            }
            index += 1;
        }
        list
    }

    /// The words of the answers still possible, in answer order.
    pub fn remaining_candidates(&self) -> (r: Result<Vec<Word>, SolverError>)
        requires
            self.inv(),
        ensures
            r matches Ok(words) && words@.len() == self.alive_answers().len() && forall|i: int|
                0 <= i < words@.len() ==> #[trigger] words@[i] == self.corpus_of().answer_word_at(
                    self.alive_answers()[i] as int,
                ),
    {
        let list = self.iter_remaining_answers();
        proof {
            lemma_true_indices(self.alive(), self.alive().len() as int);
        }
        let mut words: Vec<Word> = Vec::new();
        let mut index: usize = 0;
        while index < list.len()
            invariant
                self.inv(),
                list@ == self.alive_answers(),
                forall|i: int|
                    0 <= i < list@.len() ==> (#[trigger] list@[i] as int) < self.corpus_of().num_answers(),
                index <= list@.len(),
                words@.len() == index,
                forall|i: int|
                    0 <= i < index ==> #[trigger] words@[i] == self.corpus_of().answer_word_at(
                        list@[i] as int,
                    ),
            decreases list@.len() - index,
        {
            words.push(self.corpus.answer_word(list[index]));
            index += 1;
        }
        Ok(words)
    }

    /// The guess waiting for feedback, if any.
    pub fn pending_guess(&self) -> (r: Result<Option<Word>, SolverError>)
        requires
            self.inv(),
        ensures
            r matches Ok(w) && match self.pending() {
                Some(g) => w == Some(self.corpus_of().guess_list()[g as int]),
                None => w is None,
            },
    {
        match self.pending_guess {
            None => Ok(None),
            Some(guess_index) => Ok(Some(self.corpus.guess_word(guess_index))),
        }
    }

    /// Records guess `guess_index` as waiting for feedback.
    fn issue_guess_index(&mut self, guess_index: usize) -> (w: Word)
        requires
            old(self).inv(),
            guess_index < old(self).corpus_of().num_guesses(),
        ensures
            final(self).inv(),
            final(self).corpus_of() == old(self).corpus_of(),
            final(self).alive() == old(self).alive(),
            final(self).pending() == Some(guess_index),
            final(self).cached() == old(self).cached(),
            final(self).solved() == old(self).solved(),
            w == old(self).corpus_of().guess_list()[guess_index as int],
    {
        self.pending_guess = Some(guess_index);
        self.corpus.guess_word(guess_index)
    }

    /// Plays `guess` instead of the solver's suggestion: it becomes the
    /// guess waiting for feedback. Fails with `UnknownGuess` when the word is
    /// not found among the guesses, which for a sorted guess list means it is
    /// not one of them.
    pub fn issue_guess(&mut self, guess: Word) -> (r: Result<Word, SolverError>)
        requires
            old(self).inv(),
        ensures
            issues(*old(self), *final(self), guess, r),
    {
        let guess_index = match self.corpus.find_guess(guess) {
            Some(guess_index) => guess_index,
            None => return Err(SolverError::UnknownGuess),
        };
        Ok(self.issue_guess_index(guess_index))
    }
}

proof fn lemma_count_true_all(s: Seq<bool>, n: int)
    requires
        0 <= n <= s.len(),
        forall|a: int| 0 <= a < s.len() ==> s[a],
    ensures
        count_true(s, n) == n,
    decreases n,
{
    if n > 0 {
        lemma_count_true_all(s, n - 1);
    }
}


/// Answers (given as indices) on which guess `g` shows feedback `code`.
pub open spec fn code_is(c: Corpus, g: int, code: u8) -> spec_fn(usize) -> bool {
    |a: usize| c.feedback_at(g, a as int) == code
}

/// What `apply_feedback(feedback)` does to a session `s0`, leaving `s1` and
/// returning `r`. Once solved: `AlreadySolved`, nothing changed. With no
/// guess waiting: `GuessNotIssued`, nothing changed. Otherwise the waiting
/// guess is dropped; if no possible answer agrees with the feedback:
/// `Contradiction`, the rest kept. Else the possible answers shrink to those
/// that agree, the opening guess is dropped, and all-exact feedback solves
/// the game with the guess's word.
pub open spec fn applies(
    s0: OfficialSolver,
    s1: OfficialSolver,
    feedback: Feedback,
    r: Result<SolverStatus, SolverError>,
) -> bool {
    &&& s1.inv()
    &&& s1.corpus_of() == s0.corpus_of()
    &&& s0.solved() is Some ==> {
        &&& r matches Err(e) && e is AlreadySolved
        &&& s1.alive() == s0.alive()
        &&& s1.pending() == s0.pending()
        &&& s1.cached() == s0.cached()
        &&& s1.solved() == s0.solved()
    }
    &&& s0.solved() is None && s0.pending() is None ==> {
        &&& r matches Err(e) && e is GuessNotIssued
        &&& s1.alive() == s0.alive()
        &&& s1.pending() is None
        &&& s1.cached() == s0.cached()
        &&& s1.solved() is None
    }
    &&& s0.solved() is None ==> (s0.pending() matches Some(g) ==> {
        let kept = s0.filtered(g as int, feedback.0);
        &&& s1.pending() is None
        &&& if count_true(kept, kept.len() as int) == 0 {
            &&& r matches Err(e) && e is Contradiction
            &&& s1.alive() == s0.alive()
            &&& s1.cached() == s0.cached()
            &&& s1.solved() is None
        } else {
            &&& s1.alive() == kept
            &&& s1.cached() is None
            &&& if feedback.0 == 242 {
                let w = s0.corpus_of().guess_list()[g as int];
                &&& r == Ok::<SolverStatus, SolverError>(SolverStatus::Solved(w))
                &&& s1.solved() == Some(w)
            } else {
                &&& r == Ok::<SolverStatus, SolverError>(SolverStatus::InProgress)
                &&& s1.solved() is None
            }
        }
    })
}

impl<'a> OfficialSolver<'a> {
    /// The answers still possible after guess `g` showed feedback `code`.
    pub open spec fn filtered(&self, g: int, code: u8) -> Seq<bool> {
        keep_where(self.alive(), code_is(self.corpus_of(), g, code))
    }

    /// Takes the feedback shown for the pending guess and keeps the answers
    /// that agree with it (see `applies`).
    pub fn apply_feedback(&mut self, feedback: Feedback) -> (r: Result<SolverStatus, SolverError>)
        requires
            old(self).inv(),
        ensures
            applies(*old(self), *final(self), feedback, r),
    {
        if self.solved_word.is_some() {
            return Err(SolverError::AlreadySolved);
        }
        let guess_index = match self.pending_guess {
            Some(guess_index) => guess_index,
            None => return Err(SolverError::GuessNotIssued),
        };
        self.pending_guess = None;

        let corpus = self.corpus;
        let ghost c = *corpus;
        let ghost p = code_is(c, guess_index as int, feedback.0);
        let ghost alive = self.alive();
        let ghost kept = keep_where(alive, p);
        let answer_count = corpus.answer_count();
        let list = self.iter_remaining_answers();
        proof {
            lemma_true_indices(alive, alive.len() as int);
        }
        let mut next_remaining: Vec<u64> = vec![0u64; self.remaining.len()];
        proof {
            lemma_blocks_cover(answer_count as int);
            assert forall|j: int| 0 <= j < answer_count implies !bit_of(next_remaining@, j) by {
                let m = (j % 64) as u64;
                assert((0u64 >> m) & 1u64 == 0u64) by (bit_vector);
                assert(next_remaining@[j / 64] == 0u64);
            }
        }
        let mut next_count: usize = 0;
        let mut index: usize = 0;
        while index < list.len()
            invariant
                c.wf(),
                c == *corpus,
                p == code_is(c, guess_index as int, feedback.0),
                answer_count == c.num_answers(),
                guess_index < c.num_guesses(),
                alive.len() == answer_count,
                list@ == true_indices(alive, answer_count as int),
                list@.len() == count_true(alive, answer_count as int),
                forall|i: int|
                    0 <= i < list@.len() ==> (#[trigger] list@[i] as int) < answer_count && alive[list@[i] as int],
                forall|i: int, j: int|
                    0 <= i < j < list@.len() ==> #[trigger] list@[i] < #[trigger] list@[j],
                next_remaining@.len() == (answer_count + 63) / 64,
                64 * next_remaining@.len() >= answer_count,
                index <= list@.len(),
                next_count == count_where(list@, p, index as int),
                forall|k: int|
                    0 <= k < index ==> bit_of(next_remaining@, #[trigger] list@[k] as int) == p(
                        list@[k],
                    ),
                forall|j: int|
                    0 <= j < answer_count && (forall|k: int| 0 <= k < index ==> #[trigger] list@[k]
                        != j) ==> !bit_of(next_remaining@, j),
            decreases list@.len() - index,
        {
            let answer_index = list[index];
            let matches = corpus.feedback(guess_index, answer_index).code() == feedback.code();
            let ghost before = next_remaining@;
            set_bit(&mut next_remaining, answer_index, matches);
            proof {
                lemma_count_where_bound(list@, p, index as int);
                assert forall|k: int| 0 <= k < index + 1 implies bit_of(
                    next_remaining@,
                    #[trigger] list@[k] as int,
                ) == p(list@[k]) by {
                    let j = list@[k] as int;
                    assert(j < answer_count);
                    assert(bit_of(next_remaining@, j) == if j == answer_index {
                        matches
                    } else {
                        bit_of(before, j)
                    });
                    if k < index {
                        assert(list@[k] < list@[index as int]);
                    } else {
                        assert(matches == (c.feedback_at(guess_index as int, j) == feedback.0));
                        assert(p(list@[k]) == (c.feedback_at(guess_index as int, j) == feedback.0));
                    }
                }
                assert forall|j: int|
                    0 <= j < answer_count && (forall|k: int| 0 <= k < index + 1 ==> #[trigger] list@[k]
                        != j) implies !bit_of(next_remaining@, j) by {
                    assert(list@[index as int] != j);
                }
            }
            if matches {
                next_count += 1;
            }
            index += 1;
        }
        proof {
            lemma_count_keep_where(alive, p, alive.len() as int);
            assert forall|j: int| 0 <= j < answer_count implies bit_of(next_remaining@, j)
                == kept[j] by {
                if alive[j] {
                    let k = choose|k: int|
                        0 <= k < list@.len() && #[trigger] true_indices(alive, answer_count as int)[k]
                            == j;
                    assert(list@[k] == j);
                } else {
                    assert forall|k: int| 0 <= k < list@.len() implies #[trigger] list@[k] != j by {}
                }
            }
        }

        if next_count == 0 {
            return Err(SolverError::Contradiction);
        }

        self.remaining = next_remaining;
        self.remaining_count = next_count;
        self.cached_guess = None;
        assert(self.alive() =~= kept);

        if feedback.is_solved() {
            let solved_word = corpus.guess_word(guess_index);
            self.solved_word = Some(solved_word);
            return Ok(SolverStatus::Solved(solved_word));
        }
        Ok(SolverStatus::InProgress)
    }
}


proof fn lemma_blocks_cover(n: int)
    requires
        0 <= n,
    ensures
        64 * ((n + 63) / 64) >= n,
        n > 0 ==> (n + 63) / 64 >= 1,
        forall|j: int| 0 <= j < n ==> #[trigger] (j / 64) < (n + 63) / 64,
{
    assert forall|j: int| 0 <= j < n implies #[trigger] (j / 64) < (n + 63) / 64 by {
        assert(j / 64 < (n + 63) / 64) by (nonlinear_arith)
            requires
                0 <= j < n,
        ;
    }
    assert(64 * ((n + 63) / 64) >= n) by (nonlinear_arith)
        requires
            0 <= n,
    ;
}


// ---------------------------------------------------------------------------
// Choosing a guess
// ---------------------------------------------------------------------------

/// Number of the first `k` listed answers on which guess `g` shows `code`.
pub open spec fn bucket(c: Corpus, g: int, list: Seq<usize>, code: int, k: int) -> nat
    decreases k,
{
    if k <= 0 {
        0
    } else {
        bucket(c, g, list, code, k - 1) + if c.feedback_at(g, list[k - 1] as int) == code {
            1nat
        } else {
            0nat
        }
    }
}

/// Number of listed answers on which guess `g` shows `code`.
pub open spec fn bucket_size(c: Corpus, g: int, list: Seq<usize>, code: int) -> nat {
    bucket(c, g, list, code, list.len() as int)
}

/// The largest bucket among feedback codes below `k`.
pub open spec fn worst_upto(c: Corpus, g: int, list: Seq<usize>, k: int) -> nat
    decreases k,
{
    if k <= 0 {
        0
    } else {
        let w = worst_upto(c, g, list, k - 1);
        let b = bucket_size(c, g, list, k - 1);
        if b > w {
            b
        } else {
            w
        }
    }
}

/// The sum of squared bucket sizes among feedback codes below `k`.
pub open spec fn sum_sq_upto(c: Corpus, g: int, list: Seq<usize>, k: int) -> nat
    decreases k,
{
    if k <= 0 {
        0
    } else {
        sum_sq_upto(c, g, list, k - 1) + bucket_size(c, g, list, k - 1) * bucket_size(
            c,
            g,
            list,
            k - 1,
        )
    }
}

/// The size of the largest group of listed answers that guess `g` leaves
/// together.
pub open spec fn worst_bucket(c: Corpus, g: int, list: Seq<usize>) -> nat {
    worst_upto(c, g, list, 243)
}

/// The sum of squared group sizes guess `g` splits the listed answers into
/// (proportional to the expected number left).
pub open spec fn bucket_sq_sum(c: Corpus, g: int, list: Seq<usize>) -> nat {
    sum_sq_upto(c, g, list, 243)
}

/// Guess `g` is itself an answer that is still possible.
pub open spec fn prefers(c: Corpus, alive: Seq<bool>, g: int) -> bool {
    exists|a: int| 0 <= a < c.num_answers() && c.answer_list()[a] == g && #[trigger] alive[a]
}

/// Lexicographic order on (worst bucket, squared sum, not a possible
/// answer, index).
pub open spec fn key_lt(w1: int, s1: int, p1: bool, i1: int, w2: int, s2: int, p2: bool, i2: int) -> bool {
    ||| w1 < w2
    ||| (w1 == w2 && s1 < s2)
    ||| (w1 == w2 && s1 == s2 && p1 && !p2)
    ||| (w1 == w2 && s1 == s2 && p1 == p2 && i1 < i2)
}

/// The order in which the solver ranks guesses: smaller largest group
/// first, then smaller squared sum, then possible answers, then lower index.
pub open spec fn ranks_before(c: Corpus, alive: Seq<bool>, g1: int, g2: int) -> bool {
    let list = true_indices(alive, alive.len() as int);
    key_lt(
        worst_bucket(c, g1, list) as int,
        bucket_sq_sum(c, g1, list) as int,
        prefers(c, alive, g1),
        g1,
        worst_bucket(c, g2, list) as int,
        bucket_sq_sum(c, g2, list) as int,
        prefers(c, alive, g2),
        g2,
    )
}

/// Guess `r` ranks before every other guess.
pub open spec fn is_best_guess(c: Corpus, alive: Seq<bool>, r: int) -> bool {
    &&& 0 <= r < c.num_guesses()
    &&& forall|g: int| 0 <= g < c.num_guesses() && g != r ==> #[trigger] ranks_before(c, alive, r, g)
}

/// Every guess shows a code below 243 on every listed answer.
pub open spec fn codes_in_range(c: Corpus, list: Seq<usize>) -> bool {
    forall|g: int, i: int|
        0 <= g < c.num_guesses() && 0 <= i < list.len() ==> #[trigger] c.feedback_at(
            g,
            list[i] as int,
        ) < 243
}

/// Number of the first `k` listed answers on which guess `g` shows a code
/// below `limit`.
pub open spec fn count_below(c: Corpus, g: int, list: Seq<usize>, limit: int, k: int) -> nat
    decreases k,
{
    if k <= 0 {
        0
    } else {
        count_below(c, g, list, limit, k - 1) + if (c.feedback_at(g, list[k - 1] as int) as int)
            < limit {
            1nat
        } else {
            0nat
        }
    }
}

/// Sum of the buckets for codes below `limit` over the first `k` answers.
pub open spec fn bucket_total(c: Corpus, g: int, list: Seq<usize>, limit: int, k: int) -> nat
    decreases limit,
{
    if limit <= 0 {
        0
    } else {
        bucket_total(c, g, list, limit - 1, k) + bucket(c, g, list, limit - 1, k)
    }
}

proof fn lemma_count_below_step(c: Corpus, g: int, list: Seq<usize>, limit: int, k: int)
    requires
        limit >= 1,
        k >= 0,
    ensures
        count_below(c, g, list, limit, k) == count_below(c, g, list, limit - 1, k) + bucket(
            c,
            g,
            list,
            limit - 1,
            k,
        ),
    decreases k,
{
    if k > 0 {
        lemma_count_below_step(c, g, list, limit, k - 1);
    }
}

proof fn lemma_bucket_total(c: Corpus, g: int, list: Seq<usize>, limit: int, k: int)
    requires
        limit >= 0,
        k >= 0,
    ensures
        bucket_total(c, g, list, limit, k) == count_below(c, g, list, limit, k),
    decreases limit,
{
    if limit > 0 {
        lemma_bucket_total(c, g, list, limit - 1, k);
        lemma_count_below_step(c, g, list, limit, k);
    } else {
        lemma_count_below_zero(c, g, list, k);
    }
}

proof fn lemma_count_below_zero(c: Corpus, g: int, list: Seq<usize>, k: int)
    requires
        k >= 0,
    ensures
        count_below(c, g, list, 0, k) == 0,
    decreases k,
{
    if k > 0 {
        lemma_count_below_zero(c, g, list, k - 1);
    }
}

proof fn lemma_count_below_all(c: Corpus, g: int, list: Seq<usize>, k: int)
    requires
        0 <= k <= list.len(),
        forall|i: int| 0 <= i < list.len() ==> (c.feedback_at(g, #[trigger] list[i] as int) as int) < 243,
    ensures
        count_below(c, g, list, 243, k) == k,
    decreases k,
{
    if k > 0 {
        lemma_count_below_all(c, g, list, k - 1);
    }
}

proof fn lemma_bucket_bound(c: Corpus, g: int, list: Seq<usize>, code: int, k: int)
    requires
        k >= 0,
    ensures
        bucket(c, g, list, code, k) <= k,
    decreases k,
{
    if k > 0 {
        lemma_bucket_bound(c, g, list, code, k - 1);
    }
}

/// A guess's rank: largest bucket, squared sum, whether it is a possible
/// answer, and its index.
#[derive(Clone, Copy, Debug, PartialEq, Eq)]
struct GuessScore {
    worst_bucket: u16,
    expected_bucket_sum: u32,
    prefer_answer: bool,
    guess_index: usize,
}

impl GuessScore {
    /// Whether this score ranks strictly before `other`.
    fn better_than(self, other: Self) -> (b: bool)
        ensures
            b == (self.worst_bucket < other.worst_bucket || (self.worst_bucket
                == other.worst_bucket && self.expected_bucket_sum < other.expected_bucket_sum) || (
            self.worst_bucket == other.worst_bucket && self.expected_bucket_sum
                == other.expected_bucket_sum && self.prefer_answer && !other.prefer_answer) || (
            self.worst_bucket == other.worst_bucket && self.expected_bucket_sum
                == other.expected_bucket_sum && self.prefer_answer == other.prefer_answer
                && self.guess_index < other.guess_index)),
    {
        if self.worst_bucket != other.worst_bucket {
            return self.worst_bucket < other.worst_bucket;
        }
        if self.expected_bucket_sum != other.expected_bucket_sum {
            return self.expected_bucket_sum < other.expected_bucket_sum;
        }
        if self.prefer_answer != other.prefer_answer {
            return self.prefer_answer;
        }
        self.guess_index < other.guess_index
    }
}

impl<'a> OfficialSolver<'a> {
    /// Whether guess `guess_index` is an answer that is still possible.
    /// Exact when the guess list is sorted (see `Corpus::find_guess`).
    fn guess_is_remaining_answer(&self, guess_index: usize) -> (b: bool)
        requires
            self.inv(),
            guess_index < self.corpus_of().num_guesses(),
        ensures
            sorted_words(self.corpus_of().guess_list()) ==> b == prefers(
                self.corpus_of(),
                self.alive(),
                guess_index as int,
            ),
    {
        let corpus = self.corpus;
        if !corpus.is_answer_guess(guess_index) {
            return false;
        }
        let word = corpus.guess_word(guess_index);
        let ghost c = *corpus;
        proof {
            lemma_blocks_cover(c.num_answers());
        }
        match corpus.find_answer(word) {
            Some(answer_index) => {
                let b = get_bit(self.remaining.as_slice(), answer_index);
                proof {
                    if sorted_words(c.guess_list()) {
                        let g2 = c.answer_list()[answer_index as int] as int;
                        assert(c.answer_list()[answer_index as int] < c.num_guesses());
                        if g2 != guess_index {
                            if g2 < guess_index {
                                assert(c.guess_list()[g2].0 < c.guess_list()[guess_index as int].0);
                            } else {
                                assert(c.guess_list()[guess_index as int].0 < c.guess_list()[g2].0);
                            }
                        }
                        if prefers(c, self.alive(), guess_index as int) {
                            let a = choose|a: int|
                                0 <= a < c.num_answers() && c.answer_list()[a] == guess_index
                                    && #[trigger] self.alive()[a];
                            assert(c.answer_list()[a] == c.answer_list()[answer_index as int]);
                        }
                        if b {
                            assert(self.alive()[answer_index as int]);
                        }
                    }
                }
                b
            },
            None => {
                proof {
                    if sorted_words(c.guess_list()) {
                        let k = choose|k: int|
                            0 <= k < c.answer_list().len() && c.answer_list()[k] == guess_index as u16;
                        assert(c.answer_list()[k] < c.num_guesses());
                        assert(c.answer_word_at(k) == word);
                    }
                }
                false
            },
        }
    }
}


proof fn lemma_key_order(
    w1: int,
    s1: int,
    p1: bool,
    i1: int,
    w2: int,
    s2: int,
    p2: bool,
    i2: int,
    w3: int,
    s3: int,
    p3: bool,
    i3: int,
)
    ensures
        key_lt(w1, s1, p1, i1, w2, s2, p2, i2) && key_lt(w2, s2, p2, i2, w3, s3, p3, i3) ==> key_lt(
            w1,
            s1,
            p1,
            i1,
            w3,
            s3,
            p3,
            i3,
        ),
        i1 != i2 ==> key_lt(w1, s1, p1, i1, w2, s2, p2, i2) || key_lt(w2, s2, p2, i2, w1, s1, p1, i1),
{
}

impl<'a> OfficialSolver<'a> {
    /// Ranks guess `guess_index` on the listed answers: the sizes of the
    /// groups its feedback splits them into, and whether it is itself a
    /// possible answer.
    fn rank_guess(&self, guess_index: usize, list: &Vec<usize>) -> (score: GuessScore)
        requires
            self.inv(),
            guess_index < self.corpus_of().num_guesses(),
            list@ == self.alive_answers(),
            codes_in_range(self.corpus_of(), list@),
        ensures
            score.guess_index == guess_index,
            score.worst_bucket == worst_bucket(self.corpus_of(), guess_index as int, list@),
            score.expected_bucket_sum == bucket_sq_sum(self.corpus_of(), guess_index as int, list@),
            sorted_words(self.corpus_of().guess_list()) ==> score.prefer_answer == prefers(
                self.corpus_of(),
                self.alive(),
                guess_index as int,
            ),
    {
        let corpus = self.corpus;
        let ghost c = *corpus;
        let ghost g = guess_index as int;
        let ghost l = list@;
        proof {
            lemma_true_indices(self.alive(), self.alive().len() as int);
            lemma_count_true_bound(self.alive(), self.alive().len() as int);
        }
        let mut histogram = [0u16; 243];
        let mut index: usize = 0;
        while index < list.len()
            invariant
                c.wf(),
                c == *corpus,
                guess_index < c.num_guesses(),
                g == guess_index as int,
                l == list@,
                l.len() <= 0xffff,
                forall|i: int| 0 <= i < l.len() ==> (#[trigger] l[i] as int) < c.num_answers(),
                codes_in_range(c, l),
                index <= l.len(),
                histogram@.len() == 243,
                forall|code: int|
                    0 <= code < 243 ==> #[trigger] histogram@[code] as int == bucket(
                        c,
                        g,
                        l,
                        code,
                        index as int,
                    ),
            decreases l.len() - index,
        {
            let code = corpus.feedback(guess_index, list[index]).code() as usize;
            assert(c.feedback_at(g, l[index as int] as int) < 243);
            proof {
                lemma_bucket_bound(c, g, l, code as int, index as int);
            }
            histogram[code] = histogram[code] + 1;
            index += 1;
        }

        let ghost n = l.len() as int;
        proof {
            lemma_count_below_all(c, g, l, n);
        }
        let mut worst: u16 = 0;
        let mut sum: u32 = 0;
        let mut code: usize = 0;
        while code < FEEDBACK_STATES
            invariant
                n == l.len(),
                n <= 0xffff,
                count_below(c, g, l, 243, n) == n,
                histogram@.len() == 243,
                forall|k: int|
                    0 <= k < 243 ==> #[trigger] histogram@[k] as int == bucket(c, g, l, k, n),
                code <= 243,
                worst as int == worst_upto(c, g, l, code as int),
                sum as int == sum_sq_upto(c, g, l, code as int),
                sum as int <= bucket_total(c, g, l, code as int, n) * bucket_total(
                    c,
                    g,
                    l,
                    code as int,
                    n,
                ),
            decreases 243 - code,
        {
            let bucket_size = histogram[code];
            let ghost t = bucket_total(c, g, l, code as int, n);
            let ghost b = bucket_size as int;
            proof {
                lemma_bucket_total(c, g, l, code + 1, n);
                lemma_count_below_bound(c, g, l, code + 1, n);
                assert(t + b <= n);
                assert(sum + b * b <= (t + b) * (t + b)) by (nonlinear_arith)
                    requires
                        sum <= t * t,
                        0 <= t,
                        0 <= b,
                ;
                assert((t + b) * (t + b) <= 0xffff * 0xffff) by (nonlinear_arith)
                    requires
                        0 <= t + b <= 0xffff,
                ;
                assert(b * b <= 0xffff * 0xffff) by (nonlinear_arith)
                    requires
                        0 <= b <= 0xffff,
                ;
            }
            if bucket_size > worst {
                worst = bucket_size;
            }
            sum = sum + (bucket_size as u32) * (bucket_size as u32);
            code += 1;
        }

        GuessScore {
            worst_bucket: worst,
            expected_bucket_sum: sum,
            prefer_answer: self.guess_is_remaining_answer(guess_index),
            guess_index,
        }
    }

    /// The guess to play next: the only possible answer when one is left,
    /// otherwise the best-ranked guess (see `ranks_before`). The ranking is
    /// exact when the guess list is sorted.
    fn compute_best_guess(&self) -> (r: usize)
        requires
            self.inv(),
            self.alive_count() != 1 ==> codes_in_range(self.corpus_of(), self.alive_answers()),
        ensures
            r < self.corpus_of().num_guesses(),
            self.alive_count() == 1 ==> r == self.corpus_of().answer_list()[self.alive_answers()[0] as int],
            self.alive_count() != 1 && sorted_words(self.corpus_of().guess_list()) ==> is_best_guess(
                self.corpus_of(),
                self.alive(),
                r as int,
            ),
    {
        let corpus = self.corpus;
        let ghost c = *corpus;
        let list = self.iter_remaining_answers();
        proof {
            lemma_true_indices(self.alive(), self.alive().len() as int);
        }
        if self.remaining_count == 1 {
            if list.len() == 0 {
                return corpus.first_guess_index();
            }
            return corpus.answer_guess_index(list[0]);
        }

        let guess_count = corpus.guess_count();
        let ghost sorted = sorted_words(c.guess_list());
        let ghost alive = self.alive();
        let mut best = GuessScore {
            worst_bucket: 0xffff,
            expected_bucket_sum: 0xffff_ffff,
            prefer_answer: false,
            guess_index: usize::MAX,
        };
        let mut guess_index: usize = 0;
        while guess_index < guess_count
            invariant
                self.inv(),
                c == self.corpus_of(),
                alive == self.alive(),
                sorted == sorted_words(c.guess_list()),
                guess_count == c.num_guesses(),
                guess_count >= 1,
                list@ == self.alive_answers(),
                codes_in_range(c, list@),
                guess_index <= guess_count,
                guess_index == 0 ==> best == (GuessScore {
                    worst_bucket: 0xffff,
                    expected_bucket_sum: 0xffff_ffff,
                    prefer_answer: false,
                    guess_index: usize::MAX,
                }),
                guess_index > 0 ==> {
                    &&& best.guess_index < guess_index
                    &&& best.worst_bucket == worst_bucket(c, best.guess_index as int, list@)
                    &&& best.expected_bucket_sum == bucket_sq_sum(
                        c,
                        best.guess_index as int,
                        list@,
                    )
                },
                sorted && guess_index > 0 ==> {
                    &&& best.prefer_answer == prefers(c, alive, best.guess_index as int)
                    &&& forall|g: int|
                        0 <= g < guess_index && g != best.guess_index ==> #[trigger] ranks_before(
                            c,
                            alive,
                            best.guess_index as int,
                            g,
                        )
                },
            decreases guess_count - guess_index,
        {
            let score = self.rank_guess(guess_index, &list);
            let ghost old_best = best;
            if score.better_than(best) {
                best = score;
            }
            proof {
                if sorted && guess_index > 0 {
                    let b0 = old_best.guess_index as int;
                    let gi = guess_index as int;
                    assert forall|g: int|
                        0 <= g < gi + 1 && g != best.guess_index implies #[trigger] ranks_before(
                        c,
                        alive,
                        best.guess_index as int,
                        g,
                    ) by {
                        let l = list@;
                        lemma_key_order(
                            worst_bucket(c, gi, l) as int,
                            bucket_sq_sum(c, gi, l) as int,
                            prefers(c, alive, gi),
                            gi,
                            worst_bucket(c, b0, l) as int,
                            bucket_sq_sum(c, b0, l) as int,
                            prefers(c, alive, b0),
                            b0,
                            worst_bucket(c, g, l) as int,
                            bucket_sq_sum(c, g, l) as int,
                            prefers(c, alive, g),
                            g,
                        );
                        lemma_key_order(
                            worst_bucket(c, b0, l) as int,
                            bucket_sq_sum(c, b0, l) as int,
                            prefers(c, alive, b0),
                            b0,
                            worst_bucket(c, gi, l) as int,
                            bucket_sq_sum(c, gi, l) as int,
                            prefers(c, alive, gi),
                            gi,
                            worst_bucket(c, g, l) as int,
                            bucket_sq_sum(c, g, l) as int,
                            prefers(c, alive, g),
                            g,
                        );
                        if g < gi && g != b0 {
                            assert(ranks_before(c, alive, b0, g));
                        }
                    }
                }
            }
            guess_index += 1;
        }
        best.guess_index
    }
}

proof fn lemma_count_below_bound(c: Corpus, g: int, list: Seq<usize>, limit: int, k: int)
    requires
        k >= 0,
    ensures
        count_below(c, g, list, limit, k) <= k,
    decreases k,
{
    if k > 0 {
        lemma_count_below_bound(c, g, list, limit, k - 1);
    }
}


/// What `next_guess` does to a session `s0`, leaving `s1` and returning
/// `w`: once solved, the answer with nothing changed; otherwise the guess
/// waiting for feedback becomes the opening guess while there is one, else
/// the only possible answer, else the best-ranked guess (exactly so when the
/// guess list is sorted), and `w` is its word. Nothing else changes.
pub open spec fn picks_next(s0: OfficialSolver, s1: OfficialSolver, w: Word) -> bool {
    let c = s0.corpus_of();
    &&& s1.inv()
    &&& s1.corpus_of() == c
    &&& s1.alive() == s0.alive()
    &&& s1.cached() == s0.cached()
    &&& s1.solved() == s0.solved()
    &&& s0.solved() matches Some(word) ==> w == word && s1.pending() == s0.pending()
    &&& s0.solved() is None ==> (s1.pending() matches Some(g) && {
        &&& g < c.num_guesses()
        &&& w == c.guess_list()[g as int]
        &&& s0.cached() matches Some(opening) ==> g == opening
        &&& s0.cached() is None && s0.alive_count() == 1 ==> g == c.answer_list()[s0.alive_answers()[0] as int]
        &&& s0.cached() is None && s0.alive_count() != 1 && sorted_words(c.guess_list())
            ==> is_best_guess(c, s0.alive(), g as int)
    })
}

/// The guess the solver plays on the possible answers `alive` once the
/// opening guess is gone: the only possible answer's own guess, else the
/// best-ranked guess.
pub open spec fn solver_pick(c: Corpus, alive: Seq<bool>) -> int {
    if count_true(alive, alive.len() as int) == 1 {
        c.answer_list()[true_indices(alive, alive.len() as int)[0] as int] as int
    } else {
        choose|g: int| is_best_guess(c, alive, g)
    }
}

/// Two guesses that both rank before every other guess are the same guess.
pub(crate) proof fn lemma_best_guess_unique(c: Corpus, alive: Seq<bool>, g1: int, g2: int)
    requires
        is_best_guess(c, alive, g1),
        is_best_guess(c, alive, g2),
    ensures
        g1 == g2,
{
    if g1 != g2 {
        assert(ranks_before(c, alive, g1, g2));
        assert(ranks_before(c, alive, g2, g1));
    }
}

impl<'a> OfficialSolver<'a> {
    /// The corpus the session plays on.
    pub fn corpus(&self) -> (c: &'a Corpus)
        ensures
            *c == self.corpus_of(),
    {
        self.corpus
    }

    /// The guess to play now, which becomes the guess waiting for feedback.
    /// Once solved, the answer (nothing else changes). Otherwise the opening
    /// guess while there is one, else the only possible answer, else the
    /// best-ranked guess (exactly so when the guess list is sorted).
    pub fn next_guess(&mut self) -> (w: Word)
        requires
            old(self).inv(),
            old(self).solved() is None && old(self).cached() is None && old(self).alive_count() != 1
                ==> codes_in_range(old(self).corpus_of(), old(self).alive_answers()),
        ensures
            picks_next(*old(self), *final(self), w),
    {
        if let Some(word) = self.solved_word {
            return word;
        }
        let guess_index = match self.cached_guess {
            Some(guess_index) => guess_index,
            None => self.compute_best_guess(),
        };
        self.issue_guess_index(guess_index)
    }
}


// ---------------------------------------------------------------------------
// Simulated games
// ---------------------------------------------------------------------------

/// A corpus the solver's simulated games run on: guess words sorted (word
/// lookup is a binary search, which finds nothing reliably in an unsorted
/// list), every code a valid feedback code, and an answer's own word solves
/// it. Such games always end, though on a matrix where a word solves
/// another answer too they may end on that word.
pub open spec fn simulable(c: Corpus) -> bool {
    &&& c.wf()
    &&& sorted_words(c.guess_list())
    &&& forall|g: int, a: int|
        0 <= g < c.num_guesses() && 0 <= a < c.num_answers() ==> #[trigger] c.feedback_at(g, a)
            < 243
    &&& forall|a: int|
        0 <= a < c.num_answers() ==> #[trigger] c.feedback_at(c.answer_list()[a] as int, a) == 242
}

/// A simulable corpus on which, moreover, an answer's own word solves no
/// other answer.
pub open spec fn solvable(c: Corpus) -> bool {
    &&& simulable(c)
    &&& forall|a: int, b: int|
        0 <= a < c.num_answers() && 0 <= b < c.num_answers() && a != b ==> #[trigger] c.feedback_at(
            c.answer_list()[a] as int,
            b,
        ) != 242
}

/// A step of a game towards answer `a`: its feedback is what its guess
/// shows on `a`.
pub open spec fn step_agrees(c: Corpus, a: int, step: SolveStep) -> bool {
    exists|g: int|
        0 <= g < c.num_guesses() && #[trigger] c.guess_list()[g] == step.guess && step.feedback.0
            == c.feedback_at(g, a)
}

proof fn lemma_count_keep_le(s: Seq<bool>, p: spec_fn(usize) -> bool, n: int)
    requires
        0 <= n <= s.len(),
    ensures
        count_true(keep_where(s, p), n) <= count_true(s, n),
    decreases n,
{
    if n > 0 {
        lemma_count_keep_le(s, p, n - 1);
    }
}

proof fn lemma_count_true_pos(s: Seq<bool>, n: int, x: int)
    requires
        0 <= x < n <= s.len(),
        s[x],
    ensures
        count_true(s, n) >= 1,
    decreases n,
{
    if x < n - 1 {
        lemma_count_true_pos(s, n - 1, x);
    }
}

proof fn lemma_count_where_bucket(c: Corpus, g: int, l: Seq<usize>, code: u8, k: int)
    requires
        k >= 0,
    ensures
        count_where(l, code_is(c, g, code), k) == bucket(c, g, l, code as int, k),
    decreases k,
{
    if k > 0 {
        lemma_count_where_bucket(c, g, l, code, k - 1);
    }
}

proof fn lemma_bucket_pair(c: Corpus, g: int, l: Seq<usize>, c1: int, c2: int, k: int)
    requires
        k >= 0,
        c1 != c2,
    ensures
        bucket(c, g, l, c1, k) + bucket(c, g, l, c2, k) <= k,
    decreases k,
{
    if k > 0 {
        lemma_bucket_pair(c, g, l, c1, c2, k - 1);
    }
}

proof fn lemma_bucket_pos(c: Corpus, g: int, l: Seq<usize>, code: int, k: int, i: int)
    requires
        0 <= i < k,
        c.feedback_at(g, l[i] as int) == code,
    ensures
        bucket(c, g, l, code, k) >= 1,
    decreases k,
{
    if i < k - 1 {
        lemma_bucket_pos(c, g, l, code, k - 1, i);
    }
}

proof fn lemma_bucket_zero(c: Corpus, g: int, l: Seq<usize>, code: int, k: int)
    requires
        k >= 0,
        forall|i: int| 0 <= i < k ==> c.feedback_at(g, #[trigger] l[i] as int) != code,
    ensures
        bucket(c, g, l, code, k) == 0,
    decreases k,
{
    if k > 0 {
        lemma_bucket_zero(c, g, l, code, k - 1);
    }
}

proof fn lemma_bucket_at_most_one(c: Corpus, g: int, l: Seq<usize>, code: int, k: int, x: usize)
    requires
        0 <= k <= l.len(),
        forall|i: int, j: int| 0 <= i < j < l.len() ==> #[trigger] l[i] < #[trigger] l[j],
        forall|i: int| 0 <= i < k && c.feedback_at(g, #[trigger] l[i] as int) == code ==> l[i] == x,
    ensures
        bucket(c, g, l, code, k) <= 1,
    decreases k,
{
    if k > 0 {
        if c.feedback_at(g, l[k - 1] as int) == code {
            assert forall|i: int| 0 <= i < k - 1 implies c.feedback_at(g, #[trigger] l[i] as int)
                != code by {
                assert(l[i] < l[k - 1]);
            }
            lemma_bucket_zero(c, g, l, code, k - 1);
        } else {
            lemma_bucket_at_most_one(c, g, l, code, k - 1, x);
        }
    }
}

proof fn lemma_worst_upper(c: Corpus, g: int, l: Seq<usize>, k: int, bound: nat)
    requires
        k >= 0,
        forall|code: int| 0 <= code < k ==> #[trigger] bucket_size(c, g, l, code) <= bound,
    ensures
        worst_upto(c, g, l, k) <= bound,
    decreases k,
{
    if k > 0 {
        lemma_worst_upper(c, g, l, k - 1, bound);
    }
}

proof fn lemma_worst_lower(c: Corpus, g: int, l: Seq<usize>, k: int, code: int)
    requires
        0 <= code < k,
    ensures
        bucket_size(c, g, l, code) <= worst_upto(c, g, l, k),
    decreases k,
{
    if code < k - 1 {
        lemma_worst_lower(c, g, l, k - 1, code);
    }
}

/// When all of the first `k` listed answers share one bucket, each of them
/// shows that code.
proof fn lemma_full_bucket(c: Corpus, g: int, l: Seq<usize>, code: int, k: int)
    requires
        k >= 0,
        bucket(c, g, l, code, k) == k,
    ensures
        forall|i: int| 0 <= i < k ==> c.feedback_at(g, #[trigger] l[i] as int) == code,
    decreases k,
{
    if k > 0 {
        lemma_bucket_bound(c, g, l, code, k - 1);
        lemma_full_bucket(c, g, l, code, k - 1);
    }
}

/// A guess that leaves all listed answers in one bucket has that bucket as
/// its largest, and its size squared as its squared sum.
proof fn lemma_single_bucket(c: Corpus, g: int, l: Seq<usize>, code: int, limit: int)
    requires
        0 <= code < 243,
        0 <= limit <= 243,
        bucket_size(c, g, l, code) == l.len(),
    ensures
        worst_upto(c, g, l, limit) == if code < limit {
            l.len()
        } else {
            0
        },
        sum_sq_upto(c, g, l, limit) == if code < limit {
            l.len() * l.len()
        } else {
            0
        },
    decreases limit,
{
    if limit > 0 {
        lemma_single_bucket(c, g, l, code, limit - 1);
        if limit - 1 != code {
            lemma_bucket_pair(c, g, l, code, limit - 1, l.len() as int);
        }
    }
}

/// On a corpus where every answer's own guess shows all-exact on it, a
/// best-ranked guess that does not show all-exact on a possible answer `a`
/// leaves fewer answers together with `a` than are possible.
proof fn lemma_best_guess_progress(c: Corpus, alive: Seq<bool>, a: int, g: int)
    requires
        simulable(c),
        alive.len() == c.num_answers(),
        0 <= a < alive.len(),
        alive[a],
        is_best_guess(c, alive, g),
        c.feedback_at(g, a) != 242,
    ensures
        bucket_size(c, g, true_indices(alive, alive.len() as int), c.feedback_at(g, a) as int) + 1
            <= count_true(alive, alive.len() as int),
{
    let l = true_indices(alive, alive.len() as int);
    let n = l.len() as int;
    let k = c.feedback_at(g, a) as int;
    let ga = c.answer_list()[a] as int;
    lemma_true_indices(alive, alive.len() as int);
    assert(0 <= ga < c.num_guesses());
    let i0 = choose|i: int| 0 <= i < l.len() && #[trigger] l[i] == a;
    lemma_bucket_bound(c, g, l, k, n);
    if bucket_size(c, g, l, k) == n {
        lemma_full_bucket(c, g, l, k, n);
        assert(ga != g);
        assert(ranks_before(c, alive, g, ga));
        assert(0 <= k < 243);
        lemma_single_bucket(c, g, l, k, 243);
        assert(c.feedback_at(ga, l[i0] as int) == 242);
        lemma_bucket_pos(c, ga, l, 242, n, i0);
        assert(prefers(c, alive, ga));
        if bucket_size(c, ga, l, 242) == n {
            lemma_single_bucket(c, ga, l, 242, 243);
            assert(prefers(c, alive, g));
            let x = choose|x: int| 0 <= x < c.num_answers() && c.answer_list()[x] == g && #[trigger] alive[x];
            let ix = choose|i: int| 0 <= i < l.len() && #[trigger] l[i] == x;
            assert(c.feedback_at(g, l[ix] as int) == k);
            assert(c.feedback_at(c.answer_list()[x] as int, x) == 242);
            assert(false);
        } else {
            lemma_bucket_bound(c, ga, l, 242, n);
            assert forall|code: int| 0 <= code < 243 implies #[trigger] bucket_size(c, ga, l, code) <= (n
                - 1) as nat by {
                if code != 242 {
                    lemma_bucket_pair(c, ga, l, code, 242, n);
                }
            }
            lemma_worst_upper(c, ga, l, 243, (n - 1) as nat);
            assert(false);
        }
    }
}

/// With two or more answers possible, one of them guessed leaves at most
/// all but one of them together.
proof fn lemma_answer_guess_splits(c: Corpus, alive: Seq<bool>, a: int)
    requires
        solvable(c),
        alive.len() == c.num_answers(),
        0 <= a < alive.len(),
        alive[a],
        count_true(alive, alive.len() as int) >= 2,
    ensures
        worst_bucket(c, c.answer_list()[a] as int, true_indices(alive, alive.len() as int)) + 1
            <= count_true(alive, alive.len() as int),
{
    let l = true_indices(alive, alive.len() as int);
    let n = l.len() as int;
    let g = c.answer_list()[a] as int;
    lemma_true_indices(alive, alive.len() as int);
    let i0 = choose|i: int| 0 <= i < l.len() && #[trigger] l[i] == a;
    assert(c.feedback_at(g, l[i0] as int) == 242);
    lemma_bucket_pos(c, g, l, 242, n, i0);
    assert forall|i: int| 0 <= i < n && c.feedback_at(g, #[trigger] l[i] as int) == 242 implies l[i]
        == a as usize by {
        if l[i] as int != a {
            assert(c.feedback_at(c.answer_list()[a] as int, l[i] as int) != 242);
        }
    }
    lemma_bucket_at_most_one(c, g, l, 242, n, a as usize);
    assert forall|code: int| 0 <= code < 243 implies #[trigger] bucket_size(c, g, l, code) <= (n
        - 1) as nat by {
        if code != 242 {
            lemma_bucket_pair(c, g, l, code, 242, n);
        }
    }
    lemma_worst_upper(c, g, l, 243, (n - 1) as nat);
}

/// The rounds the solver plays against answer `a` from the possible
/// answers `alive`, playing `opening` first when there is one, and reading
/// each feedback from the matrix: each round's guess index and the possible
/// answers left after it, up to the all-exact round. `fuel` bounds the number
/// of rounds (twice the number of possible answers, plus one, suffices).
pub open spec fn rounds(c: Corpus, alive: Seq<bool>, opening: Option<int>, a: int, fuel: nat) -> Seq<
    (int, Seq<bool>),
>
    decreases fuel,
{
    if fuel == 0 {
        Seq::empty()
    } else {
        let g = match opening {
            Some(o) => o,
            None => solver_pick(c, alive),
        };
        let code = c.feedback_at(g, a);
        let kept = keep_where(alive, code_is(c, g, code));
        if code == 242 {
            seq![(g, kept)]
        } else {
            seq![(g, kept)] + rounds(c, kept, None, a, (fuel - 1) as nat)
        }
    }
}

/// The game the solver plays against answer `a` from a fresh session.
pub open spec fn game_rounds(c: Corpus, a: int) -> Seq<(int, Seq<bool>)> {
    rounds(
        c,
        Seq::new(c.num_answers() as nat, |x: int| true),
        Some(c.opening()),
        a,
        (2 * c.num_answers() + 1) as nat,
    )
}

/// The recorded steps are the rounds played against answer `a`: the same
/// guesses, the feedback each shows on `a`, and the number of answers left.
pub open spec fn steps_follow(c: Corpus, a: int, steps: Seq<SolveStep>, played: Seq<(int, Seq<bool>)>) -> bool {
    &&& steps.len() == played.len()
    &&& forall|i: int|
        0 <= i < steps.len() ==> {
            &&& (#[trigger] steps[i]).guess == c.guess_list()[played[i].0]
            &&& steps[i].feedback.0 == c.feedback_at(played[i].0, a)
            &&& steps[i].remaining_answers == count_true(played[i].1, played[i].1.len() as int)
        }
}

/// The opening guess a session still holds, as an index.
pub open spec fn opening_index(s: OfficialSolver) -> Option<int> {
    match s.cached() {
        Some(o) => Some(o as int),
        None => None,
    }
}

/// Every simulated game opens with the corpus's opening guess.
pub proof fn lemma_game_opens_with_opening(c: Corpus, a: int)
    ensures
        game_rounds(c, a).len() >= 1,
        game_rounds(c, a)[0].0 == c.opening(),
{
    let fuel = (2 * c.num_answers() + 1) as nat;
    let alive = Seq::new(c.num_answers() as nat, |x: int| true);
    assert(fuel > 0);
    let g = c.opening();
    let code = c.feedback_at(g, a);
    let kept = keep_where(alive, code_is(c, g, code));
    if code == 242 {
        assert(rounds(c, alive, Some(g), a, fuel) == seq![(g, kept)]);
    } else {
        assert(rounds(c, alive, Some(g), a, fuel) == seq![(g, kept)] + rounds(
            c,
            kept,
            None,
            a,
            (fuel - 1) as nat,
        ));
    }
}

proof fn lemma_rounds_follow_picks(
    c: Corpus,
    alive: Seq<bool>,
    opening: Option<int>,
    a: int,
    fuel: nat,
    i: int,
)
    requires
        0 <= i,
        i + 1 < rounds(c, alive, opening, a, fuel).len(),
    ensures
        ({
            let played = rounds(c, alive, opening, a, fuel);
            &&& played[i + 1].0 == solver_pick(c, played[i].1)
            &&& c.feedback_at(played[i].0, a) != 242
            &&& played[i + 1].1 == keep_where(
                played[i].1,
                code_is(c, played[i + 1].0, c.feedback_at(played[i + 1].0, a)),
            )
        }),
    decreases fuel,
{
    let g = match opening {
        Some(o) => o,
        None => solver_pick(c, alive),
    };
    let code = c.feedback_at(g, a);
    let kept = keep_where(alive, code_is(c, g, code));
    let rest = rounds(c, kept, None, a, (fuel - 1) as nat);
    assert(fuel > 0);
    if code == 242 {
        assert(rounds(c, alive, opening, a, fuel) == seq![(g, kept)]);
    } else {
        assert(rounds(c, alive, opening, a, fuel) == seq![(g, kept)] + rest);
        if i == 0 {
            let g2 = solver_pick(c, kept);
            let code2 = c.feedback_at(g2, a);
            assert(rest[0] == (g2, keep_where(kept, code_is(c, g2, code2))));
        } else {
            lemma_rounds_follow_picks(c, kept, None, a, (fuel - 1) as nat, i - 1);
        }
    }
}

/// After each round of a simulated game that does not solve it, the next
/// round plays the solver's own pick on the answers still possible (the
/// only one left, else the best-ranked guess), and keeps those of them that
/// show the same feedback on it as the answer does.
pub proof fn lemma_game_follows_picks(c: Corpus, a: int, i: int)
    requires
        0 <= i,
        i + 1 < game_rounds(c, a).len(),
    ensures
        ({
            let played = game_rounds(c, a);
            &&& played[i + 1].0 == solver_pick(c, played[i].1)
            &&& c.feedback_at(played[i].0, a) != 242
            &&& played[i + 1].1 == keep_where(
                played[i].1,
                code_is(c, played[i + 1].0, c.feedback_at(played[i + 1].0, a)),
            )
        }),
{
    lemma_rounds_follow_picks(
        c,
        Seq::new(c.num_answers() as nat, |x: int| true),
        Some(c.opening()),
        a,
        (2 * c.num_answers() + 1) as nat,
        i,
    );
}

impl<'a> OfficialSolver<'a> {
    /// Plays a whole game against `answer`, taking the solver's guess each
    /// round and the corpus's feedback for it, until solved: the steps are
    /// the rounds of `game_rounds`, and there is at most one more of them
    /// than there are answers. Fails with `UnknownAnswer` when `answer` is
    /// not one of the answers.
    pub fn simulate(corpus: &'a Corpus, answer: Word) -> (r: Result<SolveTrace, SolverError>)
        requires
            simulable(*corpus),
        ensures
            r is Err <==> !exists|a: int|
                0 <= a < corpus.num_answers() && #[trigger] corpus.answer_word_at(a) == answer,
            r matches Err(e) ==> e is UnknownAnswer,
            r matches Ok(trace) ==> {
                let steps = trace.steps@;
                &&& trace.answer == answer
                &&& 1 <= steps.len() <= corpus.num_answers() + 1
                &&& steps[0].guess == corpus.guess_list()[corpus.opening()]
                &&& steps.last().feedback.0 == 242
                &&& forall|i: int| 0 <= i < steps.len() - 1 ==> (#[trigger] steps[i]).feedback.0 != 242
                &&& exists|a: int|
                    0 <= a < corpus.num_answers() && #[trigger] corpus.answer_word_at(a) == answer
                        && steps_follow(*corpus, a, steps, game_rounds(*corpus, a))
                        && forall|i: int| 0 <= i < steps.len() ==> step_agrees(*corpus, a, #[trigger] steps[i])
            },
    {
        let ghost c = *corpus;
        let answer_index = match corpus.find_answer(answer) {
            Some(answer_index) => answer_index,
            None => return Err(SolverError::UnknownAnswer),
        };
        let ghost a = answer_index as int;
        let mut solver = Self::try_new(corpus)?;
        let mut steps: Vec<SolveStep> = Vec::new();
        let ghost full = game_rounds(c, a);
        let ghost mut done: Seq<(int, Seq<bool>)> = Seq::empty();
        let ghost mut fuel: nat = (2 * c.num_answers() + 1) as nat;
        proof {
            lemma_count_true_all(solver.alive(), solver.alive().len() as int);
            assert(full =~= done + rounds(c, solver.alive(), opening_index(solver), a, fuel));
        }

        loop
            invariant
                c == *corpus,
                simulable(c),
                0 <= a < c.num_answers(),
                answer_index == a,
                c.answer_word_at(a) == answer,
                solver.inv(),
                solver.corpus_of() == c,
                solver.solved() is None,
                solver.alive()[a],
                solver.cached() matches Some(o) ==> o < c.num_guesses(),
                forall|i: int|
                    0 <= i < steps@.len() ==> (#[trigger] steps@[i]).feedback.0 != 242 && step_agrees(
                        c,
                        a,
                        steps@[i],
                    ),
                full == game_rounds(c, a),
                full == done + rounds(c, solver.alive(), opening_index(solver), a, fuel),
                steps_follow(c, a, steps@, done),
                steps@.len() + solver.alive_count() <= c.num_answers() + 1,
                solver.cached() is Some ==> steps@.len() == 0,
                fuel >= 2 * solver.alive_count() + if solver.cached() is Some {
                    1int
                } else {
                    0int
                },
            decreases 2 * solver.alive_count() + if solver.cached() is Some {
                1int
            } else {
                0int
            },
        {
            let ghost before = solver;
            let ghost n = solver.alive_count();
            let ghost list = solver.alive_answers();
            proof {
                lemma_true_indices(solver.alive(), solver.alive().len() as int);
                lemma_count_true_pos(solver.alive(), solver.alive().len() as int, a);
                assert forall|g: int, i: int|
                    0 <= g < c.num_guesses() && 0 <= i < list.len() implies #[trigger] c.feedback_at(
                    g,
                    list[i] as int,
                ) < 243 by {
                    assert((list[i] as int) < c.num_answers());
                }
            }
            let guess = solver.next_guess();
            let ghost g = solver.pending().unwrap() as int;
            proof {
                if before.cached() is None && before.alive_count() != 1 {
                    let b = choose|b: int| is_best_guess(c, before.alive(), b);
                    lemma_best_guess_unique(c, before.alive(), b, g);
                }
                assert(g == match opening_index(before) {
                    Some(o) => o,
                    None => solver_pick(c, before.alive()),
                });
            }
            let guess_index = match corpus.find_guess(guess) {
                Some(guess_index) => guess_index,
                None => return Err(SolverError::AssetCorrupt),
            };
            proof {
                if guess_index != g {
                    if (guess_index as int) < g {
                        assert(c.guess_list()[guess_index as int].0 < c.guess_list()[g].0);
                    } else {
                        assert(c.guess_list()[g].0 < c.guess_list()[guess_index as int].0);
                    }
                }
            }
            let feedback = corpus.feedback(guess_index, answer_index);
            let ghost kept = solver.filtered(g, feedback.0);
            proof {
                assert(kept[a]);
                lemma_count_true_pos(kept, kept.len() as int, a);
                lemma_count_keep_le(before.alive(), code_is(c, g, feedback.0), kept.len() as int);
            }
            let status = solver.apply_feedback(feedback)?;
            proof {
                assert(step_agrees(c, a, SolveStep { guess, feedback, remaining_answers: 0 }));
            }
            let remaining_answers = solver.remaining_answers();
            let step = SolveStep { guess, feedback, remaining_answers };
            proof {
                assert(c.guess_list()[g] == step.guess);
                assert(step_agrees(c, a, step));
            }
            let ghost done_before = done;
            steps.push(step);
            proof {
                let rest = rounds(c, before.alive(), opening_index(before), a, fuel);
                assert(fuel >= 1);
                assert(solver.alive() == kept);
                done = done.push((g, kept));
                assert(steps_follow(c, a, steps@, done)) by {
                    assert forall|i: int| 0 <= i < steps@.len() implies {
                        &&& (#[trigger] steps@[i]).guess == c.guess_list()[done[i].0]
                        &&& steps@[i].feedback.0 == c.feedback_at(done[i].0, a)
                        &&& steps@[i].remaining_answers == count_true(done[i].1, done[i].1.len() as int)
                    } by {
                        if i < steps@.len() - 1 {
                            assert(done[i] == done_before[i]);
                        }
                    }
                }
                if feedback.0 == 242 {
                    assert(rest == seq![(g, kept)]);
                    assert(full =~= done);
                } else {
                    assert(rest == seq![(g, kept)] + rounds(c, kept, None, a, (fuel - 1) as nat));
                    assert(full =~= done + rounds(c, kept, None, a, (fuel - 1) as nat));
                }
            }

            if let SolverStatus::Solved(_) = status {
                proof {
                    lemma_game_opens_with_opening(c, a);
                    assert(steps@[0].guess == c.guess_list()[full[0].0]);
                }
                return Ok(SolveTrace { answer, steps });
            }
            proof {
                fuel = (fuel - 1) as nat;
                lemma_alive_answers_facts(solver);
                if before.cached() is None {
                    lemma_count_keep_where(before.alive(), code_is(c, g, feedback.0), kept.len() as int);
                    lemma_count_where_bucket(c, g, list, feedback.0, list.len() as int);
                    lemma_worst_lower(c, g, list, 243, feedback.0 as int);
                    if n == 1 {
                        assert(list[0] as int == a) by {
                            let i = choose|i: int| 0 <= i < list.len() && #[trigger] list[i] == a;
                            assert(i == 0);
                        }
                        assert(g == c.answer_list()[a] as int);
                    } else {
                        lemma_best_guess_progress(c, before.alive(), a, g);
                    }
                }
            }
        }
    }
}


// ---------------------------------------------------------------------------
// Laws
// ---------------------------------------------------------------------------

/// Every guess word of the corpus spells five letters `a..=z`.
pub open spec fn valid_words(c: Corpus) -> bool {
    forall|g: int| 0 <= g < c.num_guesses() ==> is_valid_packed(#[trigger] c.guess_list()[g].0)
}

/// The matrix is the scoring of the corpus's words: entry (g, a) is the
/// feedback guess word `g` gets against answer word `a`.
pub open spec fn scores_match(c: Corpus) -> bool {
    forall|g: int, a: int|
        0 <= g < c.num_guesses() && 0 <= a < c.num_answers() ==> #[trigger] c.feedback_at(g, a)
            == score_code(c.guess_list()[g], c.answer_word_at(a))
}

/// Whether a packed word spells five letters `a..=z`.
pub fn is_valid_word(w: Word) -> (b: bool)
    ensures
        b == is_valid_packed(w.0),
{
    let p = w.0;
    let b = p < 0x200_0000u32 && (p & 31u32) < 26u32 && ((p >> 5u32) & 31u32) < 26u32 && ((p
        >> 10u32) & 31u32) < 26u32 && ((p >> 15u32) & 31u32) < 26u32 && ((p >> 20u32) & 31u32)
        < 26u32;
    proof {
        let s = slots(p);
        assert(s[0] == p & 31 && s[1] == (p >> 5) & 31 && s[2] == (p >> 10) & 31 && s[3] == (p
            >> 15) & 31 && s[4] == (p >> 20) & 31);
        if b {
            assert forall|i: int| 0 <= i < 5 implies #[trigger] slots(p)[i] < 26 by {}
        }
    }
    b
}

/// Whether the corpus is the scoring of its words: guess words in
/// increasing packed order, each spelling five letters, and every matrix
/// entry the feedback its guess word gets against its answer word. Games on
/// such a corpus always end (see `lemma_scored_corpus_is_solvable`).
pub fn corpus_is_scored(corpus: &Corpus) -> (b: bool)
    requires
        corpus.wf(),
    ensures
        b == (sorted_words(corpus.guess_list()) && valid_words(*corpus) && scores_match(*corpus)),
{
    let ghost c = *corpus;
    let guess_count = corpus.guess_count();
    let answer_count = corpus.answer_count();
    let mut g: usize = 0;
    while g < guess_count
        invariant
            c == *corpus,
            c.wf(),
            guess_count == c.num_guesses(),
            g <= guess_count,
            forall|i: int| 0 <= i < g ==> is_valid_packed(#[trigger] c.guess_list()[i].0),
            forall|i: int, j: int| 0 <= i < j < g ==> #[trigger] c.guess_list()[i].0 < #[trigger] c.guess_list()[j].0,
        decreases guess_count - g,
    {
        let w = corpus.guess_word(g);
        if !is_valid_word(w) {
            return false;
        }
        if g > 0 && corpus.guess_word(g - 1).0 >= w.0 {
            return false;
        }
        proof {
            assert forall|i: int, j: int| 0 <= i < j < g + 1 implies #[trigger] c.guess_list()[i].0
                < #[trigger] c.guess_list()[j].0 by {
                if j == g && i < g - 1 {
                    assert(c.guess_list()[i].0 < c.guess_list()[g - 1].0);
                }
            }
        }
        g += 1;
    }
    let mut g: usize = 0;
    while g < guess_count
        invariant
            c == *corpus,
            c.wf(),
            guess_count == c.num_guesses(),
            answer_count == c.num_answers(),
            valid_words(c),
            g <= guess_count,
            forall|i: int, a: int|
                0 <= i < g && 0 <= a < answer_count ==> #[trigger] c.feedback_at(i, a) == score_code(
                    c.guess_list()[i],
                    c.answer_word_at(a),
                ),
        decreases guess_count - g,
    {
        let guess = corpus.guess_word(g);
        let mut a: usize = 0;
        while a < answer_count
            invariant
                c == *corpus,
                c.wf(),
                guess_count == c.num_guesses(),
                answer_count == c.num_answers(),
                valid_words(c),
                g < guess_count,
                guess == c.guess_list()[g as int],
                a <= answer_count,
                forall|i: int, x: int|
                    0 <= i < g && 0 <= x < answer_count ==> #[trigger] c.feedback_at(i, x) == score_code(
                        c.guess_list()[i],
                        c.answer_word_at(x),
                    ),
                forall|x: int|
                    0 <= x < a ==> #[trigger] c.feedback_at(g as int, x) == score_code(
                        guess,
                        c.answer_word_at(x),
                    ),
            decreases answer_count - a,
        {
            let answer = corpus.answer_word(a);
            proof {
                let ga = c.answer_list()[a as int] as int;
                assert(0 <= ga < c.num_guesses());
                assert(is_valid_packed(c.guess_list()[ga].0));
                assert(is_valid_packed(guess.0));
            }
            if corpus.feedback(g, a).code() != score_guess(guess, answer).code() {
                return false;
            }
            a += 1;
        }
        g += 1;
    }
    true
}

/// A corpus of sorted valid words whose matrix is their scoring is one on
/// which every game ends.
pub proof fn lemma_scored_corpus_is_solvable(c: Corpus)
    requires
        c.wf(),
        sorted_words(c.guess_list()),
        valid_words(c),
        scores_match(c),
    ensures
        solvable(c),
{
    assert forall|g: int, a: int|
        0 <= g < c.num_guesses() && 0 <= a < c.num_answers() implies #[trigger] c.feedback_at(g, a)
        < 243 by {
        lemma_score_bound(c.guess_list()[g], c.answer_word_at(a));
    }
    assert forall|a: int| 0 <= a < c.num_answers() implies #[trigger] c.feedback_at(
        c.answer_list()[a] as int,
        a,
    ) == 242 by {
        assert(c.answer_list()[a] < c.num_guesses());
        lemma_score_self_is_solved(c.answer_word_at(a));
    }
    assert forall|a: int, b: int|
        0 <= a < c.num_answers() && 0 <= b < c.num_answers() && a != b implies #[trigger] c.feedback_at(
        c.answer_list()[a] as int,
        b,
    ) != 242 by {
        let ga = c.answer_list()[a] as int;
        let gb = c.answer_list()[b] as int;
        assert(ga < c.num_guesses() && gb < c.num_guesses());
        assert(ga != gb);
        if ga < gb {
            assert(c.guess_list()[ga].0 < c.guess_list()[gb].0);
        } else {
            assert(c.guess_list()[gb].0 < c.guess_list()[ga].0);
        }
        lemma_solved_iff_same_letters(c.guess_list()[ga], c.guess_list()[gb]);
        if c.feedback_at(ga, b) == 242 {
            lemma_valid_letters_determine_word(c.guess_list()[ga], c.guess_list()[gb]);
        }
    }
}

/// Feedback that tells the truth about an answer still possible keeps that
/// answer possible, so it is never a contradiction.
pub proof fn lemma_true_feedback_keeps_answer(s: OfficialSolver, g: int, a: int)
    requires
        s.inv(),
        0 <= a < s.alive().len(),
        s.alive()[a],
    ensures
        s.filtered(g, s.corpus_of().feedback_at(g, a))[a],
        count_true(
            s.filtered(g, s.corpus_of().feedback_at(g, a)),
            s.alive().len() as int,
        ) >= 1,
{
    let kept = s.filtered(g, s.corpus_of().feedback_at(g, a));
    assert((a as usize) as int == a);
    assert(kept[a]);
    lemma_count_true_pos(kept, kept.len() as int, a);
}

/// Feedback only ever removes answers: those kept were possible before.
pub proof fn lemma_feedback_only_removes(s: OfficialSolver, g: int, code: u8)
    ensures
        forall|a: int| 0 <= a < s.alive().len() && #[trigger] s.filtered(g, code)[a] ==> s.alive()[a],
        count_true(s.filtered(g, code), s.alive().len() as int) <= s.alive_count(),
{
    lemma_count_keep_le(s.alive(), code_is(s.corpus_of(), g, code), s.alive().len() as int);
}


/// The listed possible answers are increasing indices of possible answers,
/// as many as there are possible answers.
pub proof fn lemma_alive_answers_facts(s: OfficialSolver)
    requires
        s.inv(),
    ensures
        s.corpus_of().wf(),
        s.alive().len() == s.corpus_of().num_answers(),
        s.alive_answers().len() == s.alive_count(),
        s.alive_count() <= s.corpus_of().num_answers(),
        s.corpus_of().num_answers() <= 0xffff,
        forall|i: int|
            0 <= i < s.alive_answers().len() ==> (#[trigger] s.alive_answers()[i] as int)
                < s.corpus_of().num_answers() && s.alive()[s.alive_answers()[i] as int],
        forall|i: int, j: int|
            0 <= i < j < s.alive_answers().len() ==> #[trigger] s.alive_answers()[i]
                < #[trigger] s.alive_answers()[j],
        forall|x: int|
            0 <= x < s.corpus_of().num_answers() && s.alive()[x] ==> exists|i: int|
                0 <= i < s.alive_answers().len() && #[trigger] s.alive_answers()[i] == x,
{
    lemma_true_indices(s.alive(), s.alive().len() as int);
    lemma_count_true_bound(s.alive(), s.alive().len() as int);
}


/// Feedback on the guess the solver picked, once the opening guess is gone,
/// keeps fewer answers than were possible while two or more were.
pub(crate) proof fn lemma_pick_shrinks(s0: OfficialSolver, s1: OfficialSolver, w: Word, code: u8)
    requires
        s0.inv(),
        solvable(s0.corpus_of()),
        s0.solved() is None,
        s0.cached() is None,
        s0.alive_count() >= 2,
        picks_next(s0, s1, w),
        code < 243,
    ensures
        s1.pending() matches Some(g) && count_true(s1.filtered(g as int, code), s1.alive().len() as int)
            < s0.alive_count(),
{
    let c = s0.corpus_of();
    let alive = s0.alive();
    let list = s0.alive_answers();
    let g = s1.pending().unwrap() as int;
    let kept = s1.filtered(g, code);
    lemma_true_indices(alive, alive.len() as int);
    lemma_alive_answers_facts(s0);
    lemma_count_keep_where(alive, code_is(c, g, code), alive.len() as int);
    lemma_count_where_bucket(c, g, list, code, list.len() as int);
    lemma_worst_lower(c, g, list, 243, code as int);
    let x = list[0] as int;
    lemma_answer_guess_splits(c, alive, x);
    let gx = c.answer_list()[x] as int;
    assert(gx < c.num_guesses());
    if g != gx {
        assert(ranks_before(c, alive, g, gx));
    }
    assert(kept =~= keep_where(alive, code_is(c, g, code)));
}

/// Feedback other than all-exact on the only possible answer's own guess
/// keeps no answer.
pub(crate) proof fn lemma_last_pick_misses(s0: OfficialSolver, s1: OfficialSolver, w: Word, code: u8)
    requires
        s0.inv(),
        solvable(s0.corpus_of()),
        s0.solved() is None,
        s0.cached() is None,
        s0.alive_count() == 1,
        picks_next(s0, s1, w),
        code != 242,
    ensures
        s1.pending() matches Some(g) && count_true(s1.filtered(g as int, code), s1.alive().len() as int)
            == 0,
{
    let c = s0.corpus_of();
    let alive = s0.alive();
    let g = s1.pending().unwrap() as int;
    let kept = s1.filtered(g, code);
    lemma_alive_answers_facts(s0);
    lemma_true_indices(kept, kept.len() as int);
    let x = s0.alive_answers()[0] as int;
    if count_true(kept, kept.len() as int) > 0 {
        let y = true_indices(kept, kept.len() as int)[0] as int;
        assert(kept[y]);
        assert(alive[y]);
        let i = choose|i: int| 0 <= i < s0.alive_answers().len() && #[trigger] s0.alive_answers()[i] == y;
        assert(i == 0);
        assert(c.feedback_at(c.answer_list()[x] as int, x) == 242);
        assert(false);
    }
}

/// An answer that agrees with feedback on a guess stays possible.
pub(crate) proof fn lemma_agreeing_answer_kept(s: OfficialSolver, g: int, a: int, code: u8)
    requires
        s.inv(),
        0 <= a < s.alive().len(),
        s.alive()[a],
        s.corpus_of().feedback_at(g, a) == code,
    ensures
        s.filtered(g, code)[a],
        count_true(s.filtered(g, code), s.alive().len() as int) >= 1,
{
    lemma_true_feedback_keeps_answer(s, g, a);
}

/// When all-exact feedback on a guess keeps an answer, in a corpus whose
/// matrix is the scoring of its valid words, the guess's word is that
/// answer's word.
pub(crate) proof fn lemma_solved_guess_is_answer(s: OfficialSolver, g: int)
    requires
        s.inv(),
        valid_words(s.corpus_of()),
        scores_match(s.corpus_of()),
        0 <= g < s.corpus_of().num_guesses(),
        count_true(s.filtered(g, 242), s.alive().len() as int) >= 1,
    ensures
        exists|a: int|
            0 <= a < s.corpus_of().num_answers() && #[trigger] s.corpus_of().answer_word_at(a)
                == s.corpus_of().guess_list()[g],
{
    let c = s.corpus_of();
    let kept = s.filtered(g, 242);
    lemma_alive_answers_facts(s);
    lemma_true_indices(kept, kept.len() as int);
    let y = true_indices(kept, kept.len() as int)[0] as int;
    assert(kept[y]);
    assert(0 <= y < c.num_answers());
    let gy = c.answer_list()[y] as int;
    assert(0 <= gy < c.num_guesses());
    assert(c.feedback_at(g, y) == 242);
    lemma_solved_iff_same_letters(c.guess_list()[g], c.answer_word_at(y));
    lemma_valid_letters_determine_word(c.guess_list()[g], c.answer_word_at(y));
}


/// The answers left of all of them after guess `gs[j]` showed feedback
/// `fs[j]` for each `j` below `k`, in turn.
pub open spec fn after_feedbacks(c: Corpus, gs: Seq<usize>, fs: Seq<u8>, k: int) -> Seq<bool>
    decreases k,
{
    if k <= 0 {
        Seq::new(c.num_answers() as nat, |a: int| true)
    } else {
        keep_where(after_feedbacks(c, gs, fs, k - 1), code_is(c, gs[k - 1] as int, fs[k - 1]))
    }
}

proof fn lemma_after_feedbacks(c: Corpus, gs: Seq<usize>, fs: Seq<u8>, k: int)
    requires
        c.wf(),
        0 <= k <= gs.len(),
        k <= fs.len(),
    ensures
        after_feedbacks(c, gs, fs, k).len() == c.num_answers(),
        forall|a: int|
            0 <= a < c.num_answers() ==> (#[trigger] after_feedbacks(c, gs, fs, k)[a] <==> forall|j: int|
                0 <= j < k ==> c.feedback_at(gs[j] as int, a) == fs[j]),
    decreases k,
{
    if k > 0 {
        lemma_after_feedbacks(c, gs, fs, k - 1);
        assert forall|a: int| 0 <= a < c.num_answers() implies (#[trigger] after_feedbacks(
            c,
            gs,
            fs,
            k,
        )[a] <==> forall|j: int| 0 <= j < k ==> c.feedback_at(gs[j] as int, a) == fs[j]) by {
            assert((a as usize) as int == a);
            if forall|j: int| 0 <= j < k ==> c.feedback_at(gs[j] as int, a) == fs[j] {
                assert forall|j: int| 0 <= j < k - 1 implies c.feedback_at(gs[j] as int, a)
                    == fs[j] by {}
                assert(c.feedback_at(gs[k - 1] as int, a) == fs[k - 1]);
            }
        }
    }
}

proof fn lemma_compose_prefix(
    before: Seq<OfficialSolver>,
    after: Seq<OfficialSolver>,
    gs: Seq<usize>,
    fs: Seq<u8>,
    st: Seq<SolverStatus>,
    k: int,
)
    requires
        1 <= k <= before.len(),
        after.len() == before.len(),
        gs.len() == before.len(),
        fs.len() == before.len(),
        st.len() == before.len(),
        before[0].inv(),
        before[0].alive() == Seq::new(before[0].corpus_of().num_answers() as nat, |a: int| true),
        forall|j: int|
            0 <= j < before.len() ==> #[trigger] applies(
                before[j],
                after[j],
                Feedback(fs[j]),
                Ok::<SolverStatus, SolverError>(st[j]),
            ),
        forall|j: int| 0 <= j < before.len() ==> #[trigger] before[j].pending() == Some(gs[j]),
        forall|j: int|
            1 <= j < before.len() ==> (#[trigger] before[j]).alive() == after[j - 1].alive()
                && before[j].corpus_of() == after[j - 1].corpus_of(),
    ensures
        after[k - 1].alive() == after_feedbacks(before[0].corpus_of(), gs, fs, k),
        after[k - 1].corpus_of() == before[0].corpus_of(),
        after[k - 1].alive_count() >= 1,
    decreases k,
{
    let c = before[0].corpus_of();
    let j = k - 1;
    let s0 = before[j];
    assert(applies(s0, after[j], Feedback(fs[j]), Ok::<SolverStatus, SolverError>(st[j])));
    if j > 0 {
        lemma_compose_prefix(before, after, gs, fs, st, j);
        assert(s0.alive() == after[j - 1].alive());
    } else {
        assert(s0.alive() =~= after_feedbacks(c, gs, fs, 0));
    }
    assert(s0.corpus_of() == c);
    assert(s0.alive() == after_feedbacks(c, gs, fs, j));
    assert(after[j].alive() =~= after_feedbacks(c, gs, fs, k));
}

/// After a fresh session took accepted feedback `fs[j]` on the waiting guess
/// `gs[j]`, for each `j` in turn (`before[j]` and `after[j]` the session
/// around the `j`-th feedback, with only guesses issued between feedbacks),
/// the answers still possible are exactly those on which every guess shows
/// its feedback, and there is at least one.
pub proof fn lemma_feedbacks_compose(
    before: Seq<OfficialSolver>,
    after: Seq<OfficialSolver>,
    gs: Seq<usize>,
    fs: Seq<u8>,
    st: Seq<SolverStatus>,
)
    requires
        before.len() >= 1,
        after.len() == before.len(),
        gs.len() == before.len(),
        fs.len() == before.len(),
        st.len() == before.len(),
        before[0].inv(),
        before[0].alive() == Seq::new(before[0].corpus_of().num_answers() as nat, |a: int| true),
        forall|j: int|
            0 <= j < before.len() ==> #[trigger] applies(
                before[j],
                after[j],
                Feedback(fs[j]),
                Ok::<SolverStatus, SolverError>(st[j]),
            ),
        forall|j: int| 0 <= j < before.len() ==> #[trigger] before[j].pending() == Some(gs[j]),
        forall|j: int|
            1 <= j < before.len() ==> (#[trigger] before[j]).alive() == after[j - 1].alive()
                && before[j].corpus_of() == after[j - 1].corpus_of(),
    ensures
        ({
            let c = before[0].corpus_of();
            let last = after.last();
            &&& last.corpus_of() == c
            &&& forall|a: int|
                0 <= a < c.num_answers() ==> (#[trigger] last.alive()[a] <==> forall|j: int|
                    0 <= j < gs.len() ==> c.feedback_at(gs[j] as int, a) == fs[j])
            &&& last.alive_count() >= 1
        }),
{
    let c = before[0].corpus_of();
    let n = before.len() as int;
    lemma_compose_prefix(before, after, gs, fs, st, n);
    lemma_alive_answers_facts(before[0]);
    lemma_after_feedbacks(c, gs, fs, n);
}


/// On a corpus that is the scoring of its sorted, valid words, solving the
/// game leaves exactly one possible answer, and its word is the word the
/// game was solved with.
pub proof fn lemma_solved_leaves_one_answer(s0: OfficialSolver, s1: OfficialSolver, feedback: Feedback, w: Word)
    requires
        s0.inv(),
        sorted_words(s0.corpus_of().guess_list()),
        valid_words(s0.corpus_of()),
        scores_match(s0.corpus_of()),
        applies(s0, s1, feedback, Ok::<SolverStatus, SolverError>(SolverStatus::Solved(w))),
    ensures
        s1.alive_count() == 1,
        s1.corpus_of().answer_word_at(s1.alive_answers()[0] as int) == w,
{
    let c = s0.corpus_of();
    let g = s0.pending().unwrap() as int;
    let kept = s0.filtered(g, 242);
    lemma_alive_answers_facts(s0);
    assert(0 <= g < c.num_guesses());
    assert forall|x: int| 0 <= x < kept.len() && #[trigger] kept[x] implies c.answer_list()[x] as int
        == g by {
        let gx = c.answer_list()[x] as int;
        assert(0 <= gx < c.num_guesses());
        assert(c.feedback_at(g, x) == 242);
        lemma_solved_iff_same_letters(c.guess_list()[g], c.answer_word_at(x));
        lemma_valid_letters_determine_word(c.guess_list()[g], c.answer_word_at(x));
        if gx < g {
            assert(c.guess_list()[gx].0 < c.guess_list()[g].0);
        } else if g < gx {
            assert(c.guess_list()[g].0 < c.guess_list()[gx].0);
        }
    }
    lemma_true_indices(kept, kept.len() as int);
    let l = true_indices(kept, kept.len() as int);
    if l.len() >= 2 {
        assert(l[0] < l[1]);
        assert(kept[l[0] as int] && kept[l[1] as int]);
        assert(c.answer_list()[l[0] as int] == c.answer_list()[l[1] as int]);
        assert(false);
    }
    lemma_alive_answers_facts(s1);
    assert(s1.alive() == kept);
    assert(c.answer_list()[l[0] as int] as int == g);
}


/// Asking an unsolved session for its guess twice gives the same guess and
/// leaves the same session, on a sorted guess list.
pub proof fn lemma_next_guess_repeats(
    s0: OfficialSolver,
    s1: OfficialSolver,
    s2: OfficialSolver,
    w1: Word,
    w2: Word,
)
    requires
        s0.inv(),
        s0.solved() is None,
        sorted_words(s0.corpus_of().guess_list()),
        picks_next(s0, s1, w1),
        picks_next(s1, s2, w2),
    ensures
        w2 == w1,
        s2.pending() == s1.pending(),
        s2.alive() == s0.alive(),
        s2.cached() == s0.cached(),
        s2.solved() is None,
{
    let c = s0.corpus_of();
    let g1 = s1.pending().unwrap() as int;
    let g2 = s2.pending().unwrap() as int;
    if s0.cached() is None && s0.alive_count() != 1 {
        lemma_best_guess_unique(c, s0.alive(), g1, g2);
    }
}

} // verus!
