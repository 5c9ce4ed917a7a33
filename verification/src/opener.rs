//! Judging opening guesses: how each guess splits the answers at the start
//! of a game, and how long whole games take when they open with it.
use std::cmp::Ordering;
use std::collections::BTreeSet;

use vstd::std_specs::cmp::OrdSpec;
use vstd::std_specs::iter::IteratorSpec;

use vstd::prelude::*;

use crate::board::{codes_against, largest_count, split_sizes, squared_counts};
use crate::corpus::{sorted_words, Corpus};
use crate::error::SolverError;
use crate::solver::{
    code_is, count_true, is_best_guess, keep_where, lemma_agreeing_answer_kept,
    lemma_alive_answers_facts, lemma_best_guess_unique, lemma_last_pick_misses,
    lemma_pick_shrinks, lemma_solved_guess_is_answer, scores_match, solvable, solver_pick,
    valid_words, OfficialSolver, SolverStatus,
};
use crate::types::{
    is_valid_packed, lemma_score_bound, lemma_solved_iff_same_letters,
    lemma_valid_letters_determine_word, scorable, score_code, score_guess, Word,
};

verus! {

/// `answer` is the word of one of the corpus's answers.
pub open spec fn is_answer_word(c: Corpus, answer: Word) -> bool {
    exists|a: int| 0 <= a < c.num_answers() && #[trigger] c.answer_word_at(a) == answer
}

/// Number of guesses the solver takes, from the possible answers `alive`,
/// until its guess shows all-exact against `answer`, scoring each guess
/// against the answer's letters; `fuel` bounds the count (as many guesses as
/// there are possible answers always suffice).
pub open spec fn guesses_until_solved(c: Corpus, alive: Seq<bool>, answer: Word, fuel: nat) -> nat
    decreases fuel,
{
    if fuel == 0 {
        0
    } else {
        let g = solver_pick(c, alive);
        let code = score_code(c.guess_list()[g], answer);
        if code == 242 {
            1
        } else {
            1 + guesses_until_solved(
                c,
                keep_where(alive, code_is(c, g, code)),
                answer,
                (fuel - 1) as nat,
            )
        }
    }
}

/// The position of `w` in the guess list.
pub open spec fn guess_index_of(c: Corpus, w: Word) -> int {
    choose|g: int| 0 <= g < c.num_guesses() && c.guess_list()[g] == w
}

/// The number of guesses in the game against `answer` that opens with
/// `opening` and then follows the solver.
pub open spec fn game_length(c: Corpus, opening: Word, answer: Word) -> nat {
    let code = score_code(opening, answer);
    if code == 242 {
        1
    } else {
        let all = Seq::new(c.num_answers() as nat, |a: int| true);
        1 + guesses_until_solved(
            c,
            keep_where(all, code_is(c, guess_index_of(c, opening), code)),
            answer,
            c.num_answers() as nat,
        )
    }
}

/// Plays a game against `answer` that opens with `opening` and then takes
/// the solver's suggestion each round, scoring every guess against the
/// answer's letters; returns the number of guesses until the answer is
/// found.
///
/// Fails with `UnknownGuess` when `opening` is not a guess, and with
/// `Contradiction` when `answer` is not an answer. A game ends within one
/// guess more than there are answers.
pub fn simulate_with_opening(corpus: &Corpus, opening: Word, answer: Word) -> (r: Result<
    usize,
    SolverError,
>)
    requires
        solvable(*corpus),
        valid_words(*corpus),
        scores_match(*corpus),
        is_valid_packed(answer.0),
    ensures
        r is Ok <==> corpus.guess_list().contains(opening) && is_answer_word(*corpus, answer),
        r matches Ok(n) ==> n == game_length(*corpus, opening, answer) && 1 <= n
            <= corpus.num_answers() + 1,
        r matches Err(e) ==> if corpus.guess_list().contains(opening) {
            e is Contradiction
        } else {
            e is UnknownGuess
        },
{
    let ghost c = *corpus;
    let mut solver = OfficialSolver::new(corpus);
    let issued = solver.issue_guess(opening);
    if issued.is_err() {
        return Err(SolverError::UnknownGuess);
    }
    let ghost g0 = solver.pending().unwrap() as int;
    proof {
        assert(c.guess_list()[g0] == opening);
        assert(is_valid_packed(c.guess_list()[g0].0));
    }
    let opening_feedback = score_guess(opening, answer);
    let ghost start = solver;
    let ghost present = is_answer_word(c, answer);
    let ghost a: int = if present {
        choose|a: int| 0 <= a < c.num_answers() && #[trigger] c.answer_word_at(a) == answer
    } else {
        0
    };
    proof {
        lemma_alive_answers_facts(start);
        if present {
            assert(c.feedback_at(g0, a) == score_code(c.guess_list()[g0], c.answer_word_at(a)));
            lemma_agreeing_answer_kept(start, g0, a, opening_feedback.0);
        }
    }
    let mut steps: usize = 1;
    let status = solver.apply_feedback(opening_feedback);
    let status = match status {
        Ok(status) => status,
        Err(error) => {
            proof {
                assert(!present);
            }
            return Err(error);
        },
    };
    if let SolverStatus::Solved(_) = status {
        proof {
            lemma_solved_guess_is_answer(start, g0);
            lemma_solved_iff_same_letters(opening, answer);
            lemma_valid_letters_determine_word(opening, answer);
        }
        return Ok(steps);
    }
    let ghost mut fuel: nat = c.num_answers() as nat;
    proof {
        lemma_alive_answers_facts(solver);
        let all = Seq::new(c.num_answers() as nat, |a: int| true);
        assert(start.alive() == all);
        let gi = guess_index_of(c, opening);
        assert(0 <= gi < c.num_guesses() && c.guess_list()[gi] == opening);
        if gi != g0 {
            if gi < g0 {
                assert(c.guess_list()[gi].0 < c.guess_list()[g0].0);
            } else {
                assert(c.guess_list()[g0].0 < c.guess_list()[gi].0);
            }
        }
        assert(solver.alive() == keep_where(all, code_is(c, gi, opening_feedback.0)));
    }
    loop
        invariant
            c == *corpus,
            solvable(c),
            valid_words(c),
            scores_match(c),
            is_valid_packed(answer.0),
            c.guess_list().contains(opening),
            present == is_answer_word(c, answer),
            present ==> 0 <= a < c.num_answers() && c.answer_word_at(a) == answer,
            solver.inv(),
            solver.corpus_of() == c,
            solver.solved() is None,
            solver.cached() is None,
            present ==> solver.alive()[a],
            1 <= steps,
            solver.alive_count() >= 1,
            steps + solver.alive_count() <= c.num_answers() + 1,
            fuel >= solver.alive_count(),
            steps + guesses_until_solved(c, solver.alive(), answer, fuel) == game_length(
                c,
                opening,
                answer,
            ),
        decreases solver.alive_count(),
    {
        let ghost before = solver;
        proof {
            lemma_alive_answers_facts(solver);
        }
        let guess = solver.next_guess();
        let ghost picked = solver;
        let ghost g = solver.pending().unwrap() as int;
        proof {
            assert(is_valid_packed(c.guess_list()[g].0));
            lemma_alive_answers_facts(before);
            if before.alive_count() != 1 {
                let b = choose|b: int| is_best_guess(c, before.alive(), b);
                lemma_best_guess_unique(c, before.alive(), b, g);
            }
            assert(g == solver_pick(c, before.alive()));
        }
        let feedback = score_guess(guess, answer);
        proof {
            lemma_score_bound(guess, answer);
            if present {
                assert(c.feedback_at(g, a) == score_code(c.guess_list()[g], c.answer_word_at(a)));
                lemma_agreeing_answer_kept(picked, g, a, feedback.0);
            }
            if before.alive_count() >= 2 {
                lemma_pick_shrinks(before, picked, guess, feedback.0);
            } else if feedback.0 != 242 {
                lemma_last_pick_misses(before, picked, guess, feedback.0);
            }
        }
        steps += 1;
        let ghost rest = guesses_until_solved(c, before.alive(), answer, fuel);
        let status = solver.apply_feedback(feedback);
        let status = match status {
            Ok(status) => status,
            Err(error) => {
                proof {
                    assert(!present);
                }
                return Err(error);
            },
        };
        if let SolverStatus::Solved(_) = status {
            proof {
                lemma_solved_guess_is_answer(picked, g);
                lemma_solved_iff_same_letters(guess, answer);
                lemma_valid_letters_determine_word(guess, answer);
            }
            return Ok(steps);
        }
        proof {
            assert(solver.alive() == keep_where(before.alive(), code_is(c, g, feedback.0)));
            fuel = (fuel - 1) as nat;
        }
    }
}


/// Total number of guesses over the games against the first `k` words of
/// `answers`, each opening with `opening`.
pub open spec fn total_length(c: Corpus, opening: Word, answers: Seq<Word>, k: int) -> nat
    decreases k,
{
    if k <= 0 {
        0
    } else {
        total_length(c, opening, answers, k - 1) + game_length(c, opening, answers[k - 1])
    }
}

/// The longest of the games against the first `k` words of `answers`, each
/// opening with `opening` (0 for none).
pub open spec fn longest_length(c: Corpus, opening: Word, answers: Seq<Word>, k: int) -> nat
    decreases k,
{
    if k <= 0 {
        0
    } else {
        let rest = longest_length(c, opening, answers, k - 1);
        let n = game_length(c, opening, answers[k - 1]);
        if n > rest {
            n
        } else {
            rest
        }
    }
}

proof fn lemma_total_bound(c: Corpus, opening: Word, answers: Seq<Word>, k: int, limit: nat)
    requires
        0 <= k <= answers.len(),
        forall|i: int| 0 <= i < k ==> #[trigger] game_length(c, opening, answers[i]) <= limit,
    ensures
        total_length(c, opening, answers, k) <= k * limit,
        longest_length(c, opening, answers, k) <= limit,
    decreases k,
{
    if k > 0 {
        lemma_total_bound(c, opening, answers, k - 1, limit);
        assert(game_length(c, opening, answers[k - 1]) <= limit);
        assert((k - 1) * limit + limit == k * limit) by (nonlinear_arith);
    }
}

/// Plays every game that opens with `opening`, one per word of `answers`,
/// and returns the total number of guesses and the longest game. Fails, at
/// the first answer, as `simulate_with_opening` does.
#[verifier::rlimit(30)]
pub fn opening_totals(corpus: &Corpus, opening: Word, answers: &Vec<Word>) -> (r: Result<
    (usize, usize),
    SolverError,
>)
    requires
        solvable(*corpus),
        valid_words(*corpus),
        scores_match(*corpus),
        forall|i: int| 0 <= i < answers@.len() ==> is_valid_packed(#[trigger] answers@[i].0),
        answers@.len() * (corpus.num_answers() + 1) <= usize::MAX,
    ensures
        r is Ok <==> answers@.len() == 0 || (corpus.guess_list().contains(opening) && forall|i: int|
            0 <= i < answers@.len() ==> is_answer_word(*corpus, #[trigger] answers@[i])),
        r matches Ok(t) ==> t.0 == total_length(*corpus, opening, answers@, answers@.len() as int)
            && t.1 == longest_length(*corpus, opening, answers@, answers@.len() as int),
        r matches Err(e) ==> if corpus.guess_list().contains(opening) {
            e is Contradiction
        } else {
            e is UnknownGuess
        },
{
    let ghost n = answers@.len() as int;
    let ghost bound = (corpus.num_answers() + 1) as nat;
    let mut total_steps: usize = 0;
    let mut worst_case: usize = 0;
    let mut index: usize = 0;
    while index < answers.len()
        invariant
            solvable(*corpus),
            valid_words(*corpus),
            scores_match(*corpus),
            forall|i: int| 0 <= i < answers@.len() ==> is_valid_packed(#[trigger] answers@[i].0),
            n == answers@.len(),
            bound == corpus.num_answers() + 1,
            n * bound <= usize::MAX,
            index <= n,
            index > 0 ==> corpus.guess_list().contains(opening),
            forall|i: int| 0 <= i < index ==> is_answer_word(*corpus, #[trigger] answers@[i]),
            forall|i: int| 0 <= i < index ==> #[trigger] game_length(*corpus, opening, answers@[i]) <= bound,
            total_steps == total_length(*corpus, opening, answers@, index as int),
            worst_case == longest_length(*corpus, opening, answers@, index as int),
        decreases n - index,
    {
        let steps = simulate_with_opening(corpus, opening, answers[index]);
        let steps = match steps {
            Ok(steps) => steps,
            Err(error) => return Err(error),
        };
        proof {
            lemma_total_bound(*corpus, opening, answers@, index + 1, bound);
            assert((index + 1) * bound <= n * bound) by (nonlinear_arith)
                requires
                    index + 1 <= n,
                    0 <= bound,
            ;
        }
        total_steps = total_steps + steps;
        if steps > worst_case {
            worst_case = steps;
        }
        index += 1;
    }
    Ok((total_steps, worst_case))
}


// ---------------------------------------------------------------------------
// How openers split the answers
// ---------------------------------------------------------------------------

/// How a guess splits all answers at the start of a game: the largest
/// group, the sum of the squared group sizes (the answers left on average,
/// times the number of answers), and whether the guess is an answer itself.
#[derive(Clone, Copy, Debug, PartialEq, Eq, Structural)]
pub struct RootStats {
    pub guess: Word,
    pub worst_bucket: usize,
    pub expected_bucket_sum: usize,
    pub is_answer: bool,
}

/// The split of `answers` under `guess`.
pub open spec fn root_stats_of(guess: Word, answers: Seq<Word>) -> RootStats {
    let codes = codes_against(guess, answers);
    RootStats {
        guess,
        worst_bucket: largest_count(codes, 243) as usize,
        expected_bucket_sum: squared_counts(codes, 243) as usize,
        is_answer: answers.contains(guess),
    }
}

/// The packed words of `words`, as a set.
fn packed_word_set(words: &Vec<Word>) -> (set: BTreeSet<u32>)
    requires
        u32_keys_ordered(),
    ensures
        forall|x: u32| #[trigger] set@.contains(x) <==> exists|i: int|
            0 <= i < words@.len() && #[trigger] words@[i].0 == x,
{
    broadcast use vstd::std_specs::btree::group_btree_axioms;

    let mut set: BTreeSet<u32> = BTreeSet::new();
    let mut index: usize = 0;
    while index < words.len()
        invariant
            u32_keys_ordered(),
            index <= words@.len(),
            forall|x: u32| #[trigger] set@.contains(x) <==> exists|i: int|
                0 <= i < index && #[trigger] words@[i].0 == x,
        decreases words@.len() - index,
    {
        let x = words[index].0;
        let ghost before = set@;
        set.insert(x);
        proof {
            assert(set@ == before.insert(x));
            assert forall|y: u32| #[trigger] set@.contains(y) <==> exists|i: int|
                0 <= i < index + 1 && #[trigger] words@[i].0 == y by {
                if y == x {
                    assert(words@[index as int].0 == y);
                }
                if exists|i: int| 0 <= i < index + 1 && #[trigger] words@[i].0 == y {
                    let i = choose|i: int| 0 <= i < index + 1 && #[trigger] words@[i].0 == y;
                    if i < index {
                        assert(before.contains(y));
                    }
                }
                if before.contains(y) {
                    let i = choose|i: int| 0 <= i < index && #[trigger] words@[i].0 == y;
                    assert(words@[i].0 == y);
                }
            }
        }
        index += 1;
    }
    set
}

/// How each guess splits the answers, in guess order.
pub fn compute_root_stats(guesses: &Vec<Word>, answers: &Vec<Word>) -> (stats: Vec<RootStats>)
    requires
        answers@.len() <= 0xffff,
        forall|g: int, a: int|
            0 <= g < guesses@.len() && 0 <= a < answers@.len() ==> scorable(
                #[trigger] guesses@[g],
                #[trigger] answers@[a],
            ),
    ensures
        stats@.len() == guesses@.len(),
        forall|i: int|
            0 <= i < guesses@.len() ==> #[trigger] stats@[i] == root_stats_of(guesses@[i], answers@),
{
    broadcast use vstd::std_specs::btree::group_btree_axioms;

    proof {
        lemma_u32_set_order();
    }
    let answer_set = packed_word_set(answers);
    let mut stats: Vec<RootStats> = Vec::new();
    let mut index: usize = 0;
    while index < guesses.len()
        invariant
            u32_keys_ordered(),
            forall|x: u32| #[trigger] answer_set@.contains(x) <==> exists|i: int|
                0 <= i < answers@.len() && #[trigger] answers@[i].0 == x,
            answers@.len() <= 0xffff,
            forall|g: int, a: int|
                0 <= g < guesses@.len() && 0 <= a < answers@.len() ==> scorable(
                    #[trigger] guesses@[g],
                    #[trigger] answers@[a],
                ),
            index <= guesses@.len(),
            stats@.len() == index,
            forall|i: int| 0 <= i < index ==> #[trigger] stats@[i] == root_stats_of(guesses@[i], answers@),
        decreases guesses@.len() - index,
    {
        let guess = guesses[index];
        proof {
            assert forall|a: int| 0 <= a < answers@.len() implies scorable(guess, #[trigger] answers@[a]) by {
                assert(scorable(guesses@[index as int], answers@[a]));
            }
        }
        let (worst_bucket, expected_bucket_sum) = split_sizes(guess, answers);
        let is_answer = answer_set.contains(&guess.0);
        proof {
            assert(is_answer == answer_set@.contains(guess.0));
            if is_answer {
                let i = choose|i: int| 0 <= i < answers@.len() && #[trigger] answers@[i].0 == guess.0;
                assert(answers@[i] == guess);
            }
            if answers@.contains(guess) {
                let i = choose|i: int| 0 <= i < answers@.len() && answers@[i] == guess;
                assert(answers@[i].0 == guess.0);
            }
        }
        stats.push(RootStats { guess, worst_bucket, expected_bucket_sum, is_answer });
        index += 1;
    }
    stats
}

/// Ranking by the solver's own opening metric: smaller largest group, then
/// smaller squared sum, then answers first, then by word.
pub open spec fn root_before(l: RootStats, r: RootStats) -> bool {
    ||| l.worst_bucket < r.worst_bucket
    ||| (l.worst_bucket == r.worst_bucket && l.expected_bucket_sum < r.expected_bucket_sum)
    ||| (l.worst_bucket == r.worst_bucket && l.expected_bucket_sum == r.expected_bucket_sum
        && l.is_answer && !r.is_answer)
    ||| (l.worst_bucket == r.worst_bucket && l.expected_bucket_sum == r.expected_bucket_sum
        && l.is_answer == r.is_answer && l.guess.0 < r.guess.0)
}

fn ranks_first(l: &RootStats, r: &RootStats) -> (b: bool)
    ensures
        b == root_before(*l, *r),
{
    if l.worst_bucket != r.worst_bucket {
        return l.worst_bucket < r.worst_bucket;
    }
    if l.expected_bucket_sum != r.expected_bucket_sum {
        return l.expected_bucket_sum < r.expected_bucket_sum;
    }
    if l.is_answer != r.is_answer {
        return l.is_answer;
    }
    l.guess.0 < r.guess.0
}

/// Compares two splits by the solver's opening metric (see `root_before`).
pub fn compare_root_metric(left: &RootStats, right: &RootStats) -> (o: Ordering)
    ensures
        (o == Ordering::Less) == root_before(*left, *right),
        (o == Ordering::Greater) == root_before(*right, *left),
        (o == Ordering::Equal) == (*left == *right),
{
    if ranks_first(left, right) {
        Ordering::Less
    } else if ranks_first(right, left) {
        Ordering::Greater
    } else {
        proof {
            assert(left.guess.0 == right.guess.0);
            assert(left.guess == right.guess);
        }
        Ordering::Equal
    }
}

proof fn lemma_root_order(a: RootStats, b: RootStats, c: RootStats)
    ensures
        !root_before(a, a),
        root_before(a, b) ==> !root_before(b, a),
        root_before(a, b) && root_before(b, c) ==> root_before(a, c),
        a != b ==> root_before(a, b) || root_before(b, a),
{
    if a != b && a.worst_bucket == b.worst_bucket && a.expected_bucket_sum == b.expected_bucket_sum
        && a.is_answer == b.is_answer && a.guess.0 == b.guess.0 {
        assert(a.guess == b.guess);
    }
}

/// The opening metric ranks by each key in turn: a smaller largest group
/// wins; with equal largest groups a smaller squared sum wins, whether or not
/// either guess is an answer; with both equal an answer beats a non-answer;
/// with all three equal the smaller word wins. It is a strict total order on
/// splits, so `compare_root_metric` answers `Less`, `Greater` or `Equal` as
/// these keys decide.
pub proof fn lemma_root_metric_keys(l: RootStats, r: RootStats)
    ensures
        l.worst_bucket < r.worst_bucket ==> root_before(l, r) && !root_before(r, l),
        l.worst_bucket == r.worst_bucket && l.expected_bucket_sum < r.expected_bucket_sum
            ==> root_before(l, r) && !root_before(r, l),
        l.worst_bucket == r.worst_bucket && l.expected_bucket_sum == r.expected_bucket_sum
            && l.is_answer && !r.is_answer ==> root_before(l, r) && !root_before(r, l),
        l.worst_bucket == r.worst_bucket && l.expected_bucket_sum == r.expected_bucket_sum
            && l.is_answer == r.is_answer && l.guess.0 < r.guess.0 ==> root_before(l, r)
            && !root_before(r, l),
        !root_before(l, l),
        l != r ==> root_before(l, r) || root_before(r, l),
{
    lemma_root_order(l, r, l);
}

/// `s` runs from first to last in the solver's opening order.
pub open spec fn root_ranked(s: Seq<RootStats>) -> bool {
    forall|i: int, j: int| 0 <= i < j < s.len() ==> !root_before(#[trigger] s[j], #[trigger] s[i])
}

/// The splits reordered by the solver's opening metric, best first.
pub fn sort_by_root_metric(stats: &Vec<RootStats>) -> (ranked: Vec<RootStats>)
    ensures
        ranked@.to_multiset() == stats@.to_multiset(),
        root_ranked(ranked@),
{
    broadcast use vstd::seq_lib::group_to_multiset_ensures;

    let mut ranked: Vec<RootStats> = Vec::new();
    let mut index: usize = 0;
    while index < stats.len()
        invariant
            index <= stats@.len(),
            ranked@.to_multiset() == stats@.take(index as int).to_multiset(),
            root_ranked(ranked@),
        decreases stats@.len() - index,
    {
        let item = stats[index];
        let mut pos: usize = 0;
        while pos < ranked.len() && !ranks_first(&item, &ranked[pos])
            invariant
                pos <= ranked@.len(),
                forall|k: int| 0 <= k < pos ==> !root_before(item, #[trigger] ranked@[k]),
            decreases ranked@.len() - pos,
        {
            pos += 1;
        }
        let ghost before = ranked@;
        ranked.insert(pos, item);
        proof {
            before.insert_ensures(pos as int, item);
            assert(stats@.take(index + 1) =~= stats@.take(index as int).push(item));
            vstd::seq_lib::to_multiset_insert(before, pos as int, item);
            vstd::seq_lib::to_multiset_build(stats@.take(index as int), item);
            assert(stats@.take(index + 1).to_multiset() == stats@.take(index as int).push(
                item,
            ).to_multiset());
            assert forall|i: int, j: int| 0 <= i < j < ranked@.len() implies !root_before(
                #[trigger] ranked@[j],
                #[trigger] ranked@[i],
            ) by {
                let p = pos as int;
                if j < p {
                } else if j == p {
                    lemma_root_order(item, ranked@[i], item);
                } else if i < p {
                    lemma_root_order(before[j - 1], before[i], before[i]);
                } else if i == p {
                    lemma_root_order(before[j - 1], item, before[p]);
                    if p < before.len() {
                        assert(root_before(item, before[p]));
                        if j - 1 > p {
                            assert(!root_before(before[j - 1], before[p]));
                        }
                    }
                } else {
                    assert(!root_before(before[j - 1], before[i - 1]));
                }
            }
        }
        index += 1;
    }
    proof {
        assert(stats@.take(stats@.len() as int) =~= stats@);
    }
    ranked
}

/// `w` is the guess of one of the first `k` splits in `stats`.
pub open spec fn among_first(stats: Seq<RootStats>, k: int, w: Word) -> bool {
    exists|i: int| 0 <= i < k && i < stats.len() && #[trigger] stats[i].guess == w
}

/// `x` is the packed word of one of the first `k` splits in `stats`.
pub open spec fn packed_among_first(stats: Seq<RootStats>, k: int, x: u32) -> bool {
    exists|i: int| 0 <= i < k && i < stats.len() && #[trigger] stats[i].guess.0 == x
}

/// `u32` keys follow the order laws that `BTreeSet` relies on.
pub open spec fn u32_keys_ordered() -> bool {
    vstd::laws_cmp::obeys_cmp::<u32>()
}

proof fn lemma_u32_set_order()
    ensures
        u32_keys_ordered(),
{
    broadcast use vstd::laws_cmp::group_laws_cmp;

}

/// In a sequence a `BTreeSet` hands out in increasing order, each key
/// compares as less than every later one.
proof fn lemma_key_less<K: Ord>(s: Seq<K>, i: int, j: int)
    requires
        vstd::laws_cmp::obeys_cmp::<K>(),
        vstd::std_specs::btree::increasing_seq(s),
        0 <= i < j < s.len(),
    ensures
        s[i].cmp_spec(&s[j]) is Less,
{
    vstd::std_specs::btree::axiom_increasing_seq_meaning::<K>(s);
}

/// Keys that a `BTreeSet` hands out in increasing order are increasing.
proof fn lemma_increasing_keys(s: Seq<&u32>)
    requires
        u32_keys_ordered(),
        vstd::std_specs::btree::increasing_seq(s),
    ensures
        forall|i: int, j: int| 0 <= i < j < s.len() ==> *s[i] < *s[j],
{
    broadcast use vstd::laws_cmp::group_laws_cmp;

    assert(vstd::laws_cmp::obeys_cmp::<&u32>());
    assert forall|i: int, j: int| 0 <= i < j < s.len() implies *s[i] < *s[j] by {
        lemma_key_less::<&u32>(s, i, j);
    }
}

/// Adds the packed words of the first eight splits in `stats` to `chosen`.
fn choose_first_eight(chosen: &mut BTreeSet<u32>, stats: &Vec<RootStats>)
    requires
        u32_keys_ordered(),
    ensures
        forall|x: u32|
            #[trigger] final(chosen)@.contains(x) <==> old(chosen)@.contains(x) || packed_among_first(
                stats@,
                8,
                x,
            ),
{
    broadcast use vstd::std_specs::btree::group_btree_axioms;

    let ghost start = chosen@;
    let mut index: usize = 0;
    while index < 8 && index < stats.len()
        invariant
            u32_keys_ordered(),
            index <= 8,
            index <= stats@.len(),
            forall|x: u32| #[trigger] chosen@.contains(x) <==> start.contains(x) || packed_among_first(
                stats@,
                index as int,
                x,
            ),
        decreases 8 - index,
    {
        let x = stats[index].guess.0;
        let ghost before = chosen@;
        chosen.insert(x);
        proof {
            assert(u32_keys_ordered());
            assert(chosen@ == before.insert(x));
            assert forall|y: u32| #[trigger] chosen@.contains(y) <==> start.contains(y) || packed_among_first(
                stats@,
                index + 1,
                y,
            ) by {
                assert(chosen@.contains(y) <==> before.contains(y) || y == x);
                assert(before.contains(y) <==> start.contains(y) || packed_among_first(
                    stats@,
                    index as int,
                    y,
                ));
                if y == x {
                    assert(stats@[index as int].guess.0 == y);
                }
                if packed_among_first(stats@, index as int, y) {
                    let i = choose|i: int|
                        0 <= i < index && i < stats@.len() && #[trigger] stats@[i].guess.0 == y;
                    assert(stats@[i].guess.0 == y);
                }
                if packed_among_first(stats@, index + 1, y) {
                    let i = choose|i: int|
                        0 <= i < index + 1 && i < stats@.len() && #[trigger] stats@[i].guess.0 == y;
                    if i < index {
                        assert(packed_among_first(stats@, index as int, y));
                    }
                }
            }
        }
        index += 1;
    }
    proof {
        assert forall|y: u32| packed_among_first(stats@, index as int, y) <==> packed_among_first(
            stats@,
            8,
            y,
        ) by {
            if packed_among_first(stats@, 8, y) {
                let i = choose|i: int| 0 <= i < 8 && i < stats@.len() && #[trigger] stats@[i].guess.0 == y;
                assert(i < index);
            }
        }
    }
}

/// The openers worth a full simulation: the guesses of the first eight
/// splits of each ranking, each once, in increasing packed order.
pub fn shortlist_candidates(
    by_root_metric: &Vec<RootStats>,
    by_entropy: &Vec<RootStats>,
) -> (shortlist: Vec<Word>)
    ensures
        sorted_words(shortlist@),
        forall|w: Word|
            shortlist@.contains(w) <==> among_first(by_root_metric@, 8, w) || among_first(
                by_entropy@,
                8,
                w,
            ),
{
    broadcast use vstd::std_specs::btree::group_btree_axioms;

    proof {
        lemma_u32_set_order();
    }
    let mut chosen: BTreeSet<u32> = BTreeSet::new();
    choose_first_eight(&mut chosen, by_root_metric);
    choose_first_eight(&mut chosen, by_entropy);
    let ghost keys = vstd::std_specs::btree::spec_btree_keys_iter(&chosen).remaining();
    let mut shortlist: Vec<Word> = Vec::new();
    for x in it: chosen.iter()
        invariant
            it.seq() == keys,
            shortlist@.len() == it.index(),
            forall|k: int| 0 <= k < it.index() ==> #[trigger] shortlist@[k].0 == *keys[k],
    {
        shortlist.push(Word::from_packed(*x));
    }
    proof {
        broadcast use vstd::laws_cmp::group_laws_cmp;

        assert(shortlist@.len() == keys.len());
        assert(vstd::laws_cmp::obeys_cmp::<&u32>());
        assert(vstd::std_specs::btree::increasing_seq(keys));
        lemma_increasing_keys(keys);
        let plain = keys.unref();
        assert(plain.to_set() == chosen@);
        assert forall|i: int, j: int| 0 <= i < j < shortlist@.len() implies #[trigger] shortlist@[i].0
            < #[trigger] shortlist@[j].0 by {
            assert(plain[i] == shortlist@[i].0 && plain[j] == shortlist@[j].0);
            assert(*keys[i] < *keys[j]);
        }
        assert forall|w: Word| shortlist@.contains(w) <==> among_first(by_root_metric@, 8, w)
            || among_first(by_entropy@, 8, w) by {
            if shortlist@.contains(w) {
                let k = choose|k: int| 0 <= k < shortlist@.len() && shortlist@[k] == w;
                assert(plain[k] == w.0);
                assert(plain.to_set().contains(w.0));
            }
            assert(chosen@.contains(w.0) <==> packed_among_first(by_root_metric@, 8, w.0)
                || packed_among_first(by_entropy@, 8, w.0));
            if chosen@.contains(w.0) {
                assert(plain.contains(w.0));
                let k = choose|k: int| 0 <= k < plain.len() && plain[k] == w.0;
                assert(shortlist@[k].0 == w.0);
                assert(shortlist@[k] == w);
            }
            if packed_among_first(by_root_metric@, 8, w.0) {
                let i = choose|i: int|
                    0 <= i < 8 && i < by_root_metric@.len() && #[trigger] by_root_metric@[i].guess.0
                        == w.0;
                assert(by_root_metric@[i].guess == w);
            }
            if packed_among_first(by_entropy@, 8, w.0) {
                let i = choose|i: int|
                    0 <= i < 8 && i < by_entropy@.len() && #[trigger] by_entropy@[i].guess.0 == w.0;
                assert(by_entropy@[i].guess == w);
            }
            if among_first(by_root_metric@, 8, w) {
                let i = choose|i: int|
                    0 <= i < 8 && i < by_root_metric@.len() && #[trigger] by_root_metric@[i].guess == w;
                assert(by_root_metric@[i].guess.0 == w.0);
            }
            if among_first(by_entropy@, 8, w) {
                let i = choose|i: int|
                    0 <= i < 8 && i < by_entropy@.len() && #[trigger] by_entropy@[i].guess == w;
                assert(by_entropy@[i].guess.0 == w.0);
            }
        }
    }
    shortlist
}

} // verus!
