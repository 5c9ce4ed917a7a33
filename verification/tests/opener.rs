use std::cmp::Ordering;

use wordle_solver::board::feedback_buckets;
use wordle_solver::opener::{
    compare_root_metric, compute_root_stats, opening_totals, shortlist_candidates,
    simulate_with_opening, sort_by_root_metric, RootStats,
};
use wordle_solver::solver::{corpus_is_scored, is_valid_word};
use wordle_solver::{score_guess, BundleData, Corpus, SolverError, Word};

const ANSWERS: [&str; 10] = [
    "cigar", "humph", "sissy", "blush", "floss", "trace", "crate", "react", "heath", "model",
];

const EXTRA_GUESSES: [&str; 3] = ["salet", "lymph", "roate"];

fn word(text: &str) -> Word {
    Word::parse(text).expect("test word should parse")
}

fn words(texts: &[&str]) -> Vec<Word> {
    texts.iter().map(|t| word(t)).collect()
}

fn bundle_data() -> BundleData {
    let mut guesses: Vec<Word> =
        EXTRA_GUESSES.iter().chain(ANSWERS.iter()).map(|t| word(t)).collect();
    guesses.sort_by_key(|w| w.packed());
    let answer_ids = ANSWERS
        .iter()
        .map(|t| guesses.iter().position(|w| *w == word(t)).unwrap() as u16)
        .collect();
    let mut feedback_matrix = Vec::new();
    for &guess in &guesses {
        for answer in ANSWERS {
            feedback_matrix.push(score_guess(guess, word(answer)).code());
        }
    }
    let first_guess_index = guesses.iter().position(|w| *w == word("trace")).unwrap() as u32;
    BundleData {
        corpus_hash: 11,
        first_guess_index,
        guesses,
        answer_ids,
        feedback_matrix,
    }
}

fn test_corpus() -> Corpus {
    Corpus::load(&bundle_data().encode()).expect("bundle should load")
}

fn brute_split(guess: Word, answers: &[Word]) -> (usize, usize) {
    let mut buckets = [0usize; 243];
    for &answer in answers {
        buckets[score_guess(guess, answer).code() as usize] += 1;
    }
    (
        *buckets.iter().max().unwrap(),
        buckets.iter().map(|b| b * b).sum(),
    )
}

fn stats(guess: &str, worst: usize, sum: usize, is_answer: bool) -> RootStats {
    RootStats {
        guess: word(guess),
        worst_bucket: worst,
        expected_bucket_sum: sum,
        is_answer,
    }
}

#[test]
fn buckets_count_the_answers_per_feedback() {
    let answers = words(&ANSWERS);
    let buckets = feedback_buckets(word("trace"), &answers);
    assert_eq!(buckets.iter().sum::<usize>(), ANSWERS.len());
    assert_eq!(buckets[242], 1);
    assert_eq!(buckets[0], 4); // humph, sissy, blush, floss
    for code in 0..243usize {
        let expected = answers
            .iter()
            .filter(|&&a| score_guess(word("trace"), a).code() as usize == code)
            .count();
        assert_eq!(buckets[code], expected);
    }
}

#[test]
fn root_stats_describe_each_split() {
    let guesses = words(&["trace", "salet", "humph", "zzzzz"]);
    let answers = words(&ANSWERS);
    let all = compute_root_stats(&guesses, &answers);
    assert_eq!(all.len(), guesses.len());
    for (stat, &guess) in all.iter().zip(&guesses) {
        let (worst, sum) = brute_split(guess, &answers);
        assert_eq!(stat.guess, guess);
        assert_eq!(stat.worst_bucket, worst);
        assert_eq!(stat.expected_bucket_sum, sum);
        assert_eq!(stat.is_answer, answers.contains(&guess));
    }
    // A word sharing no letter with any answer leaves them all together.
    assert_eq!(all[3].worst_bucket, ANSWERS.len());
    assert_eq!(all[3].expected_bucket_sum, ANSWERS.len() * ANSWERS.len());
}

#[test]
fn root_metric_orders_by_worst_then_sum_then_answers_then_word() {
    let base = stats("crane", 5, 40, true);
    assert_eq!(compare_root_metric(&base, &base), Ordering::Equal);
    assert_eq!(compare_root_metric(&base, &stats("crane", 6, 1, true)), Ordering::Less);
    assert_eq!(compare_root_metric(&base, &stats("aaaaa", 5, 39, true)), Ordering::Greater);
    assert_eq!(compare_root_metric(&base, &stats("aaaaa", 5, 40, false)), Ordering::Less);
    assert_eq!(compare_root_metric(&stats("aaaaa", 5, 40, false), &base), Ordering::Greater);
    // Ties go by the packed word, whose highest bits hold the last letters:
    // "trace" packs smaller than "crane" ('c' < 'n' in the fourth slot).
    assert_eq!(
        compare_root_metric(&base, &stats("trace", 5, 40, true)),
        Ordering::Greater
    );
    assert!(word("trace").packed() < word("crane").packed());
}

#[test]
fn ranking_sorts_a_permutation() {
    let guesses = words(&["trace", "salet", "humph", "zzzzz", "lymph", "roate", "crate"]);
    let all = compute_root_stats(&guesses, &words(&ANSWERS));
    let ranked = sort_by_root_metric(&all);
    assert_eq!(ranked.len(), all.len());
    for pair in ranked.windows(2) {
        assert_ne!(compare_root_metric(&pair[0], &pair[1]), Ordering::Greater);
    }
    let mut expected = all.clone();
    expected.sort_by(compare_root_metric);
    assert_eq!(ranked, expected);
    assert_eq!(ranked.last().unwrap().guess, word("zzzzz"));
}

#[test]
fn shortlist_merges_the_top_eight_of_both_rankings() {
    let root: Vec<RootStats> = ["trace", "crate", "react", "salet", "roate", "cigar", "humph",
        "sissy", "blush", "floss"]
        .iter()
        .map(|t| stats(t, 1, 1, false))
        .collect();
    let entropy: Vec<RootStats> = ["heath", "trace", "model"]
        .iter()
        .map(|t| stats(t, 1, 1, false))
        .collect();
    let shortlist = shortlist_candidates(&root, &entropy);
    let mut expected: Vec<Word> = words(&[
        "trace", "crate", "react", "salet", "roate", "cigar", "humph", "sissy", "heath", "model",
    ]);
    expected.sort();
    assert_eq!(shortlist, expected);
    assert!(!shortlist.contains(&word("blush")));
    assert!(shortlist_candidates(&Vec::new(), &Vec::new()).is_empty());
}

#[test]
fn opening_totals_add_up_the_games() {
    let corpus = test_corpus();
    let answers = words(&ANSWERS);
    for opening in ["trace", "salet", "humph"] {
        let (total, worst) = opening_totals(&corpus, word(opening), &answers).unwrap();
        let games: Vec<usize> = answers
            .iter()
            .map(|&a| simulate_with_opening(&corpus, word(opening), a).unwrap())
            .collect();
        assert_eq!(total, games.iter().sum::<usize>());
        assert_eq!(worst, *games.iter().max().unwrap());
        assert!(worst <= ANSWERS.len() + 1);
    }
    assert_eq!(opening_totals(&corpus, word("zzzzz"), &Vec::new()).unwrap(), (0, 0));
    assert!(matches!(
        opening_totals(&corpus, word("zzzzz"), &answers),
        Err(SolverError::UnknownGuess)
    ));
    assert!(matches!(
        opening_totals(&corpus, word("trace"), &words(&["cigar", "salet"])),
        Err(SolverError::Contradiction)
    ));
}

#[test]
fn scored_corpora_are_recognised() {
    let corpus = test_corpus();
    assert!(corpus_is_scored(&corpus));
    let mut tampered = bundle_data();
    tampered.feedback_matrix[3] = (tampered.feedback_matrix[3] + 1) % 243;
    let tampered = Corpus::load(&tampered.encode()).unwrap();
    assert!(!corpus_is_scored(&tampered));
    let mut unsorted = bundle_data();
    unsorted.guesses.swap(0, 1);
    let unsorted = Corpus::load(&unsorted.encode()).unwrap();
    assert!(!corpus_is_scored(&unsorted));
}

#[test]
fn valid_words_spell_five_letters() {
    assert!(is_valid_word(word("zzzzz")));
    assert!(is_valid_word(word("aaaaa")));
    assert!(!is_valid_word(Word::from_packed(26)));
    assert!(!is_valid_word(Word::from_packed(1 << 25)));
    assert!(!is_valid_word(Word::from_packed(31 << 20)));
}
