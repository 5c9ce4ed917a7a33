use wordle_solver::{
    bundled_answer_count, bundled_answers, bundled_corpus_hash, bundled_guess_count,
    bundled_guesses, bundled_opening_guess, score_guess, BundleData, Corpus, Feedback,
    LoadedBundle, OfficialSolver, SolverError, SolverStatus, Word, BUNDLE_VERSION,
};

const ANSWERS: [&str; 40] = [
    "cigar", "rebut", "sissy", "humph", "awake", "blush", "focal", "evade", "naval", "serve",
    "heath", "dwarf", "model", "karma", "stink", "grade", "quiet", "bench", "abate", "feign",
    "major", "death", "fresh", "crust", "stool", "colon", "abase", "marry", "react", "batty",
    "pride", "floss", "helix", "croak", "staff", "paper", "unfed", "whelp", "trace", "outdo",
];

const EXTRA_GUESSES: [&str; 4] = ["salet", "roate", "crane", "lymph"];

fn word(text: &str) -> Word {
    Word::parse(text).expect("test word should parse")
}

/// A strategy bundle over the given words: guesses in packed order, the
/// answers among them, and the scoring of every guess against every answer.
fn bundle_data(guesses: &[&str], answers: &[&str], opening: &str) -> BundleData {
    let mut words: Vec<Word> = guesses.iter().chain(answers.iter()).map(|t| word(t)).collect();
    words.sort_by_key(|w| w.packed());
    words.dedup();
    let answer_ids = answers
        .iter()
        .map(|t| words.iter().position(|w| *w == word(t)).unwrap() as u16)
        .collect();
    let mut feedback_matrix = Vec::new();
    for &guess in &words {
        for answer in answers {
            feedback_matrix.push(score_guess(guess, word(answer)).code());
        }
    }
    let first_guess_index = words.iter().position(|w| *w == word(opening)).unwrap() as u32;
    BundleData {
        corpus_hash: 0x5eed_0001_cafe_f00d,
        first_guess_index,
        guesses: words,
        answer_ids,
        feedback_matrix,
    }
}

fn test_bundle() -> Vec<u8> {
    bundle_data(&EXTRA_GUESSES, &ANSWERS, "trace").encode()
}

fn test_corpus() -> Corpus {
    Corpus::load(&test_bundle()).expect("bundle should load")
}

#[test]
fn solver_handles_known_word() {
    let corpus = test_corpus();
    let answer = Word::parse("cigar").expect("test word should parse");
    let trace =
        OfficialSolver::simulate(&corpus, answer).expect("solver should simulate known answer");
    assert_eq!(trace.answer, answer);
    assert!(trace
        .steps
        .last()
        .expect("trace should contain at least one step")
        .feedback
        .is_solved());
    assert!(trace.steps.len() <= 6);
}

#[test]
fn first_guess_matches_bundle() {
    let corpus = test_corpus();
    let mut solver = OfficialSolver::new(&corpus);
    assert_eq!(solver.next_guess().as_string(), "trace");
}

#[test]
fn contradiction_is_rejected() {
    let corpus = test_corpus();
    let mut solver = OfficialSolver::new(&corpus);
    let guess = solver.next_guess();
    let status = solver
        .apply_feedback(Feedback::parse("bbbbb").expect("feedback should parse"))
        .expect("feedback should be accepted");
    assert_eq!(status, SolverStatus::InProgress);
    assert_eq!(
        score_guess(guess, Word::parse("cigar").expect("test word should parse"))
            .as_string()
            .len(),
        5
    );
}

#[test]
fn solved_sessions_reject_more_feedback() {
    let corpus = test_corpus();
    let mut solver = OfficialSolver::new(&corpus);
    let guess = solver.next_guess();
    let result = solver.apply_feedback(
        if guess == Word::parse("trace").expect("test word should parse") {
            Feedback::parse("ggggg").expect("feedback should parse")
        } else {
            panic!("unexpected opening guess");
        },
    );
    assert!(matches!(result, Ok(SolverStatus::Solved(_))));
    assert!(solver
        .apply_feedback(Feedback::parse("bbbbb").expect("feedback should parse"))
        .is_err());
}

#[test]
fn every_answer_is_solved_and_every_step_tells_the_truth() {
    let corpus = test_corpus();
    for text in ANSWERS {
        let answer = word(text);
        let trace = OfficialSolver::simulate(&corpus, answer).expect("answer should simulate");
        assert_eq!(trace.answer, answer);
        let (last, earlier) = trace.steps.split_last().expect("at least one step");
        assert_eq!(last.guess, answer);
        assert!(last.feedback.is_solved());
        assert_eq!(last.remaining_answers, 1);
        for step in earlier {
            assert!(!step.feedback.is_solved());
            assert_eq!(step.feedback, score_guess(step.guess, answer));
        }
        assert!(trace.steps.len() <= ANSWERS.len() + 1);
    }
}

#[test]
fn simulate_rejects_words_that_are_not_answers() {
    let corpus = test_corpus();
    assert!(matches!(
        OfficialSolver::simulate(&corpus, word("salet")),
        Err(SolverError::UnknownAnswer)
    ));
    assert!(matches!(
        OfficialSolver::simulate(&corpus, word("zzzzz")),
        Err(SolverError::UnknownAnswer)
    ));
}

#[test]
fn bundle_bytes_roundtrip() {
    let data = bundle_data(&EXTRA_GUESSES, &ANSWERS, "trace");
    let bytes = data.encode();
    assert_eq!(&bytes[0..4], b"WDL1");
    assert_eq!(u32::from_le_bytes(bytes[4..8].try_into().unwrap()), BUNDLE_VERSION);
    assert_eq!(
        bytes.len(),
        28 + 4 * data.guesses.len() + 2 * data.answer_ids.len()
            + data.guesses.len() * data.answer_ids.len()
    );
    let loaded = LoadedBundle::parse(&bytes).expect("encoded bundle should parse");
    assert_eq!(loaded.corpus_hash, data.corpus_hash);
    assert_eq!(loaded.first_guess_index, data.first_guess_index as usize);
    assert_eq!(loaded.guesses, data.guesses);
    assert_eq!(loaded.answer_ids, data.answer_ids);
    assert_eq!(loaded.feedback_matrix, data.feedback_matrix);
}

#[test]
fn parsed_bundles_encode_back_to_their_bytes() {
    let bytes = test_bundle();
    let loaded = LoadedBundle::parse(&bytes).expect("bundle should parse");
    let data = BundleData {
        corpus_hash: loaded.corpus_hash,
        first_guess_index: loaded.first_guess_index as u32,
        guesses: loaded.guesses,
        answer_ids: loaded.answer_ids,
        feedback_matrix: loaded.feedback_matrix,
    };
    assert_eq!(data.encode(), bytes);
}

#[test]
fn corrupt_bundles_are_rejected() {
    let good = test_bundle();
    assert!(LoadedBundle::parse(&good).is_ok());

    let mut bad_magic = good.clone();
    bad_magic[0] = b'X';
    let mut bad_version = good.clone();
    bad_version[4] = 2;
    let mut truncated = good.clone();
    truncated.pop();
    let mut padded = good.clone();
    padded.push(0);
    let short = good[..27].to_vec();

    for bytes in [bad_magic, bad_version, truncated, padded, short, Vec::new()] {
        assert!(matches!(LoadedBundle::parse(&bytes), Err(SolverError::AssetCorrupt)));
        assert!(matches!(Corpus::load(&bytes), Err(SolverError::AssetCorrupt)));
    }
}

#[test]
fn bundles_with_bad_indices_are_rejected() {
    let mut opening_out_of_range = bundle_data(&EXTRA_GUESSES, &ANSWERS, "trace");
    opening_out_of_range.first_guess_index = opening_out_of_range.guesses.len() as u32;
    let mut repeated_answer = bundle_data(&EXTRA_GUESSES, &ANSWERS, "trace");
    repeated_answer.answer_ids[1] = repeated_answer.answer_ids[0];
    let mut answer_out_of_range = bundle_data(&EXTRA_GUESSES, &ANSWERS, "trace");
    answer_out_of_range.answer_ids[0] = answer_out_of_range.guesses.len() as u16;
    for data in [opening_out_of_range, repeated_answer, answer_out_of_range] {
        let bytes = data.encode();
        assert!(matches!(LoadedBundle::parse(&bytes), Err(SolverError::AssetCorrupt)));
    }
}

#[test]
fn bundled_metadata_reads_the_header() {
    let bytes = test_bundle();
    let guess_total = ANSWERS.len() + EXTRA_GUESSES.len();
    assert_eq!(bundled_corpus_hash(&bytes).unwrap(), 0x5eed_0001_cafe_f00d);
    assert_eq!(bundled_guess_count(&bytes).unwrap(), guess_total);
    assert_eq!(bundled_answer_count(&bytes).unwrap(), ANSWERS.len());
    assert_eq!(bundled_opening_guess(&bytes).unwrap().as_string(), "trace");
    let answers = bundled_answers(&bytes).unwrap();
    assert_eq!(answers, ANSWERS.iter().map(|t| word(t)).collect::<Vec<_>>());
    let guesses = bundled_guesses(&bytes).unwrap();
    assert_eq!(guesses.len(), guess_total);
    assert!(guesses.windows(2).all(|pair| pair[0].packed() < pair[1].packed()));
    assert!(matches!(bundled_answer_count(&bytes[1..]), Err(SolverError::AssetCorrupt)));
}

#[test]
fn corpus_lookups_agree() {
    let corpus = test_corpus();
    assert_eq!(corpus.corpus_hash(), 0x5eed_0001_cafe_f00d);
    assert_eq!(corpus.answer_count(), ANSWERS.len());
    assert_eq!(corpus.guess_count(), ANSWERS.len() + EXTRA_GUESSES.len());
    assert_eq!(corpus.guess_word(corpus.first_guess_index()), word("trace"));
    for (answer_index, text) in ANSWERS.iter().enumerate() {
        let w = word(text);
        assert_eq!(corpus.answer_word(answer_index), w);
        assert_eq!(corpus.find_answer(w), Some(answer_index));
        let guess_index = corpus.find_guess(w).expect("answers are guesses");
        assert_eq!(corpus.answer_guess_index(answer_index), guess_index);
        assert_eq!(corpus.answer_index_for_guess(guess_index), Some(answer_index));
        assert!(corpus.is_answer_guess(guess_index));
        assert_eq!(corpus.guess_word(guess_index), w);
    }
    for text in EXTRA_GUESSES {
        let guess_index = corpus.find_guess(word(text)).expect("extra guesses are guesses");
        assert_eq!(corpus.answer_index_for_guess(guess_index), None);
        assert!(!corpus.is_answer_guess(guess_index));
        assert_eq!(corpus.find_answer(word(text)), None);
    }
    assert_eq!(corpus.find_guess(word("zzzzz")), None);
}

#[test]
fn feedback_rows_hold_the_scoring() {
    let corpus = test_corpus();
    let guess_index = corpus.find_guess(word("crane")).unwrap();
    let row = corpus.feedback_row(guess_index);
    assert_eq!(row.len(), ANSWERS.len());
    for (answer_index, text) in ANSWERS.iter().enumerate() {
        let expected = score_guess(word("crane"), word(text));
        assert_eq!(row[answer_index], expected.code());
        assert_eq!(corpus.feedback(guess_index, answer_index), expected);
    }
}

#[test]
fn feedback_needs_a_pending_guess() {
    let corpus = test_corpus();
    let mut solver = OfficialSolver::new(&corpus);
    assert_eq!(solver.pending_guess().unwrap(), None);
    assert!(matches!(
        solver.apply_feedback(Feedback::solved()),
        Err(SolverError::GuessNotIssued)
    ));
    assert_eq!(solver.remaining_answers(), ANSWERS.len());
}

#[test]
fn issuing_an_unknown_word_changes_nothing() {
    let corpus = test_corpus();
    let mut solver = OfficialSolver::new(&corpus);
    assert!(matches!(solver.issue_guess(word("zzzzz")), Err(SolverError::UnknownGuess)));
    assert_eq!(solver.pending_guess().unwrap(), None);
    assert_eq!(solver.issue_guess(word("crane")).unwrap(), word("crane"));
    assert_eq!(solver.pending_guess().unwrap(), Some(word("crane")));
}

#[test]
fn feedback_no_answer_agrees_with_is_a_contradiction() {
    let corpus = test_corpus();
    let mut solver = OfficialSolver::new(&corpus);
    solver.issue_guess(word("humph")).unwrap();
    // Only "humph" itself shows all green; "ggggb" fits no answer.
    assert!(matches!(
        solver.apply_feedback(Feedback::parse("ggggb").unwrap()),
        Err(SolverError::Contradiction)
    ));
    assert_eq!(solver.remaining_answers(), ANSWERS.len());
    assert_eq!(solver.pending_guess().unwrap(), None);
}

#[test]
fn true_feedback_keeps_the_answer_and_only_removes() {
    let corpus = test_corpus();
    let answer = word("colon");
    let mut solver = OfficialSolver::new(&corpus);
    let mut before = solver.remaining_answers();
    loop {
        let guess = solver.next_guess();
        let status = solver
            .apply_feedback(score_guess(guess, answer))
            .expect("true feedback is never a contradiction");
        let after = solver.remaining_answers();
        assert!(after <= before);
        assert!(solver.remaining_candidates().unwrap().contains(&answer));
        before = after;
        if let SolverStatus::Solved(found) = status {
            assert_eq!(found, answer);
            break;
        }
    }
    assert_eq!(solver.next_guess(), answer);
}

#[test]
fn remaining_candidates_follow_feedback() {
    let corpus = test_corpus();
    let mut solver = OfficialSolver::new(&corpus);
    let guess = solver.next_guess();
    let feedback = score_guess(guess, word("cigar"));
    solver.apply_feedback(feedback).unwrap();
    let expected: Vec<Word> = ANSWERS
        .iter()
        .map(|t| word(t))
        .filter(|&a| score_guess(guess, a) == feedback)
        .collect();
    assert_eq!(solver.remaining_candidates().unwrap(), expected);
    assert_eq!(solver.remaining_answers(), expected.len());
}

#[test]
fn reset_starts_over() {
    let corpus = test_corpus();
    let mut solver = OfficialSolver::try_new(&corpus).expect("session should start");
    let guess = solver.next_guess();
    solver.apply_feedback(score_guess(guess, word("cigar"))).unwrap();
    assert!(solver.remaining_answers() < ANSWERS.len());
    solver.reset();
    assert_eq!(solver.remaining_answers(), ANSWERS.len());
    assert_eq!(solver.pending_guess().unwrap(), None);
    assert_eq!(solver.next_guess(), word("trace"));
}

#[test]
fn error_messages_describe_the_error() {
    assert_eq!(SolverError::InvalidWord.message(), "invalid word");
    assert_eq!(SolverError::InvalidFeedback.message(), "invalid feedback");
    assert_eq!(SolverError::UnknownAnswer.message(), "unknown answer");
    assert_eq!(SolverError::UnknownGuess.message(), "unknown guess");
    assert_eq!(
        SolverError::Contradiction.message(),
        "feedback contradicts previous constraints"
    );
    assert_eq!(SolverError::AlreadySolved.message(), "solver is already solved");
    assert_eq!(SolverError::GuessNotIssued.message(), "no pending solver guess");
    assert_eq!(SolverError::AssetCorrupt.message(), "bundled strategy asset is corrupt");
    assert_eq!(
        SolverError::Io(std::io::ErrorKind::NotFound).message(),
        "i/o error: NotFound"
    );
}

#[test]
fn state_panel_counts_many_candidates() {
    let corpus = test_corpus();
    let app = wordle_solver::board::App::new(&corpus).unwrap();
    assert_eq!(app.state_lines(), vec!["40 candidates remain.".to_string()]);
}

#[test]
fn games_end_even_when_a_word_solves_another_answer() {
    let mut data = bundle_data(&EXTRA_GUESSES, &ANSWERS, "trace");
    let answers = ANSWERS.len();
    let cigar_guess = data.guesses.iter().position(|w| *w == word("cigar")).unwrap();
    let humph = ANSWERS.iter().position(|t| *t == "humph").unwrap();
    data.feedback_matrix[cigar_guess * answers + humph] = 242;
    let corpus = Corpus::load(&data.encode()).unwrap();
    for text in ANSWERS {
        let trace = OfficialSolver::simulate(&corpus, word(text)).expect("game should end");
        assert!(trace.steps.last().unwrap().feedback.is_solved());
        assert!(trace.steps.len() <= ANSWERS.len() + 1);
    }
}

#[test]
fn the_opening_comes_from_the_bundle() {
    let corpus = Corpus::load(&bundle_data(&EXTRA_GUESSES, &ANSWERS, "salet").encode()).unwrap();
    let mut solver = OfficialSolver::new(&corpus);
    assert_eq!(solver.next_guess(), word("salet"));
}

#[test]
fn candidates_after_several_feedbacks_agree_with_all_of_them() {
    let corpus = test_corpus();
    let answer = word("model");
    let mut solver = OfficialSolver::new(&corpus);
    let mut shown: Vec<(Word, Feedback)> = Vec::new();
    for _ in 0..2 {
        let guess = solver.next_guess();
        let feedback = score_guess(guess, answer);
        if let SolverStatus::Solved(_) = solver.apply_feedback(feedback).unwrap() {
            break;
        }
        shown.push((guess, feedback));
    }
    let expected: Vec<Word> = ANSWERS
        .iter()
        .map(|t| word(t))
        .filter(|&a| shown.iter().all(|&(g, f)| score_guess(g, a) == f))
        .collect();
    assert!(expected.contains(&answer));
    assert_eq!(solver.remaining_candidates().unwrap(), expected);
}

#[test]
fn data_breaking_a_bound_encodes_to_refused_bytes() {
    let mut short_matrix = bundle_data(&EXTRA_GUESSES, &ANSWERS, "trace");
    short_matrix.feedback_matrix.pop();
    assert!(matches!(
        LoadedBundle::parse(&short_matrix.encode()),
        Err(SolverError::AssetCorrupt)
    ));
}
