use wordle_solver::board::{
    feedback_to_marks, marks_to_feedback, select_guess, select_playable_guess, App, GuessPolicy,
    KeyAction, KeyOutcome, RowView, StatusKind, StatusLine, TileMark,
};
use wordle_solver::opener::simulate_with_opening;
use wordle_solver::perf::{PerfClock, PerfTimer};
use wordle_solver::{score_guess, BundleData, Corpus, Feedback, OfficialSolver, SolverError, Word};

const ANSWERS: [&str; 12] = [
    "cigar", "humph", "sissy", "blush", "floss", "trace", "crate", "react", "caret", "cater",
    "heath", "model",
];

const EXTRA_GUESSES: [&str; 2] = ["salet", "lymph"];

fn word(text: &str) -> Word {
    Word::parse(text).expect("test word should parse")
}

fn test_corpus() -> Corpus {
    let mut words: Vec<Word> =
        EXTRA_GUESSES.iter().chain(ANSWERS.iter()).map(|t| word(t)).collect();
    words.sort_by_key(|w| w.packed());
    let answer_ids = ANSWERS
        .iter()
        .map(|t| words.iter().position(|w| *w == word(t)).unwrap() as u16)
        .collect();
    let mut feedback_matrix = Vec::new();
    for &guess in &words {
        for answer in ANSWERS {
            feedback_matrix.push(score_guess(guess, word(answer)).code());
        }
    }
    let first_guess_index = words.iter().position(|w| *w == word("trace")).unwrap() as u32;
    let data = BundleData {
        corpus_hash: 7,
        first_guess_index,
        guesses: words,
        answer_ids,
        feedback_matrix,
    };
    Corpus::load(&data.encode()).expect("bundle should load")
}

fn marks(text: &str) -> [TileMark; 5] {
    let mut row = [TileMark::Unknown; 5];
    for (index, ch) in text.chars().enumerate() {
        row[index] = match ch {
            'b' => TileMark::Miss,
            'y' => TileMark::Present,
            'g' => TileMark::Exact,
            _ => TileMark::Unknown,
        };
    }
    row
}

fn enter_marks(app: &mut App, text: &str) {
    for ch in text.chars() {
        let key = match ch {
            'b' => KeyAction::MarkMiss,
            'y' => KeyAction::MarkPresent,
            'g' => KeyAction::MarkExact,
            _ => KeyAction::Clear,
        };
        assert_eq!(app.handle_key(key).unwrap(), KeyOutcome::Continue);
    }
}

#[test]
fn marks_roundtrip_to_feedback() {
    let marks = [
        TileMark::Miss,
        TileMark::Present,
        TileMark::Exact,
        TileMark::Miss,
        TileMark::Miss,
    ];
    let feedback = marks_to_feedback(&marks).expect("complete marks should convert");
    assert_eq!(feedback.as_string(), "bygbb");
    assert_eq!(feedback_to_marks(feedback), marks);
}

#[test]
fn incomplete_marks_reject_feedback() {
    let marks = [
        TileMark::Miss,
        TileMark::Unknown,
        TileMark::Exact,
        TileMark::Miss,
        TileMark::Miss,
    ];
    assert!(marks_to_feedback(&marks).is_none());
}

#[test]
fn feedback_to_marks_preserves_solver_strings() {
    let feedback = Feedback::parse("bgybb").expect("feedback should parse");
    let marks = feedback_to_marks(feedback);
    assert_eq!(
        marks_to_feedback(&marks)
            .expect("converted marks should round-trip")
            .as_string(),
        "bgybb"
    );
}

#[test]
fn every_feedback_roundtrips_through_marks() {
    for code in 0..243u8 {
        let feedback = Feedback::from_code(code);
        assert_eq!(marks_to_feedback(&feedback_to_marks(feedback)), Some(feedback));
    }
}

#[test]
fn marks_cycle_both_ways() {
    let all = [TileMark::Unknown, TileMark::Miss, TileMark::Present, TileMark::Exact];
    for mark in all {
        assert_eq!(mark.next().prev(), mark);
        assert_eq!(mark.prev().next(), mark);
        assert_eq!(mark.next().next().next().next(), mark);
    }
    assert_eq!(TileMark::Unknown.next(), TileMark::Miss);
    assert_eq!(TileMark::Exact.next(), TileMark::Unknown);
    assert_eq!(TileMark::Present.label(), "Y");
    assert_eq!(TileMark::Unknown.label(), " ");
    assert_eq!(TileMark::Miss.name(), "gray");
    assert_eq!(TileMark::Unknown.name(), "unset");
}

#[test]
fn policies_toggle_and_are_named() {
    assert_eq!(GuessPolicy::Playable.toggle(), GuessPolicy::BestInformation);
    assert_eq!(GuessPolicy::Playable.toggle().toggle(), GuessPolicy::Playable);
    assert_eq!(GuessPolicy::Playable.label(), "playable");
    assert_eq!(GuessPolicy::BestInformation.label(), "best-information");
}

#[test]
fn status_lines_keep_their_text() {
    let line = StatusLine::success("done".to_string());
    assert_eq!(line.kind, StatusKind::Success);
    assert_eq!(line.text, "done");
    assert_eq!(StatusLine::info("i".to_string()).kind, StatusKind::Info);
    assert_eq!(StatusLine::error("e".to_string()).kind, StatusKind::Error);
}

#[test]
fn playable_suggestion_is_the_best_splitting_candidate() {
    let corpus = test_corpus();
    let mut solver = OfficialSolver::new(&corpus);
    // The opening is suggested while every answer is possible.
    assert_eq!(select_playable_guess(&mut solver).unwrap(), word("trace"));
    solver
        .apply_feedback(score_guess(word("trace"), word("humph")))
        .unwrap();
    let candidates = solver.remaining_candidates().unwrap();
    assert!(candidates.len() > 2);
    let picked = select_playable_guess(&mut solver).unwrap();
    assert!(candidates.contains(&picked));
    let split = |guess: Word| {
        let mut buckets = [0usize; 243];
        for &answer in &candidates {
            buckets[score_guess(guess, answer).code() as usize] += 1;
        }
        let worst = *buckets.iter().max().unwrap();
        let squares: usize = buckets.iter().map(|b| b * b).sum();
        (worst, squares, guess.as_string())
    };
    for &other in &candidates {
        assert!(split(picked) <= split(other));
    }
    assert_eq!(solver.pending_guess().unwrap(), Some(picked));
}

#[test]
fn best_information_policy_takes_the_solver_suggestion() {
    let corpus = test_corpus();
    let mut first = OfficialSolver::new(&corpus);
    let mut second = OfficialSolver::new(&corpus);
    assert_eq!(
        select_guess(&mut first, GuessPolicy::BestInformation).unwrap(),
        second.next_guess()
    );
}

#[test]
fn a_new_board_suggests_the_opening() {
    let corpus = test_corpus();
    let app = App::new(&corpus).unwrap();
    assert_eq!(app.current_guess, word("trace"));
    assert_eq!(app.turn, 1);
    assert_eq!(app.policy, GuessPolicy::Playable);
    assert_eq!(app.cursor, 0);
    assert_eq!(app.feedback_row, [TileMark::Unknown; 5]);
    assert!(app.history.is_empty());
    assert_eq!(app.status.kind, StatusKind::Info);
    assert_eq!(app.status.text, "Play the word, mark the five tiles, then press Enter.");
    assert!(!app.is_finished());
    assert_eq!(app.remaining_candidates().unwrap().len(), ANSWERS.len());
}

#[test]
fn keys_move_and_mark_the_selected_tile() {
    let corpus = test_corpus();
    let mut app = App::new(&corpus).unwrap();
    app.handle_key(KeyAction::Left).unwrap();
    assert_eq!(app.cursor, 0);
    app.handle_key(KeyAction::Cycle).unwrap();
    assert_eq!(app.feedback_row[0], TileMark::Miss);
    assert_eq!(app.cursor, 1);
    app.handle_key(KeyAction::CycleBack).unwrap();
    assert_eq!(app.feedback_row[1], TileMark::Exact);
    assert_eq!(app.cursor, 1);
    app.handle_key(KeyAction::Clear).unwrap();
    assert_eq!(app.feedback_row[1], TileMark::Unknown);
    for _ in 0..10 {
        app.handle_key(KeyAction::Right).unwrap();
    }
    assert_eq!(app.cursor, 4);
    app.handle_key(KeyAction::MarkExact).unwrap();
    assert_eq!(app.cursor, 4);
    assert_eq!(app.feedback_row[4], TileMark::Exact);
    assert_eq!(app.handle_key(KeyAction::Ignore).unwrap(), KeyOutcome::Continue);
    assert_eq!(app.handle_key(KeyAction::Quit).unwrap(), KeyOutcome::Quit);
}

#[test]
fn confirming_an_incomplete_row_only_complains() {
    let corpus = test_corpus();
    let mut app = App::new(&corpus).unwrap();
    enter_marks(&mut app, "bgb");
    assert_eq!(app.handle_key(KeyAction::Submit).unwrap(), KeyOutcome::Continue);
    assert_eq!(app.status.kind, StatusKind::Error);
    assert_eq!(app.status.text, "Mark all five tiles before confirming.");
    assert_eq!(app.turn, 1);
    assert!(app.history.is_empty());
}

#[test]
fn a_whole_game_on_the_board() {
    let corpus = test_corpus();
    let mut app = App::new(&corpus).unwrap();
    let answer = word("caret");
    loop {
        let feedback = score_guess(app.current_guess, answer);
        enter_marks(&mut app, &feedback.as_string());
        assert_eq!(marks_to_feedback(&app.feedback_row), Some(feedback));
        let turn = app.turn;
        let outcome = app.handle_key(KeyAction::Submit).unwrap();
        let record = *app.history.last().unwrap();
        assert_eq!(record.feedback, feedback);
        if feedback.is_solved() {
            assert_eq!(outcome, KeyOutcome::Continue);
            assert_eq!(record.remaining_answers, 1);
            assert!(app.is_finished());
            assert_eq!(
                app.status.text,
                format!("Solved in {turn} turns. Answer: caret. Press r to start a new game.")
            );
            break;
        }
        assert_eq!(outcome, KeyOutcome::Suggested);
        assert_eq!(app.turn, turn + 1);
        assert_eq!(app.feedback_row, [TileMark::Unknown; 5]);
        assert_eq!(
            app.status.text,
            format!("Accepted. {} possible answers remain.", record.remaining_answers)
        );
        assert!(app.remaining_candidates().unwrap().contains(&answer));
    }
    // Confirming again after the win is an error from the solver.
    assert!(matches!(
        app.handle_key(KeyAction::Submit),
        Err(SolverError::AlreadySolved)
    ));
    assert_eq!(app.handle_key(KeyAction::Restart).unwrap(), KeyOutcome::Suggested);
    assert_eq!(app.turn, 1);
    assert!(app.history.is_empty());
    assert_eq!(app.current_guess, word("trace"));
}

#[test]
fn contradicting_marks_are_reported() {
    let corpus = test_corpus();
    let mut app = App::new(&corpus).unwrap();
    enter_marks(&mut app, "ggggb");
    assert_eq!(app.handle_key(KeyAction::Submit).unwrap(), KeyOutcome::Continue);
    assert_eq!(app.status.kind, StatusKind::Error);
    assert_eq!(
        app.status.text,
        "Those tile colors contradict earlier clues. Re-check the Wordle board."
    );
    assert!(app.history.is_empty());
    assert_eq!(app.remaining_candidates().unwrap().len(), ANSWERS.len());
}

#[test]
fn switching_mode_makes_a_new_suggestion() {
    let corpus = test_corpus();
    let mut app = App::new(&corpus).unwrap();
    enter_marks(&mut app, "bb");
    assert_eq!(app.handle_key(KeyAction::SwitchMode).unwrap(), KeyOutcome::Suggested);
    assert_eq!(app.policy, GuessPolicy::BestInformation);
    assert_eq!(app.feedback_row, [TileMark::Unknown; 5]);
    assert_eq!(app.cursor, 0);
    assert_eq!(app.current_guess, word("trace"));
    assert_eq!(
        app.status.text,
        "Switched to best-information mode. Suggestions may violate clue positions."
    );
    app.handle_key(KeyAction::SwitchMode).unwrap();
    assert_eq!(app.policy, GuessPolicy::Playable);
    assert_eq!(
        app.status.text,
        "Switched to playable mode. Suggestions will preserve all known clues."
    );
}

#[test]
fn games_with_a_chosen_opening_count_their_guesses() {
    let corpus = test_corpus();
    assert_eq!(simulate_with_opening(&corpus, word("cigar"), word("cigar")).unwrap(), 1);
    for opening in ["salet", "lymph", "trace", "model"] {
        for answer in ANSWERS {
            let steps = simulate_with_opening(&corpus, word(opening), word(answer)).unwrap();
            assert!(steps >= 1 && steps <= ANSWERS.len() + 1);
            if opening == answer {
                assert_eq!(steps, 1);
            } else {
                assert!(steps >= 2);
            }
        }
    }
    assert!(matches!(
        simulate_with_opening(&corpus, word("zzzzz"), word("cigar")),
        Err(SolverError::UnknownGuess)
    ));
    assert!(matches!(
        simulate_with_opening(&corpus, word("trace"), word("salet")),
        Err(SolverError::Contradiction)
    ));
}

#[test]
fn measurements_come_from_the_wall_clock() {
    let (measurement, value) = PerfTimer::measure(|| (1..=10u64).sum::<u64>());
    assert_eq!(value, 55);
    assert_eq!(measurement.clock(), PerfClock::StdInstant);
    assert_eq!(measurement.cycles(), None);
    assert_eq!(measurement.instructions(), None);
    assert_eq!(measurement.ticks(), measurement.nanos());
    assert_eq!(measurement.duration().as_nanos(), measurement.nanos() as u128);
    assert_eq!(measurement.tick_label(), "ticks");
    assert!(!PerfTimer::hardware_cycles_supported());
    assert_eq!(PerfTimer::hardware_cycles_status(), "unsupported platform");
    let timer = PerfTimer::start();
    assert_eq!(timer.stop().clock(), PerfClock::StdInstant);
}

#[test]
fn state_panel_lists_few_candidates_and_the_last_row() {
    let corpus = test_corpus();
    let mut app = App::new(&corpus).unwrap();
    assert_eq!(
        app.state_lines(),
        vec!["Candidates:".to_string(), ANSWERS.join(", ")]
    );
    assert_eq!(app.current_feedback_text(), "_____");
    enter_marks(&mut app, "bbbbb");
    assert_eq!(app.current_feedback_text(), "BBBBB");
    app.handle_key(KeyAction::Submit).unwrap();
    // "trace" all gray leaves the answers without t, r, a, c, e.
    assert_eq!(
        app.state_lines(),
        vec![
            "Candidates:".to_string(),
            "humph, sissy, blush, floss".to_string(),
            String::new(),
            "Last: TRACE  BBBBB  4 remain".to_string(),
        ]
    );
}

#[test]
fn state_panel_announces_the_win() {
    let corpus = test_corpus();
    let mut app = App::new(&corpus).unwrap();
    enter_marks(&mut app, "ggggg");
    app.handle_key(KeyAction::Submit).unwrap();
    assert_eq!(
        app.state_lines(),
        vec![
            "Candidates:".to_string(),
            "trace".to_string(),
            String::new(),
            "Last: TRACE  GGGGG  1 remain".to_string(),
            String::new(),
            "Solved. Press r for a new board.".to_string(),
        ]
    );
}

#[test]
fn rows_show_history_then_the_current_row() {
    let corpus = test_corpus();
    let mut app = App::new(&corpus).unwrap();
    assert_eq!(app.row_view(0), RowView::Current);
    assert_eq!(app.row_view(1), RowView::Blank);
    enter_marks(&mut app, "bbbbb");
    app.handle_key(KeyAction::Submit).unwrap();
    let record = app.history[0];
    assert_eq!(record.guess, word("trace"));
    assert_eq!(app.row_view(0), RowView::Played(record));
    assert_eq!(app.row_view(1), RowView::Current);
    assert_eq!(app.row_view(5), RowView::Blank);
    assert_eq!(app.row_view(usize::MAX), RowView::Blank);
}
