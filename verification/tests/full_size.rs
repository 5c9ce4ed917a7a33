use wordle_solver::{
    bundled_answer_count, bundled_guess_count, bundled_opening_guess, score_guess, BundleData,
    Corpus, OfficialSolver, Word,
};

const ANSWER_COUNT: usize = 2315;

/// The word whose letters spell `n` in base 26 after a leading `a`.
fn counted_word(n: usize) -> Word {
    let mut letters = [b'a'; 5];
    let mut rest = n;
    for slot in (1..5).rev() {
        letters[slot] = b'a' + (rest % 26) as u8;
        rest /= 26;
    }
    Word::parse(std::str::from_utf8(&letters).unwrap()).expect("counted word should parse")
}

/// A bundle the size of the shipped one: 2315 answers (synthetic words and
/// "trace"), one guess more than the answers, and "trace" as the opening.
fn full_size_bundle() -> Vec<u8> {
    let trace = Word::parse("trace").expect("test word should parse");
    let mut answers: Vec<Word> = (0..ANSWER_COUNT - 1).map(counted_word).collect();
    answers.push(trace);
    answers.sort_by_key(|w| w.packed());
    let mut guesses = answers.clone();
    guesses.push(Word::parse("zzzzz").expect("test word should parse"));
    let answer_ids: Vec<u16> = (0..ANSWER_COUNT).map(|i| i as u16).collect();
    let mut feedback_matrix = Vec::with_capacity(guesses.len() * answers.len());
    for &guess in &guesses {
        for &answer in &answers {
            feedback_matrix.push(score_guess(guess, answer).code());
        }
    }
    let first_guess_index = guesses.iter().position(|w| *w == trace).unwrap() as u32;
    BundleData { corpus_hash: 0x5eed_0002_cafe_f00d, first_guess_index, guesses, answer_ids, feedback_matrix }
        .encode()
}

#[test]
fn bundled_asset_is_loadable() {
    let corpus = Corpus::load(&full_size_bundle()).expect("bundle should load");
    let solver = OfficialSolver::try_new(&corpus).expect("bundle should load");
    assert!(solver.remaining_answers() > 2000);
}

#[test]
fn bundled_metadata_is_exposed() {
    let bundle = full_size_bundle();
    assert_eq!(
        bundled_opening_guess(&bundle).expect("opening guess should load").as_string(),
        "trace"
    );
    assert_eq!(bundled_answer_count(&bundle).expect("answer count should load"), 2315);
    assert!(
        bundled_guess_count(&bundle).expect("guess count should load")
            > bundled_answer_count(&bundle).expect("answer count should load")
    );
}
