//! A Wordle solver driven by a precomputed strategy bundle: the word lists,
//! the answers among the guesses, and the feedback of every guess against
//! every answer.
pub mod asset;
pub mod board;
pub mod corpus;
pub mod error;
pub mod opener;
pub mod perf;
pub mod solver;
pub mod types;

pub use asset::{BundleData, LoadedBundle, BUNDLE_VERSION};
pub use corpus::Corpus;
pub use error::SolverError;
pub use solver::{OfficialSolver, SolveStep, SolveTrace, SolverStatus};
pub use types::{score_guess, Feedback, Word, FEEDBACK_STATES, WORD_LEN};

use vstd::prelude::*;

verus! {

use crate::asset::{bundle_bytes_ok, decoded_guesses, decoded_ids, u32_at, u64_at};

/// The corpus hash stored in the bundle.
pub fn bundled_corpus_hash(bundle: &[u8]) -> (r: Result<u64, SolverError>)
    ensures
        r is Ok <==> bundle_bytes_ok(bundle@),
        r matches Ok(h) ==> h == u64_at(bundle@, 8),
        r matches Err(e) ==> e is AssetCorrupt,
{
    Ok(Corpus::load(bundle)?.corpus_hash())
}

/// Number of guesses in the bundle.
pub fn bundled_guess_count(bundle: &[u8]) -> (r: Result<usize, SolverError>)
    ensures
        r is Ok <==> bundle_bytes_ok(bundle@),
        r matches Ok(n) ==> n == u32_at(bundle@, 16),
        r matches Err(e) ==> e is AssetCorrupt,
{
    Ok(Corpus::load(bundle)?.guess_count())
}

/// Number of answers in the bundle.
pub fn bundled_answer_count(bundle: &[u8]) -> (r: Result<usize, SolverError>)
    ensures
        r is Ok <==> bundle_bytes_ok(bundle@),
        r matches Ok(n) ==> n == u32_at(bundle@, 20),
        r matches Err(e) ==> e is AssetCorrupt,
{
    Ok(Corpus::load(bundle)?.answer_count())
}

/// The opening guess stored in the bundle.
pub fn bundled_opening_guess(bundle: &[u8]) -> (r: Result<Word, SolverError>)
    ensures
        r is Ok <==> bundle_bytes_ok(bundle@),
        r matches Ok(w) ==> w == decoded_guesses(bundle@)[u32_at(bundle@, 24) as int],
        r matches Err(e) ==> e is AssetCorrupt,
{
    let corpus = Corpus::load(bundle)?;
    Ok(corpus.guess_word(corpus.first_guess_index()))
}

/// The answer words of the bundle, in answer order.
pub fn bundled_answers(bundle: &[u8]) -> (r: Result<Vec<Word>, SolverError>)
    ensures
        r is Ok <==> bundle_bytes_ok(bundle@),
        r matches Ok(words) ==> words@.len() == decoded_ids(bundle@).len() && forall|a: int|
            0 <= a < words@.len() ==> #[trigger] words@[a] == decoded_guesses(
                bundle@,
            )[decoded_ids(bundle@)[a] as int],
        r matches Err(e) ==> e is AssetCorrupt,
{
    let corpus = Corpus::load(bundle)?;
    let answer_count = corpus.answer_count();
    let mut words: Vec<Word> = Vec::new();
    let mut answer_index: usize = 0;
    while answer_index < answer_count
        invariant
            corpus.wf(),
            answer_count == corpus.num_answers(),
            corpus.guess_list() == decoded_guesses(bundle@),
            corpus.answer_list() == decoded_ids(bundle@),
            answer_index <= answer_count,
            words@.len() == answer_index,
            forall|a: int|
                0 <= a < answer_index ==> #[trigger] words@[a] == corpus.answer_word_at(a),
        decreases answer_count - answer_index,
    {
        words.push(corpus.answer_word(answer_index));
        answer_index += 1;
    }
    Ok(words)
}

/// The guess words of the bundle, in guess order.
pub fn bundled_guesses(bundle: &[u8]) -> (r: Result<Vec<Word>, SolverError>)
    ensures
        r is Ok <==> bundle_bytes_ok(bundle@),
        r matches Ok(words) ==> words@ == decoded_guesses(bundle@),
        r matches Err(e) ==> e is AssetCorrupt,
{
    let corpus = Corpus::load(bundle)?;
    let guess_count = corpus.guess_count();
    let mut words: Vec<Word> = Vec::new();
    let mut guess_index: usize = 0;
    while guess_index < guess_count
        invariant
            guess_count == corpus.num_guesses(),
            corpus.guess_list() == decoded_guesses(bundle@),
            guess_index <= guess_count,
            words@ == corpus.guess_list().take(guess_index as int),
        decreases guess_count - guess_index,
    {
        words.push(corpus.guess_word(guess_index));
        assert(words@ =~= corpus.guess_list().take(guess_index + 1));
        guess_index += 1;
    }
    assert(words@ =~= corpus.guess_list());
    Ok(words)
}

} // verus!
