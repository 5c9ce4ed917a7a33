//! A loaded bundle: the guess list, the answers among it, and the feedback
//! matrix, with lookups by index and by word.
use vstd::prelude::*;

use crate::asset::{
    bundle_bytes_ok, decoded_guesses, decoded_ids, decoded_matrix, ids_ok, u32_at, u64_at,
    LoadedBundle,
};
use crate::error::SolverError;
use crate::types::{Feedback, Word};

verus! {

/// Marks a guess that is not an answer in the position table.
const NO_POSITION: u16 = 0xffff;

/// Guess words in strictly increasing packed order, which is what word
/// lookup needs.
pub open spec fn sorted_words(ws: Seq<Word>) -> bool {
    forall|i: int, j: int| 0 <= i < j < ws.len() ==> #[trigger] ws[i].0 < #[trigger] ws[j].0
}

/// The guess list, the answers among it, and the precomputed feedback of
/// every guess against every answer.
#[derive(Debug)]
pub struct Corpus {
    corpus_hash: u64,
    guesses: Vec<Word>,
    answer_ids: Vec<u16>,
    answer_positions: Vec<u16>,
    feedback_matrix: Vec<u8>,
    first_guess_index: usize,
}

impl Corpus {
    /// The hash that identifies the word lists.
    pub closed spec fn hash(&self) -> u64 {
        self.corpus_hash
    }

    /// All words that may be guessed.
    pub closed spec fn guess_list(&self) -> Seq<Word> {
        self.guesses@
    }

    /// For each answer, the index of its word in the guess list.
    pub closed spec fn answer_list(&self) -> Seq<u16> {
        self.answer_ids@
    }

    /// Feedback codes, one row of answers per guess.
    pub closed spec fn matrix(&self) -> Seq<u8> {
        self.feedback_matrix@
    }

    /// Index of the opening guess.
    pub closed spec fn opening(&self) -> int {
        self.first_guess_index as int
    }

    /// The position table agrees with the answer list.
    pub closed spec fn positions_ok(&self) -> bool {
        &&& self.answer_positions@.len() == self.guesses@.len()
        &&& forall|g: int|
            0 <= g < self.guesses@.len() ==> {
                let p = #[trigger] self.answer_positions@[g];
                ||| (p == NO_POSITION && !self.answer_ids@.contains(g as u16))
                ||| ((p as int) < self.answer_ids@.len() && self.answer_ids@[p as int] as int == g)
            }
    }

    /// Number of guesses.
    pub open spec fn num_guesses(&self) -> int {
        self.guess_list().len() as int
    }

    /// Number of answers.
    pub open spec fn num_answers(&self) -> int {
        self.answer_list().len() as int
    }

    /// The feedback code of guess `g` against answer `a`.
    pub open spec fn feedback_at(&self, g: int, a: int) -> u8 {
        self.matrix()[g * self.num_answers() + a]
    }

    /// The word of answer `a`.
    pub open spec fn answer_word_at(&self, a: int) -> Word {
        self.guess_list()[self.answer_list()[a] as int]
    }

    /// What a corpus guarantees: the opening guess exists, answers are
    /// distinct guesses, there are few enough guesses for 16-bit ids, and
    /// the matrix holds one code per guess and answer.
    pub open spec fn wf(&self) -> bool {
        &&& 0 <= self.opening() < self.num_guesses()
        &&& self.num_guesses() <= 0xffff
        &&& ids_ok(self.answer_list(), self.num_guesses())
        &&& self.num_answers() <= self.num_guesses()
        &&& self.matrix().len() == self.num_guesses() * self.num_answers()
        &&& self.positions_ok()
    }
}

/// The table that maps each guess index to its answer index, or to
/// `NO_POSITION` where the guess is not an answer.
fn answer_positions_for(guess_count: usize, answer_ids: &Vec<u16>) -> (r: Result<
    Vec<u16>,
    SolverError,
>)
    requires
        guess_count <= 0xffff,
        ids_ok(answer_ids@, guess_count as int),
    ensures
        match r {
            Ok(positions) => {
                &&& positions@.len() == guess_count
                &&& forall|g: int|
                    0 <= g < guess_count ==> {
                        let p = #[trigger] positions@[g];
                        ||| (p == NO_POSITION && !answer_ids@.contains(g as u16))
                        ||| ((p as int) < answer_ids@.len() && answer_ids@[p as int] as int == g)
                    }
            },
            Err(_) => false,
        },
{
    proof {
        crate::asset::lemma_distinct_ids_bounded(answer_ids@, guess_count as int);
    }
    let mut positions: Vec<u16> = vec![NO_POSITION; guess_count];
    let mut answer_index: usize = 0;
    while answer_index < answer_ids.len()
        invariant
            guess_count <= 0xffff,
            answer_ids@.len() <= guess_count,
            ids_ok(answer_ids@, guess_count as int),
            answer_index <= answer_ids@.len(),
            positions@.len() == guess_count,
            forall|g: int|
                0 <= g < guess_count ==> {
                    let p = #[trigger] positions@[g];
                    ||| (p == NO_POSITION && !answer_ids@.take(answer_index as int).contains(
                        g as u16,
                    ))
                    ||| ((p as int) < answer_index && answer_ids@[p as int] as int == g)
                },
        decreases answer_ids@.len() - answer_index,
    {
        let guess_index = answer_ids[answer_index];
        if answer_index > 0xffff {
            return Err(SolverError::AssetCorrupt);
        }
        let position = answer_index as u16;
        assert(answer_ids@[answer_index as int] < guess_count);
        positions.set(guess_index as usize, position);
        proof {
            let before = answer_ids@.take(answer_index as int);
            let after = answer_ids@.take(answer_index + 1);
            assert(after =~= before.push(guess_index));
            assert forall|g: int| 0 <= g < guess_count implies {
                let p = #[trigger] positions@[g];
                ||| (p == NO_POSITION && !after.contains(g as u16))
                ||| ((p as int) < answer_index + 1 && answer_ids@[p as int] as int == g)
            } by {
                let p = positions@[g];
                if g != guess_index as int {
                    if after.contains(g as u16) {
                        let k = choose|k: int| 0 <= k < after.len() && after[k] == g as u16;
                        assert(before[k] == g as u16);
                    }
                }
            }
        }
        answer_index += 1;
    }
    assert(answer_ids@.take(answer_index as int) =~= answer_ids@);
    Ok(positions)
}

impl Corpus {
    /// Reads a corpus from bundle bytes.
    pub fn load(bytes: &[u8]) -> (r: Result<Self, SolverError>)
        ensures
            r is Ok <==> bundle_bytes_ok(bytes@),
            r matches Err(e) ==> e is AssetCorrupt,
            r matches Ok(c) ==> {
                &&& c.wf()
                &&& c.hash() == u64_at(bytes@, 8)
                &&& c.opening() == u32_at(bytes@, 24)
                &&& c.guess_list() == decoded_guesses(bytes@)
                &&& c.answer_list() == decoded_ids(bytes@)
                &&& c.matrix() == decoded_matrix(bytes@)
            },
    {
        let bundle = LoadedBundle::parse(bytes)?;
        Self::from_bundle(bundle)
    }

    /// Builds the lookup tables for a loaded bundle.
    fn from_bundle(bundle: LoadedBundle) -> (r: Result<Self, SolverError>)
        requires
            bundle.wf(),
        ensures
            r matches Ok(c) && {
                &&& c.wf()
                &&& c.hash() == bundle.corpus_hash
                &&& c.opening() == bundle.first_guess_index
                &&& c.guess_list() == bundle.guesses@
                &&& c.answer_list() == bundle.answer_ids@
                &&& c.matrix() == bundle.feedback_matrix@
            },
    {
        proof {
            crate::asset::lemma_distinct_ids_bounded(
                bundle.answer_ids@,
                bundle.guesses@.len() as int,
            );
        }
        let answer_positions = answer_positions_for(bundle.guesses.len(), &bundle.answer_ids)?;
        Ok(Self {
            corpus_hash: bundle.corpus_hash,
            guesses: bundle.guesses,
            answer_ids: bundle.answer_ids,
            answer_positions,
            feedback_matrix: bundle.feedback_matrix,
            first_guess_index: bundle.first_guess_index,
        })
    }

    /// The hash that identifies the word lists.
    pub fn corpus_hash(&self) -> (h: u64)
        ensures
            h == self.hash(),
    {
        self.corpus_hash
    }

    /// Number of words that may be guessed.
    pub fn guess_count(&self) -> (n: usize)
        ensures
            n == self.num_guesses(),
    {
        self.guesses.len()
    }

    /// Number of possible answers.
    pub fn answer_count(&self) -> (n: usize)
        ensures
            n == self.num_answers(),
    {
        self.answer_ids.len()
    }

    /// Index of the opening guess.
    pub fn first_guess_index(&self) -> (i: usize)
        ensures
            i == self.opening(),
    {
        self.first_guess_index
    }

    /// The word of guess `guess_index`.
    pub fn guess_word(&self, guess_index: usize) -> (w: Word)
        requires
            guess_index < self.num_guesses(),
        ensures
            w == self.guess_list()[guess_index as int],
    {
        self.guesses[guess_index]
    }

    /// The word of answer `answer_index`.
    pub fn answer_word(&self, answer_index: usize) -> (w: Word)
        requires
            self.wf(),
            answer_index < self.num_answers(),
        ensures
            w == self.answer_word_at(answer_index as int),
    {
        self.guesses[self.answer_ids[answer_index] as usize]
    }

    /// The guess index of answer `answer_index`.
    pub fn answer_guess_index(&self, answer_index: usize) -> (g: usize)
        requires
            answer_index < self.num_answers(),
        ensures
            g == self.answer_list()[answer_index as int],
    {
        self.answer_ids[answer_index] as usize
    }

    /// The answer index of guess `guess_index`, if that guess is an answer.
    pub fn answer_index_for_guess(&self, guess_index: usize) -> (r: Option<usize>)
        requires
            self.wf(),
            guess_index < self.num_guesses(),
        ensures
            match r {
                Some(a) => a < self.num_answers() && self.answer_list()[a as int] == guess_index,
                None => !self.answer_list().contains(guess_index as u16),
            },
    {
        let answer_index = self.answer_positions[guess_index];
        if answer_index != NO_POSITION {
            Some(answer_index as usize)
        } else {
            None
        }
    }

    /// Whether guess `guess_index` is one of the answers.
    pub fn is_answer_guess(&self, guess_index: usize) -> (b: bool)
        requires
            self.wf(),
            guess_index < self.num_guesses(),
        ensures
            b == self.answer_list().contains(guess_index as u16),
    {
        proof {
            let p = self.answer_positions@[guess_index as int];
            if p != NO_POSITION {
                assert(self.answer_ids@[p as int] == guess_index as u16);
            }
        }
        self.answer_positions[guess_index] != NO_POSITION
    }

    /// The index of `word` in the guess list. A found index always holds the
    /// word; when the list is sorted, `None` means the word is absent.
    pub fn find_guess(&self, word: Word) -> (r: Option<usize>)
        ensures
            r matches Some(i) ==> i < self.num_guesses() && self.guess_list()[i as int] == word,
            r is None && sorted_words(self.guess_list()) ==> !self.guess_list().contains(word),
    {
        let mut lo: usize = 0;
        let mut hi: usize = self.guesses.len();
        while lo < hi
            invariant
                lo <= hi <= self.guesses@.len(),
                sorted_words(self.guesses@) ==> forall|i: int|
                    0 <= i < self.guesses@.len() && (i < lo || i >= hi) ==> #[trigger] self.guesses@[i]
                        != word,
            decreases hi - lo,
        {
            let mid = lo + (hi - lo) / 2;
            let candidate = self.guesses[mid];
            if candidate.0 == word.0 {
                return Some(mid);
            } else if candidate.0 < word.0 {
                lo = mid + 1;
            } else {
                hi = mid;
            }
        }
        None
    }

    /// The answer index of `word`, if the word is found among the guesses
    /// and is an answer.
    pub fn find_answer(&self, word: Word) -> (r: Option<usize>)
        requires
            self.wf(),
        ensures
            r matches Some(a) ==> a < self.num_answers() && self.answer_word_at(a as int) == word,
            r is None && sorted_words(self.guess_list()) ==> !exists|a: int|
                0 <= a < self.num_answers() && #[trigger] self.answer_word_at(a) == word,
    {
        match self.find_guess(word) {
            Some(guess_index) => {
                let r = self.answer_index_for_guess(guess_index);
                proof {
                    if r is None && sorted_words(self.guess_list()) {
                        assert forall|a: int| 0 <= a < self.num_answers() implies #[trigger] self.answer_word_at(a) != word by {
                            let g = self.answer_list()[a] as int;
                            assert(self.answer_list()[a] < self.num_guesses());
                            if self.answer_word_at(a) == word && g != guess_index {
                                if g < guess_index {
                                    assert(self.guess_list()[g].0 < self.guess_list()[guess_index as int].0);
                                } else {
                                    assert(self.guess_list()[guess_index as int].0 < self.guess_list()[g].0);
                                }
                            }
                            if self.answer_word_at(a) == word && g == guess_index {
                                assert(self.answer_list()[a] == guess_index as u16);
                            }
                        }
                    }
                }
                r
            },
            None => None,
        }
    }

    /// The feedback codes of guess `guess_index` against every answer.
    pub fn feedback_row(&self, guess_index: usize) -> (row: &[u8])
        requires
            self.wf(),
            guess_index < self.num_guesses(),
        ensures
            row@ == self.matrix().subrange(
                guess_index * self.num_answers(),
                guess_index * self.num_answers() + self.num_answers(),
            ),
    {
        let answer_count = self.answer_count();
        let matrix_len = self.feedback_matrix.len();
        proof {
            assert(guess_index * answer_count + answer_count <= self.num_guesses() * answer_count)
                by (nonlinear_arith)
                requires
                    guess_index + 1 <= self.num_guesses(),
                    0 <= answer_count,
            ;
        }
        let start = guess_index * answer_count;
        &self.feedback_matrix.as_slice()[start..start + answer_count]
    }

    /// The feedback of guess `guess_index` against answer `answer_index`.
    pub fn feedback(&self, guess_index: usize, answer_index: usize) -> (f: Feedback)
        requires
            self.wf(),
            guess_index < self.num_guesses(),
            answer_index < self.num_answers(),
        ensures
            f.0 == self.feedback_at(guess_index as int, answer_index as int),
    {
        let row = self.feedback_row(guess_index);
        proof {
            let a = self.num_answers();
            assert(guess_index * a + a <= self.num_guesses() * a) by (nonlinear_arith)
                requires
                    guess_index + 1 <= self.num_guesses(),
                    0 <= a,
            ;
            assert(row@[answer_index as int] == self.feedback_at(
                guess_index as int,
                answer_index as int,
            ));
        }
        Feedback::from_code(row[answer_index])
    }
}

} // verus!
