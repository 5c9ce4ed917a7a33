//! Words packed five bits per letter, feedback as a base-3 code, and the
//! scoring of a guess against an answer.
use vstd::prelude::*;
use vstd::string::StringSliceAdditionalSpecFns;
use vstd::utf8::{encode_utf8, is_ascii_chars, is_ascii_chars_encode_utf8};

use crate::error::SolverError;

verus! {

/// Number of letters in a word.
pub const WORD_LEN: usize = 5;

/// Number of distinct feedback patterns: three tile states on five tiles.
pub const FEEDBACK_STATES: usize = 243;

// ---------------------------------------------------------------------------
// Words
// ---------------------------------------------------------------------------

/// Letter indices (0 stands for `a`) held in the five 5-bit slots of a packed
/// word; slot `i` sits in bits `5 * i .. 5 * i + 5`.
pub open spec fn slots(p: u32) -> Seq<u32> {
    seq![p & 31, (p >> 5) & 31, (p >> 10) & 31, (p >> 15) & 31, (p >> 20) & 31]
}

/// The letter bytes a packed word spells: slot value `s` reads as the byte
/// `s` places after `a` (97).
pub open spec fn letter_bytes(p: u32) -> Seq<u8> {
    Seq::new(5, |i: int| (97 + slots(p)[i]) as u8)
}

/// The characters of the word's text.
pub open spec fn word_chars(p: u32) -> Seq<char> {
    Seq::new(5, |i: int| letter_bytes(p)[i] as char)
}

/// A packed word that spells five letters `a..=z` and uses no bit above the
/// five slots. These are exactly the words that parsing produces.
pub open spec fn is_valid_packed(p: u32) -> bool {
    &&& p < 0x200_0000
    &&& forall|i: int| 0 <= i < 5 ==> #[trigger] slots(p)[i] < 26
}

/// A lower-case ASCII letter.
pub open spec fn is_lower(b: u8) -> bool {
    97 <= b <= 122
}

/// Text that parses as a word: exactly five bytes, each a lower-case letter.
pub open spec fn word_text_ok(b: Seq<u8>) -> bool {
    b.len() == 5 && forall|i: int| 0 <= i < 5 ==> is_lower(#[trigger] b[i])
}

/// The packed form of five lower-case letters.
pub open spec fn pack_letters(b: Seq<u8>) -> u32 {
    ((b[0] - 97) as u32) | (((b[1] - 97) as u32) << 5u32) | (((b[2] - 97) as u32) << 10u32) | ((
    (b[3] - 97) as u32) << 15u32) | (((b[4] - 97) as u32) << 20u32)
}

/// What parsing a word from the given bytes yields.
pub open spec fn parse_word_spec(b: Seq<u8>) -> Option<Word> {
    if word_text_ok(b) {
        Some(Word(pack_letters(b)))
    } else {
        None
    }
}

/// A five-letter word packed into the low 25 bits of a `u32`, five bits per
/// letter, first letter in the lowest bits.
#[derive(Clone, Copy, Debug, PartialEq, Eq, Structural, Hash, PartialOrd, Ord)]
pub struct Word(pub u32);

/// Pushes one character onto a string (`String::push`).
#[verifier::external_body]
pub(crate) fn push_char(s: &mut String, c: char)
    ensures
        final(s)@ == old(s)@.push(c),
{
    s.push(c);
}

impl Word {
    /// The word whose packed form is `packed`.
    pub fn from_packed(packed: u32) -> (w: Self)
        ensures
            w.0 == packed,
    {
        Self(packed)
    }

    /// The packed form of the word.
    pub fn packed(self) -> (p: u32)
        ensures
            p == self.0,
    {
        self.0
    }

    /// Parses five lower-case ASCII letters.
    pub fn parse(input: &str) -> (r: Result<Self, SolverError>)
        ensures
            match r {
                Ok(w) => parse_word_spec(input.spec_bytes()) == Some(w),
                Err(e) => parse_word_spec(input.spec_bytes()) is None && e is InvalidWord,
            },
    {
        let bytes = input.as_bytes();
        if bytes.len() != WORD_LEN {
            return Err(SolverError::InvalidWord);
        }
        let mut index: usize = 0;
        while index < WORD_LEN
            invariant
                bytes@.len() == 5,
                bytes@ == input.spec_bytes(),
                index <= 5,
                forall|j: int| 0 <= j < index ==> is_lower(#[trigger] bytes@[j]),
            decreases 5 - index,
        {
            let byte = bytes[index];
            // `a` ..= `z`
            if !(97u8 <= byte && byte <= 122u8) {
                return Err(SolverError::InvalidWord);
            }
            index += 1;
        }
        let packed = ((bytes[0] - 97u8) as u32) | (((bytes[1] - 97u8) as u32) << 5u32) | (((
        bytes[2] - 97u8) as u32) << 10u32) | (((bytes[3] - 97u8) as u32) << 15u32) | (((bytes[4]
            - 97u8) as u32) << 20u32);
        Ok(Self(packed))
    }

    /// The five letters of the word as bytes.
    pub fn letters(self) -> (r: [u8; 5])
        ensures
            r@ == letter_bytes(self.0),
    {
        let p = self.0;
        proof {
            assert(p & 31 < 32) by (bit_vector);
            assert((p >> 5) & 31 < 32) by (bit_vector);
            assert((p >> 10) & 31 < 32) by (bit_vector);
            assert((p >> 15) & 31 < 32) by (bit_vector);
            assert((p >> 20) & 31 < 32) by (bit_vector);
        }
        let r = [
            97u8 + (p & 0x1f) as u8,
            97u8 + ((p >> 5) & 0x1f) as u8,
            97u8 + ((p >> 10) & 0x1f) as u8,
            97u8 + ((p >> 15) & 0x1f) as u8,
            97u8 + ((p >> 20) & 0x1f) as u8,
        ];
        assert(r@ =~= letter_bytes(p));
        r
    }

    /// The word's text.
    pub fn as_string(self) -> (s: String)
        ensures
            s@ == word_chars(self.0),
    {
        let letters = self.letters();
        let mut s = String::new();
        let mut index: usize = 0;
        while index < WORD_LEN
            invariant
                letters@ == letter_bytes(self.0),
                index <= 5,
                s@ == word_chars(self.0).subrange(0, index as int),
            decreases 5 - index,
        {
            push_char(&mut s, letters[index] as char);
            index += 1;
            assert(s@ =~= word_chars(self.0).subrange(0, index as int));
        }
        assert(s@ =~= word_chars(self.0));
        s
    }
}

impl std::str::FromStr for Word {
    type Err = SolverError;

    fn from_str(input: &str) -> (r: Result<Self, Self::Err>)
        ensures
            match r {
                Ok(w) => parse_word_spec(input.spec_bytes()) == Some(w),
                Err(e) => parse_word_spec(input.spec_bytes()) is None && e is InvalidWord,
            },
    {
        Word::parse(input)
    }
}

// ---------------------------------------------------------------------------
// Feedback
// ---------------------------------------------------------------------------

/// The tile states of a feedback code: digit `i` in base three is tile `i`.
pub open spec fn feedback_cells(code: u8) -> Seq<u8> {
    seq![code % 3, (code / 3) % 3, (code / 9) % 3, (code / 27) % 3, (code / 81) % 3]
}

/// The code of five tile states (tile `i` weighs `3^i`).
pub open spec fn encode_cells(c: Seq<u8>) -> int {
    c[0] + 3 * c[1] + 9 * c[2] + 27 * c[3] + 81 * c[4]
}

/// The letter that shows a tile state: `b` miss, `y` present, `g` exact.
pub open spec fn cell_char(c: u8) -> char {
    if c == 0 {
        'b'
    } else if c == 1 {
        'y'
    } else {
        'g'
    }
}

/// The text of a feedback code.
pub open spec fn feedback_chars(code: u8) -> Seq<char> {
    Seq::new(5, |i: int| cell_char(feedback_cells(code)[i]))
}

/// The tile state a byte of feedback text stands for, if any:
/// `b`/`B`/`0` miss, `y`/`Y`/`1` present, `g`/`G`/`2` exact.
pub open spec fn feedback_digit(b: u8) -> Option<u8> {
    if b == 98 || b == 66 || b == 48 {
        Some(0u8)
    } else if b == 121 || b == 89 || b == 49 {
        Some(1u8)
    } else if b == 103 || b == 71 || b == 50 {
        Some(2u8)
    } else {
        None
    }
}

/// Text that parses as feedback: five bytes, each naming a tile state.
pub open spec fn feedback_text_ok(b: Seq<u8>) -> bool {
    b.len() == 5 && forall|i: int| 0 <= i < 5 ==> (#[trigger] feedback_digit(b[i])) is Some
}

/// The tile states named by feedback text.
pub open spec fn feedback_digits(b: Seq<u8>) -> Seq<u8> {
    Seq::new(5, |i: int| feedback_digit(b[i]).unwrap())
}

/// What parsing feedback from the given bytes yields.
pub open spec fn parse_feedback_spec(b: Seq<u8>) -> Option<Feedback> {
    if feedback_text_ok(b) {
        Some(Feedback(encode_cells(feedback_digits(b)) as u8))
    } else {
        None
    }
}

/// Feedback on a guess, encoded as five base-three digits (0 miss, 1 present,
/// 2 exact), tile 0 in the lowest digit.
#[derive(Clone, Copy, Debug, PartialEq, Eq, Structural, Hash)]
pub struct Feedback(pub u8);

impl Feedback {
    /// Tile state: the letter is not in the answer (or all its copies are accounted for).
    pub const MISS: u8 = 0;

    /// Tile state: the letter is in the answer at another position.
    pub const PRESENT: u8 = 1;

    /// Tile state: the letter is at this position in the answer.
    pub const EXACT: u8 = 2;

    /// The feedback with every tile exact.
    pub fn solved() -> (f: Self)
        ensures
            f.0 == 242,
    {
        Self(242)
    }

    /// The feedback with the given code.
    pub fn from_code(code: u8) -> (f: Self)
        ensures
            f.0 == code,
    {
        Self(code)
    }

    /// The code of the feedback.
    pub fn code(self) -> (c: u8)
        ensures
            c == self.0,
    {
        self.0
    }

    /// Parses five tile letters (`b`, `y`, `g` in either case, or `0`, `1`, `2`).
    pub fn parse(input: &str) -> (r: Result<Self, SolverError>)
        ensures
            match r {
                Ok(f) => parse_feedback_spec(input.spec_bytes()) == Some(f),
                Err(e) => parse_feedback_spec(input.spec_bytes()) is None && e is InvalidFeedback,
            },
    {
        let bytes = input.as_bytes();
        if bytes.len() != WORD_LEN {
            return Err(SolverError::InvalidFeedback);
        }
        let mut digits: [u8; 5] = [0u8; 5];
        let mut index: usize = 0;
        while index < WORD_LEN
            invariant
                bytes@.len() == 5,
                bytes@ == input.spec_bytes(),
                index <= 5,
                forall|j: int|
                    0 <= j < index ==> feedback_digit(bytes@[j]) == Some(#[trigger] digits@[j]),
            decreases 5 - index,
        {
            let byte = bytes[index];
            // `b`, `B`, `0` / `y`, `Y`, `1` / `g`, `G`, `2`
            let digit = if byte == 98u8 || byte == 66u8 || byte == 48u8 {
                Self::MISS
            } else if byte == 121u8 || byte == 89u8 || byte == 49u8 {
                Self::PRESENT
            } else if byte == 103u8 || byte == 71u8 || byte == 50u8 {
                Self::EXACT
            } else {
                return Err(SolverError::InvalidFeedback);
            };
            digits[index] = digit;
            index += 1;
        }
        let code = digits[0] + 3 * digits[1] + 9 * digits[2] + 27 * digits[3] + 81 * digits[4];
        assert(feedback_digits(bytes@) =~= digits@);
        Ok(Self(code))
    }

    /// The five tile states.
    pub fn cells(self) -> (r: [u8; 5])
        ensures
            r@ == feedback_cells(self.0),
    {
        let code = self.0;
        let r = [code % 3, (code / 3) % 3, (code / 9) % 3, (code / 27) % 3, (code / 81) % 3];
        assert(r@ =~= feedback_cells(code));
        r
    }

    /// The feedback's text: `b`, `y` or `g` per tile.
    pub fn as_string(self) -> (s: String)
        ensures
            s@ == feedback_chars(self.0),
    {
        let cells = self.cells();
        let mut s = String::new();
        let mut index: usize = 0;
        while index < WORD_LEN
            invariant
                cells@ == feedback_cells(self.0),
                index <= 5,
                s@ == feedback_chars(self.0).subrange(0, index as int),
            decreases 5 - index,
        {
            let cell = cells[index];
            let ch = if cell == Self::MISS {
                'b'
            } else if cell == Self::PRESENT {
                'y'
            } else {
                'g'
            };
            push_char(&mut s, ch);
            index += 1;
            assert(s@ =~= feedback_chars(self.0).subrange(0, index as int));
        }
        assert(s@ =~= feedback_chars(self.0));
        s
    }

    /// Whether every tile is exact.
    pub fn is_solved(self) -> (b: bool)
        ensures
            b == (self.0 == 242),
    {
        self.0 == 242
    }
}

// ---------------------------------------------------------------------------
// Scoring
// ---------------------------------------------------------------------------

/// Number of positions `k < n` that are not exact matches and where the
/// answer has letter `c`.
pub open spec fn unmatched_in_answer(g: Seq<u8>, a: Seq<u8>, c: u8, n: int) -> nat
    decreases n,
{
    if n <= 0 {
        0
    } else {
        unmatched_in_answer(g, a, c, n - 1) + if a[n - 1] == c && g[n - 1] != a[n - 1] {
            1nat
        } else {
            0nat
        }
    }
}

/// Number of positions `k < n` that are not exact matches and where the
/// guess has letter `c`.
pub open spec fn unmatched_in_guess(g: Seq<u8>, a: Seq<u8>, c: u8, n: int) -> nat
    decreases n,
{
    if n <= 0 {
        0
    } else {
        unmatched_in_guess(g, a, c, n - 1) + if g[n - 1] == c && g[n - 1] != a[n - 1] {
            1nat
        } else {
            0nat
        }
    }
}

/// The state of tile `i` when guess letters `g` meet answer letters `a`:
/// exact where the letters agree; otherwise present when fewer earlier
/// unmatched copies of the guessed letter came before it than the answer
/// holds unmatched copies of that letter; otherwise a miss.
pub open spec fn tile_state(g: Seq<u8>, a: Seq<u8>, i: int) -> u8 {
    if g[i] == a[i] {
        2
    } else if unmatched_in_guess(g, a, g[i], i) < unmatched_in_answer(g, a, g[i], 5) {
        1
    } else {
        0
    }
}

/// The five tile states of a guess against an answer.
pub open spec fn score_tiles(g: Seq<u8>, a: Seq<u8>) -> Seq<u8> {
    Seq::new(5, |i: int| tile_state(g, a, i))
}

/// The feedback code of a guess against an answer.
pub open spec fn score_code(guess: Word, answer: Word) -> u8 {
    encode_cells(score_tiles(letter_bytes(guess.0), letter_bytes(answer.0))) as u8
}

/// Scoring reads the letter of every position where guess and answer differ
/// as one of `a..=z`.
pub open spec fn scorable(guess: Word, answer: Word) -> bool {
    forall|i: int|
        0 <= i < 5 && slots(guess.0)[i] != slots(answer.0)[i] ==> #[trigger] slots(guess.0)[i] < 26
            && slots(answer.0)[i] < 26
}

proof fn lemma_slot_bounds(p: u32)
    ensures
        forall|i: int| 0 <= i < 5 ==> #[trigger] slots(p)[i] < 32,
        letter_bytes(p).len() == 5,
{
    assert(p & 31 < 32) by (bit_vector);
    assert((p >> 5) & 31 < 32) by (bit_vector);
    assert((p >> 10) & 31 < 32) by (bit_vector);
    assert((p >> 15) & 31 < 32) by (bit_vector);
    assert((p >> 20) & 31 < 32) by (bit_vector);
}

/// The feedback a guess gets against an answer. Repeated letters are handled
/// as in Wordle: exact matches are marked first, then each remaining guess
/// letter, left to right, is present while unmatched copies of it remain in
/// the answer.
pub fn score_guess(guess: Word, answer: Word) -> (f: Feedback)
    requires
        scorable(guess, answer),
    ensures
        f.0 == score_code(guess, answer),
        f.0 < 243,
{
    let guess_letters = guess.letters();
    let answer_letters = answer.letters();
    let ghost g = letter_bytes(guess.0);
    let ghost a = letter_bytes(answer.0);
    proof {
        lemma_slot_bounds(guess.0);
        lemma_slot_bounds(answer.0);
    }

    let mut counts = [0u8; 26];
    let mut cells = [0u8; 5];

    let mut index: usize = 0;
    while index < WORD_LEN
        invariant
            guess_letters@ == g,
            answer_letters@ == a,
            g == letter_bytes(guess.0),
            a == letter_bytes(answer.0),
            scorable(guess, answer),
            forall|i: int| 0 <= i < 5 ==> #[trigger] slots(guess.0)[i] < 32,
            forall|i: int| 0 <= i < 5 ==> #[trigger] slots(answer.0)[i] < 32,
            index <= 5,
            counts@.len() == 26,
            cells@.len() == 5,
            forall|k: int|
                0 <= k < 26 ==> #[trigger] counts@[k] as nat == unmatched_in_answer(
                    g,
                    a,
                    (97 + k) as u8,
                    index as int,
                ),
            forall|k: int| 0 <= k < 26 ==> #[trigger] counts@[k] <= index,
            forall|j: int|
                0 <= j < 5 ==> #[trigger] cells@[j] == if j < index && g[j] == a[j] {
                    2u8
                } else {
                    0u8
                },
        decreases 5 - index,
    {
        if guess_letters[index] == answer_letters[index] {
            cells[index] = Feedback::EXACT;
        } else {
            let letter = (answer_letters[index] - 97u8) as usize;
            assert(slots(answer.0)[index as int] < 26);
            counts[letter] = counts[letter] + 1;
        }
        proof {
            assert forall|k: int| 0 <= k < 26 implies #[trigger] counts@[k] as nat
                == unmatched_in_answer(g, a, (97 + k) as u8, index + 1) by {
                if a[index as int] == (97 + k) as u8 {
                    assert(a[index as int] - 97 == k);
                }
            }
        }
        index += 1;
    }

    index = 0;
    while index < WORD_LEN
        invariant
            guess_letters@ == g,
            answer_letters@ == a,
            g == letter_bytes(guess.0),
            a == letter_bytes(answer.0),
            scorable(guess, answer),
            forall|i: int| 0 <= i < 5 ==> #[trigger] slots(guess.0)[i] < 32,
            forall|i: int| 0 <= i < 5 ==> #[trigger] slots(answer.0)[i] < 32,
            index <= 5,
            counts@.len() == 26,
            cells@.len() == 5,
            forall|k: int|
                0 <= k < 26 ==> #[trigger] counts@[k] as int == if unmatched_in_guess(
                    g,
                    a,
                    (97 + k) as u8,
                    index as int,
                ) <= unmatched_in_answer(g, a, (97 + k) as u8, 5) {
                    unmatched_in_answer(g, a, (97 + k) as u8, 5) - unmatched_in_guess(
                        g,
                        a,
                        (97 + k) as u8,
                        index as int,
                    )
                } else {
                    0
                },
            forall|j: int|
                0 <= j < 5 ==> #[trigger] cells@[j] == if j < index {
                    tile_state(g, a, j)
                } else if g[j] == a[j] {
                    2u8
                } else {
                    0u8
                },
        decreases 5 - index,
    {
        if cells[index] == Feedback::EXACT {
            index += 1;
            continue;
        }
        let letter = (guess_letters[index] - 97u8) as usize;
        assert(slots(guess.0)[index as int] < 26);
        assert(g[index as int] == (97 + letter) as u8);
        if counts[letter] > 0 {
            cells[index] = Feedback::PRESENT;
            counts[letter] = counts[letter] - 1;
        }
        index += 1;
    }

    let code = cells[0] + 3 * cells[1] + 9 * cells[2] + 27 * cells[3] + 81 * cells[4];
    assert(cells@ =~= score_tiles(g, a));
    Feedback::from_code(code)
}

// ---------------------------------------------------------------------------
// Laws
// ---------------------------------------------------------------------------

/// A guess scored against itself is solved: every tile is exact.
pub proof fn lemma_score_self_is_solved(w: Word)
    ensures
        score_code(w, w) == 242,
{
    lemma_slot_bounds(w.0);
    let t = score_tiles(letter_bytes(w.0), letter_bytes(w.0));
    assert(t[0] == 2 && t[1] == 2 && t[2] == 2 && t[3] == 2 && t[4] == 2);
}

/// The feedback is solved exactly when guess and answer spell the same
/// letters.
pub proof fn lemma_solved_iff_same_letters(guess: Word, answer: Word)
    ensures
        (score_code(guess, answer) == 242) <==> (letter_bytes(guess.0) == letter_bytes(answer.0)),
{
    lemma_slot_bounds(guess.0);
    lemma_slot_bounds(answer.0);
    let g = letter_bytes(guess.0);
    let a = letter_bytes(answer.0);
    let t = score_tiles(g, a);
    assert(forall|i: int| 0 <= i < 5 ==> #[trigger] t[i] <= 2);
    if score_code(guess, answer) == 242 {
        assert(t[0] == 2 && t[1] == 2 && t[2] == 2 && t[3] == 2 && t[4] == 2);
        assert(g =~= a);
    }
    if g == a {
        assert(t[0] == 2 && t[1] == 2 && t[2] == 2 && t[3] == 2 && t[4] == 2);
    }
}

/// A tile is exact exactly when the guess has the answer's letter at that
/// position.
pub proof fn lemma_exact_tiles(guess: Word, answer: Word, i: int)
    requires
        0 <= i < 5,
    ensures
        (feedback_cells(score_code(guess, answer))[i] == 2) <==> (letter_bytes(guess.0)[i]
            == letter_bytes(answer.0)[i]),
{
    lemma_scored_tiles(guess, answer);
}

proof fn lemma_unmatched_guess_grows(g: Seq<u8>, a: Seq<u8>, c: u8, i: int, j: int)
    requires
        0 <= i <= j,
    ensures
        unmatched_in_guess(g, a, c, i) <= unmatched_in_guess(g, a, c, j),
    decreases j - i,
{
    if i < j {
        lemma_unmatched_guess_grows(g, a, c, i, j - 1);
    }
}

proof fn lemma_unmatched_answer_witness(g: Seq<u8>, a: Seq<u8>, c: u8, n: int)
    requires
        unmatched_in_answer(g, a, c, n) > 0,
    ensures
        exists|k: int| 0 <= k < n && #[trigger] a[k] == c && g[k] != a[k],
    decreases n,
{
    if n > 0 && !(a[n - 1] == c && g[n - 1] != a[n - 1]) {
        lemma_unmatched_answer_witness(g, a, c, n - 1);
    }
}

/// A tile coloured present shows a letter the guess misplaced: the answer
/// holds that letter at some position where guess and answer differ.
pub proof fn lemma_present_letter_in_answer(guess: Word, answer: Word, i: int)
    requires
        0 <= i < 5,
        feedback_cells(score_code(guess, answer))[i] == 1,
    ensures
        letter_bytes(guess.0)[i] != letter_bytes(answer.0)[i],
        exists|k: int|
            0 <= k < 5 && #[trigger] letter_bytes(answer.0)[k] == letter_bytes(guess.0)[i]
                && letter_bytes(guess.0)[k] != letter_bytes(answer.0)[k],
{
    let g = letter_bytes(guess.0);
    let a = letter_bytes(answer.0);
    lemma_scored_tiles(guess, answer);
    assert(tile_state(g, a, i) == 1);
    lemma_unmatched_answer_witness(g, a, g[i], 5);
}

/// Repeated guess letters are coloured left to right: when a later copy of a
/// misplaced letter is coloured present, every earlier misplaced copy of it
/// is present too.
pub proof fn lemma_present_fills_left_first(guess: Word, answer: Word, i: int, j: int)
    requires
        0 <= i < j < 5,
        letter_bytes(guess.0)[i] == letter_bytes(guess.0)[j],
        letter_bytes(guess.0)[i] != letter_bytes(answer.0)[i],
        feedback_cells(score_code(guess, answer))[j] == 1,
    ensures
        feedback_cells(score_code(guess, answer))[i] == 1,
{
    let g = letter_bytes(guess.0);
    let a = letter_bytes(answer.0);
    lemma_scored_tiles(guess, answer);
    assert(tile_state(g, a, j) == 1);
    lemma_unmatched_guess_grows(g, a, g[i], i, j);
    assert(tile_state(g, a, i) == 1);
}

/// Two valid words that spell the same letters are the same word.
pub proof fn lemma_valid_letters_determine_word(v: Word, w: Word)
    requires
        is_valid_packed(v.0),
        is_valid_packed(w.0),
        letter_bytes(v.0) == letter_bytes(w.0),
    ensures
        v == w,
{
    lemma_slot_bounds(v.0);
    lemma_slot_bounds(w.0);
    let p = v.0;
    let q = w.0;
    assert(letter_bytes(p)[0] == letter_bytes(q)[0]);
    assert(letter_bytes(p)[1] == letter_bytes(q)[1]);
    assert(letter_bytes(p)[2] == letter_bytes(q)[2]);
    assert(letter_bytes(p)[3] == letter_bytes(q)[3]);
    assert(letter_bytes(p)[4] == letter_bytes(q)[4]);
    assert(slots(p)[0] == slots(q)[0]);
    assert(slots(p)[1] == slots(q)[1]);
    assert(slots(p)[2] == slots(q)[2]);
    assert(slots(p)[3] == slots(q)[3]);
    assert(slots(p)[4] == slots(q)[4]);
    assert(p < 0x200_0000 && q < 0x200_0000 && p & 31 == q & 31 && (p >> 5) & 31 == (q >> 5) & 31
        && (p >> 10) & 31 == (q >> 10) & 31 && (p >> 15) & 31 == (q >> 15) & 31 && (p >> 20) & 31
        == (q >> 20) & 31 ==> p == q) by (bit_vector);
}

proof fn lemma_pack_slots(x0: u32, x1: u32, x2: u32, x3: u32, x4: u32)
    requires
        x0 < 32 && x1 < 32 && x2 < 32 && x3 < 32 && x4 < 32,
    ensures
        ({
            let p = x0 | (x1 << 5u32) | (x2 << 10u32) | (x3 << 15u32) | (x4 << 20u32);
            &&& p & 31 == x0
            &&& (p >> 5) & 31 == x1
            &&& (p >> 10) & 31 == x2
            &&& (p >> 15) & 31 == x3
            &&& (p >> 20) & 31 == x4
            &&& p < 0x200_0000
        }),
{
    assert(x0 < 32 && x1 < 32 && x2 < 32 && x3 < 32 && x4 < 32 ==> {
        let p = x0 | (x1 << 5u32) | (x2 << 10u32) | (x3 << 15u32) | (x4 << 20u32);
        &&& p & 31 == x0
        &&& (p >> 5) & 31 == x1
        &&& (p >> 10) & 31 == x2
        &&& (p >> 15) & 31 == x3
        &&& (p >> 20) & 31 == x4
        &&& p < 0x200_0000
    }) by (bit_vector);
}

/// Parsed text reads back letter for letter, and parsing only yields valid
/// words.
pub proof fn lemma_parsed_word_spells_text(b: Seq<u8>)
    requires
        word_text_ok(b),
    ensures
        letter_bytes(pack_letters(b)) == b,
        is_valid_packed(pack_letters(b)),
{
    assert(is_lower(b[0]) && is_lower(b[1]) && is_lower(b[2]) && is_lower(b[3]) && is_lower(b[4]));
    lemma_pack_slots(
        (b[0] - 97) as u32,
        (b[1] - 97) as u32,
        (b[2] - 97) as u32,
        (b[3] - 97) as u32,
        (b[4] - 97) as u32,
    );
    assert(letter_bytes(pack_letters(b)) =~= b);
}

/// The text of a valid word parses back to the word.
pub proof fn lemma_word_text_roundtrip(w: Word)
    requires
        is_valid_packed(w.0),
    ensures
        parse_word_spec(encode_utf8(word_chars(w.0))) == Some(w),
{
    let p = w.0;
    lemma_slot_bounds(p);
    let chars = word_chars(p);
    assert(is_ascii_chars(chars)) by {
        assert forall|i: int| 0 <= i < chars.len() implies '\0' <= #[trigger] chars[i] <= '\u{7f}' by {
            assert(slots(p)[i] < 26);
        }
    }
    is_ascii_chars_encode_utf8(chars);
    let b = encode_utf8(chars);
    assert(b =~= letter_bytes(p)) by {
        assert forall|i: int| 0 <= i < 5 implies b[i] == letter_bytes(p)[i] by {
            assert(chars[i] as u8 == b[i]);
            assert(slots(p)[i] < 26);
        }
    }
    assert(word_text_ok(b)) by {
        assert forall|i: int| 0 <= i < 5 implies is_lower(#[trigger] b[i]) by {
            assert(slots(p)[i] < 26);
        }
    }
    lemma_parsed_word_spells_text(b);
    lemma_valid_letters_determine_word(Word(pack_letters(b)), w);
}

/// Text of feedback codes below 243 parses back to the same code.
pub proof fn lemma_feedback_text_roundtrip(code: u8)
    requires
        code < 243,
    ensures
        parse_feedback_spec(encode_utf8(feedback_chars(code))) == Some(Feedback(code)),
{
    let chars = feedback_chars(code);
    let cells = feedback_cells(code);
    assert(is_ascii_chars(chars));
    is_ascii_chars_encode_utf8(chars);
    let b = encode_utf8(chars);
    assert forall|i: int| 0 <= i < 5 implies #[trigger] feedback_digit(b[i]) == Some(cells[i]) by {
        assert(chars[i] as u8 == b[i]);
    }
    assert(feedback_text_ok(b));
    assert(feedback_digits(b) =~= cells);
    lemma_cells_encode(code);
}

/// Reading the base-three digits of a code below 243 and encoding them
/// again gives the code.
pub(crate) proof fn lemma_cells_encode(code: u8)
    requires
        code < 243,
    ensures
        encode_cells(feedback_cells(code)) == code,
{
    let x = code as int;
    assert(x % 3 + 3 * ((x / 3) % 3) + 9 * ((x / 9) % 3) + 27 * ((x / 27) % 3) + 81 * ((x / 81)
        % 3) == x) by (nonlinear_arith)
        requires
            0 <= x < 243,
    ;
}

/// Encoding five digits below three and reading the digits back gives the
/// same digits.
pub(crate) proof fn lemma_encode_cells_decode(d: Seq<u8>)
    requires
        d.len() == 5,
        d[0] <= 2 && d[1] <= 2 && d[2] <= 2 && d[3] <= 2 && d[4] <= 2,
    ensures
        encode_cells(d) < 243,
        feedback_cells(encode_cells(d) as u8) == d,
{
    let (d0, d1, d2, d3, d4) = (d[0] as int, d[1] as int, d[2] as int, d[3] as int, d[4] as int);
    let x = d0 + 3 * d1 + 9 * d2 + 27 * d3 + 81 * d4;
    assert(x % 3 == d0 && (x / 3) % 3 == d1 && (x / 9) % 3 == d2 && (x / 27) % 3 == d3 && (x / 81)
        % 3 == d4) by (nonlinear_arith)
        requires
            0 <= d0 <= 2,
            0 <= d1 <= 2,
            0 <= d2 <= 2,
            0 <= d3 <= 2,
            0 <= d4 <= 2,
            x == d0 + 3 * d1 + 9 * d2 + 27 * d3 + 81 * d4,
    ;
    assert(feedback_cells(encode_cells(d) as u8) =~= d);
}

/// Parsed feedback has a code below 243, and its text is the parsed text
/// with every tile written as lower-case `b`, `y` or `g`.
pub proof fn lemma_parsed_feedback_is_canonical(b: Seq<u8>)
    requires
        feedback_text_ok(b),
    ensures
        parse_feedback_spec(b).unwrap().0 < 243,
        feedback_cells(parse_feedback_spec(b).unwrap().0) == feedback_digits(b),
{
    let d = feedback_digits(b);
    assert(d[0] <= 2 && d[1] <= 2 && d[2] <= 2 && d[3] <= 2 && d[4] <= 2);
    lemma_encode_cells_decode(d);
}


/// Every feedback code is below 243.
pub proof fn lemma_score_bound(guess: Word, answer: Word)
    ensures
        score_code(guess, answer) < 243,
{
    let t = score_tiles(letter_bytes(guess.0), letter_bytes(answer.0));
    assert(t[0] <= 2 && t[1] <= 2 && t[2] <= 2 && t[3] <= 2 && t[4] <= 2);
}


/// Number of positions `i < n` where `s` holds letter `c`.
pub open spec fn count_letter(s: Seq<u8>, c: u8, n: int) -> nat
    decreases n,
{
    if n <= 0 {
        0
    } else {
        count_letter(s, c, n - 1) + if s[n - 1] == c {
            1nat
        } else {
            0nat
        }
    }
}

/// Number of positions `i < n` whose tile is coloured (not a miss) and
/// where `s` holds letter `c`.
pub open spec fn colored_letter(t: Seq<u8>, s: Seq<u8>, c: u8, n: int) -> nat
    decreases n,
{
    if n <= 0 {
        0
    } else {
        colored_letter(t, s, c, n - 1) + if t[n - 1] != 0 && s[n - 1] == c {
            1nat
        } else {
            0nat
        }
    }
}

/// Number of coloured tiles among the first `n`.
pub open spec fn count_colored(t: Seq<u8>, n: int) -> nat
    decreases n,
{
    if n <= 0 {
        0
    } else {
        count_colored(t, n - 1) + if t[n - 1] != 0 {
            1nat
        } else {
            0nat
        }
    }
}

/// Number of exact (green) tiles among the first `n`.
pub open spec fn count_exact(t: Seq<u8>, n: int) -> nat
    decreases n,
{
    if n <= 0 {
        0
    } else {
        count_exact(t, n - 1) + if t[n - 1] == 2 {
            1nat
        } else {
            0nat
        }
    }
}

spec fn same_letter_at(g: Seq<u8>, a: Seq<u8>, c: u8, n: int) -> nat
    decreases n,
{
    if n <= 0 {
        0
    } else {
        same_letter_at(g, a, c, n - 1) + if g[n - 1] == c && a[n - 1] == c {
            1nat
        } else {
            0nat
        }
    }
}

spec fn present_letter(g: Seq<u8>, a: Seq<u8>, c: u8, n: int) -> nat
    decreases n,
{
    if n <= 0 {
        0
    } else {
        present_letter(g, a, c, n - 1) + if g[n - 1] == c && g[n - 1] != a[n - 1]
            && unmatched_in_guess(g, a, c, n - 1) < unmatched_in_answer(g, a, c, 5) {
            1nat
        } else {
            0nat
        }
    }
}

spec fn colored_below(t: Seq<u8>, s: Seq<u8>, k: int, n: int) -> nat
    decreases n,
{
    if n <= 0 {
        0
    } else {
        colored_below(t, s, k, n - 1) + if t[n - 1] != 0 && (s[n - 1] as int) < k {
            1nat
        } else {
            0nat
        }
    }
}

spec fn colored_letters_sum(t: Seq<u8>, s: Seq<u8>, k: int) -> nat
    decreases k,
{
    if k <= 0 {
        0
    } else {
        colored_letters_sum(t, s, k - 1) + colored_letter(t, s, (k - 1) as u8, 5)
    }
}

proof fn lemma_present_prefix(g: Seq<u8>, a: Seq<u8>, c: u8, n: int)
    requires
        0 <= n <= 5,
    ensures
        present_letter(g, a, c, n) == if unmatched_in_guess(g, a, c, n) < unmatched_in_answer(
            g,
            a,
            c,
            5,
        ) {
            unmatched_in_guess(g, a, c, n)
        } else {
            unmatched_in_answer(g, a, c, 5)
        },
    decreases n,
{
    if n > 0 {
        lemma_present_prefix(g, a, c, n - 1);
    }
}

proof fn lemma_letter_split(g: Seq<u8>, a: Seq<u8>, c: u8, n: int)
    requires
        0 <= n <= 5,
        g.len() == 5,
        a.len() == 5,
    ensures
        colored_letter(score_tiles(g, a), g, c, n) == same_letter_at(g, a, c, n) + present_letter(
            g,
            a,
            c,
            n,
        ),
        count_letter(g, c, n) == same_letter_at(g, a, c, n) + unmatched_in_guess(g, a, c, n),
        count_letter(a, c, n) == same_letter_at(g, a, c, n) + unmatched_in_answer(g, a, c, n),
    decreases n,
{
    if n > 0 {
        lemma_letter_split(g, a, c, n - 1);
        let t = score_tiles(g, a);
        assert(t[n - 1] == tile_state(g, a, n - 1));
    }
}

proof fn lemma_colored_below_step(t: Seq<u8>, s: Seq<u8>, k: int, n: int)
    requires
        0 <= k < 256,
        0 <= n <= s.len(),
    ensures
        colored_below(t, s, k + 1, n) == colored_below(t, s, k, n) + colored_letter(t, s, k as u8, n),
    decreases n,
{
    if n > 0 {
        lemma_colored_below_step(t, s, k, n - 1);
    }
}

proof fn lemma_colored_below_all(t: Seq<u8>, s: Seq<u8>, n: int)
    requires
        0 <= n <= s.len(),
    ensures
        colored_below(t, s, 256, n) == count_colored(t, n),
        colored_below(t, s, 0, n) == 0,
    decreases n,
{
    if n > 0 {
        lemma_colored_below_all(t, s, n - 1);
    }
}

proof fn lemma_colored_sum(t: Seq<u8>, s: Seq<u8>, k: int)
    requires
        0 <= k <= 256,
        s.len() == 5,
    ensures
        colored_letters_sum(t, s, k) == colored_below(t, s, k, 5),
    decreases k,
{
    if k == 0 {
        lemma_colored_below_all(t, s, 5);
    } else {
        lemma_colored_sum(t, s, k - 1);
        lemma_colored_below_step(t, s, k - 1, 5);
    }
}

proof fn lemma_scored_tiles(guess: Word, answer: Word)
    ensures
        feedback_cells(score_code(guess, answer)) == score_tiles(
            letter_bytes(guess.0),
            letter_bytes(answer.0),
        ),
{
    let t = score_tiles(letter_bytes(guess.0), letter_bytes(answer.0));
    assert(t[0] <= 2 && t[1] <= 2 && t[2] <= 2 && t[3] <= 2 && t[4] <= 2);
    lemma_encode_cells_decode(t);
}

/// For every letter, the coloured (green or yellow) tiles of that letter in
/// the guess are as many as the smaller of its counts in guess and answer.
pub proof fn lemma_colored_tiles_per_letter(guess: Word, answer: Word, c: u8)
    ensures
        ({
            let g = letter_bytes(guess.0);
            let a = letter_bytes(answer.0);
            let n1 = count_letter(g, c, 5);
            let n2 = count_letter(a, c, 5);
            colored_letter(feedback_cells(score_code(guess, answer)), g, c, 5) == if n1 < n2 {
                n1
            } else {
                n2
            }
        }),
{
    let g = letter_bytes(guess.0);
    let a = letter_bytes(answer.0);
    lemma_scored_tiles(guess, answer);
    lemma_letter_split(g, a, c, 5);
    lemma_present_prefix(g, a, c, 5);
}

proof fn lemma_colored_sums_agree(guess: Word, answer: Word, k: int)
    requires
        0 <= k <= 256,
    ensures
        colored_letters_sum(feedback_cells(score_code(guess, answer)), letter_bytes(guess.0), k)
            == colored_letters_sum(
            feedback_cells(score_code(answer, guess)),
            letter_bytes(answer.0),
            k,
        ),
    decreases k,
{
    if k > 0 {
        lemma_colored_sums_agree(guess, answer, k - 1);
        lemma_colored_tiles_per_letter(guess, answer, (k - 1) as u8);
        lemma_colored_tiles_per_letter(answer, guess, (k - 1) as u8);
    }
}

proof fn lemma_exact_symmetric(g: Seq<u8>, a: Seq<u8>, n: int)
    requires
        0 <= n <= 5,
        g.len() == 5,
        a.len() == 5,
    ensures
        count_exact(score_tiles(g, a), n) == count_exact(score_tiles(a, g), n),
    decreases n,
{
    if n > 0 {
        lemma_exact_symmetric(g, a, n - 1);
        assert(score_tiles(g, a)[n - 1] == tile_state(g, a, n - 1));
        assert(score_tiles(a, g)[n - 1] == tile_state(a, g, n - 1));
    }
}

/// Scoring either word against the other colours as many tiles, and marks
/// as many exact.
pub proof fn lemma_score_counts_symmetric(guess: Word, answer: Word)
    ensures
        count_colored(feedback_cells(score_code(guess, answer)), 5) == count_colored(
            feedback_cells(score_code(answer, guess)),
            5,
        ),
        count_exact(feedback_cells(score_code(guess, answer)), 5) == count_exact(
            feedback_cells(score_code(answer, guess)),
            5,
        ),
{
    let g = letter_bytes(guess.0);
    let a = letter_bytes(answer.0);
    let t1 = feedback_cells(score_code(guess, answer));
    let t2 = feedback_cells(score_code(answer, guess));
    lemma_slot_bounds(guess.0);
    lemma_slot_bounds(answer.0);
    lemma_colored_sums_agree(guess, answer, 256);
    lemma_colored_sum(t1, g, 256);
    lemma_colored_sum(t2, a, 256);
    lemma_colored_below_all(t1, g, 5);
    lemma_colored_below_all(t2, a, 5);
    lemma_scored_tiles(guess, answer);
    lemma_scored_tiles(answer, guess);
    lemma_exact_symmetric(g, a, 5);
}

} // verus!
