//! The interactive board: tile marks, the suggestion policies, and the
//! game as a state machine that takes one key at a time.
use vstd::prelude::*;
use vstd::string::StringExecFns;
use vstd::string::StringSliceAdditionalSpecFns;
use vstd::utf8::{encode_utf8, is_ascii_chars, is_ascii_chars_encode_utf8};

use crate::corpus::{sorted_words, Corpus};
use crate::error::SolverError;
use crate::solver::{
    applies, codes_in_range, issues, lemma_alive_answers_facts, lemma_scored_corpus_is_solvable,
    picks_next, scores_match, solvable, valid_words, OfficialSolver, SolverStatus,
};
use crate::types::{
    encode_cells, feedback_cells, feedback_chars, letter_bytes, lemma_parsed_feedback_is_canonical,
    parse_feedback_spec, push_char, score_code, score_guess, scorable, word_chars, is_valid_packed,
    Feedback, Word,
};

verus! {

// ---------------------------------------------------------------------------
// Tile marks
// ---------------------------------------------------------------------------

/// How the player marked one tile of the board.
#[derive(Clone, Copy, Debug, PartialEq, Eq, Structural)]
pub enum TileMark {
    Unknown,
    Miss,
    Present,
    Exact,
}

/// The tile state a mark stands for, if it is set.
pub open spec fn mark_cell(m: TileMark) -> Option<u8> {
    match m {
        TileMark::Unknown => None,
        TileMark::Miss => Some(0u8),
        TileMark::Present => Some(1u8),
        TileMark::Exact => Some(2u8),
    }
}

/// The mark that shows a tile state (`Unknown` for anything but 0, 1, 2).
pub open spec fn cell_mark(cell: u8) -> TileMark {
    if cell == 0 {
        TileMark::Miss
    } else if cell == 1 {
        TileMark::Present
    } else if cell == 2 {
        TileMark::Exact
    } else {
        TileMark::Unknown
    }
}

/// The mark after `m` in the cycle unset, gray, yellow, green.
pub open spec fn mark_after(m: TileMark) -> TileMark {
    match m {
        TileMark::Unknown => TileMark::Miss,
        TileMark::Miss => TileMark::Present,
        TileMark::Present => TileMark::Exact,
        TileMark::Exact => TileMark::Unknown,
    }
}

/// The mark before `m` in the cycle.
pub open spec fn mark_before(m: TileMark) -> TileMark {
    match m {
        TileMark::Unknown => TileMark::Exact,
        TileMark::Miss => TileMark::Unknown,
        TileMark::Present => TileMark::Miss,
        TileMark::Exact => TileMark::Present,
    }
}

impl TileMark {
    /// The next mark in the cycle unset, gray, yellow, green.
    pub fn next(self) -> (m: Self)
        ensures
            m == mark_after(self),
    {
        match self {
            TileMark::Unknown => TileMark::Miss,
            TileMark::Miss => TileMark::Present,
            TileMark::Present => TileMark::Exact,
            TileMark::Exact => TileMark::Unknown,
        }
    }

    /// The previous mark in the cycle.
    pub fn prev(self) -> (m: Self)
        ensures
            m == mark_before(self),
    {
        match self {
            TileMark::Unknown => TileMark::Exact,
            TileMark::Miss => TileMark::Unknown,
            TileMark::Present => TileMark::Miss,
            TileMark::Exact => TileMark::Present,
        }
    }

    /// The letter shown on the tile while editing.
    pub fn label(self) -> (s: &'static str)
        ensures
            s@ == match self {
                TileMark::Unknown => " "@,
                TileMark::Miss => "B"@,
                TileMark::Present => "Y"@,
                TileMark::Exact => "G"@,
            },
    {
        match self {
            TileMark::Unknown => " ",
            TileMark::Miss => "B",
            TileMark::Present => "Y",
            TileMark::Exact => "G",
        }
    }

    /// The colour name of the mark.
    pub fn name(self) -> (s: &'static str)
        ensures
            s@ == match self {
                TileMark::Unknown => "unset"@,
                TileMark::Miss => "gray"@,
                TileMark::Present => "yellow"@,
                TileMark::Exact => "green"@,
            },
    {
        match self {
            TileMark::Unknown => "unset",
            TileMark::Miss => "gray",
            TileMark::Present => "yellow",
            TileMark::Exact => "green",
        }
    }
}

/// Cycling a mark forward and back, or back and forward, gives it back; four
/// steps forward go round the cycle.
pub proof fn lemma_mark_cycle(m: TileMark)
    ensures
        mark_before(mark_after(m)) == m,
        mark_after(mark_before(m)) == m,
        mark_after(mark_after(mark_after(mark_after(m)))) == m,
{
}

/// Every tile of the row is marked.
pub open spec fn all_marked(marks: Seq<TileMark>) -> bool {
    forall|i: int| 0 <= i < marks.len() ==> (#[trigger] mark_cell(marks[i])) is Some
}

/// The feedback code of a fully marked row.
pub open spec fn marks_code(marks: Seq<TileMark>) -> int {
    encode_cells(Seq::new(5, |i: int| mark_cell(marks[i]).unwrap()))
}

/// The letter a mark is written with in feedback text.
pub open spec fn mark_char(m: TileMark) -> char {
    match m {
        TileMark::Miss => 'b',
        TileMark::Present => 'y',
        _ => 'g',
    }
}

/// The feedback a row of marks stands for: `None` while a tile is unset.
pub fn marks_to_feedback(marks: &[TileMark; 5]) -> (r: Option<Feedback>)
    ensures
        r is Some <==> all_marked(marks@),
        r matches Some(f) ==> f.0 == marks_code(marks@) && f.0 < 243,
{
    let mut pattern = String::new();
    let mut index: usize = 0;
    while index < 5
        invariant
            index <= 5,
            pattern@ == Seq::new(index as nat, |i: int| mark_char(marks@[i])),
            forall|i: int| 0 <= i < index ==> (#[trigger] mark_cell(marks@[i])) is Some,
        decreases 5 - index,
    {
        let ch = match marks[index] {
            TileMark::Unknown => {
                assert(mark_cell(marks@[index as int]) is None);
                return None;
            },
            TileMark::Miss => 'b',
            TileMark::Present => 'y',
            TileMark::Exact => 'g',
        };
        push_char(&mut pattern, ch);
        index += 1;
        assert(pattern@ =~= Seq::new(index as nat, |i: int| mark_char(marks@[i])));
    }
    let text = pattern.as_str();
    proof {
        let chars = pattern@;
        assert(is_ascii_chars(chars));
        is_ascii_chars_encode_utf8(chars);
        let b = text.spec_bytes();
        assert forall|i: int| 0 <= i < 5 implies b[i] == chars[i] as u8 by {}
        assert(Seq::new(5, |i: int| crate::types::feedback_digit(b[i]).unwrap()) =~= Seq::new(
            5,
            |i: int| mark_cell(marks@[i]).unwrap(),
        ));
        assert(crate::types::feedback_text_ok(b));
        lemma_parsed_feedback_is_canonical(b);
    }
    match Feedback::parse(text) {
        Ok(feedback) => Some(feedback),
        Err(_) => None,
    }
}

/// The marks that show a feedback's tiles.
pub fn feedback_to_marks(feedback: Feedback) -> (marks: [TileMark; 5])
    ensures
        marks@ == Seq::new(5, |i: int| cell_mark(feedback_cells(feedback.0)[i])),
{
    let cells = feedback.cells();
    let marks = [
        mark_of_cell(cells[0]),
        mark_of_cell(cells[1]),
        mark_of_cell(cells[2]),
        mark_of_cell(cells[3]),
        mark_of_cell(cells[4]),
    ];
    assert(marks@ =~= Seq::new(5, |i: int| cell_mark(feedback_cells(feedback.0)[i])));
    marks
}

fn mark_of_cell(cell: u8) -> (m: TileMark)
    ensures
        m == cell_mark(cell),
{
    match cell {
        0 => TileMark::Miss,
        1 => TileMark::Present,
        2 => TileMark::Exact,
        _ => TileMark::Unknown,
    }
}

/// Marks and feedback convert into each other without loss: the marks of
/// a feedback code below 243 read back as that code, and a fully marked row
/// reads back as the same marks.
pub proof fn lemma_marks_roundtrip(code: u8, marks: Seq<TileMark>)
    ensures
        code < 243 ==> {
            let m = Seq::new(5, |i: int| cell_mark(feedback_cells(code)[i]));
            all_marked(m) && marks_code(m) == code
        },
        marks.len() == 5 && all_marked(marks) ==> Seq::new(
            5,
            |i: int| cell_mark(feedback_cells(marks_code(marks) as u8)[i]),
        ) == marks,
{
    if code < 243 {
        let m = Seq::new(5, |i: int| cell_mark(feedback_cells(code)[i]));
        assert(Seq::new(5, |i: int| mark_cell(m[i]).unwrap()) =~= feedback_cells(code));
        crate::types::lemma_cells_encode(code);
    }
    if marks.len() == 5 && all_marked(marks) {
        let d = Seq::new(5, |i: int| mark_cell(marks[i]).unwrap());
        assert(mark_cell(marks[0]) is Some && mark_cell(marks[1]) is Some && mark_cell(marks[2]) is Some
            && mark_cell(marks[3]) is Some && mark_cell(marks[4]) is Some);
        assert(d[0] <= 2 && d[1] <= 2 && d[2] <= 2 && d[3] <= 2 && d[4] <= 2);
        let code2 = marks_code(marks) as u8;
        crate::types::lemma_encode_cells_decode(d);
        assert(Seq::new(5, |i: int| cell_mark(feedback_cells(code2)[i])) =~= marks);
    }
}

// ---------------------------------------------------------------------------
// Guess policy and status line
// ---------------------------------------------------------------------------

/// How suggestions are chosen.
#[derive(Clone, Copy, Debug, PartialEq, Eq, Structural)]
pub enum GuessPolicy {
    /// Only words that are still possible answers.
    Playable,
    /// Any guess, for the most information.
    BestInformation,
}

/// The other policy.
pub open spec fn toggled(p: GuessPolicy) -> GuessPolicy {
    match p {
        GuessPolicy::Playable => GuessPolicy::BestInformation,
        GuessPolicy::BestInformation => GuessPolicy::Playable,
    }
}

/// Switching the policy twice gives it back.
pub proof fn lemma_toggle_twice(p: GuessPolicy)
    ensures
        toggled(toggled(p)) == p,
        toggled(p) != p,
{
}

impl GuessPolicy {
    /// The policy's name as shown to the player.
    pub fn label(self) -> (s: &'static str)
        ensures
            s@ == match self {
                GuessPolicy::Playable => "playable"@,
                GuessPolicy::BestInformation => "best-information"@,
            },
    {
        match self {
            GuessPolicy::Playable => "playable",
            GuessPolicy::BestInformation => "best-information",
        }
    }

    /// The other policy.
    pub fn toggle(self) -> (p: Self)
        ensures
            p == toggled(self),
    {
        match self {
            GuessPolicy::Playable => GuessPolicy::BestInformation,
            GuessPolicy::BestInformation => GuessPolicy::Playable,
        }
    }
}

/// The kind of message on the status line.
#[derive(Clone, Copy, Debug, PartialEq, Eq, Structural)]
pub enum StatusKind {
    Info,
    Success,
    Error,
}

/// A message for the player.
#[derive(Debug)]
pub struct StatusLine {
    pub kind: StatusKind,
    pub text: String,
}

impl StatusLine {
    /// An informational message.
    pub fn info(text: String) -> (s: Self)
        ensures
            s.kind == StatusKind::Info,
            s.text@ == text@,
    {
        StatusLine { kind: StatusKind::Info, text }
    }

    /// A success message.
    pub fn success(text: String) -> (s: Self)
        ensures
            s.kind == StatusKind::Success,
            s.text@ == text@,
    {
        StatusLine { kind: StatusKind::Success, text }
    }

    /// An error message.
    pub fn error(text: String) -> (s: Self)
        ensures
            s.kind == StatusKind::Error,
            s.text@ == text@,
    {
        StatusLine { kind: StatusKind::Error, text }
    }
}


// ---------------------------------------------------------------------------
// Choosing a suggestion
// ---------------------------------------------------------------------------

/// Number of the first `k` codes equal to `code`.
pub open spec fn code_count(codes: Seq<u8>, code: int, k: int) -> nat
    decreases k,
{
    if k <= 0 {
        0
    } else {
        code_count(codes, code, k - 1) + if codes[k - 1] == code {
            1nat
        } else {
            0nat
        }
    }
}

/// The largest count among codes below `limit`.
pub open spec fn largest_count(codes: Seq<u8>, limit: int) -> nat
    decreases limit,
{
    if limit <= 0 {
        0
    } else {
        let w = largest_count(codes, limit - 1);
        let b = code_count(codes, limit - 1, codes.len() as int);
        if b > w {
            b
        } else {
            w
        }
    }
}

/// The sum of squared counts among codes below `limit`.
pub open spec fn squared_counts(codes: Seq<u8>, limit: int) -> nat
    decreases limit,
{
    if limit <= 0 {
        0
    } else {
        let b = code_count(codes, limit - 1, codes.len() as int);
        squared_counts(codes, limit - 1) + b * b
    }
}

/// Number of the first `k` codes below `limit`.
pub open spec fn count_codes_below(codes: Seq<u8>, limit: int, k: int) -> nat
    decreases k,
{
    if k <= 0 {
        0
    } else {
        count_codes_below(codes, limit, k - 1) + if (codes[k - 1] as int) < limit {
            1nat
        } else {
            0nat
        }
    }
}

/// Sum of the counts of codes below `limit`.
pub open spec fn counts_total(codes: Seq<u8>, limit: int) -> nat
    decreases limit,
{
    if limit <= 0 {
        0
    } else {
        counts_total(codes, limit - 1) + code_count(codes, limit - 1, codes.len() as int)
    }
}

proof fn lemma_code_count_bound(codes: Seq<u8>, code: int, k: int)
    requires
        k >= 0,
    ensures
        code_count(codes, code, k) <= k,
    decreases k,
{
    if k > 0 {
        lemma_code_count_bound(codes, code, k - 1);
    }
}

proof fn lemma_count_codes_below_step(codes: Seq<u8>, limit: int, k: int)
    requires
        limit >= 1,
        k >= 0,
    ensures
        count_codes_below(codes, limit, k) == count_codes_below(codes, limit - 1, k) + code_count(
            codes,
            limit - 1,
            k,
        ),
        count_codes_below(codes, limit, k) <= k,
        count_codes_below(codes, 0, k) == 0,
    decreases k,
{
    if k > 0 {
        lemma_count_codes_below_step(codes, limit, k - 1);
    }
}

proof fn lemma_counts_total(codes: Seq<u8>, limit: int)
    requires
        limit >= 0,
    ensures
        counts_total(codes, limit) == count_codes_below(codes, limit, codes.len() as int),
    decreases limit,
{
    if limit > 0 {
        lemma_counts_total(codes, limit - 1);
        lemma_count_codes_below_step(codes, limit, codes.len() as int);
    } else {
        lemma_count_codes_below_step(codes, 1, codes.len() as int);
    }
}

/// The feedback codes a guess gets against each candidate.
pub open spec fn codes_against(guess: Word, candidates: Seq<Word>) -> Seq<u8> {
    Seq::new(candidates.len(), |i: int| score_code(guess, candidates[i]))
}

/// Byte-wise lexicographic order on letters from position `i` on.
pub open spec fn letters_lt_from(x: Seq<u8>, y: Seq<u8>, i: int) -> bool
    decreases 5 - i,
{
    if i >= 5 || i < 0 {
        false
    } else {
        x[i] < y[i] || (x[i] == y[i] && letters_lt_from(x, y, i + 1))
    }
}

/// How a candidate ranks for the playable policy: smaller largest group,
/// then smaller squared sum, then alphabetical order of its text.
pub open spec fn playable_lt(candidates: Seq<Word>, v: Word, w: Word) -> bool {
    let cv = codes_against(v, candidates);
    let cw = codes_against(w, candidates);
    let wv = largest_count(cv, 243);
    let ww = largest_count(cw, 243);
    let sv = squared_counts(cv, 243);
    let sw = squared_counts(cw, 243);
    ||| wv < ww
    ||| (wv == ww && sv < sw)
    ||| (wv == ww && sv == sw && letters_lt_from(letter_bytes(v.0), letter_bytes(w.0), 0))
}

/// Candidate `b` is the first best-ranked one.
pub open spec fn first_best(candidates: Seq<Word>, b: int) -> bool {
    &&& 0 <= b < candidates.len()
    &&& forall|j: int| 0 <= j < b ==> #[trigger] playable_lt(candidates, candidates[b], candidates[j])
    &&& forall|j: int|
        b < j < candidates.len() ==> !#[trigger] playable_lt(candidates, candidates[j], candidates[b])
}

proof fn lemma_letters_order(x: Seq<u8>, y: Seq<u8>, z: Seq<u8>, i: int)
    requires
        0 <= i <= 5,
    ensures
        letters_lt_from(x, y, i) && letters_lt_from(y, z, i) ==> letters_lt_from(x, z, i),
        !letters_lt_from(x, y, i) ==> letters_lt_from(y, x, i) || (forall|k: int|
            i <= k < 5 ==> #[trigger] x[k] == y[k]),
        !letters_lt_from(x, x, i),
    decreases 5 - i,
{
    if i < 5 {
        lemma_letters_order(x, y, z, i + 1);
    }
}

proof fn lemma_playable_order(c: Seq<Word>, u: Word, v: Word, w: Word)
    ensures
        playable_lt(c, u, v) && playable_lt(c, v, w) ==> playable_lt(c, u, w),
        !playable_lt(c, u, v) && !playable_lt(c, v, u) ==> (playable_lt(c, w, u) == playable_lt(
            c,
            w,
            v,
        )) && (playable_lt(c, u, w) == playable_lt(c, v, w)),
        !playable_lt(c, u, u),
{
    let lu = letter_bytes(u.0);
    let lv = letter_bytes(v.0);
    let lw = letter_bytes(w.0);
    lemma_letters_order(lu, lv, lw, 0);
    lemma_letters_order(lv, lu, lw, 0);
    lemma_letters_order(lw, lu, lv, 0);
    lemma_letters_order(lw, lv, lu, 0);
    lemma_letters_order(lu, lw, lv, 0);
    lemma_letters_order(lv, lw, lu, 0);
    if !playable_lt(c, u, v) && !playable_lt(c, v, u) {
        assert(lu.len() == 5 && lv.len() == 5);
        if !letters_lt_from(lu, lv, 0) && !letters_lt_from(lv, lu, 0) {
            assert(lu =~= lv);
        }
    }
}

/// The first best-ranked candidate leaves the smallest largest group of
/// any candidate; among candidates with the same largest group it leaves the
/// smallest sum of squared group sizes; among those that tie on both it
/// comes first alphabetically, and before any later candidate spelled the
/// same way.
pub proof fn lemma_first_best_minimizes(candidates: Seq<Word>, b: int, j: int)
    requires
        first_best(candidates, b),
        0 <= j < candidates.len(),
    ensures
        ({
            let cb = codes_against(candidates[b], candidates);
            let cj = codes_against(candidates[j], candidates);
            &&& largest_count(cb, 243) <= largest_count(cj, 243)
            &&& largest_count(cb, 243) == largest_count(cj, 243) ==> squared_counts(cb, 243)
                <= squared_counts(cj, 243)
            &&& largest_count(cb, 243) == largest_count(cj, 243) && squared_counts(cb, 243)
                == squared_counts(cj, 243) ==> !letters_lt_from(
                letter_bytes(candidates[j].0),
                letter_bytes(candidates[b].0),
                0,
            )
            &&& j < b ==> playable_lt(candidates, candidates[b], candidates[j])
        }),
{
    let lb = letter_bytes(candidates[b].0);
    let lj = letter_bytes(candidates[j].0);
    lemma_letters_order(lb, lj, lb, 0);
    lemma_letters_order(lj, lb, lj, 0);
    if j < b {
        assert(playable_lt(candidates, candidates[b], candidates[j]));
    } else if j > b {
        assert(!playable_lt(candidates, candidates[j], candidates[b]));
    }
}

/// Whether letters `x` come before letters `y` in byte-wise order.
fn letters_before(x: [u8; 5], y: [u8; 5]) -> (b: bool)
    ensures
        b == letters_lt_from(x@, y@, 0),
{
    let mut index: usize = 5;
    let mut result = false;
    while index > 0
        invariant
            index <= 5,
            result == letters_lt_from(x@, y@, index as int),
        decreases index,
    {
        index -= 1;
        result = x[index] < y[index] || (x[index] == y[index] && result);
    }
    result
}

/// How the words of `answers` split under `guess`: entry `code` counts the
/// answers on which `guess` shows feedback `code`.
pub fn feedback_buckets(guess: Word, answers: &Vec<Word>) -> (buckets: [usize; 243])
    requires
        forall|i: int| 0 <= i < answers@.len() ==> scorable(guess, #[trigger] answers@[i]),
    ensures
        forall|code: int|
            0 <= code < 243 ==> #[trigger] buckets@[code] as int == code_count(
                codes_against(guess, answers@),
                code,
                answers@.len() as int,
            ),
{
    let ghost codes = codes_against(guess, answers@);
    let ghost n = answers@.len() as int;
    let mut buckets = [0usize; 243];
    let mut index: usize = 0;
    while index < answers.len()
        invariant
            codes == codes_against(guess, answers@),
            n == answers@.len(),
            forall|i: int| 0 <= i < n ==> scorable(guess, #[trigger] answers@[i]),
            index <= n,
            buckets@.len() == 243,
            forall|code: int|
                0 <= code < 243 ==> #[trigger] buckets@[code] as int == code_count(codes, code, index as int),
        decreases n - index,
    {
        let code = score_guess(guess, answers[index]).code() as usize;
        proof {
            lemma_code_count_bound(codes, code as int, index as int);
        }
        buckets[code] = buckets[code] + 1;
        index += 1;
    }
    buckets
}

/// The largest group and the squared sum of the groups into which `guess`
/// splits `candidates`.
pub(crate) fn split_sizes(guess: Word, candidates: &Vec<Word>) -> (r: (usize, usize))
    requires
        candidates@.len() <= 0xffff,
        forall|i: int| 0 <= i < candidates@.len() ==> scorable(guess, #[trigger] candidates@[i]),
    ensures
        r.0 == largest_count(codes_against(guess, candidates@), 243),
        r.1 == squared_counts(codes_against(guess, candidates@), 243),
{
    let ghost codes = codes_against(guess, candidates@);
    let ghost n = candidates@.len() as int;
    let buckets = feedback_buckets(guess, candidates);
    proof {
        crate::types::lemma_score_bound(guess, guess);
        assert forall|i: int| 0 <= i < n implies (#[trigger] codes[i] as int) < 243 by {
            crate::types::lemma_score_bound(guess, candidates@[i]);
        }
        lemma_codes_all_below(codes, n);
    }
    let mut worst: usize = 0;
    let mut sum: usize = 0;
    let mut code: usize = 0;
    while code < 243
        invariant
            codes.len() == n,
            n <= 0xffff,
            count_codes_below(codes, 243, n) == n,
            buckets@.len() == 243,
            forall|k: int| 0 <= k < 243 ==> #[trigger] buckets@[k] as int == code_count(codes, k, n),
            code <= 243,
            worst as int == largest_count(codes, code as int),
            sum as int == squared_counts(codes, code as int),
            sum as int <= counts_total(codes, code as int) * counts_total(codes, code as int),
        decreases 243 - code,
    {
        let size = buckets[code];
        let ghost t = counts_total(codes, code as int);
        let ghost b = size as int;
        proof {
            lemma_counts_total(codes, code + 1);
            lemma_count_codes_below_step(codes, code + 1, n);
            lemma_count_codes_below_step(codes, 243, n);
            assert(t + b <= n);
            assert(sum + b * b <= (t + b) * (t + b)) by (nonlinear_arith)
                requires
                    sum <= t * t,
                    0 <= t,
                    0 <= b,
            ;
            assert((t + b) * (t + b) <= 0xffff * 0xffff) by (nonlinear_arith)
                requires
                    0 <= t + b <= 0xffff,
            ;
            assert(b * b <= 0xffff * 0xffff) by (nonlinear_arith)
                requires
                    0 <= b <= 0xffff,
            ;
        }
        if size > worst {
            worst = size;
        }
        sum = sum + size * size;
        code += 1;
    }
    (worst, sum)
}

proof fn lemma_codes_all_below(codes: Seq<u8>, k: int)
    requires
        0 <= k <= codes.len(),
        forall|i: int| 0 <= i < codes.len() ==> (#[trigger] codes[i] as int) < 243,
    ensures
        count_codes_below(codes, 243, k) == k,
    decreases k,
{
    if k > 0 {
        lemma_codes_all_below(codes, k - 1);
    }
}

/// The words of the possible answers are pairwise scorable.
pub open spec fn candidates_scorable(s: OfficialSolver) -> bool {
    let c = s.corpus_of();
    let l = s.alive_answers();
    forall|i: int, j: int|
        0 <= i < l.len() && 0 <= j < l.len() ==> scorable(
            #[trigger] c.answer_word_at(l[i] as int),
            #[trigger] c.answer_word_at(l[j] as int),
        )
}

/// What a session needs before a suggestion under `policy` may be asked of
/// it: valid feedback codes on the possible answers where the solver searches
/// for its own suggestion (more than one answer possible, no opening guess
/// held), and possible answers scorable against each other where one of them
/// is chosen.
pub open spec fn suggestion_ready(s: OfficialSolver, policy: GuessPolicy) -> bool {
    let n = s.alive_count();
    let own = policy == GuessPolicy::BestInformation || n == s.corpus_of().num_answers() || n <= 2;
    &&& s.inv()
    &&& own && s.solved() is None && s.cached() is None && n != 1 ==> codes_in_range(
        s.corpus_of(),
        s.alive_answers(),
    )
    &&& !own ==> candidates_scorable(s)
}

/// The words of the possible answers, in answer order.
pub open spec fn candidate_words(s: OfficialSolver) -> Seq<Word> {
    Seq::new(
        s.alive_answers().len(),
        |i: int| s.corpus_of().answer_word_at(s.alive_answers()[i] as int),
    )
}

/// What asking session `s0` for a suggestion under `policy` does, leaving
/// `s1` and returning `r`. The best-information policy, and the playable one
/// while every answer or at most two are possible, take the solver's own
/// suggestion. Otherwise the playable policy issues the possible answer that
/// splits the possible answers best.
pub open spec fn suggests(
    s0: OfficialSolver,
    s1: OfficialSolver,
    policy: GuessPolicy,
    r: Result<Word, SolverError>,
) -> bool {
    let n = s0.alive_count();
    if policy == GuessPolicy::BestInformation || n == s0.corpus_of().num_answers() || n <= 2 {
        r matches Ok(w) && picks_next(s0, s1, w)
    } else {
        let cands = candidate_words(s0);
        exists|b: int| first_best(cands, b) && issues(s0, s1, cands[b], r)
    }
}

/// Suggests a word that is itself a possible answer: while every answer or
/// at most two are possible, the solver's own suggestion; otherwise the
/// possible answer that splits the possible answers best (smallest largest
/// group, then smallest squared sum, then alphabetical), which becomes the
/// guess waiting for feedback.
pub fn select_playable_guess(solver: &mut OfficialSolver) -> (r: Result<Word, SolverError>)
    requires
        suggestion_ready(*old(solver), GuessPolicy::Playable),
    ensures
        suggests(*old(solver), *final(solver), GuessPolicy::Playable, r),
        sorted_words(old(solver).corpus_of().guess_list()) ==> r is Ok,
{
    let answer_count = solver.corpus().answer_count();
    if solver.remaining_answers() == answer_count {
        return Ok(solver.next_guess());
    }
    if solver.remaining_answers() <= 2 {
        return Ok(solver.next_guess());
    }
    let candidates = match solver.remaining_candidates() {
        Ok(candidates) => candidates,
        Err(error) => return Err(error),
    };
    let ghost s0 = *solver;
    let ghost c = s0.corpus_of();
    let ghost l = s0.alive_answers();
    let ghost cands = candidates@;
    proof {
        crate::solver::lemma_alive_answers_facts(s0);
        assert(cands =~= Seq::new(l.len(), |i: int| c.answer_word_at(l[i] as int)));
        assert forall|i: int, j: int|
            0 <= i < cands.len() && 0 <= j < cands.len() implies scorable(
            #[trigger] cands[i],
            #[trigger] cands[j],
        ) by {
            assert(scorable(c.answer_word_at(l[i] as int), c.answer_word_at(l[j] as int)));
        }
    }
    if candidates.len() == 0 {
        return Ok(solver.next_guess());
    }

    let mut best = candidates[0];
    let mut best_index: usize = 0;
    let mut best_worst: usize = usize::MAX;
    let mut best_sum: usize = usize::MAX;
    let mut best_letters = best.letters();
    let mut index: usize = 0;
    while index < candidates.len()
        invariant
            cands == candidates@,
            cands.len() == l.len(),
            cands.len() <= 0xffff,
            forall|i: int, j: int|
                0 <= i < cands.len() && 0 <= j < cands.len() ==> scorable(#[trigger] cands[i], #[trigger] cands[j]),
            index <= cands.len(),
            cands.len() >= 1,
            index == 0 ==> best_worst == usize::MAX && best_sum == usize::MAX && best == cands[0]
                && best_letters@ == letter_bytes(best.0),
            index > 0 ==> {
                &&& best_index < index
                &&& best == cands[best_index as int]
                &&& best_worst == largest_count(codes_against(best, cands), 243)
                &&& best_sum == squared_counts(codes_against(best, cands), 243)
                &&& best_letters@ == letter_bytes(best.0)
                &&& forall|j: int|
                    0 <= j < best_index ==> #[trigger] playable_lt(cands, cands[best_index as int], cands[j])
                &&& forall|j: int|
                    best_index < j < index ==> !#[trigger] playable_lt(cands, cands[j], cands[best_index as int])
            },
        decreases cands.len() - index,
    {
        let guess = candidates[index];
        let (worst, sum) = split_sizes(guess, &candidates);
        let letters = guess.letters();
        proof {
            lemma_largest_bound(codes_against(guess, cands), 243);
            lemma_playable_order(cands, cands[index as int], cands[index as int], cands[index as int]);
        }
        if worst < best_worst || (worst == best_worst && sum < best_sum) || (worst == best_worst
            && sum == best_sum && letters_before(letters, best_letters)) {
            proof {
                if index > 0 {
                    let bi = best_index as int;
                    assert(playable_lt(cands, cands[index as int], cands[bi]));
                    assert forall|j: int| 0 <= j < index implies #[trigger] playable_lt(
                        cands,
                        cands[index as int],
                        cands[j],
                    ) by {
                        lemma_playable_order(cands, cands[index as int], cands[bi], cands[j]);
                        lemma_playable_order(cands, cands[bi], cands[j], cands[index as int]);
                    }
                }
            }
            best = guess;
            best_index = index;
            best_worst = worst;
            best_sum = sum;
            best_letters = letters;
        }
        index += 1;
    }
    assert(first_best(cands, best_index as int));
    proof {
        let k = c.answer_list()[l[best_index as int] as int] as int;
        assert(0 <= k < c.num_guesses());
        assert(c.guess_list()[k] == best);
        assert(cands =~= candidate_words(s0));
    }
    let r = solver.issue_guess(best);
    assert(issues(s0, *solver, candidate_words(s0)[best_index as int], r));
    r
}

proof fn lemma_largest_bound(codes: Seq<u8>, limit: int)
    requires
        limit >= 0,
    ensures
        largest_count(codes, limit) <= codes.len(),
    decreases limit,
{
    if limit > 0 {
        lemma_largest_bound(codes, limit - 1);
        lemma_code_count_bound(codes, limit - 1, codes.len() as int);
    }
}

/// Suggests the next word under a policy: the solver's own suggestion for
/// the best-information policy, a possible answer for the playable one.
pub fn select_guess(solver: &mut OfficialSolver, policy: GuessPolicy) -> (r: Result<Word, SolverError>)
    requires
        suggestion_ready(*old(solver), policy),
    ensures
        suggests(*old(solver), *final(solver), policy, r),
        sorted_words(old(solver).corpus_of().guess_list()) ==> r is Ok,
{
    match policy {
        GuessPolicy::BestInformation => Ok(solver.next_guess()),
        GuessPolicy::Playable => select_playable_guess(solver),
    }
}


// ---------------------------------------------------------------------------
// Messages
// ---------------------------------------------------------------------------

/// The character of decimal digit `d`.
pub open spec fn digit_char(d: nat) -> char {
    ((d + 48) as u8) as char
}

/// The decimal digits of `n`, most significant first.
pub open spec fn decimal_chars(n: nat) -> Seq<char>
    decreases n,
{
    if n < 10 {
        seq![digit_char(n)]
    } else {
        decimal_chars(n / 10).push(digit_char(n % 10))
    }
}

/// Appends the decimal digits of `n` to `s`.
fn push_decimal(s: &mut String, n: usize)
    ensures
        final(s)@ == old(s)@ + decimal_chars(n as nat),
    decreases n,
{
    let ghost start = s@;
    if n >= 10 {
        push_decimal(s, n / 10);
    }
    let digit = (n % 10) as u8;
    push_char(s, (digit + 48) as char);
    proof {
        if n >= 10 {
            assert(s@ =~= start + decimal_chars(n as nat));
        } else {
            assert(s@ =~= start + decimal_chars(n as nat));
        }
    }
}

/// The status text after accepted feedback.
pub open spec fn accepted_text(remaining: nat) -> Seq<char> {
    "Accepted. "@ + decimal_chars(remaining) + " possible answers remain."@
}

/// The status text once the game is solved.
pub open spec fn solved_text(turn: nat, word: Word) -> Seq<char> {
    "Solved in "@ + decimal_chars(turn) + " turns. Answer: "@ + word_chars(word.0)
        + ". Press r to start a new game."@
}

/// The status text after switching to `policy`.
pub open spec fn mode_text(policy: GuessPolicy) -> Seq<char> {
    match policy {
        GuessPolicy::Playable => "Switched to playable mode. Suggestions will preserve all known clues."@,
        GuessPolicy::BestInformation => "Switched to best-information mode. Suggestions may violate clue positions."@,
    }
}

fn accepted_message(remaining: usize) -> (s: String)
    ensures
        s@ == accepted_text(remaining as nat),
{
    let mut s = String::from_str("Accepted. ");
    push_decimal(&mut s, remaining);
    s.append(" possible answers remain.");
    s
}

fn solved_message(turn: usize, word: Word) -> (s: String)
    ensures
        s@ == solved_text(turn as nat, word),
{
    let mut s = String::from_str("Solved in ");
    push_decimal(&mut s, turn);
    s.append(" turns. Answer: ");
    let text = word.as_string();
    s.append(text.as_str());
    s.append(". Press r to start a new game.");
    s
}

fn mode_message(policy: GuessPolicy) -> (s: String)
    ensures
        s@ == mode_text(policy),
{
    match policy {
        GuessPolicy::Playable => String::from_str(
            "Switched to playable mode. Suggestions will preserve all known clues.",
        ),
        GuessPolicy::BestInformation => String::from_str(
            "Switched to best-information mode. Suggestions may violate clue positions.",
        ),
    }
}

// ---------------------------------------------------------------------------
// The board
// ---------------------------------------------------------------------------

/// One finished row of the board.
#[derive(Clone, Copy, Debug, PartialEq, Eq, Structural)]
pub struct TurnRecord {
    pub guess: Word,
    pub feedback: Feedback,
    pub remaining_answers: usize,
}

/// A key press as the board understands it.
#[derive(Clone, Copy, Debug, PartialEq, Eq, Structural)]
pub enum KeyAction {
    /// Leave the program.
    Quit,
    /// Move to the tile on the left.
    Left,
    /// Move to the tile on the right.
    Right,
    /// Cycle the tile's mark forward and move on.
    Cycle,
    /// Cycle the tile's mark backward.
    CycleBack,
    /// Mark the tile gray and move on.
    MarkMiss,
    /// Mark the tile yellow and move on.
    MarkPresent,
    /// Mark the tile green and move on.
    MarkExact,
    /// Unset the tile's mark.
    Clear,
    /// Confirm the marked row.
    Submit,
    /// Start a new game.
    Restart,
    /// Switch the suggestion policy.
    SwitchMode,
    /// Any other key.
    Ignore,
}

/// What the driver of the board does after a key.
#[derive(Clone, Copy, Debug, PartialEq, Eq, Structural)]
pub enum KeyOutcome {
    /// Keep going; no new suggestion was made.
    Continue,
    /// Keep going; a new suggestion was chosen.
    Suggested,
    /// Stop.
    Quit,
}

/// A corpus a board can be played on: sorted guess words that each spell
/// five letters, and feedback codes below 243.
pub open spec fn board_corpus(c: Corpus) -> bool {
    &&& c.wf()
    &&& sorted_words(c.guess_list())
    &&& valid_words(c)
    &&& forall|g: int, a: int|
        0 <= g < c.num_guesses() && 0 <= a < c.num_answers() ==> #[trigger] c.feedback_at(g, a)
            < 243
}

/// A corpus that is the scoring of its sorted, valid words can be played on
/// the board.
pub proof fn lemma_scored_corpus_is_playable(c: Corpus)
    requires
        c.wf(),
        sorted_words(c.guess_list()),
        valid_words(c),
        scores_match(c),
    ensures
        board_corpus(c),
        solvable(c),
{
    lemma_scored_corpus_is_solvable(c);
}

proof fn lemma_board_ready(s: OfficialSolver, policy: GuessPolicy)
    requires
        s.inv(),
        board_corpus(s.corpus_of()),
    ensures
        suggestion_ready(s, policy),
{
    let c = s.corpus_of();
    let l = s.alive_answers();
    lemma_alive_answers_facts(s);
    assert forall|g: int, i: int| 0 <= g < c.num_guesses() && 0 <= i < l.len() implies #[trigger] c.feedback_at(
        g,
        l[i] as int,
    ) < 243 by {
        assert((l[i] as int) < c.num_answers());
    }
    assert forall|i: int, j: int| 0 <= i < l.len() && 0 <= j < l.len() implies scorable(
        #[trigger] c.answer_word_at(l[i] as int),
        #[trigger] c.answer_word_at(l[j] as int),
    ) by {
        let gi = c.answer_list()[l[i] as int] as int;
        let gj = c.answer_list()[l[j] as int] as int;
        assert(0 <= gi < c.num_guesses());
        assert(0 <= gj < c.num_guesses());
        assert(is_valid_packed(c.guess_list()[gi].0));
        assert(is_valid_packed(c.guess_list()[gj].0));
    }
}

/// A row with every tile unset.
pub open spec fn blank_row() -> Seq<TileMark> {
    Seq::new(5, |i: int| TileMark::Unknown)
}

/// The tile after `cursor`, or `cursor` itself on the last tile.
pub open spec fn advanced(cursor: int) -> int {
    if cursor + 1 < 5 {
        cursor + 1
    } else {
        cursor
    }
}

/// A game of Wordle in progress on the board: the solving session, the
/// turn, the suggestion policy, the suggested word, the marks being entered
/// with the selected tile, the finished rows, and the status line.
#[derive(Debug)]
pub struct App<'a> {
    pub solver: OfficialSolver<'a>,
    pub turn: usize,
    pub policy: GuessPolicy,
    pub current_guess: Word,
    pub feedback_row: [TileMark; 5],
    pub cursor: usize,
    pub history: Vec<TurnRecord>,
    pub status: StatusLine,
}

/// A new board on corpus `c`: every answer possible, the opening guess
/// suggested and waiting for feedback, turn one, playable policy, a blank
/// row with the first tile selected, no finished rows, and the greeting.
pub open spec fn fresh_board(a: App, c: Corpus) -> bool {
    &&& a.wf()
    &&& a.solver.corpus_of() == c
    &&& a.solver.alive() == Seq::new(c.num_answers() as nat, |i: int| true)
    &&& a.solver.pending() == Some(c.opening() as usize)
    &&& a.solver.cached() == Some(c.opening() as usize)
    &&& a.solver.solved() is None
    &&& a.current_guess == c.guess_list()[c.opening()]
    &&& a.turn == 1
    &&& a.policy == GuessPolicy::Playable
    &&& a.feedback_row@ == blank_row()
    &&& a.cursor == 0
    &&& a.history@.len() == 0
    &&& a.status.kind == StatusKind::Info
    &&& a.status.text@ == "Play the word, mark the five tiles, then press Enter."@
}

/// `a1` is `a0` with the marks `row`, the tile `cursor` selected and
/// nothing else changed.
pub open spec fn edited(a0: App, a1: App, row: Seq<TileMark>, cursor: int) -> bool {
    &&& a1.wf()
    &&& a1.feedback_row@ == row
    &&& a1.cursor == cursor
    &&& a1.solver == a0.solver
    &&& a1.turn == a0.turn
    &&& a1.policy == a0.policy
    &&& a1.current_guess == a0.current_guess
    &&& a1.history == a0.history
    &&& a1.status == a0.status
}

/// `a1` is `a0` with the solver `solver`, the status `kind` and `text`, and
/// nothing else changed.
pub open spec fn noted<'a>(
    a0: App<'a>,
    a1: App<'a>,
    solver: OfficialSolver<'a>,
    kind: StatusKind,
    text: Seq<char>,
) -> bool {
    &&& a1.wf()
    &&& a1.solver == solver
    &&& a1.status.kind == kind
    &&& a1.status.text@ == text
    &&& a1.turn == a0.turn
    &&& a1.policy == a0.policy
    &&& a1.current_guess == a0.current_guess
    &&& a1.feedback_row == a0.feedback_row
    &&& a1.cursor == a0.cursor
    &&& a1.history == a0.history
}

/// After the solver took the marked feedback `fb` (leaving `mid` and
/// returning `st`): while in progress, the row is recorded with the answers
/// left, the next turn starts with a new suggestion under the policy; once
/// solved, the row is recorded with one answer left and the win announced;
/// a contradiction is reported and play goes on; any other error ends the
/// game with that error.
pub open spec fn after_feedback<'a>(
    a0: App<'a>,
    fb: Feedback,
    mid: OfficialSolver<'a>,
    st: Result<SolverStatus, SolverError>,
    a1: App<'a>,
    r: Result<KeyOutcome, SolverError>,
) -> bool {
    match st {
        Ok(SolverStatus::InProgress) => {
            let remaining = mid.alive_count();
            &&& r == Ok::<KeyOutcome, SolverError>(KeyOutcome::Suggested)
            &&& a1.wf()
            &&& suggests(mid, a1.solver, a0.policy, Ok::<Word, SolverError>(a1.current_guess))
            &&& a1.history@ == a0.history@.push(
                (TurnRecord { guess: a0.current_guess, feedback: fb, remaining_answers: remaining as usize }),
            )
            &&& a1.turn == a0.turn + 1
            &&& a1.policy == a0.policy
            &&& a1.feedback_row@ == blank_row()
            &&& a1.cursor == 0
            &&& a1.status.kind == StatusKind::Info
            &&& a1.status.text@ == accepted_text(remaining)
        },
        Ok(SolverStatus::Solved(w)) => {
            &&& r == Ok::<KeyOutcome, SolverError>(KeyOutcome::Continue)
            &&& a1.wf()
            &&& a1.solver == mid
            &&& a1.history@ == a0.history@.push(
                (TurnRecord { guess: a0.current_guess, feedback: fb, remaining_answers: 1 }),
            )
            &&& a1.status.kind == StatusKind::Success
            &&& a1.status.text@ == solved_text(a0.turn as nat, w)
            &&& a1.turn == a0.turn
            &&& a1.policy == a0.policy
            &&& a1.current_guess == a0.current_guess
            &&& a1.feedback_row == a0.feedback_row
            &&& a1.cursor == a0.cursor
        },
        Err(SolverError::Contradiction) => {
            &&& r == Ok::<KeyOutcome, SolverError>(KeyOutcome::Continue)
            &&& noted(
                a0,
                a1,
                mid,
                StatusKind::Error,
                "Those tile colors contradict earlier clues. Re-check the Wordle board."@,
            )
        },
        Err(e) => {
            &&& r == Err::<KeyOutcome, SolverError>(e)
            &&& noted(a0, a1, mid, a0.status.kind, a0.status.text@)
        },
    }
}

/// What confirming the row does: with a tile unset, only an error message;
/// otherwise the solver takes the feedback the marks spell (see
/// `after_feedback`).
pub open spec fn submitted<'a>(a0: App<'a>, a1: App<'a>, r: Result<KeyOutcome, SolverError>) -> bool {
    let row = a0.feedback_row@;
    if !all_marked(row) {
        &&& r == Ok::<KeyOutcome, SolverError>(KeyOutcome::Continue)
        &&& noted(
            a0,
            a1,
            a0.solver,
            StatusKind::Error,
            "Mark all five tiles before confirming."@,
        )
    } else {
        let fb = Feedback(marks_code(row) as u8);
        exists|mid: OfficialSolver<'a>, st: Result<SolverStatus, SolverError>|
            #[trigger] applies(a0.solver, mid, fb, st) && after_feedback(a0, fb, mid, st, a1, r)
    }
}

/// What a key does to the board `a0`, leaving `a1` and returning `r`.
pub open spec fn key_handled<'a>(
    a0: App<'a>,
    a1: App<'a>,
    key: KeyAction,
    r: Result<KeyOutcome, SolverError>,
) -> bool {
    let row = a0.feedback_row@;
    let c = a0.cursor as int;
    match key {
        KeyAction::Quit => r == Ok::<KeyOutcome, SolverError>(KeyOutcome::Quit) && a1 == a0,
        KeyAction::Left => r == Ok::<KeyOutcome, SolverError>(KeyOutcome::Continue) && edited(
            a0,
            a1,
            row,
            if c > 0 {
                c - 1
            } else {
                c
            },
        ),
        KeyAction::Right => r == Ok::<KeyOutcome, SolverError>(KeyOutcome::Continue) && edited(
            a0,
            a1,
            row,
            advanced(c),
        ),
        KeyAction::Cycle => r == Ok::<KeyOutcome, SolverError>(KeyOutcome::Continue) && edited(
            a0,
            a1,
            row.update(c, mark_after(row[c])),
            advanced(c),
        ),
        KeyAction::CycleBack => r == Ok::<KeyOutcome, SolverError>(KeyOutcome::Continue) && edited(
            a0,
            a1,
            row.update(c, mark_before(row[c])),
            c,
        ),
        KeyAction::MarkMiss => r == Ok::<KeyOutcome, SolverError>(KeyOutcome::Continue) && edited(
            a0,
            a1,
            row.update(c, TileMark::Miss),
            advanced(c),
        ),
        KeyAction::MarkPresent => r == Ok::<KeyOutcome, SolverError>(KeyOutcome::Continue) && edited(
            a0,
            a1,
            row.update(c, TileMark::Present),
            advanced(c),
        ),
        KeyAction::MarkExact => r == Ok::<KeyOutcome, SolverError>(KeyOutcome::Continue) && edited(
            a0,
            a1,
            row.update(c, TileMark::Exact),
            advanced(c),
        ),
        KeyAction::Clear => r == Ok::<KeyOutcome, SolverError>(KeyOutcome::Continue) && edited(
            a0,
            a1,
            row.update(c, TileMark::Unknown),
            c,
        ),
        KeyAction::Submit => submitted(a0, a1, r),
        KeyAction::Restart => r == Ok::<KeyOutcome, SolverError>(KeyOutcome::Suggested)
            && fresh_board(a1, a0.solver.corpus_of()),
        KeyAction::SwitchMode => {
            let p = toggled(a0.policy);
            &&& r == Ok::<KeyOutcome, SolverError>(KeyOutcome::Suggested)
            &&& a1.wf()
            &&& a1.policy == p
            &&& suggests(a0.solver, a1.solver, p, Ok::<Word, SolverError>(a1.current_guess))
            &&& a1.feedback_row@ == blank_row()
            &&& a1.cursor == 0
            &&& a1.turn == a0.turn
            &&& a1.history == a0.history
            &&& a1.status.kind == StatusKind::Info
            &&& a1.status.text@ == mode_text(p)
        },
        KeyAction::Ignore => r == Ok::<KeyOutcome, SolverError>(KeyOutcome::Continue) && a1 == a0,
    }
}

impl<'a> App<'a> {
    /// The board's consistency: a consistent session on a playable corpus,
    /// and a selected tile on the row.
    pub open spec fn wf(&self) -> bool {
        &&& self.solver.inv()
        &&& board_corpus(self.solver.corpus_of())
        &&& self.cursor < 5
    }

    /// A new game on `corpus` (see `fresh_board`).
    pub fn new(corpus: &'a Corpus) -> (r: Result<Self, SolverError>)
        requires
            board_corpus(*corpus),
        ensures
            r matches Ok(app) && fresh_board(app, *corpus),
    {
        let mut solver = OfficialSolver::try_new(corpus)?;
        proof {
            lemma_board_ready(solver, GuessPolicy::Playable);
        }
        let current_guess = select_guess(&mut solver, GuessPolicy::Playable)?;
        let app = App {
            solver,
            turn: 1,
            policy: GuessPolicy::Playable,
            current_guess,
            feedback_row: [
                TileMark::Unknown,
                TileMark::Unknown,
                TileMark::Unknown,
                TileMark::Unknown,
                TileMark::Unknown,
            ],
            cursor: 0,
            history: Vec::new(),
            status: StatusLine::info(
                String::from_str("Play the word, mark the five tiles, then press Enter."),
            ),
        };
        assert(app.feedback_row@ =~= blank_row());
        Ok(app)
    }

    /// Applies a key to the board (see `key_handled`).
    pub fn handle_key(&mut self, key: KeyAction) -> (r: Result<KeyOutcome, SolverError>)
        requires
            old(self).wf(),
            old(self).turn < usize::MAX,
        ensures
            final(self).wf(),
            key_handled(*old(self), *final(self), key, r),
    {
        match key {
            KeyAction::Quit => Ok(KeyOutcome::Quit),
            KeyAction::Left => {
                if self.cursor > 0 {
                    self.cursor -= 1;
                }
                Ok(KeyOutcome::Continue)
            },
            KeyAction::Right => {
                self.advance_cursor();
                Ok(KeyOutcome::Continue)
            },
            KeyAction::Cycle => {
                let mark = self.feedback_row[self.cursor].next();
                self.feedback_row[self.cursor] = mark;
                self.advance_cursor();
                Ok(KeyOutcome::Continue)
            },
            KeyAction::CycleBack => {
                let mark = self.feedback_row[self.cursor].prev();
                self.feedback_row[self.cursor] = mark;
                Ok(KeyOutcome::Continue)
            },
            KeyAction::MarkMiss => {
                self.set_current_mark(TileMark::Miss);
                Ok(KeyOutcome::Continue)
            },
            KeyAction::MarkPresent => {
                self.set_current_mark(TileMark::Present);
                Ok(KeyOutcome::Continue)
            },
            KeyAction::MarkExact => {
                self.set_current_mark(TileMark::Exact);
                Ok(KeyOutcome::Continue)
            },
            KeyAction::Clear => {
                self.feedback_row[self.cursor] = TileMark::Unknown;
                Ok(KeyOutcome::Continue)
            },
            KeyAction::Submit => self.submit_feedback(),
            KeyAction::Restart => {
                *self = Self::new(self.solver.corpus())?;
                Ok(KeyOutcome::Suggested)
            },
            KeyAction::SwitchMode => {
                self.policy = self.policy.toggle();
                proof {
                    lemma_board_ready(self.solver, self.policy);
                }
                let guess = select_guess(&mut self.solver, self.policy)?;
                self.current_guess = guess;
                self.feedback_row = [
                    TileMark::Unknown,
                    TileMark::Unknown,
                    TileMark::Unknown,
                    TileMark::Unknown,
                    TileMark::Unknown,
                ];
                self.cursor = 0;
                self.status = StatusLine::info(mode_message(self.policy));
                assert(self.feedback_row@ =~= blank_row());
                Ok(KeyOutcome::Suggested)
            },
            KeyAction::Ignore => Ok(KeyOutcome::Continue),
        }
    }

    /// Confirms the marked row (see `submitted`).
    pub fn submit_feedback(&mut self) -> (r: Result<KeyOutcome, SolverError>)
        requires
            old(self).wf(),
            old(self).turn < usize::MAX,
        ensures
            final(self).wf(),
            submitted(*old(self), *final(self), r),
    {
        let feedback = match marks_to_feedback(&self.feedback_row) {
            Some(feedback) => feedback,
            None => {
                self.status = StatusLine::error(
                    String::from_str("Mark all five tiles before confirming."),
                );
                return Ok(KeyOutcome::Continue);
            },
        };
        let ghost a0 = *self;
        let status = self.solver.apply_feedback(feedback);
        let ghost mid = self.solver;
        let r = match status {
            Ok(SolverStatus::InProgress) => {
                let remaining = self.solver.remaining_answers();
                self.history.push(
                    TurnRecord { guess: self.current_guess, feedback, remaining_answers: remaining },
                );
                self.turn += 1;
                self.cursor = 0;
                self.feedback_row = [
                    TileMark::Unknown,
                    TileMark::Unknown,
                    TileMark::Unknown,
                    TileMark::Unknown,
                    TileMark::Unknown,
                ];
                proof {
                    lemma_board_ready(self.solver, self.policy);
                }
                let picked = select_guess(&mut self.solver, self.policy);
                match picked {
                    Ok(guess) => {
                        self.current_guess = guess;
                        self.status = StatusLine::info(accepted_message(remaining));
                        assert(self.feedback_row@ =~= blank_row());
                        Ok(KeyOutcome::Suggested)
                    },
                    Err(error) => {
                        return Err(error);
                    },
                }
            },
            Ok(SolverStatus::Solved(word)) => {
                self.history.push(
                    TurnRecord { guess: self.current_guess, feedback, remaining_answers: 1 },
                );
                self.status = StatusLine::success(solved_message(self.turn, word));
                Ok(KeyOutcome::Continue)
            },
            Err(SolverError::Contradiction) => {
                self.status = StatusLine::error(
                    String::from_str(
                        "Those tile colors contradict earlier clues. Re-check the Wordle board.",
                    ),
                );
                Ok(KeyOutcome::Continue)
            },
            Err(error) => Err(error),
        };
        assert(feedback == Feedback(marks_code(a0.feedback_row@) as u8));
        assert(applies(a0.solver, mid, feedback, status));
        assert(after_feedback(a0, feedback, mid, status, *self, r));
        r
    }

    /// The words of the answers still possible.
    pub fn remaining_candidates(&self) -> (r: Result<Vec<Word>, SolverError>)
        requires
            self.wf(),
        ensures
            r matches Ok(words) && words@ == candidate_words(self.solver),
    {
        let r = self.solver.remaining_candidates();
        assert(r matches Ok(words) && words@ =~= candidate_words(self.solver));
        r
    }

    /// The game is won.
    pub fn is_finished(&self) -> (b: bool)
        ensures
            b == (self.status.kind == StatusKind::Success),
    {
        match self.status.kind {
            StatusKind::Success => true,
            _ => false,
        }
    }

    fn set_current_mark(&mut self, mark: TileMark)
        requires
            old(self).wf(),
        ensures
            edited(
                *old(self),
                *final(self),
                old(self).feedback_row@.update(old(self).cursor as int, mark),
                advanced(old(self).cursor as int),
            ),
    {
        self.feedback_row[self.cursor] = mark;
        self.advance_cursor();
    }

    fn advance_cursor(&mut self)
        requires
            old(self).wf(),
        ensures
            edited(*old(self), *final(self), old(self).feedback_row@, advanced(old(self).cursor as int)),
    {
        if self.cursor + 1 < 5 {
            self.cursor += 1;
        }
    }
}


// ---------------------------------------------------------------------------
// Panel texts
// ---------------------------------------------------------------------------

/// The upper-case form of a lower-case ASCII letter; other characters are
/// kept.
pub open spec fn upper(c: char) -> char {
    if 'a' <= c && c <= 'z' {
        ((c as u32) - 32) as char
    } else {
        c
    }
}

/// A text with its lower-case ASCII letters in upper case.
pub open spec fn upper_text(s: Seq<char>) -> Seq<char> {
    Seq::new(s.len(), |i: int| upper(s[i]))
}

/// Appends a word's text in upper case.
fn push_upper_word(s: &mut String, w: Word)
    ensures
        final(s)@ == old(s)@ + upper_text(word_chars(w.0)),
{
    let letters = w.letters();
    let ghost start = s@;
    let mut index: usize = 0;
    while index < 5
        invariant
            index <= 5,
            letters@ == letter_bytes(w.0),
            s@ == start + upper_text(word_chars(w.0)).subrange(0, index as int),
        decreases 5 - index,
    {
        let b = letters[index];
        let c = if 97u8 <= b && b <= 122u8 {
            (b - 32u8) as char
        } else {
            b as char
        };
        push_char(s, c);
        index += 1;
        assert(s@ =~= start + upper_text(word_chars(w.0)).subrange(0, index as int));
    }
    assert(upper_text(word_chars(w.0)).subrange(0, 5) =~= upper_text(word_chars(w.0)));
}

/// Appends a feedback's text in upper case.
fn push_upper_feedback(s: &mut String, f: Feedback)
    ensures
        final(s)@ == old(s)@ + upper_text(feedback_chars(f.0)),
{
    let cells = f.cells();
    let ghost start = s@;
    let mut index: usize = 0;
    while index < 5
        invariant
            index <= 5,
            cells@ == feedback_cells(f.0),
            s@ == start + upper_text(feedback_chars(f.0)).subrange(0, index as int),
        decreases 5 - index,
    {
        let c = if cells[index] == 0 {
            'B'
        } else if cells[index] == 1 {
            'Y'
        } else {
            'G'
        };
        push_char(s, c);
        index += 1;
        assert(s@ =~= start + upper_text(feedback_chars(f.0)).subrange(0, index as int));
    }
    assert(upper_text(feedback_chars(f.0)).subrange(0, 5) =~= upper_text(feedback_chars(f.0)));
}

/// The words' texts separated by commas.
pub open spec fn joined(words: Seq<Word>) -> Seq<char>
    decreases words.len(),
{
    if words.len() == 0 {
        Seq::empty()
    } else if words.len() == 1 {
        word_chars(words[0].0)
    } else {
        joined(words.drop_last()) + ", "@ + word_chars(words.last().0)
    }
}

/// The lines of the state panel: the possible answers (listed when twelve
/// or fewer), then the last finished row, then the win notice.
pub open spec fn state_text(candidates: Seq<Word>, history: Seq<TurnRecord>, finished: bool) -> Seq<
    Seq<char>,
> {
    let listed = if candidates.len() <= 12 {
        if candidates.len() == 0 {
            seq!["No remaining candidates."@]
        } else {
            seq!["Candidates:"@, joined(candidates)]
        }
    } else {
        seq![decimal_chars(candidates.len()) + " candidates remain."@]
    };
    let with_last = if history.len() > 0 {
        let last = history.last();
        listed + seq![
            ""@,
            "Last: "@ + upper_text(word_chars(last.guess.0)) + "  "@ + upper_text(
                feedback_chars(last.feedback.0),
            ) + "  "@ + decimal_chars(last.remaining_answers as nat) + " remain"@,
        ]
    } else {
        listed
    };
    if finished {
        with_last + seq![""@, "Solved. Press r for a new board."@]
    } else {
        with_last
    }
}

/// The words' texts separated by commas.
fn join_words(words: &Vec<Word>) -> (s: String)
    ensures
        s@ == joined(words@),
{
    let mut s = String::new();
    let mut index: usize = 0;
    while index < words.len()
        invariant
            index <= words@.len(),
            s@ == joined(words@.take(index as int)),
        decreases words@.len() - index,
    {
        let ghost before = words@.take(index as int);
        if index > 0 {
            s.append(", ");
        }
        let text = words[index].as_string();
        s.append(text.as_str());
        index += 1;
        proof {
            let now = words@.take(index as int);
            assert(now.drop_last() =~= before);
            assert(now.last() == words@[index - 1]);
            if index == 1 {
                assert(s@ =~= joined(now));
            } else {
                assert(s@ =~= joined(now));
            }
        }
    }
    assert(words@.take(words@.len() as int) =~= words@);
    s
}

fn owned(text: &str) -> (s: String)
    ensures
        s@ == text@,
{
    String::from_str(text)
}

impl<'a> App<'a> {
    /// The lines of the state panel (see `state_text`).
    pub fn state_lines(&self) -> (lines: Vec<String>)
        requires
            self.wf(),
        ensures
            lines@.len() == state_text(
                candidate_words(self.solver),
                self.history@,
                self.status.kind == StatusKind::Success,
            ).len(),
            forall|i: int|
                0 <= i < lines@.len() ==> #[trigger] lines@[i]@ == state_text(
                    candidate_words(self.solver),
                    self.history@,
                    self.status.kind == StatusKind::Success,
                )[i],
    {
        let ghost expected = state_text(
            candidate_words(self.solver),
            self.history@,
            self.status.kind == StatusKind::Success,
        );
        let candidates = match self.remaining_candidates() {
            Ok(candidates) => candidates,
            Err(_) => Vec::new(),
        };
        let mut lines: Vec<String> = Vec::new();
        if candidates.len() <= 12 {
            if candidates.len() == 0 {
                lines.push(owned("No remaining candidates."));
            } else {
                lines.push(owned("Candidates:"));
                lines.push(join_words(&candidates));
            }
        } else {
            let mut line = String::new();
            push_decimal(&mut line, candidates.len());
            line.append(" candidates remain.");
            assert(line@ =~= decimal_chars(candidates@.len()) + " candidates remain."@);
            lines.push(line);
        }
        let ghost listed = lines@;
        if self.history.len() > 0 {
            let last = self.history[self.history.len() - 1];
            let mut line = owned("Last: ");
            push_upper_word(&mut line, last.guess);
            line.append("  ");
            push_upper_feedback(&mut line, last.feedback);
            line.append("  ");
            push_decimal(&mut line, last.remaining_answers);
            line.append(" remain");
            lines.push(owned(""));
            lines.push(line);
        }
        if self.is_finished() {
            lines.push(owned(""));
            lines.push(owned("Solved. Press r for a new board."));
        }
        proof {
            assert(lines@.len() == expected.len());
            assert forall|i: int| 0 <= i < lines@.len() implies #[trigger] lines@[i]@ == expected[i] by {}
        }
        lines
    }

    /// The feedback the row's marks spell, in upper case, or underscores
    /// while a tile is unset.
    pub fn current_feedback_text(&self) -> (s: String)
        ensures
            s@ == if all_marked(self.feedback_row@) {
                upper_text(feedback_chars(marks_code(self.feedback_row@) as u8))
            } else {
                "_____"@
            },
    {
        match marks_to_feedback(&self.feedback_row) {
            Some(feedback) => {
                let mut s = String::new();
                push_upper_feedback(&mut s, feedback);
                assert(s@ =~= upper_text(feedback_chars(feedback.0)));
                s
            },
            None => owned("_____"),
        }
    }
}


/// What a row of the board shows.
#[derive(Clone, Copy, Debug, PartialEq, Eq, Structural)]
pub enum RowView {
    /// A finished row.
    Played(TurnRecord),
    /// The row being marked.
    Current,
    /// Nothing yet.
    Blank,
}

/// Row `index` shows the finished row with that number, else the row being
/// marked on the current turn while the game is not won, else nothing.
pub open spec fn row_view_of(a: App, index: int) -> RowView {
    if index < a.history@.len() {
        RowView::Played(a.history@[index])
    } else if index + 1 == a.turn && a.status.kind != StatusKind::Success {
        RowView::Current
    } else {
        RowView::Blank
    }
}

impl<'a> App<'a> {
    /// What row `index` of the board shows (see `row_view_of`).
    pub fn row_view(&self, index: usize) -> (v: RowView)
        ensures
            v == row_view_of(*self, index as int),
    {
        if index < self.history.len() {
            RowView::Played(self.history[index])
        } else if self.turn > 0 && index == self.turn - 1 && !self.is_finished() {
            RowView::Current
        } else {
            RowView::Blank
        }
    }
}


/// Every key leaves a well-formed board well formed (so the selected tile
/// stays on the row), and a key ends the game exactly when it is the quit
/// key, which changes nothing.
pub proof fn lemma_keys_keep_the_board<'a>(
    a0: App<'a>,
    a1: App<'a>,
    key: KeyAction,
    r: Result<KeyOutcome, SolverError>,
)
    requires
        a0.wf(),
        key_handled(a0, a1, key, r),
    ensures
        a1.wf(),
        a1.cursor < 5,
        (r == Ok::<KeyOutcome, SolverError>(KeyOutcome::Quit)) <==> key == KeyAction::Quit,
        key == KeyAction::Quit ==> a1 == a0,
{
    if key == KeyAction::Submit && all_marked(a0.feedback_row@) {
        let fb = Feedback(marks_code(a0.feedback_row@) as u8);
        let (mid, st) = choose|mid: OfficialSolver<'a>, st: Result<SolverStatus, SolverError>|
            #[trigger] applies(a0.solver, mid, fb, st) && after_feedback(a0, fb, mid, st, a1, r);
        assert(after_feedback(a0, fb, mid, st, a1, r));
    }
}

} // verus!
