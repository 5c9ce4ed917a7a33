//! The strategy bundle's byte format: writing the bundle and reading it
//! back, with every malformed input refused.
use vstd::prelude::*;
use vstd::bytes::{
    spec_u16_from_le_bytes, spec_u16_to_le_bytes, spec_u32_from_le_bytes, spec_u32_to_le_bytes,
    spec_u64_from_le_bytes, spec_u64_to_le_bytes, u16_from_le_bytes, u16_to_le_bytes,
    u32_from_le_bytes, u32_to_le_bytes, u64_from_le_bytes, u64_to_le_bytes,
};
use std::collections::BTreeSet;
use vstd::slice::{slice_subrange, slice_to_vec};

use crate::error::SolverError;
use crate::types::Word;

verus! {

/// Version number written into, and required of, every bundle.
pub const BUNDLE_VERSION: u32 = 1;

/// Size of the fixed header: magic, version, corpus hash, guess count,
/// answer count and opening guess index.
pub const HEADER_LEN: usize = 28;

// ---------------------------------------------------------------------------
// The byte format
// ---------------------------------------------------------------------------

/// The four magic bytes `WDL1` that open a bundle.
pub open spec fn magic() -> Seq<u8> {
    seq![87u8, 68u8, 76u8, 49u8]
}

/// The little-endian `u16` at byte offset `off`.
pub open spec fn u16_at(b: Seq<u8>, off: int) -> u16 {
    spec_u16_from_le_bytes(b.subrange(off, off + 2))
}

/// The little-endian `u32` at byte offset `off`.
pub open spec fn u32_at(b: Seq<u8>, off: int) -> u32 {
    spec_u32_from_le_bytes(b.subrange(off, off + 4))
}

/// The little-endian `u64` at byte offset `off`.
pub open spec fn u64_at(b: Seq<u8>, off: int) -> u64 {
    spec_u64_from_le_bytes(b.subrange(off, off + 8))
}

/// Packed words, four little-endian bytes each.
pub open spec fn words_bytes(ws: Seq<Word>) -> Seq<u8>
    decreases ws.len(),
{
    if ws.len() == 0 {
        Seq::empty()
    } else {
        words_bytes(ws.drop_last()) + spec_u32_to_le_bytes(ws.last().0)
    }
}

/// Answer ids, two little-endian bytes each.
pub open spec fn ids_bytes(ids: Seq<u16>) -> Seq<u8>
    decreases ids.len(),
{
    if ids.len() == 0 {
        Seq::empty()
    } else {
        ids_bytes(ids.drop_last()) + spec_u16_to_le_bytes(ids.last())
    }
}

/// The bytes of a bundle: header, packed guesses, answer ids, then the
/// feedback matrix. The counts in the header are the lengths of the lists,
/// truncated to 32 bits.
pub open spec fn encode_spec(
    corpus_hash: u64,
    first_guess_index: u32,
    guesses: Seq<Word>,
    answer_ids: Seq<u16>,
    feedback_matrix: Seq<u8>,
) -> Seq<u8> {
    magic() + spec_u32_to_le_bytes(BUNDLE_VERSION) + spec_u64_to_le_bytes(corpus_hash)
        + spec_u32_to_le_bytes(guesses.len() as u32) + spec_u32_to_le_bytes(
        answer_ids.len() as u32,
    ) + spec_u32_to_le_bytes(first_guess_index) + words_bytes(guesses) + ids_bytes(answer_ids)
        + feedback_matrix
}

/// Guess count stated in a header.
pub open spec fn header_guess_count(b: Seq<u8>) -> int {
    u32_at(b, 16) as int
}

/// Answer count stated in a header.
pub open spec fn header_answer_count(b: Seq<u8>) -> int {
    u32_at(b, 20) as int
}

/// Answer ids are distinct indices into a guess list of length `guess_count`.
pub open spec fn ids_ok(ids: Seq<u16>, guess_count: int) -> bool {
    &&& ids.no_duplicates()
    &&& forall|i: int| 0 <= i < ids.len() ==> (#[trigger] ids[i] as int) < guess_count
}

/// The guesses stored in bundle bytes.
pub open spec fn decoded_guesses(b: Seq<u8>) -> Seq<Word> {
    Seq::new(header_guess_count(b) as nat, |i: int| Word(u32_at(b, 28 + 4 * i)))
}

/// The answer ids stored in bundle bytes.
pub open spec fn decoded_ids(b: Seq<u8>) -> Seq<u16> {
    Seq::new(
        header_answer_count(b) as nat,
        |i: int| u16_at(b, 28 + 4 * header_guess_count(b) + 2 * i),
    )
}

/// The feedback matrix stored in bundle bytes.
pub open spec fn decoded_matrix(b: Seq<u8>) -> Seq<u8> {
    b.subrange(28 + 4 * header_guess_count(b) + 2 * header_answer_count(b), b.len() as int)
}

/// Bytes that form a well-made bundle: magic and version match, the length
/// is exactly what the header's counts call for, the opening guess indexes
/// the guess list, the guess list is short enough for 16-bit answer ids, and
/// the answer ids are distinct indices into the guess list.
pub open spec fn bundle_bytes_ok(b: Seq<u8>) -> bool {
    let g = header_guess_count(b);
    let a = header_answer_count(b);
    &&& b.len() >= 28
    &&& b.subrange(0, 4) == magic()
    &&& u32_at(b, 4) == BUNDLE_VERSION
    &&& b.len() == 28 + 4 * g + 2 * a + g * a
    &&& (u32_at(b, 24) as int) < g
    &&& g <= 0xffff
    &&& ids_ok(decoded_ids(b), g)
}

// ---------------------------------------------------------------------------
// Bundle contents
// ---------------------------------------------------------------------------

/// The contents of a strategy bundle, as written.
#[derive(Clone, Debug)]
pub struct BundleData {
    pub corpus_hash: u64,
    pub first_guess_index: u32,
    pub guesses: Vec<Word>,
    pub answer_ids: Vec<u16>,
    pub feedback_matrix: Vec<u8>,
}

/// The contents of a strategy bundle, as read back.
#[derive(Clone, Debug)]
pub struct LoadedBundle {
    pub corpus_hash: u64,
    pub first_guess_index: usize,
    pub guesses: Vec<Word>,
    pub answer_ids: Vec<u16>,
    pub feedback_matrix: Vec<u8>,
}

impl BundleData {
    /// The bytes this data encodes to.
    pub open spec fn encoded(&self) -> Seq<u8> {
        encode_spec(
            self.corpus_hash,
            self.first_guess_index,
            self.guesses@,
            self.answer_ids@,
            self.feedback_matrix@,
        )
    }

    /// Data that a bundle can faithfully carry: what `bundle_bytes_ok` asks
    /// of the bytes, stated on the lists.
    pub open spec fn wf(&self) -> bool {
        &&& (self.first_guess_index as int) < self.guesses.len()
        &&& self.guesses.len() <= 0xffff
        &&& ids_ok(self.answer_ids@, self.guesses.len() as int)
        &&& self.feedback_matrix.len() == self.guesses.len() * self.answer_ids.len()
    }
}

impl LoadedBundle {
    /// What parsing guarantees of a loaded bundle.
    pub open spec fn wf(&self) -> bool {
        &&& self.first_guess_index < self.guesses.len()
        &&& self.guesses.len() <= 0xffff
        &&& ids_ok(self.answer_ids@, self.guesses.len() as int)
        &&& self.feedback_matrix.len() == self.guesses.len() * self.answer_ids.len()
    }

    /// The loaded bundle holds exactly what the bytes store.
    pub open spec fn decodes(&self, b: Seq<u8>) -> bool {
        &&& self.corpus_hash == u64_at(b, 8)
        &&& self.first_guess_index == u32_at(b, 24) as usize
        &&& self.guesses@ == decoded_guesses(b)
        &&& self.answer_ids@ == decoded_ids(b)
        &&& self.feedback_matrix@ == decoded_matrix(b)
    }
}

proof fn lemma_words_bytes_len(ws: Seq<Word>)
    ensures
        words_bytes(ws).len() == 4 * ws.len(),
    decreases ws.len(),
{
    if ws.len() > 0 {
        lemma_words_bytes_len(ws.drop_last());
        vstd::bytes::lemma_auto_spec_u32_to_from_le_bytes();
    }
}

proof fn lemma_ids_bytes_len(ids: Seq<u16>)
    ensures
        ids_bytes(ids).len() == 2 * ids.len(),
    decreases ids.len(),
{
    if ids.len() > 0 {
        lemma_ids_bytes_len(ids.drop_last());
        vstd::bytes::lemma_auto_spec_u16_to_from_le_bytes();
    }
}

/// Appends `more` to `bytes`.
fn append_bytes(bytes: &mut Vec<u8>, more: Vec<u8>)
    ensures
        final(bytes)@ == old(bytes)@ + more@,
{
    let mut more = more;
    bytes.append(&mut more);
}

impl BundleData {
    /// Writes the bundle bytes: header, guesses, answer ids, feedback matrix.
    pub fn encode(&self) -> (bytes: Vec<u8>)
        requires
            32 + 4 * self.guesses.len() + 2 * self.answer_ids.len() + self.feedback_matrix.len()
                <= usize::MAX,
        ensures
            bytes@ == self.encoded(),
    {
        let mut bytes: Vec<u8> = Vec::with_capacity(
            32 + self.guesses.len() * 4 + self.answer_ids.len() * 2 + self.feedback_matrix.len(),
        );
        bytes.push(87u8);
        bytes.push(68u8);
        bytes.push(76u8);
        bytes.push(49u8);
        assert(bytes@ =~= magic());
        append_bytes(&mut bytes, u32_to_le_bytes(BUNDLE_VERSION));
        append_bytes(&mut bytes, u64_to_le_bytes(self.corpus_hash));
        append_bytes(&mut bytes, u32_to_le_bytes(self.guesses.len() as u32));
        append_bytes(&mut bytes, u32_to_le_bytes(self.answer_ids.len() as u32));
        append_bytes(&mut bytes, u32_to_le_bytes(self.first_guess_index));
        let ghost header = bytes@;

        let mut index: usize = 0;
        while index < self.guesses.len()
            invariant
                index <= self.guesses.len(),
                bytes@ == header + words_bytes(self.guesses@.take(index as int)),
            decreases self.guesses.len() - index,
        {
            append_bytes(&mut bytes, u32_to_le_bytes(self.guesses[index].packed()));
            assert(self.guesses@.take(index + 1).drop_last() =~= self.guesses@.take(index as int));
            index += 1;
        }
        assert(self.guesses@.take(index as int) =~= self.guesses@);
        let ghost with_guesses = bytes@;

        index = 0;
        while index < self.answer_ids.len()
            invariant
                index <= self.answer_ids.len(),
                bytes@ == with_guesses + ids_bytes(self.answer_ids@.take(index as int)),
            decreases self.answer_ids.len() - index,
        {
            append_bytes(&mut bytes, u16_to_le_bytes(self.answer_ids[index]));
            assert(self.answer_ids@.take(index + 1).drop_last() =~= self.answer_ids@.take(
                index as int,
            ));
            index += 1;
        }
        assert(self.answer_ids@.take(index as int) =~= self.answer_ids@);
        let ghost with_ids = bytes@;

        index = 0;
        while index < self.feedback_matrix.len()
            invariant
                index <= self.feedback_matrix.len(),
                bytes@ == with_ids + self.feedback_matrix@.take(index as int),
            decreases self.feedback_matrix.len() - index,
        {
            bytes.push(self.feedback_matrix[index]);
            assert(self.feedback_matrix@.take(index + 1) =~= self.feedback_matrix@.take(
                index as int,
            ).push(self.feedback_matrix@[index as int]));
            index += 1;
        }
        assert(self.feedback_matrix@.take(index as int) =~= self.feedback_matrix@);
        assert(bytes@ =~= self.encoded());
        bytes
    }
}

// ---------------------------------------------------------------------------
// Reading
// ---------------------------------------------------------------------------

/// The `u32` at `offset`, or `AssetCorrupt` when the bytes end too soon.
fn read_u32(bytes: &[u8], offset: usize) -> (r: Result<u32, SolverError>)
    ensures
        match r {
            Ok(x) => offset + 4 <= bytes@.len() && x == u32_at(bytes@, offset as int),
            Err(e) => offset + 4 > bytes@.len() && e is AssetCorrupt,
        },
{
    let len = bytes.len();
    let end = match offset.checked_add(4) {
        Some(end) => end,
        None => return Err(SolverError::AssetCorrupt),
    };
    if end > bytes.len() {
        return Err(SolverError::AssetCorrupt);
    }
    Ok(read_u32_exact(&bytes[offset..end]))
}

/// The `u64` at `offset`, or `AssetCorrupt` when the bytes end too soon.
fn read_u64(bytes: &[u8], offset: usize) -> (r: Result<u64, SolverError>)
    ensures
        match r {
            Ok(x) => offset + 8 <= bytes@.len() && x == u64_at(bytes@, offset as int),
            Err(e) => offset + 8 > bytes@.len() && e is AssetCorrupt,
        },
{
    let len = bytes.len();
    let end = match offset.checked_add(8) {
        Some(end) => end,
        None => return Err(SolverError::AssetCorrupt),
    };
    if end > bytes.len() {
        return Err(SolverError::AssetCorrupt);
    }
    Ok(read_u64_exact(&bytes[offset..end]))
}

/// The word packed in a four-byte chunk.
fn read_word(chunk: &[u8]) -> (w: Word)
    requires
        chunk@.len() == 4,
    ensures
        w.0 == spec_u32_from_le_bytes(chunk@),
{
    Word::from_packed(read_u32_exact(chunk))
}

/// The `u16` in a two-byte chunk.
fn read_u16(chunk: &[u8]) -> (x: u16)
    requires
        chunk@.len() == 2,
    ensures
        x == spec_u16_from_le_bytes(chunk@),
{
    u16_from_le_bytes(chunk)
}

/// The `u32` in a four-byte chunk.
fn read_u32_exact(chunk: &[u8]) -> (x: u32)
    requires
        chunk@.len() == 4,
    ensures
        x == spec_u32_from_le_bytes(chunk@),
{
    u32_from_le_bytes(chunk)
}

/// The `u64` in an eight-byte chunk.
fn read_u64_exact(chunk: &[u8]) -> (x: u64)
    requires
        chunk@.len() == 8,
    ensures
        x == spec_u64_from_le_bytes(chunk@),
{
    u64_from_le_bytes(chunk)
}

/// `u16` keys follow the order laws that `BTreeSet` relies on.
proof fn lemma_u16_set_order()
    ensures
        vstd::laws_cmp::obeys_cmp::<u16>(),
{
    broadcast use vstd::laws_cmp::group_laws_cmp;

}

/// Whether `ids` are distinct and each below `limit`.
fn answer_ids_valid(ids: &Vec<u16>, limit: u16) -> (ok: bool)
    ensures
        ok == (ids@.no_duplicates() && forall|i: int| 0 <= i < ids@.len() ==> #[trigger] ids@[i]
            < limit),
{
    proof {
        lemma_u16_set_order();
    }
    let mut seen: BTreeSet<u16> = BTreeSet::new();
    let mut index: usize = 0;
    while index < ids.len()
        invariant
            index <= ids@.len(),
            seen@ == ids@.take(index as int).to_set(),
            ids@.take(index as int).no_duplicates(),
            forall|j: int| 0 <= j < index ==> #[trigger] ids@[j] < limit,
        decreases ids@.len() - index,
    {
        let id = ids[index];
        if id >= limit {
            return false;
        }
        let fresh = seen.insert(id);
        if !fresh {
            proof {
                assert(ids@.take(index as int).contains(id));
                let j = choose|j: int| 0 <= j < index && ids@.take(index as int)[j] == id;
                assert(ids@[j] == ids@[index as int]);
            }
            return false;
        }
        proof {
            let before = ids@.take(index as int);
            let after = ids@.take(index + 1);
            assert(after =~= before.push(id));
            assert(!before.contains(id));
            assert(after.to_set() =~= before.to_set().insert(id)) by {
                assert forall|x: u16| after.to_set().contains(x) <==> before.to_set().insert(
                    id,
                ).contains(x) by {
                    if after.contains(x) && x != id {
                        let k = choose|k: int| 0 <= k < after.len() && after[k] == x;
                        assert(before[k] == x);
                    }
                    if before.contains(x) {
                        let k = choose|k: int| 0 <= k < before.len() && before[k] == x;
                        assert(after[k] == x);
                    }
                    if x == id {
                        assert(after[index as int] == x);
                    }
                }
            }
            assert forall|p: int, q: int| 0 <= p < after.len() && 0 <= q < after.len() && p
                != q implies after[p] != after[q] by {
                if p == index {
                    assert(before.contains(after[q]) || q == index);
                } else if q == index {
                    assert(before.contains(after[p]));
                }
            }
        }
        index += 1;
    }
    assert(ids@.take(index as int) =~= ids@);
    true
}

impl LoadedBundle {
    /// Reads a bundle. Fails with `AssetCorrupt` unless the bytes are a
    /// well-made bundle (see `bundle_bytes_ok`).
    #[verifier::rlimit(40)]
    pub fn parse(bytes: &[u8]) -> (r: Result<Self, SolverError>)
        ensures
            r is Ok <==> bundle_bytes_ok(bytes@),
            r matches Ok(lb) ==> lb.decodes(bytes@) && lb.wf(),
            r matches Err(e) ==> e is AssetCorrupt,
    {
        let ghost b = bytes@;
        let len = bytes.len();
        if len < HEADER_LEN || !(bytes[0] == 87u8 && bytes[1] == 68u8 && bytes[2] == 76u8
            && bytes[3] == 49u8) {
            proof {
                if len >= 28 {
                    assert(b.subrange(0, 4)[0] == b[0] && b.subrange(0, 4)[1] == b[1]
                        && b.subrange(0, 4)[2] == b[2] && b.subrange(0, 4)[3] == b[3]);
                }
            }
            return Err(SolverError::AssetCorrupt);
        }
        assert(b.subrange(0, 4) =~= magic());

        let version = read_u32(bytes, 4)?;
        if version != BUNDLE_VERSION {
            return Err(SolverError::AssetCorrupt);
        }

        let corpus_hash = read_u64(bytes, 8)?;
        let guess_count = read_u32(bytes, 16)? as usize;
        let answer_count = read_u32(bytes, 20)? as usize;
        let first_guess_index = read_u32(bytes, 24)? as usize;
        let ghost g = guess_count as int;
        let ghost a = answer_count as int;
        assert(g == header_guess_count(b) && a == header_answer_count(b));
        assert(0 <= g * a) by (nonlinear_arith)
            requires
                0 <= g,
                0 <= a,
        ;

        let guess_bytes = match guess_count.checked_mul(4) {
            Some(v) => v,
            None => return Err(SolverError::AssetCorrupt),
        };
        let answer_bytes = match answer_count.checked_mul(2) {
            Some(v) => v,
            None => return Err(SolverError::AssetCorrupt),
        };
        let matrix_bytes = match guess_count.checked_mul(answer_count) {
            Some(v) => v,
            None => return Err(SolverError::AssetCorrupt),
        };
        let after_guesses = match HEADER_LEN.checked_add(guess_bytes) {
            Some(v) => v,
            None => return Err(SolverError::AssetCorrupt),
        };
        let after_answers = match after_guesses.checked_add(answer_bytes) {
            Some(v) => v,
            None => return Err(SolverError::AssetCorrupt),
        };
        let expected_len = match after_answers.checked_add(matrix_bytes) {
            Some(v) => v,
            None => return Err(SolverError::AssetCorrupt),
        };

        if len != expected_len || first_guess_index >= guess_count {
            return Err(SolverError::AssetCorrupt);
        }

        let mut guesses: Vec<Word> = Vec::with_capacity(guess_count);
        let mut index: usize = 0;
        while index < guess_count
            invariant
                b == bytes@,
                len == b.len(),
                guess_count == g,
                len == 28 + 4 * g + 2 * a + g * a,
                0 <= g * a,
                0 <= a,
                g == header_guess_count(b),
                a == header_answer_count(b),
                index <= guess_count,
                guesses@ == decoded_guesses(b).take(index as int),
            decreases guess_count - index,
        {
            let start = HEADER_LEN + 4 * index;
            let word = read_word(&bytes[start..start + 4]);
            guesses.push(word);
            assert(guesses@ =~= decoded_guesses(b).take(index + 1));
            index += 1;
        }
        assert(guesses@ =~= decoded_guesses(b));

        let mut answer_ids: Vec<u16> = Vec::with_capacity(answer_count);
        index = 0;
        while index < answer_count
            invariant
                b == bytes@,
                len == b.len(),
                guess_count == g,
                answer_count == a,
                after_guesses == 28 + 4 * g,
                len == 28 + 4 * g + 2 * a + g * a,
                0 <= g * a,
                0 <= a,
                g == header_guess_count(b),
                a == header_answer_count(b),
                index <= answer_count,
                answer_ids@ == decoded_ids(b).take(index as int),
            decreases answer_count - index,
        {
            let start = after_guesses + 2 * index;
            let id = read_u16(&bytes[start..start + 2]);
            answer_ids.push(id);
            assert(answer_ids@ =~= decoded_ids(b).take(index + 1));
            index += 1;
        }
        assert(answer_ids@ =~= decoded_ids(b));

        if guess_count > 0xffff {
            return Err(SolverError::AssetCorrupt);
        }
        let guess_len_u16 = guess_count as u16;
        if !answer_ids_valid(&answer_ids, guess_len_u16) {
            return Err(SolverError::AssetCorrupt);
        }

        let feedback_matrix = slice_to_vec(slice_subrange(bytes, after_answers, len));
        Ok(LoadedBundle { corpus_hash, first_guess_index, guesses, answer_ids, feedback_matrix })
    }
}

// ---------------------------------------------------------------------------
// Laws of the byte format
// ---------------------------------------------------------------------------

/// Byte `4 * i + k` of encoded words is byte `k` of word `i`.
proof fn lemma_words_bytes_index(ws: Seq<Word>, i: int, k: int)
    requires
        0 <= i < ws.len(),
        0 <= k < 4,
    ensures
        words_bytes(ws).len() == 4 * ws.len(),
        words_bytes(ws)[4 * i + k] == spec_u32_to_le_bytes(ws[i].0)[k],
    decreases ws.len(),
{
    vstd::bytes::lemma_auto_spec_u32_to_from_le_bytes();
    lemma_words_bytes_len(ws);
    lemma_words_bytes_len(ws.drop_last());
    if i < ws.len() - 1 {
        lemma_words_bytes_index(ws.drop_last(), i, k);
    }
}

/// Byte `2 * i + k` of encoded ids is byte `k` of id `i`.
proof fn lemma_ids_bytes_index(ids: Seq<u16>, i: int, k: int)
    requires
        0 <= i < ids.len(),
        0 <= k < 2,
    ensures
        ids_bytes(ids).len() == 2 * ids.len(),
        ids_bytes(ids)[2 * i + k] == spec_u16_to_le_bytes(ids[i])[k],
    decreases ids.len(),
{
    vstd::bytes::lemma_auto_spec_u16_to_from_le_bytes();
    lemma_ids_bytes_len(ids);
    lemma_ids_bytes_len(ids.drop_last());
    if i < ids.len() - 1 {
        lemma_ids_bytes_index(ids.drop_last(), i, k);
    }
}

/// Distinct ids below `g` number at most `g`.
pub(crate) proof fn lemma_distinct_ids_bounded(ids: Seq<u16>, g: int)
    requires
        ids_ok(ids, g),
        0 <= g <= 0xffff,
    ensures
        ids.len() <= g,
{
    let hi = g as u16;
    <u16 as vstd::set_lib::FiniteRange>::range_properties(0u16, hi);
    let range = <u16 as vstd::set_lib::FiniteRange>::range_set(0u16, hi);
    ids.unique_seq_to_set();
    assert(ids.to_set().subset_of(range)) by {
        assert forall|x: u16| ids.to_set().contains(x) implies range.contains(x) by {
            let k = choose|k: int| 0 <= k < ids.len() && ids[k] == x;
            assert(ids[k] < g);
        }
    }
    vstd::set_lib::lemma_len_subset(ids.to_set(), range);
}

/// The bytes of any data whose lists fit the header's 32-bit counts store
/// that data, and form a well-made bundle exactly when the data is well
/// made: bytes of data that breaks a bound are refused by `parse`.
pub proof fn lemma_encoded_bytes(d: BundleData)
    requires
        d.guesses.len() <= u32::MAX,
        d.answer_ids.len() <= u32::MAX,
    ensures
        bundle_bytes_ok(d.encoded()) <==> d.wf(),
        u64_at(d.encoded(), 8) == d.corpus_hash,
        u32_at(d.encoded(), 24) == d.first_guess_index,
        header_guess_count(d.encoded()) == d.guesses.len(),
        header_answer_count(d.encoded()) == d.answer_ids.len(),
        decoded_guesses(d.encoded()) == d.guesses@,
        decoded_ids(d.encoded()) == d.answer_ids@,
        decoded_matrix(d.encoded()) == d.feedback_matrix@,
        d.encoded().len() == 28 + 4 * d.guesses.len() + 2 * d.answer_ids.len() + d.feedback_matrix.len(),
{
    vstd::bytes::lemma_auto_spec_u32_to_from_le_bytes();
    vstd::bytes::lemma_auto_spec_u64_to_from_le_bytes();
    vstd::bytes::lemma_auto_spec_u16_to_from_le_bytes();
    let ws = d.guesses@;
    let ids = d.answer_ids@;
    let m = d.feedback_matrix@;
    let g = ws.len() as int;
    let a = ids.len() as int;
    lemma_words_bytes_len(ws);
    lemma_ids_bytes_len(ids);
    let e = d.encoded();
    let h0 = magic();
    let h1 = spec_u32_to_le_bytes(BUNDLE_VERSION);
    let h2 = spec_u64_to_le_bytes(d.corpus_hash);
    let h3 = spec_u32_to_le_bytes(g as u32);
    let h4 = spec_u32_to_le_bytes(a as u32);
    let h5 = spec_u32_to_le_bytes(d.first_guess_index);
    let wb = words_bytes(ws);
    let ib = ids_bytes(ids);
    assert(e == h0 + h1 + h2 + h3 + h4 + h5 + wb + ib + m);
    assert(e.len() == 28 + 4 * g + 2 * a + m.len());
    assert(e.subrange(0, 4) =~= h0);
    assert(e.subrange(4, 8) =~= h1);
    assert(e.subrange(8, 16) =~= h2);
    assert(e.subrange(16, 20) =~= h3);
    assert(e.subrange(20, 24) =~= h4);
    assert(e.subrange(24, 28) =~= h5);
    assert(header_guess_count(e) == g);
    assert(header_answer_count(e) == a);
    assert(decoded_guesses(e) =~= ws) by {
        assert forall|i: int| 0 <= i < g implies #[trigger] decoded_guesses(e)[i] == ws[i] by {
            assert(e.subrange(28 + 4 * i, 28 + 4 * i + 4) =~= spec_u32_to_le_bytes(ws[i].0)) by {
                assert forall|k: int| 0 <= k < 4 implies e.subrange(28 + 4 * i, 28 + 4 * i + 4)[k]
                    == spec_u32_to_le_bytes(ws[i].0)[k] by {
                    lemma_words_bytes_index(ws, i, k);
                }
            }
        }
    }
    assert(decoded_ids(e) =~= ids) by {
        assert forall|i: int| 0 <= i < a implies #[trigger] decoded_ids(e)[i] == ids[i] by {
            let off = 28 + 4 * g + 2 * i;
            assert(e.subrange(off, off + 2) =~= spec_u16_to_le_bytes(ids[i])) by {
                assert forall|k: int| 0 <= k < 2 implies e.subrange(off, off + 2)[k]
                    == spec_u16_to_le_bytes(ids[i])[k] by {
                    lemma_ids_bytes_index(ids, i, k);
                }
            }
        }
    }
    assert(decoded_matrix(e) =~= m);
}


/// Reading back encoded data gives the data back: the bytes of well-made
/// data form a well-made bundle that stores exactly that data.
pub proof fn lemma_parse_of_encode(d: BundleData)
    requires
        d.wf(),
    ensures
        bundle_bytes_ok(d.encoded()),
        u64_at(d.encoded(), 8) == d.corpus_hash,
        u32_at(d.encoded(), 24) == d.first_guess_index,
        decoded_guesses(d.encoded()) == d.guesses@,
        decoded_ids(d.encoded()) == d.answer_ids@,
        decoded_matrix(d.encoded()) == d.feedback_matrix@,
{
    lemma_distinct_ids_bounded(d.answer_ids@, d.guesses.len() as int);
    lemma_encoded_bytes(d);
}

/// Encoding what a well-made bundle stores gives back its bytes.
pub proof fn lemma_encode_of_parse(b: Seq<u8>)
    requires
        bundle_bytes_ok(b),
    ensures
        encode_spec(
            u64_at(b, 8),
            u32_at(b, 24),
            decoded_guesses(b),
            decoded_ids(b),
            decoded_matrix(b),
        ) == b,
{
    vstd::bytes::lemma_auto_spec_u32_to_from_le_bytes();
    vstd::bytes::lemma_auto_spec_u64_to_from_le_bytes();
    vstd::bytes::lemma_auto_spec_u16_to_from_le_bytes();
    let g = header_guess_count(b);
    let a = header_answer_count(b);
    let ws = decoded_guesses(b);
    let ids = decoded_ids(b);
    lemma_words_bytes_len(ws);
    lemma_ids_bytes_len(ids);
    assert(0 <= g * a) by (nonlinear_arith)
        requires
            0 <= g,
            0 <= a,
    ;
    let wb = words_bytes(ws);
    let ib = ids_bytes(ids);
    assert(wb =~= b.subrange(28, 28 + 4 * g)) by {
        assert forall|j: int| 0 <= j < 4 * g implies #[trigger] wb[j] == b[28 + j] by {
            let i = j / 4;
            let k = j % 4;
            assert(j == 4 * i + k);
            lemma_words_bytes_index(ws, i, k);
            assert(spec_u32_to_le_bytes(ws[i].0) == b.subrange(28 + 4 * i, 28 + 4 * i + 4));
        }
    }
    assert(ib =~= b.subrange(28 + 4 * g, 28 + 4 * g + 2 * a)) by {
        assert forall|j: int| 0 <= j < 2 * a implies #[trigger] ib[j] == b[28 + 4 * g + j] by {
            let i = j / 2;
            let k = j % 2;
            assert(j == 2 * i + k);
            lemma_ids_bytes_index(ids, i, k);
            assert(spec_u16_to_le_bytes(ids[i]) == b.subrange(
                28 + 4 * g + 2 * i,
                28 + 4 * g + 2 * i + 2,
            ));
        }
    }
    assert(ws.len() as u32 == u32_at(b, 16));
    assert(ids.len() as u32 == u32_at(b, 20));
    assert(b.subrange(4, 8) == spec_u32_to_le_bytes(BUNDLE_VERSION));
    assert(b.subrange(8, 16) == spec_u64_to_le_bytes(u64_at(b, 8)));
    assert(b.subrange(16, 20) == spec_u32_to_le_bytes(u32_at(b, 16)));
    assert(b.subrange(20, 24) == spec_u32_to_le_bytes(u32_at(b, 20)));
    assert(b.subrange(24, 28) == spec_u32_to_le_bytes(u32_at(b, 24)));
    let e = encode_spec(u64_at(b, 8), u32_at(b, 24), ws, ids, decoded_matrix(b));
    assert(e =~= b);
}

} // verus!
