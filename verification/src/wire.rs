//! What is copied to and from the device, in the byte order of the machine.

use vstd::prelude::*;
use vstd::endian::Endian;
use crate::labels::PackedLabels;
use crate::quantize::{QueryUniform, PADDED_DIMS};
use crate::references;
use crate::topk;
use crate::topk::{known_indices, merge_candidates, Candidate, GpuCandidate, TOP_K};

verus! {

/// Bytes of a word.
pub const WORD_BYTES: usize = 4;

/// Bytes of a candidate as the kernel writes it: the two halves of its distance, its index
/// and its label.
pub const CANDIDATE_BYTES: usize = 16;

/// The word that four bytes spell in the byte order of the machine.
pub open spec fn word_of(b: Seq<u8>) -> int {
    match vstd::endian::endianness() {
        Endian::Little => b[0] + 0x100 * b[1] + 0x1_0000 * b[2] + 0x100_0000 * b[3],
        Endian::Big => b[3] + 0x100 * b[2] + 0x1_0000 * b[1] + 0x100_0000 * b[0],
    }
}

/// Word `i` of a sequence of bytes.
pub open spec fn word_at(bytes: Seq<u8>, i: int) -> int {
    word_of(references::item(bytes, WORD_BYTES as int, i))
}

/// Whether the bytes are the given words, one behind the other.
pub open spec fn spells(bytes: Seq<u8>, words: Seq<u32>) -> bool {
    &&& bytes.len() == WORD_BYTES * words.len()
    &&& forall|i: int| 0 <= i < words.len() ==> word_at(bytes, i) == #[trigger] words[i]
}

/// Four bytes are fixed by the word they spell.
proof fn lemma_word_of_injective(a: Seq<u8>, b: Seq<u8>)
    requires
        a.len() == WORD_BYTES,
        b.len() == WORD_BYTES,
        word_of(a) == word_of(b),
    ensures
        a == b,
{
    assert(a[0] == b[0] && a[1] == b[1] && a[2] == b[2] && a[3] == b[3]);
    assert(a =~= b);
}

/// Words come back from the bytes that were written for them, and no other
/// bytes stand for the same words.
pub proof fn law_words_round_trip(bytes: Seq<u8>, words: Seq<u32>, other_bytes: Seq<u8>, other_words:
    Seq<u32>)
    requires
        spells(bytes, words),
    ensures
        spells(bytes, other_words) ==> other_words == words,
        spells(other_bytes, words) ==> other_bytes == bytes,
{
    if spells(bytes, other_words) {
        assert forall|i: int| 0 <= i < words.len() implies other_words[i] == words[i] by {
            assert(word_at(bytes, i) == other_words[i]);
        }
        assert(other_words =~= words);
    }
    if spells(other_bytes, words) {
        assert forall|k: int| 0 <= k < bytes.len() implies other_bytes[k] == bytes[k] by {
            let i = k / WORD_BYTES as int;
            let j = k % WORD_BYTES as int;
            assert(word_at(bytes, i) == words[i] && word_at(other_bytes, i) == words[i]);
            lemma_word_of_injective(
                references::item(bytes, WORD_BYTES as int, i),
                references::item(other_bytes, WORD_BYTES as int, i),
            );
            assert(references::item(bytes, WORD_BYTES as int, i)[j] == bytes[k]);
            assert(references::item(other_bytes, WORD_BYTES as int, i)[j] == other_bytes[k]);
        }
        assert(other_bytes =~= bytes);
    }
}

/// The bytes of words, as `bytemuck::cast_slice` sees them: every word as its
/// four bytes in the byte order of the machine.
#[verifier::external_body]
fn bytes_of_words(words: &[u32]) -> (r: Vec<u8>)
    ensures
        spells(r@, words@),
{
    bytemuck::cast_slice::<u32, u8>(words).to_vec()
}

/// The words that bytes hold, as `bytemuck::pod_collect_to_vec` copies them: four
/// bytes to a word in the byte order of the machine.
#[verifier::external_body]
fn words_of_bytes(bytes: &[u8]) -> (r: Vec<u32>)
    requires
        bytes@.len() % 4 == 0,
    ensures
        spells(bytes@, r@),
{
    bytemuck::pod_collect_to_vec::<u8, u32>(bytes)
}

/// The 32-bit two's complement pattern of a number.
pub open spec fn pattern32(x: int) -> int {
    if x < 0 {
        x + 0x1_0000_0000
    } else {
        x
    }
}

/// The words of a query, one for each dimension.
pub open spec fn query_words(query: QueryUniform) -> Seq<u32> {
    Seq::new(PADDED_DIMS as nat, |dim: int| pattern32(query.values[dim] as int) as u32)
}

/// The bytes of the query buffer.
pub fn query_bytes(query: &QueryUniform) -> (r: Vec<u8>)
    ensures
        spells(r@, query_words(*query)),
{
    let mut words: Vec<u32> = Vec::new();
    let mut dim: usize = 0;
    while dim < PADDED_DIMS
        invariant
            dim <= PADDED_DIMS,
            words@.len() == dim,
            forall|d: int| 0 <= d < dim ==> #[trigger] words@[d] == query_words(*query)[d],
        decreases PADDED_DIMS - dim,
    {
        let value: i32 = query.values[dim];
        let word: u32 = value as u32;
        proof {
            assert(value < 0 ==> value as u32 == value + 0x1_0000_0000) by (bit_vector);
            assert(value >= 0 ==> value as u32 == value) by (bit_vector);
        }
        words.push(word);
        dim += 1;
    }
    assert(words@ =~= query_words(*query));
    bytes_of_words(words.as_slice())
}

/// What the kernel is told of the reference buffers.
#[derive(Clone, Copy, Debug, PartialEq, Eq, Structural)]
pub struct Params {
    pub ref_count: u32,
    pub refs_per_chunk: u32,
}

/// The words of the parameter buffer, with its padding.
pub open spec fn params_words(params: Params) -> Seq<u32> {
    seq![params.ref_count, params.refs_per_chunk, 0u32, 0u32]
}

/// The bytes of the parameter buffer.
pub fn params_bytes(params: Params) -> (r: Vec<u8>)
    ensures
        spells(r@, params_words(params)),
{
    let words: [u32; 4] = [params.ref_count, params.refs_per_chunk, 0, 0];
    assert(words@ =~= params_words(params));
    bytes_of_words(words.as_slice())
}

/// The bytes of a reference buffer.
pub fn reference_bytes(words: &[u32]) -> (r: Vec<u8>)
    ensures
        spells(r@, words@),
{
    bytes_of_words(words)
}

/// The candidates that the kernel wrote into a buffer.
pub open spec fn candidates_in(bytes: Seq<u8>) -> Seq<GpuCandidate> {
    Seq::new(
        bytes.len() / CANDIDATE_BYTES as nat,
        |i: int|
            GpuCandidate {
                distance: (word_at(bytes, 4 * i) + 0x1_0000_0000 * word_at(bytes, 4 * i + 1)) as u64,
                index: word_at(bytes, 4 * i + 2) as u32,
                label: word_at(bytes, 4 * i + 3) as u32,
            },
    )
}

/// Reads the candidates that the kernel wrote into a buffer.
pub fn read_candidates(bytes: &[u8]) -> (r: Vec<GpuCandidate>)
    requires
        bytes@.len() % CANDIDATE_BYTES as nat == 0,
    ensures
        r@ == candidates_in(bytes@),
{
    let words: Vec<u32> = words_of_bytes(bytes);
    let count: usize = bytes.len() / CANDIDATE_BYTES;
    let mut list: Vec<GpuCandidate> = Vec::new();
    let mut i: usize = 0;
    while i < count
        invariant
            i <= count,
            count == bytes@.len() / CANDIDATE_BYTES as nat,
            words@.len() == 4 * count,
            spells(bytes@, words@),
            list@.len() == i,
            forall|j: int| 0 <= j < i ==> #[trigger] list@[j] == candidates_in(bytes@)[j],
        decreases count - i,
    {
        assert(words.len() == words@.len());
        let at: usize = 4 * i;
        assert(word_at(bytes@, at as int) == words@[at as int]);
        assert(word_at(bytes@, at + 1) == words@[at + 1]);
        assert(word_at(bytes@, at + 2) == words@[at + 2]);
        assert(word_at(bytes@, at + 3) == words@[at + 3]);
        list.push(
            GpuCandidate {
                distance: words[at] as u64 + 0x1_0000_0000 * words[at + 1] as u64,
                index: words[at + 2],
                label: words[at + 3],
            },
        );
        i += 1;
    }
    assert(list@ =~= candidates_in(bytes@));
    list
}

/// Merges what the kernel wrote into the five best, or nothing where a slot
/// names a reference that has no label.
pub fn merge_readback(bytes: &[u8], labels: &PackedLabels) -> (r: Option<[Candidate<u64>; TOP_K]>)
    requires
        bytes@.len() % CANDIDATE_BYTES as nat == 0,
        labels.wf(),
    ensures
        match r {
            Some(top) => topk::indices_known(candidates_in(bytes@), labels@.len()) && top@
                == topk::merged(candidates_in(bytes@), labels@),
            None => !topk::indices_known(candidates_in(bytes@), labels@.len()),
        },
{
    let list: Vec<GpuCandidate> = read_candidates(bytes);
    if known_indices(list.as_slice(), labels.len) {
        Some(merge_candidates(list.as_slice(), labels))
    } else {
        None
    }
}

/// The bytes of a word from its lowest to its highest, or the other way round where
/// the machine is big-endian.
pub proof fn law_words_are_split(bytes: Seq<u8>, words: Seq<u32>, i: int)
    requires
        spells(bytes, words),
        0 <= i < words.len(),
    ensures
        ({
            let w = words[i] as int;
            let lowest = w % 0x100;
            let low = w / 0x100 % 0x100;
            let high = w / 0x1_0000 % 0x100;
            let highest = w / 0x100_0000;
            match vstd::endian::endianness() {
                Endian::Little => bytes[4 * i] == lowest && bytes[4 * i + 1] == low && bytes[4 * i
                    + 2] == high && bytes[4 * i + 3] == highest,
                Endian::Big => bytes[4 * i] == highest && bytes[4 * i + 1] == high && bytes[4 * i
                    + 2] == low && bytes[4 * i + 3] == lowest,
            }
        }),
{
    let b = references::item(bytes, WORD_BYTES as int, i);
    assert(word_at(bytes, i) == words[i]);
    assert(b[0] == bytes[4 * i] && b[1] == bytes[4 * i + 1] && b[2] == bytes[4 * i + 2] && b[3]
        == bytes[4 * i + 3]);
}

/// A candidate is four words: its distance from low to high, its index and its
/// label.
pub proof fn law_candidates_are_read(bytes: Seq<u8>, words: Seq<u32>, i: int)
    requires
        spells(bytes, words),
        0 <= i,
        4 * i + 3 < words.len(),
    ensures
        candidates_in(bytes).len() == words.len() / 4,
        candidates_in(bytes)[i].distance == words[4 * i] + 0x1_0000_0000 * words[4 * i + 1],
        candidates_in(bytes)[i].index == words[4 * i + 2],
        candidates_in(bytes)[i].label == words[4 * i + 3],
{
    assert(word_at(bytes, 4 * i) == words[4 * i]);
    assert(word_at(bytes, 4 * i + 1) == words[4 * i + 1]);
    assert(word_at(bytes, 4 * i + 2) == words[4 * i + 2]);
    assert(word_at(bytes, 4 * i + 3) == words[4 * i + 3]);
}

/// The query buffer has a word for each of sixteen dimensions, equal to its steps
/// modulo `2^32`; the parameter buffer has the two counts and two empty words.
pub proof fn law_buffers_hold_their_words(query: QueryUniform, params: Params, dim: int)
    requires
        0 <= dim < 16,
    ensures
        query_words(query).len() == 16,
        (query_words(query)[dim] - query.values[dim]) % 0x1_0000_0000 == 0,
        params_words(params).len() == 4,
        params_words(params)[0] == params.ref_count,
        params_words(params)[1] == params.refs_per_chunk,
        params_words(params)[2] == 0,
        params_words(params)[3] == 0,
{
}

} // verus!
