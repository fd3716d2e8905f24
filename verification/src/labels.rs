//! One fraud bit for each reference, packed into words.

use vstd::prelude::*;
use vstd::arithmetic::power2::*;

verus! {

/// Bits of a word.
pub const WORD_BITS: usize = 32;

/// Whether bit `i` of a word is set.
pub open spec fn has_bit(word: u32, i: int) -> bool {
    (word >> (i as u32)) & 1 == 1
}

/// Fraud labels of `len` references, thirty-two in each word.
#[derive(Clone, Debug)]
pub struct PackedLabels {
    pub words: Vec<u32>,
    pub len: usize,
}

impl PackedLabels {
    /// The label of every reference: true for fraud.
    pub open spec fn view(&self) -> Seq<bool> {
        Seq::new(
            self.len as nat,
            |i: int| has_bit(self.words[i / WORD_BITS as int], i % WORD_BITS as int),
        )
    }

    /// As many words as the labels need, and no bit set behind the last label.
    pub open spec fn wf(&self) -> bool {
        &&& self.words@.len() == (self.len + 31) / 32
        &&& forall|i: int|
            self.len <= i < self.words@.len() * WORD_BITS ==> !#[trigger] has_bit(
                self.words[i / WORD_BITS as int],
                i % WORD_BITS as int,
            )
    }

    /// Labels of `len` references, none of them fraud.
    pub fn new(len: usize) -> (r: PackedLabels)
        ensures
            r.wf(),
            r@ == Seq::new(len as nat, |i: int| false),
            r.len == len,
    {
        let count: usize = len / WORD_BITS + if len % WORD_BITS == 0 {
            0
        } else {
            1
        };
        let words: Vec<u32> = vec![0u32; count];
        let r = PackedLabels { words, len };
        proof {
            assert forall|i: int| 0 <= i < count * WORD_BITS implies !#[trigger] has_bit(
                r.words[i / WORD_BITS as int],
                i % WORD_BITS as int,
            ) by {
                let b = (i % WORD_BITS as int) as u32;
                assert((0u32 >> b) & 1 == 0) by (bit_vector);
            }
            assert forall|i: int| 0 <= i < len implies #[trigger] r@[i] == false by {
                assert(!has_bit(r.words[i / WORD_BITS as int], i % WORD_BITS as int));
            }
        }
        r
    }

    /// Marks reference `index` as fraud where `fraud` holds; a mark is never taken back.
    pub fn set(&mut self, index: usize, fraud: bool)
        requires
            old(self).wf(),
            index < old(self).len,
        ensures
            final(self).wf(),
            final(self).len == old(self).len,
            final(self)@ == old(self)@.update(index as int, old(self)@[index as int] || fraud),
    {
        let word: usize = index / WORD_BITS;
        let bit: u32 = (index % WORD_BITS) as u32;
        if fraud {
            let before: u32 = self.words[word];
            let after: u32 = before | (1u32 << bit);
            self.words[word] = after;
            proof {
                assert forall|i: int|
                    0 <= i < self.words@.len() * WORD_BITS implies #[trigger] has_bit(
                    self.words[i / WORD_BITS as int],
                    i % WORD_BITS as int,
                ) == (i == index || has_bit(
                    old(self).words[i / WORD_BITS as int],
                    i % WORD_BITS as int,
                )) by {
                    let c = (i % WORD_BITS as int) as u32;
                    if i / WORD_BITS as int == word {
                        assert((after >> c) & 1 == 1 <==> (c == bit || (before >> c) & 1 == 1))
                            by (bit_vector)
                            requires
                                after == before | (1u32 << bit),
                                bit < 32,
                                c < 32,
                        ;
                    }
                }
            }
        }
        assert(self@ == old(self)@.update(index as int, old(self)@[index as int] || fraud));
    }

    /// One for a fraud label, zero for any other.
    pub fn get(&self, index: usize) -> (r: u32)
        requires
            self.wf(),
            index < self.len,
        ensures
            r == if self@[index as int] {
                1u32
            } else {
                0
            },
    {
        let word: u32 = self.words[index / WORD_BITS];
        let bit: u32 = (index % WORD_BITS) as u32;
        proof {
            assert((word >> bit) & 1 == 0 || (word >> bit) & 1 == 1) by (bit_vector);
        }
        (word >> bit) & 1
    }

    /// Appends the label of one more reference.
    pub fn push(&mut self, fraud: bool)
        requires
            old(self).wf(),
            old(self).len < usize::MAX,
        ensures
            final(self).wf(),
            final(self).len == old(self).len + 1,
            final(self)@ == old(self)@.push(fraud),
    {
        let index: usize = self.len;
        if index % WORD_BITS == 0 {
            self.words.push(0);
        }
        proof {
            assert forall|i: int|
                index <= i < self.words@.len() * WORD_BITS implies !#[trigger] has_bit(
                self.words[i / WORD_BITS as int],
                i % WORD_BITS as int,
            ) by {
                if i >= old(self).words@.len() * WORD_BITS {
                    let b = (i % WORD_BITS as int) as u32;
                    assert((0u32 >> b) & 1 == 0) by (bit_vector);
                } else {
                    assert(!has_bit(
                        old(self).words[i / WORD_BITS as int],
                        i % WORD_BITS as int,
                    ));
                }
            }
        }
        self.len = index + 1;
        assert(self@ =~= old(self)@.push(false));
        self.set(index, fraud);
        assert(self@ =~= old(self)@.push(fraud));
    }
}

/// The label of reference `i` is the bit of weight `2^(i % 32)` in word `i / 32`.
pub proof fn law_labels_are_bits(labels: PackedLabels, i: int)
    requires
        0 <= i < labels.len,
    ensures
        labels@[i] <==> (labels.words@[i / 32] as nat / pow2((i % 32) as nat)) % 2 == 1,
{
    let word = labels.words@[i / 32];
    let b = (i % 32) as u32;
    vstd::bits::lemma_u32_shr_is_div(word, b);
    let shifted = word >> b;
    assert(shifted & 1 == shifted % 2) by (bit_vector);
}

} // verus!
