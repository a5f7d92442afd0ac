//! A fixed-size array of flags, packed into machine words.
//!
//! Flag `idx` lives in word `idx / word_bits()`, at bit `idx % word_bits()`.
//! The mathematical model of a [`Bitset`] is the sequence of all the flags its
//! words can hold, so its length is always a multiple of `word_bits()`.

use vstd::prelude::*;

verus! {

/// The number of flags that one word holds.
pub open spec fn word_bits() -> int {
    usize::BITS as int
}

/// The number of words needed to address every flag below `capacity`.
pub open spec fn words_for(capacity: int) -> int {
    (capacity + word_bits() - 1) / word_bits()
}

/// Whether bit `offset` of `word` is set.
pub open spec fn bit_of(word: usize, offset: int) -> bool {
    (word >> (offset as usize)) & 1 == 1
}

/// The flags that a sequence of words holds, in index order.
pub open spec fn bits_of(words: Seq<usize>) -> Seq<bool> {
    Seq::new(
        (words.len() * word_bits()) as nat,
        |i: int| bit_of(words[i / word_bits()], i % word_bits()),
    )
}

/// No bit of the zero word is set.
proof fn lemma_bit_of_zero(offset: usize)
    by (bit_vector)
    requires
        offset < usize::BITS,
    ensures
        (0usize >> offset) & 1 != 1,
{
}

/// Or-ing in the mask of `offset` sets that bit and keeps the others.
proof fn lemma_bit_after_or(word: usize, offset: usize, other: usize)
    by (bit_vector)
    requires
        offset < usize::BITS,
        other < usize::BITS,
    ensures
        (((word | (1usize << offset)) >> other) & 1 == 1) == (other == offset || (word >> other) & 1
            == 1),
{
}

/// And-ing with the complement of the mask of `offset` clears that bit and
/// keeps the others.
proof fn lemma_bit_after_and_not(word: usize, offset: usize, other: usize)
    by (bit_vector)
    requires
        offset < usize::BITS,
        other < usize::BITS,
    ensures
        (((word & !(1usize << offset)) >> other) & 1 == 1) == (other != offset && (word >> other)
            & 1 == 1),
{
}

/// Whether `count` words are the fewest that hold every flag named in
/// `indices`: none for no index, else one more than the word of the greatest.
pub open spec fn fewest_words(indices: Seq<usize>, count: int) -> bool {
    &&& 0 <= count
    &&& forall|k: int| 0 <= k < indices.len() ==> indices[k] as int / word_bits() < count
    &&& count == 0 || exists|k: int|
        0 <= k < indices.len() && indices[k] as int / word_bits() == count - 1
}

/// Splitting an index into word and offset loses nothing, and an index below
/// `len` words' worth of flags falls into one of the first `len` words.
proof fn lemma_split(idx: int, len: int)
    requires
        0 <= idx,
        0 <= len,
    ensures
        idx == (idx / word_bits()) * word_bits() + idx % word_bits(),
        0 <= idx % word_bits() < word_bits(),
        0 <= idx / word_bits(),
        idx < len * word_bits() <==> idx / word_bits() < len,
{
    let b = word_bits();
    assert(b == 32 || b == 64);
    assert(idx == (idx / b) * b + idx % b && 0 <= idx % b < b && 0 <= idx / b
        && (idx < len * b <==> idx / b < len)) by (nonlinear_arith)
        requires
            0 <= idx,
            0 <= len,
            b == 32 || b == 64,
    ;
}

/// The words that `capacity` flags need: the full words, and one more for a
/// remainder. They hold at least `capacity` flags, and fewer than a word more.
pub proof fn lemma_words_for(capacity: int)
    requires
        0 <= capacity,
    ensures
        words_for(capacity) == capacity / word_bits() + if capacity % word_bits() == 0 {
            0int
        } else {
            1int
        },
        capacity <= words_for(capacity) * word_bits() < capacity + word_bits(),
{
    let b = word_bits();
    assert(b == 32 || b == 64);
    assert((capacity + b - 1) / b == capacity / b + if capacity % b == 0 {
        0int
    } else {
        1int
    } && capacity <= ((capacity + b - 1) / b) * b < capacity + b) by (nonlinear_arith)
        requires
            0 <= capacity,
            b == 32 || b == 64,
    ;
}

/// A flag reads as it was last written: after `set`, `reset` or `set_to` on
/// flag `idx`, which leave the bitset `before` as `after`, `get` on `idx`
/// gives the value written.
pub proof fn lemma_write_then_read(before: Bitset, after: Bitset, idx: usize, value: bool)
    requires
        idx < before@.len(),
        after@ == before@.update(idx as int, value),
    ensures
        after@[idx as int] == value,
{
}

/// Replacing the word of flag `idx` by one that differs from it in that flag
/// alone changes that flag alone.
proof fn lemma_word_update(words: Seq<usize>, idx: int, word: usize, value: bool)
    requires
        0 <= idx < words.len() * word_bits(),
        forall|j: int|
            0 <= j < word_bits() ==> bit_of(word, j) == if j == idx % word_bits() {
                value
            } else {
                bit_of(words[idx / word_bits()], j)
            },
    ensures
        bits_of(words.update(idx / word_bits(), word)) == bits_of(words).update(idx, value),
{
    let b = word_bits();
    let after = bits_of(words.update(idx / b, word));
    let expected = bits_of(words).update(idx, value);
    lemma_split(idx, words.len() as int);
    assert forall|i: int| 0 <= i < after.len() implies after[i] == expected[i] by {
        lemma_split(i, words.len() as int);
    }
    assert(after =~= expected);
}

/// The word that holds flag `idx`.
pub fn bin_no(idx: usize) -> (bin: usize)
    ensures
        bin == idx as int / word_bits(),
    no_unwind
{
    idx / (usize::BITS as usize)
}

/// The position of flag `idx` inside its word.
pub fn inner_idx(idx: usize) -> (offset: usize)
    ensures
        offset == idx as int % word_bits(),
        offset < word_bits(),
    no_unwind
{
    idx % (usize::BITS as usize)
}

/// Flags packed into words, least significant bit first.
#[derive(PartialEq, Eq, Debug)]
pub struct Bitset {
    bits: Vec<usize>,
}

impl View for Bitset {
    type V = Seq<bool>;

    /// Every flag the allocated words can hold, in index order.
    open spec fn view(&self) -> Seq<bool> {
        bits_of(self.words())
    }
}

impl Clone for Bitset {
    /// A copy with its own words, holding the same flags.
    fn clone(&self) -> (copy: Self)
        ensures
            copy.words() == self.words(),
            copy@ == self@,
    {
        Bitset { bits: self.bits.clone() }
    }
}

impl Bitset {
    /// The backing words.
    pub closed spec fn words(&self) -> Seq<usize> {
        self.bits@
    }

    /// A bitset of `size` flags, all cleared, in exactly as many words as
    /// `size` flags need.
    pub fn with_size(size: usize) -> (set: Self)
        ensures
            set.words().len() == words_for(size as int),
            set@.len() >= size,
            forall|i: int| 0 <= i < set@.len() ==> !set@[i],
    {
        proof {
            lemma_words_for(size as int);
            lemma_split(size as int, 0);
        }
        let whole = bin_no(size);
        let count = if inner_idx(size) == 0 {
            whole
        } else {
            whole + 1
        };
        let v: Vec<usize> = vec![0usize; count];
        let set = Bitset { bits: v };
        proof {
            assert forall|i: int| 0 <= i < set@.len() implies !set@[i] by {
                lemma_bit_of_zero((i % word_bits()) as usize);
            }
        }
        set
    }

    /// A bitset in which exactly the flags named in `indices` are set, in the
    /// fewest words that hold them all.
    pub fn from_indices(indices: &[usize]) -> (set: Self)
        ensures
            fewest_words(indices@, set.words().len() as int),
            forall|i: int| 0 <= i < set@.len() ==> set@[i] == indices@.contains(i as usize),
    {
        let mut count: usize = 0;
        let mut k: usize = 0;
        while k < indices.len()
            invariant
                k <= indices.len(),
                fewest_words(indices@.take(k as int), count as int),
            decreases indices.len() - k,
        {
            let bin = bin_no(indices[k]);
            proof {
                lemma_split(indices[k as int] as int, 0);
                let seen = indices@.take(k as int);
                let more = indices@.take(k + 1);
                assert(more[k as int] == indices[k as int]);
                if count > 0 && bin < count {
                    let w = choose|w: int|
                        0 <= w < seen.len() && seen[w] as int / word_bits() == count - 1;
                    assert(more[w] == seen[w]);
                }
            }
            if bin >= count {
                count = bin + 1;
            }
            k += 1;
        }
        assert(indices@.take(k as int) == indices@);
        let mut set = Bitset { bits: vec![0usize; count] };
        proof {
            assert forall|i: int| 0 <= i < set@.len() implies !set@[i] by {
                lemma_bit_of_zero((i % word_bits()) as usize);
            }
        }
        k = 0;
        while k < indices.len()
            invariant
                k <= indices.len(),
                set.bits@.len() == count,
                fewest_words(indices@, count as int),
                forall|i: int|
                    0 <= i < set@.len() ==> set@[i] == indices@.take(k as int).contains(i as usize),
            decreases indices.len() - k,
        {
            let idx = indices[k];
            proof {
                lemma_split(idx as int, count as int);
            }
            set.set(idx);
            proof {
                let seen = indices@.take(k as int);
                let more = indices@.take(k + 1);
                assert(more == seen.push(idx));
                assert forall|i: int| 0 <= i < set@.len() implies set@[i] == more.contains(
                    i as usize,
                ) by {
                    if i == idx {
                        assert(more[k as int] == idx);
                    } else {
                        if seen.contains(i as usize) {
                            let w = choose|w: int| 0 <= w < seen.len() && seen[w] == i as usize;
                            assert(more[w] == i as usize);
                        }
                        if more.contains(i as usize) {
                            let w = choose|w: int| 0 <= w < more.len() && more[w] == i as usize;
                            assert(seen[w] == i as usize);
                        }
                    }
                }
            }
            k += 1;
        }
        assert(indices@.take(k as int) == indices@);
        set
    }

    /// Reads flag `idx`.
    pub fn get(&self, idx: usize) -> (flag: bool)
        requires
            idx < self@.len(),
        ensures
            flag == self@[idx as int],
    {
        let bin = bin_no(idx);
        let offset = inner_idx(idx);
        proof {
            lemma_split(idx as int, self.bits@.len() as int);
        }
        (self.bits[bin] >> offset) & 1 == 1
    }

    /// Sets flag `idx`, leaving every other flag as it was.
    pub fn set(&mut self, idx: usize)
        requires
            idx < old(self)@.len(),
        ensures
            final(self)@ == old(self)@.update(idx as int, true),
            final(self).words().len() == old(self).words().len(),
        no_unwind
    {
        let bin = bin_no(idx);
        let offset = inner_idx(idx);
        proof {
            lemma_split(idx as int, self.bits@.len() as int);
        }
        let word = self.bits[bin];
        let marked = word | (1usize << offset);
        proof {
            assert forall|j: int| 0 <= j < word_bits() implies bit_of(marked, j) == if j == offset {
                true
            } else {
                bit_of(word, j)
            } by {
                lemma_bit_after_or(word, offset, j as usize);
            }
            lemma_word_update(self.bits@, idx as int, marked, true);
        }
        self.bits[bin] = marked;
    }

    /// Clears flag `idx`, leaving every other flag as it was.
    pub fn reset(&mut self, idx: usize)
        requires
            idx < old(self)@.len(),
        ensures
            final(self)@ == old(self)@.update(idx as int, false),
            final(self).words().len() == old(self).words().len(),
        no_unwind
    {
        let bin = bin_no(idx);
        let offset = inner_idx(idx);
        proof {
            lemma_split(idx as int, self.bits@.len() as int);
        }
        let word = self.bits[bin];
        let cleared = word & !(1usize << offset);
        proof {
            assert forall|j: int| 0 <= j < word_bits() implies bit_of(cleared, j) == if j
                == offset {
                false
            } else {
                bit_of(word, j)
            } by {
                lemma_bit_after_and_not(word, offset, j as usize);
            }
            lemma_word_update(self.bits@, idx as int, cleared, false);
        }
        self.bits[bin] = cleared;
    }

    /// Sets flag `idx` to `to`, leaving every other flag as it was.
    pub fn set_to(&mut self, idx: usize, to: bool)
        requires
            idx < old(self)@.len(),
        ensures
            final(self)@ == old(self)@.update(idx as int, to),
            final(self).words().len() == old(self).words().len(),
        no_unwind
    {
        if to {
            self.set(idx);
        } else {
            self.reset(idx);
        }
    }

    /// The backing words, borrowed for as long as the bitset is not changed.
    /// Flag `i` is bit `i % word_bits()` of word `i / word_bits()`.
    pub fn as_ptr(&self) -> (raw: &[usize])
        ensures
            raw@ == self.words(),
    {
        self.bits.as_slice()
    }
}

} // verus!
