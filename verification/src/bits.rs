//! A fixed-length list of yes and no, one bit each.

use vstd::prelude::*;

verus! {

/// Bit `k` of a word.
pub open spec fn bit(word: u64, k: u64) -> bool {
    (word >> k) & 1 == 1
}

proof fn lemma_bit_zero(k: u64)
    requires
        k < 64,
    ensures
        !bit(0, k),
{
    assert((0u64 >> k) & 1 == 0) by (bit_vector)
        requires
            k < 64,
    ;
}

proof fn lemma_bit_set(word: u64, k: u64, j: u64)
    requires
        k < 64,
        j < 64,
    ensures
        bit(word | (1u64 << k), j) == (j == k || bit(word, j)),
{
    assert((((word | (1u64 << k)) >> j) & 1 == 1) == (j == k || (word >> j) & 1 == 1))
        by (bit_vector)
        requires
            k < 64,
            j < 64,
    ;
}

/// A list of `n` bits, 64 to a word.
#[derive(Debug)]
pub struct Bits {
    words: Vec<u64>,
    n: usize,
}

impl View for Bits {
    type V = Seq<bool>;

    closed spec fn view(&self) -> Seq<bool> {
        Seq::new(self.n as nat, |i: int| bit(self.words@[i / 64], (i % 64) as u64))
    }
}

impl Bits {
    /// There are as many words as the bits need.
    pub closed spec fn well_formed(self) -> bool {
        self.words@.len() == (self.n + 63) / 64
    }

    /// `n` bits, none of them set.
    pub fn new(n: usize) -> (r: Bits)
        ensures
            r.well_formed(),
            r@ == Seq::new(n as nat, |i: int| false),
    {
        let count: usize = n / 64 + (if n % 64 == 0 {
            0
        } else {
            1usize
        });
        let mut words: Vec<u64> = Vec::new();
        for i in 0..count
            invariant
                words@.len() == i,
                forall|j: int| 0 <= j < i ==> words@[j] == 0,
        {
            words.push(0);
        }
        let r: Bits = Bits { words, n };
        proof {
            assert forall|i: int| 0 <= i < n implies !bit(#[trigger] r.words@[i / 64], (i % 64) as u64) by {
                lemma_bit_zero((i % 64) as u64);
            }
            assert(r@ =~= Seq::new(n as nat, |i: int| false));
        }
        r
    }

    pub fn len(&self) -> (r: usize)
        ensures
            r == self@.len(),
    {
        self.n
    }

    pub fn get(&self, i: usize) -> (r: bool)
        requires
            self.well_formed(),
            i < self@.len(),
        ensures
            r == self@[i as int],
    {
        let k: u64 = (i % 64) as u64;
        (self.words[i / 64] >> k) & 1 == 1
    }

    pub fn set(&mut self, i: usize)
        requires
            old(self).well_formed(),
            i < old(self)@.len(),
        ensures
            final(self).well_formed(),
            final(self)@ == old(self)@.update(i as int, true),
    {
        let ghost before = self.words@;
        let k: u64 = (i % 64) as u64;
        let word: u64 = self.words[i / 64] | (1u64 << k);
        self.words[i / 64] = word;
        proof {
            assert forall|j: int| 0 <= j < self.n implies #[trigger] self@[j] == old(self)@.update(
                i as int,
                true,
            )[j] by {
                if j / 64 == i / 64 {
                    lemma_bit_set(before[j / 64], k, (j % 64) as u64);
                }
            }
            assert(self@ =~= old(self)@.update(i as int, true));
        }
    }
}

impl Clone for Bits {
    fn clone(&self) -> (r: Bits)
        ensures
            r@ == self@,
            self.well_formed() ==> r.well_formed(),
    {
        let mut words: Vec<u64> = Vec::new();
        for i in 0..self.words.len()
            invariant
                words@ == self.words@.take(i as int),
        {
            words.push(self.words[i]);
            assert(self.words@.take(i + 1) =~= self.words@.take(i as int).push(
                self.words@[i as int],
            ));
        }
        assert(words@ =~= self.words@);
        Bits { words, n: self.n }
    }
}

} // verus!
