use crate::generator::count::count_true;
use crate::generator::count::lemma_count_all;
use crate::generator::count::lemma_count_zero;
use crate::generator::count::lemma_sum_remove;
use vstd::prelude::*;

verus! {

/// Whether bit `i` of `word` is set.
pub open spec fn word_bit(word: u64, i: u64) -> bool {
    (word >> i) & 1 == 1
}

proof fn lemma_full_word(i: u64)
    requires
        i < 64,
    ensures
        word_bit(u64::MAX, i),
{
    assert((0xFFFF_FFFF_FFFF_FFFFu64 >> i) & 1 == 1) by (bit_vector)
        requires
            i < 64,
    ;
}

proof fn lemma_clear_bit(word: u64, b: u64, i: u64)
    requires
        b < 64,
        i < 64,
    ensures
        word_bit(word & !(1u64 << b), i) == (i != b && word_bit(word, i)),
        (word & (1u64 << b) != 0) == word_bit(word, b),
{
    assert(((word & !(1u64 << b)) >> i) & 1 == 1 <==> (i != b && (word >> i) & 1 == 1))
        by (bit_vector)
        requires
            b < 64,
            i < 64,
    ;
    assert((word & (1u64 << b) != 0) <==> ((word >> b) & 1 == 1)) by (bit_vector)
        requires
            b < 64,
    ;
}

/// A set of the numbers below a limit, one bit for each, in words of
/// sixty-four bits.
pub struct BitSet {
    words: Vec<u64>,
    len: usize,
    count: usize,
}

impl View for BitSet {
    type V = Seq<bool>;

    /// For each number below the limit, whether the set holds it.
    closed spec fn view(&self) -> Seq<bool> {
        Seq::new(
            self.len as nat,
            |k: int| word_bit(self.words@[k / 64], (k % 64) as u64),
        )
    }
}

impl BitSet {
    /// The set's invariant: there is a bit for each number, and the number
    /// of members is known.
    pub closed spec fn wf(self) -> bool {
        &&& self.words@.len() == self.len / 64 + 1
        &&& self.count == count_true(self@)
    }

    /// The set of all the numbers below `len`.
    pub fn new_full(len: usize) -> (set: BitSet)
        ensures
            set.wf(),
            set@ == Seq::new(len as nat, |k: int| true),
    {
        let words_count = len / 64 + 1;
        let mut words: Vec<u64> = Vec::new();
        let mut i: usize = 0;
        while i < words_count
            invariant
                i <= words_count,
                words@.len() == i,
                forall|k: int| 0 <= k < i ==> #[trigger] words@[k] == u64::MAX,
            decreases words_count - i,
        {
            words.push(u64::MAX);
            i += 1;
        }
        let set = BitSet { words, len, count: len };
        proof {
            assert forall|k: int| 0 <= k < len implies #[trigger] set@[k] by {
                lemma_full_word((k % 64) as u64);
            }
            assert(set@ =~= Seq::new(len as nat, |k: int| true));
            lemma_count_all(len as nat, |i: int| set@[i]);
        }
        set
    }

    /// The limit: the set holds numbers below it.
    pub fn len(&self) -> (len: usize)
        ensures
            len == self@.len(),
    {
        self.len
    }

    /// Number of members.
    pub fn count(&self) -> (count: usize)
        requires
            self.wf(),
        ensures
            count == count_true(self@),
            count <= self@.len(),
    {
        proof {
            lemma_count_zero(self@.len(), |i: int| self@[i]);
        }
        self.count
    }

    /// Whether the set has no member.
    pub fn is_empty(&self) -> (empty: bool)
        requires
            self.wf(),
        ensures
            empty == (count_true(self@) == 0),
            empty == (forall|i: int| 0 <= i < self@.len() ==> !self@[i]),
    {
        proof {
            let keep = |i: int| self@[i];
            lemma_count_zero(self@.len(), keep);
            if self.count == 0 {
                assert forall|i: int| 0 <= i < self@.len() implies !self@[i] by {
                    assert(!keep(i));
                }
            }
            if forall|i: int| 0 <= i < self@.len() ==> !self@[i] {
                assert forall|i: int| 0 <= i < self@.len() implies !#[trigger] keep(i) by {}
            }
        }
        self.count == 0
    }

    /// Whether `i` is a member.
    pub fn contains(&self, i: usize) -> (member: bool)
        requires
            self.wf(),
            i < self@.len(),
        ensures
            member == self@[i as int],
    {
        let word = self.words[i / 64];
        let b: u64 = (i % 64) as u64;
        proof {
            lemma_clear_bit(word, b, b);
        }
        word & (1u64 << b) != 0
    }

    /// Takes `i` out of the set, and says whether it was a member.
    pub fn remove(&mut self, i: usize) -> (was_member: bool)
        requires
            old(self).wf(),
            i < old(self)@.len(),
        ensures
            final(self).wf(),
            final(self)@ == old(self)@.update(i as int, false),
            was_member == old(self)@[i as int],
    {
        let slot = i / 64;
        let word = self.words[slot];
        let b: u64 = (i % 64) as u64;
        let was_member = word & (1u64 << b) != 0;
        let cleared = word & !(1u64 << b);
        self.words[slot] = cleared;
        proof {
            lemma_clear_bit(word, b, b);
            assert forall|k: int| 0 <= k < self.len implies #[trigger] self@[k] == old(
                self,
            )@.update(i as int, false)[k] by {
                if k / 64 == slot {
                    lemma_clear_bit(word, b, (k % 64) as u64);
                }
            }
            assert(self@ =~= old(self)@.update(i as int, false));
        }
        if was_member {
            proof {
                let before = old(self)@;
                let after = self@;
                lemma_sum_remove(
                    self.len as nat,
                    |k: int| before[k],
                    |k: int| after[k],
                    |k: int| 1nat,
                    i as int,
                );
            }
            self.count = self.count - 1;
        } else {
            proof {
                assert(self@ =~= old(self)@);
            }
        }
        was_member
    }

    /// The smallest member that is at least `from`, if there is one.
    pub fn next_set(&self, from: usize) -> (found: Option<usize>)
        requires
            self.wf(),
        ensures
            match found {
                Some(i) => from <= i < self@.len() && self@[i as int] && forall|j: int|
                    from <= j < i ==> !self@[j],
                None => forall|j: int| from <= j < self@.len() ==> !self@[j],
            },
    {
        let mut i: usize = from;
        while i < self.len
            invariant
                self.wf(),
                from <= i,
                forall|j: int| from <= j < i && j < self@.len() ==> !self@[j],
            decreases self.len - i,
        {
            if self.contains(i) {
                return Some(i);
            }
            i += 1;
        }
        None
    }

    /// The smallest member, if there is one.
    pub fn first_set(&self) -> (found: Option<usize>)
        requires
            self.wf(),
        ensures
            match found {
                Some(i) => i < self@.len() && self@[i as int] && forall|j: int|
                    0 <= j < i ==> !self@[j],
                None => forall|j: int| 0 <= j < self@.len() ==> !self@[j],
            },
    {
        self.next_set(0)
    }
}

} // verus!
