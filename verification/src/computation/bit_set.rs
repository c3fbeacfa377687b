use std::collections::HashSet;
use std::ops::{BitAnd, BitAndAssign, BitOr, BitOrAssign, BitXor, Not};
use vstd::prelude::*;

use super::word_bits::{
    lemma_and_below, lemma_bit_and, lemma_bit_and_not, lemma_bit_not, lemma_bit_or, lemma_bit_single,
    lemma_bit_xor, lemma_bit_zero, lemma_index_split, lemma_nonzero_has_bit, lemma_shift_out,
    lemma_shift_step, word_at, word_bit, words_hold, words_set,
};

verus! {

/// Number of bits held by each word of a bit set.
pub const CELL_SIZE: usize = 64;

/// Set of boolean flags indexed by integers, stored as 64-bit words, lowest bits first.
#[derive(Debug, Clone, PartialEq, Eq, Hash)]
pub struct BitSet {
    enabled: Vec<u64>,
}

impl View for BitSet {
    type V = Set<int>;

    /// The indices of the bits that are set.
    open spec fn view(&self) -> Set<int> {
        words_set(self.words())
    }
}

/// Two word sequences that agree word by word (zero past their ends) hold the same bits.
pub proof fn lemma_same_words_same_set(a: Seq<u64>, b: Seq<u64>)
    requires
        forall|j: int| 0 <= j ==> #[trigger] word_at(a, j) == word_at(b, j),
    ensures
        words_set(a) == words_set(b),
{
    assert forall|i: int| #[trigger] words_set(a).contains(i) == words_set(b).contains(i) by {
        if 0 <= i {
            assert(word_at(a, i / 64) == word_at(b, i / 64));
        }
    }
    assert(words_set(a) =~= words_set(b));
}

/// Two word sequences with no zero word at their ends that hold the same bits are the same
/// words: a trimmed bit set is determined by its bits.
pub proof fn lemma_trimmed_words_unique(a: Seq<u64>, b: Seq<u64>)
    requires
        a.len() == 0 || a.last() != 0,
        b.len() == 0 || b.last() != 0,
        words_set(a) == words_set(b),
    ensures
        a == b,
{
    assert forall|j: int| 0 <= j implies #[trigger] word_at(a, j) == word_at(b, j) by {
        let x = word_at(a, j);
        let y = word_at(b, j);
        if x != y {
            let w = x ^ y;
            assert(w != 0u64) by (bit_vector)
                requires
                    x != y,
                    w == x ^ y,
            ;
            lemma_nonzero_has_bit(w);
            let k = choose|k: u64| k < 64 && #[trigger] word_bit(w, k);
            lemma_bit_xor(x, y, k);
            lemma_hold_at(a, j, k);
            lemma_hold_at(b, j, k);
            assert(words_set(a).contains(j * 64 + k) == words_hold(a, j * 64 + k));
            assert(words_set(b).contains(j * 64 + k) == words_hold(b, j * 64 + k));
        }
    }
    if a.len() < b.len() {
        assert(word_at(a, b.len() - 1) == word_at(b, b.len() - 1));
    }
    if b.len() < a.len() {
        assert(word_at(a, a.len() - 1) == word_at(b, a.len() - 1));
    }
    assert forall|j: int| 0 <= j < a.len() implies a[j] == b[j] by {
        assert(word_at(a, j) == word_at(b, j));
    }
    assert(a =~= b);
}

/// Two trimmed bit sets with the same bits have the same words.
pub proof fn lemma_trimmed_sets_equal(x: BitSet, y: BitSet)
    requires
        x.is_trimmed(),
        y.is_trimmed(),
        x@ == y@,
    ensures
        x.words() == y.words(),
{
    lemma_trimmed_words_unique(x.words(), y.words());
}

/// Bit `i` of a word sequence, read from its word.
proof fn lemma_hold_at(words: Seq<u64>, j: int, k: u64)
    requires
        0 <= j,
        k < 64,
    ensures
        words_hold(words, j * 64 + k) == word_bit(word_at(words, j), k),
{
    let i = j * 64 + k;
    assert(i / 64 == j && i % 64 == k) by (nonlinear_arith)
        requires
            i == j * 64 + k,
            0 <= j,
            0 <= k < 64,
    ;
}

impl BitSet {
    /// The words of the set, lowest bits first.
    pub closed spec fn words(&self) -> Seq<u64> {
        self.enabled@
    }

    /// No zero word stands at the end.
    pub open spec fn is_trimmed(&self) -> bool {
        self.words().len() == 0 || self.words().last() != 0
    }

    pub fn new() -> (set: Self)
        ensures
            set.words() == Seq::<u64>::empty(),
            set@ == Set::<int>::empty(),
            set.is_trimmed(),
    {
        let set = BitSet { enabled: Vec::new() };
        assert forall|i: int| !#[trigger] set@.contains(i) by {
            lemma_bit_zero((i % 64) as u64);
        }
        assert(set@ =~= Set::<int>::empty());
        set
    }

    /// The set holding `bit` alone.
    pub fn single_bit(bit: usize) -> (set: Self)
        ensures
            set@ == Set::<int>::empty().insert(bit as int),
            set.words().len() == bit / 64 + 1,
            set.is_trimmed(),
    {
        let mut set = BitSet::new();
        set.enable(bit);
        assert(set@ =~= Set::<int>::empty().insert(bit as int));
        set
    }

    /// The word holding `bit` with only that bit set, and the word's index.
    pub fn get_indexs(bit: usize) -> (r: (u64, usize))
        ensures
            r.0 == 1u64 << ((bit % 64) as u64),
            r.1 == bit / 64,
    {
        let shift = (bit % CELL_SIZE) as u64;
        (1u64 << shift, bit / CELL_SIZE)
    }

    /// Extends the words with zeros so that word `index` exists.
    fn reach_word(&mut self, index: usize)
        requires
            index < usize::MAX,
        ensures
            final(self).words().len() == if index < old(self).words().len() {
                old(self).words().len()
            } else {
                (index + 1) as nat
            },
            forall|j: int| 0 <= j ==> #[trigger] word_at(final(self).words(), j) == word_at(
                old(self).words(),
                j,
            ),
            forall|j: int|
                0 <= j < old(self).words().len() ==> #[trigger] final(self).words()[j] == old(
                    self,
                ).words()[j],
    {
        if index >= self.enabled.len() {
            let ghost before = self.enabled@;
            self.enabled.resize(index + 1, 0);
            assert forall|j: int| 0 <= j implies #[trigger] word_at(self.enabled@, j) == word_at(
                before,
                j,
            ) by {
                if j < before.len() {
                    assert(self.enabled@.subrange(0, before.len() as int)[j] == before[j]);
                } else if j < self.enabled@.len() {
                    assert(cloned::<u64>(0u64, self.enabled@[j]));
                }
            }
            assert forall|j: int| 0 <= j < before.len() implies #[trigger] self.enabled@[j]
                == before[j] by {
                assert(self.enabled@.subrange(0, before.len() as int)[j] == before[j]);
            }
        }
    }

    pub fn enable(&mut self, bit: usize)
        ensures
            final(self)@ == old(self)@.insert(bit as int),
            final(self).words().len() == if bit / 64 < old(self).words().len() {
                old(self).words().len()
            } else {
                (bit / 64 + 1) as nat
            },
            old(self).is_trimmed() ==> final(self).is_trimmed(),
    {
        let (new_byte, byte_index) = Self::get_indexs(bit);
        self.reach_word(byte_index);
        let ghost mid = self.enabled@;
        let w = self.enabled[byte_index];
        self.enabled.set(byte_index, w | new_byte);
        proof {
            let s = (bit % 64) as u64;
            assert forall|i: int| #[trigger] self@.contains(i) == old(self)@.insert(
                bit as int,
            ).contains(i) by {
                if 0 <= i {
                    lemma_index_split(i);
                    let k = (i % 64) as u64;
                    lemma_bit_single(s, k);
                    lemma_bit_or(w, new_byte, k);
                    assert(word_at(mid, i / 64) == word_at(old(self).words(), i / 64));
                    if i / 64 == byte_index as int {
                        assert(i == bit as int <==> k == s);
                    } else {
                        assert(i != bit as int);
                        assert(word_at(self.enabled@, i / 64) == word_at(mid, i / 64));
                    }
                }
            }
            assert(self@ =~= old(self)@.insert(bit as int));
            if old(self).is_trimmed() {
                let last = self.enabled@.len() - 1;
                if last == byte_index as int {
                    lemma_bit_single(s, s);
                    lemma_bit_or(w, new_byte, s);
                    lemma_bit_zero(s);
                } else {
                    assert(self.enabled@[last] == mid[last]);
                    assert(mid[last] == old(self).words()[last]);
                }
            }
        }
    }

    /// Removes the zero words at the end.
    pub fn trim(&mut self)
        ensures
            final(self)@ == old(self)@,
            final(self).is_trimmed(),
            final(self).words().len() <= old(self).words().len(),
            final(self).words() == old(self).words().subrange(
                0,
                final(self).words().len() as int,
            ),
            forall|j: int|
                final(self).words().len() <= j < old(self).words().len() ==> #[trigger] old(
                    self,
                ).words()[j] == 0,
    {
        let ghost orig = self.enabled@;
        while self.enabled.len() > 0 && self.enabled[self.enabled.len() - 1] == 0
            invariant
                self.enabled@.len() <= orig.len(),
                self.enabled@ == orig.subrange(0, self.enabled@.len() as int),
                forall|j: int| self.enabled@.len() <= j < orig.len() ==> #[trigger] orig[j] == 0,
            decreases self.enabled@.len(),
        {
            self.enabled.pop();
        }
        proof {
            assert forall|j: int| 0 <= j implies #[trigger] word_at(self.enabled@, j) == word_at(
                orig,
                j,
            ) by {}
            lemma_same_words_same_set(self.enabled@, orig);
        }
    }

    pub fn disable(&mut self, bit: usize)
        ensures
            final(self)@ == old(self)@.remove(bit as int),
            final(self).is_trimmed(),
    {
        let (new_byte, byte_index) = Self::get_indexs(bit);
        self.reach_word(byte_index);
        let ghost mid = self.enabled@;
        let w = self.enabled[byte_index];
        self.enabled.set(byte_index, w & !new_byte);
        proof {
            let s = (bit % 64) as u64;
            assert forall|i: int| #[trigger] self@.contains(i) == old(self)@.remove(
                bit as int,
            ).contains(i) by {
                if 0 <= i {
                    lemma_index_split(i);
                    let k = (i % 64) as u64;
                    lemma_bit_single(s, k);
                    lemma_bit_and_not(w, new_byte, k);
                    assert(word_at(mid, i / 64) == word_at(old(self).words(), i / 64));
                    if i / 64 == byte_index as int {
                        assert(i == bit as int <==> k == s);
                    } else {
                        assert(word_at(self.enabled@, i / 64) == word_at(mid, i / 64));
                    }
                }
            }
            assert(self@ =~= old(self)@.remove(bit as int));
        }
        self.trim();
    }

    pub fn is_enabled(&self, bit: usize) -> (r: bool)
        ensures
            r == self@.contains(bit as int),
    {
        let (new_byte, byte_index) = Self::get_indexs(bit);
        proof {
            let s = (bit % 64) as u64;
            lemma_bit_zero(s);
        }
        if byte_index >= self.enabled.len() {
            false
        } else {
            let w = self.enabled[byte_index];
            proof {
                let s = (bit % 64) as u64;
                assert(((w & (1u64 << s)) > 0u64) <==> ((w >> s) & 1u64 == 1u64)) by (bit_vector)
                    requires
                        s < 64,
                ;
            }
            (w & new_byte) > 0
        }
    }

    /// The indices of the set bits.
    pub fn get_bits(&self) -> (res: HashSet<usize>)
        requires
            self.words().len() * 64 <= usize::MAX + 1,
        ensures
            forall|i: usize| #[trigger] res@.contains(i) <==> self@.contains(i as int),
            forall|i: int| #[trigger] self@.contains(i) ==> 0 <= i <= usize::MAX,
    {
        let mut res: HashSet<usize> = HashSet::new();
        let n = self.enabled.len();
        let mut b_i: usize = 0;
        while b_i < n
            invariant
                n == self.enabled@.len(),
                n * 64 <= usize::MAX + 1,
                b_i <= n,
                forall|x: usize| #[trigger]
                    res@.contains(x) <==> (x < b_i * 64 && self@.contains(x as int)),
            decreases n - b_i,
        {
            let b = self.enabled[b_i];
            let mut rem = b;
            let mut i: u64 = 0;
            proof {
                assert((b >> 0u64) == b) by (bit_vector);
            }
            while rem > 0
                invariant
                    n == self.enabled@.len(),
                    n * 64 <= usize::MAX + 1,
                    b_i < n,
                    b == self.enabled@[b_i as int],
                    i <= 64,
                    rem == b >> i,
                    forall|x: usize| #[trigger]
                        res@.contains(x) <==> (x < b_i * 64 + i && self@.contains(x as int)),
                decreases 64 - i,
            {
                if i == 64 {
                    proof {
                        lemma_shift_out(b);
                    }
                }
                proof {
                    lemma_shift_step(b, rem, i);
                    lemma_hold_at(self.enabled@, b_i as int, i);
                    assert(b_i * 64 + i < n * 64) by (nonlinear_arith)
                        requires
                            b_i < n,
                            i < 64,
                    ;
                }
                if rem % 2 == 1 {
                    res.insert(b_i * CELL_SIZE + i as usize);
                }
                proof {
                    assert forall|x: usize| #[trigger]
                        res@.contains(x) <==> (x < b_i * 64 + i + 1 && self@.contains(x as int)) by {
                        if x == b_i * 64 + i {
                            lemma_hold_at(self.enabled@, b_i as int, i);
                        }
                    }
                }
                i += 1;
                rem >>= 1;
            }
            proof {
                assert forall|x: usize| #[trigger]
                    res@.contains(x) <==> (x < (b_i + 1) * 64 && self@.contains(x as int)) by {
                    if b_i * 64 + i <= x < (b_i + 1) * 64 {
                        let k = (x - b_i * 64) as u64;
                        lemma_hold_at(self.enabled@, b_i as int, k);
                        if i < 64 {
                            lemma_shift_step(b, rem, i);
                        }
                    }
                }
            }
            b_i += 1;
        }
        proof {
            assert forall|i: int| #[trigger] self@.contains(i) implies 0 <= i <= usize::MAX && i
                < n * 64 by {
                lemma_index_split(i);
                lemma_bit_zero((i % 64) as u64);
            }
        }
        res
    }

    /// The bits set in `new` but not in `old`, on as many words as `new` has.
    pub fn get_newen(old: &BitSet, new: &BitSet) -> (res: BitSet)
        ensures
            res@ == new@.difference(old@),
            res.words().len() == new.words().len(),
    {
        let mut res = BitSet::new();
        let n = new.enabled.len();
        for i in 0..n
            invariant
                n == new.enabled@.len(),
                res.enabled@.len() == i,
                forall|j: int|
                    0 <= j < i ==> #[trigger] res.enabled@[j] == if j < old.enabled@.len() {
                        new.enabled@[j] & !old.enabled@[j]
                    } else {
                        new.enabled@[j]
                    },
        {
            if old.enabled.len() <= i {
                res.enabled.push(new.enabled[i]);
            } else {
                let to_push = new.enabled[i] & (!old.enabled[i]);
                res.enabled.push(to_push);
            }
        }
        proof {
            assert forall|x: int| #[trigger] res@.contains(x) == new@.difference(old@).contains(
                x,
            ) by {
                if 0 <= x {
                    lemma_index_split(x);
                    let j = x / 64;
                    let k = (x % 64) as u64;
                    lemma_bit_zero(k);
                    if j < n && j < old.enabled@.len() {
                        lemma_bit_and_not(new.enabled@[j], old.enabled@[j], k);
                    }
                }
            }
            assert(res@ =~= new@.difference(old@));
        }
        res
    }

    /// Whether no bit is set.
    pub fn is_empty(&self) -> (r: bool)
        ensures
            r == (self@ == Set::<int>::empty()),
    {
        let n = self.enabled.len();
        for i in 0..n
            invariant
                n == self.enabled@.len(),
                forall|j: int| 0 <= j < i ==> #[trigger] self.enabled@[j] == 0,
        {
            if self.enabled[i] != 0 {
                proof {
                    let w = self.enabled@[i as int];
                    lemma_nonzero_has_bit(w);
                    let k = choose|k: u64| k < 64 && #[trigger] word_bit(w, k);
                    lemma_hold_at(self.enabled@, i as int, k);
                    assert(self@.contains(i * 64 + k));
                }
                return false;
            }
        }
        proof {
            assert forall|x: int| !#[trigger] self@.contains(x) by {
                if 0 <= x {
                    lemma_index_split(x);
                    lemma_bit_zero((x % 64) as u64);
                }
            }
            assert(self@ =~= Set::<int>::empty());
        }
        true
    }

    /// Whether every bit of `other` is set here, `other` having no more words than this set.
    pub fn covers(&self, other: &BitSet) -> (r: bool)
        ensures
            r == (other.words().len() <= self.words().len() && other@.subset_of(self@)),
    {
        let n = other.enabled.len();
        for i in 0..n
            invariant
                n == other.enabled@.len(),
                i <= self.enabled@.len(),
                forall|x: int| 0 <= x < i * 64 && #[trigger] other@.contains(x) ==> self@.contains(x),
        {
            if i >= self.enabled.len() {
                return false;
            }
            let a = self.enabled[i];
            let b = other.enabled[i];
            if (a & b) < b {
                proof {
                    lemma_and_below(a, b);
                    let k = choose|k: u64| k < 64 && word_bit(b, k) && !#[trigger] word_bit(a, k);
                    lemma_hold_at(self.enabled@, i as int, k);
                    lemma_hold_at(other.enabled@, i as int, k);
                    assert(other@.contains(i * 64 + k) && !self@.contains(i * 64 + k));
                }
                return false;
            }
            proof {
                lemma_and_below(a, b);
                assert forall|x: int| 0 <= x < (i + 1) * 64 && #[trigger] other@.contains(x) implies self@.contains(x) by {
                    lemma_index_split(x);
                    if x >= i * 64 {
                        assert(x / 64 == i as int);
                        let k = (x % 64) as u64;
                        assert(word_bit(b, k));
                    }
                }
            }
        }
        proof {
            assert forall|x: int| #[trigger] other@.contains(x) implies self@.contains(x) by {
                lemma_index_split(x);
                lemma_bit_zero((x % 64) as u64);
            }
        }
        true
    }
}

impl vstd::std_specs::ops::BitOrSpecImpl for BitSet {
    open spec fn obeys_bitor_spec() -> bool {
        false
    }

    open spec fn bitor_req(self, rhs: BitSet) -> bool {
        true
    }

    open spec fn bitor_spec(self, rhs: BitSet) -> BitSet {
        self
    }
}

impl BitOr for BitSet {
    type Output = BitSet;

    fn bitor(self, rhs: Self) -> (res: Self::Output)
        ensures
            res@ == self@.union(rhs@),
            self.is_trimmed() && rhs.is_trimmed() ==> res.is_trimmed(),
    {
        let (mut sink, source) = if self.enabled.len() >= rhs.enabled.len() {
            (self, rhs)
        } else {
            (rhs, self)
        };
        let ghost orig = sink.enabled@;
        let n = sink.enabled.len();
        let mut i: usize = 0;
        while i < n && i < source.enabled.len()
            invariant
                n == sink.enabled@.len(),
                orig.len() == n,
                source.enabled@.len() <= n,
                i <= source.enabled@.len(),
                forall|j: int|
                    0 <= j < n ==> #[trigger] sink.enabled@[j] == if j < i {
                        orig[j] | source.enabled@[j]
                    } else {
                        orig[j]
                    },
            decreases n - i,
        {
            let w = sink.enabled[i];
            sink.enabled.set(i, w | source.enabled[i]);
            i += 1;
        }
        proof {
            assert forall|x: int| #[trigger] sink@.contains(x) == words_set(orig).union(source@).contains(x) by {
                if 0 <= x {
                    lemma_index_split(x);
                    let j = x / 64;
                    let k = (x % 64) as u64;
                    lemma_bit_zero(k);
                    if j < source.enabled@.len() {
                        lemma_bit_or(orig[j], source.enabled@[j], k);
                    }
                }
            }
            assert(sink@ =~= words_set(orig).union(source@));
            assert(self@.union(rhs@) =~= rhs@.union(self@));
            if n > 0 && orig.last() != 0 {
                let l = n - 1;
                if l < source.enabled@.len() {
                    lemma_nonzero_has_bit(orig[l]);
                    let k = choose|k: u64| k < 64 && #[trigger] word_bit(orig[l], k);
                    lemma_bit_or(orig[l], source.enabled@[l], k);
                    lemma_bit_zero(k);
                }
            }
        }
        sink
    }
}

impl BitOrAssign for BitSet {
    fn bitor_assign(&mut self, rhs: Self)
        ensures
            final(self)@ == old(self)@.union(rhs@),
            old(self).is_trimmed() && rhs.is_trimmed() ==> final(self).is_trimmed(),
    {
        let ghost before = self.enabled@;
        if self.enabled.len() < rhs.enabled.len() {
            self.reach_word(rhs.enabled.len() - 1);
        }
        let ghost orig = self.enabled@;
        let n = rhs.enabled.len();
        for i in 0..n
            invariant
                n == rhs.enabled@.len(),
                orig.len() == self.enabled@.len(),
                n <= orig.len(),
                forall|j: int| 0 <= j ==> #[trigger] word_at(orig, j) == word_at(before, j),
                forall|j: int|
                    0 <= j < orig.len() ==> #[trigger] self.enabled@[j] == if j < i {
                        orig[j] | rhs.enabled@[j]
                    } else {
                        orig[j]
                    },
        {
            let w = self.enabled[i];
            self.enabled.set(i, w | rhs.enabled[i]);
        }
        proof {
            assert forall|x: int| #[trigger] self@.contains(x) == old(self)@.union(rhs@).contains(
                x,
            ) by {
                if 0 <= x {
                    lemma_index_split(x);
                    let j = x / 64;
                    let k = (x % 64) as u64;
                    lemma_bit_zero(k);
                    assert(word_at(orig, j) == word_at(before, j));
                    if j < n {
                        lemma_bit_or(orig[j], rhs.enabled@[j], k);
                    }
                }
            }
            assert(self@ =~= old(self)@.union(rhs@));
            let m = orig.len();
            if old(self).is_trimmed() && rhs.is_trimmed() && m > 0 {
                let l = m - 1;
                let k0 = if l < before.len() {
                    lemma_nonzero_has_bit(before[l]);
                    choose|k: u64| k < 64 && #[trigger] word_bit(before[l], k)
                } else {
                    lemma_nonzero_has_bit(rhs.enabled@[l]);
                    choose|k: u64| k < 64 && #[trigger] word_bit(rhs.enabled@[l], k)
                };
                assert(word_at(orig, l) == word_at(before, l));
                lemma_bit_zero(k0);
                if l < n {
                    lemma_bit_or(orig[l], rhs.enabled@[l], k0);
                }
            }
        }
    }
}

impl vstd::std_specs::ops::BitAndSpecImpl for BitSet {
    open spec fn obeys_bitand_spec() -> bool {
        false
    }

    open spec fn bitand_req(self, rhs: BitSet) -> bool {
        true
    }

    open spec fn bitand_spec(self, rhs: BitSet) -> BitSet {
        self
    }
}

impl BitAnd for BitSet {
    type Output = BitSet;

    fn bitand(self, rhs: Self) -> (res: Self::Output)
        ensures
            res@ == self@.intersect(rhs@),
            res.is_trimmed(),
    {
        let (mut sink, source) = if self.enabled.len() <= rhs.enabled.len() {
            (self, rhs)
        } else {
            (rhs, self)
        };
        let ghost orig = sink.enabled@;
        let n = sink.enabled.len();
        for i in 0..n
            invariant
                n == sink.enabled@.len(),
                orig.len() == n,
                n <= source.enabled@.len(),
                forall|j: int|
                    0 <= j < n ==> #[trigger] sink.enabled@[j] == if j < i {
                        orig[j] & source.enabled@[j]
                    } else {
                        orig[j]
                    },
        {
            let w = sink.enabled[i];
            sink.enabled.set(i, w & source.enabled[i]);
        }
        proof {
            assert forall|x: int| #[trigger] sink@.contains(x) == words_set(orig).intersect(
                source@,
            ).contains(x) by {
                if 0 <= x {
                    lemma_index_split(x);
                    let j = x / 64;
                    let k = (x % 64) as u64;
                    lemma_bit_zero(k);
                    if j < n {
                        lemma_bit_and(orig[j], source.enabled@[j], k);
                    }
                }
            }
            assert(sink@ =~= words_set(orig).intersect(source@));
            assert(self@.intersect(rhs@) =~= rhs@.intersect(self@));
        }
        sink.trim();
        sink
    }
}

impl BitAndAssign for BitSet {
    /// Clears the bits of the words that `rhs` also has and that `rhs` lacks;
    /// the words past the length of `rhs` stay as they are.
    fn bitand_assign(&mut self, rhs: Self)
        ensures
            final(self)@ == old(self)@.filter(
                |i: int| rhs@.contains(i) || i / 64 >= rhs.words().len(),
            ),
            final(self).is_trimmed(),
    {
        let len = if self.enabled.len() <= rhs.enabled.len() {
            self.enabled.len()
        } else {
            rhs.enabled.len()
        };
        let ghost orig = self.enabled@;
        for i in 0..len
            invariant
                orig.len() == self.enabled@.len(),
                len <= orig.len(),
                len <= rhs.enabled@.len(),
                len == orig.len() || len == rhs.enabled@.len(),
                forall|j: int|
                    0 <= j < orig.len() ==> #[trigger] self.enabled@[j] == if j < i {
                        orig[j] & rhs.enabled@[j]
                    } else {
                        orig[j]
                    },
        {
            let w = self.enabled[i];
            self.enabled.set(i, w & rhs.enabled[i]);
        }
        proof {
            let target = old(self)@.filter(
                |i: int| rhs@.contains(i) || i / 64 >= rhs.words().len(),
            );
            assert forall|x: int| #[trigger] self@.contains(x) == target.contains(x) by {
                if 0 <= x {
                    lemma_index_split(x);
                    let j = x / 64;
                    let k = (x % 64) as u64;
                    lemma_bit_zero(k);
                    if j < len {
                        lemma_bit_and(orig[j], rhs.enabled@[j], k);
                    }
                }
            }
            assert(self@ =~= target);
        }
        self.trim();
    }
}

impl vstd::std_specs::ops::BitXorSpecImpl for BitSet {
    open spec fn obeys_bitxor_spec() -> bool {
        false
    }

    open spec fn bitxor_req(self, rhs: BitSet) -> bool {
        true
    }

    open spec fn bitxor_spec(self, rhs: BitSet) -> BitSet {
        self
    }
}

impl BitXor for BitSet {
    type Output = BitSet;

    fn bitxor(self, rhs: Self) -> (res: Self::Output)
        ensures
            res@ == self@.difference(rhs@).union(rhs@.difference(self@)),
            res.is_trimmed(),
    {
        let (mut sink, source) = if self.enabled.len() >= rhs.enabled.len() {
            (self, rhs)
        } else {
            (rhs, self)
        };
        let ghost orig = sink.enabled@;
        let n = sink.enabled.len();
        let mut i: usize = 0;
        while i < n && i < source.enabled.len()
            invariant
                n == sink.enabled@.len(),
                orig.len() == n,
                source.enabled@.len() <= n,
                i <= source.enabled@.len(),
                forall|j: int|
                    0 <= j < n ==> #[trigger] sink.enabled@[j] == if j < i {
                        orig[j] ^ source.enabled@[j]
                    } else {
                        orig[j]
                    },
            decreases n - i,
        {
            let w = sink.enabled[i];
            sink.enabled.set(i, w ^ source.enabled[i]);
            i += 1;
        }
        proof {
            let a = words_set(orig);
            let b = source@;
            assert forall|x: int| #[trigger] sink@.contains(x) == a.difference(b).union(
                b.difference(a),
            ).contains(x) by {
                if 0 <= x {
                    lemma_index_split(x);
                    let j = x / 64;
                    let k = (x % 64) as u64;
                    lemma_bit_zero(k);
                    if j < source.enabled@.len() {
                        lemma_bit_xor(orig[j], source.enabled@[j], k);
                    }
                }
            }
            assert(sink@ =~= a.difference(b).union(b.difference(a)));
            assert(self@.difference(rhs@).union(rhs@.difference(self@)) =~= rhs@.difference(
                self@,
            ).union(self@.difference(rhs@)));
        }
        sink.trim();
        sink
    }
}

impl vstd::std_specs::ops::NotSpecImpl for BitSet {
    open spec fn obeys_not_spec() -> bool {
        false
    }

    open spec fn not_req(self) -> bool {
        true
    }

    open spec fn not_spec(self) -> BitSet {
        self
    }
}

impl Not for BitSet {
    type Output = BitSet;

    /// Flips every bit of the words the set has; no word is added.
    fn not(self) -> (res: Self::Output)
        ensures
            res@ == Set::new(|i: int| 0 <= i < self.words().len() * 64 && !self@.contains(i)),
            res.is_trimmed(),
    {
        let mut vec = self.enabled;
        let ghost orig = vec@;
        let n = vec.len();
        for i in 0..n
            invariant
                n == vec@.len(),
                orig.len() == n,
                forall|j: int|
                    0 <= j < n ==> #[trigger] vec@[j] == if j < i {
                        !orig[j]
                    } else {
                        orig[j]
                    },
        {
            let w = vec[i];
            vec.set(i, !w);
        }
        let set = BitSet::from(vec);
        proof {
            let target = Set::new(|i: int| 0 <= i < n * 64 && !words_set(orig).contains(i));
            assert forall|x: int| #[trigger] set@.contains(x) == target.contains(x) by {
                if 0 <= x {
                    lemma_index_split(x);
                    let j = x / 64;
                    let k = (x % 64) as u64;
                    lemma_bit_zero(k);
                    if j < n {
                        lemma_bit_not(orig[j], k);
                        assert(x < n * 64) by (nonlinear_arith)
                            requires
                                x == j * 64 + k,
                                j < n,
                                k < 64,
                        ;
                    } else {
                        assert(x >= n * 64) by (nonlinear_arith)
                            requires
                                x == j * 64 + k,
                                j >= n,
                                k >= 0,
                        ;
                    }
                }
            }
            assert(set@ =~= target);
        }
        set
    }
}

impl vstd::std_specs::convert::FromSpecImpl<Vec<u64>> for BitSet {
    open spec fn obeys_from_spec() -> bool {
        false
    }

    open spec fn from_spec(v: Vec<u64>) -> BitSet {
        arbitrary()
    }
}

impl From<Vec<u64>> for BitSet {
    /// The set of the bits of `value`, without its zero words at the end.
    fn from(value: Vec<u64>) -> (set: Self)
        ensures
            set@ == words_set(value@),
            set.is_trimmed(),
            set.words() == value@.subrange(0, set.words().len() as int),
    {
        let mut set = BitSet { enabled: value };
        set.trim();
        set
    }
}

impl vstd::std_specs::convert::FromSpecImpl<HashSet<usize>> for BitSet {
    open spec fn obeys_from_spec() -> bool {
        false
    }

    open spec fn from_spec(v: HashSet<usize>) -> BitSet {
        arbitrary()
    }
}

impl From<HashSet<usize>> for BitSet {
    fn from(value: HashSet<usize>) -> (set: Self)
        ensures
            set@ == value@.map(|b: usize| b as int),
            set.is_trimmed(),
    {
        broadcast use vstd::std_specs::hash::group_hash_axioms;
        broadcast use vstd::seq_lib::group_seq_properties;

        let mut set = BitSet::new();
        for bit in it: value.iter()
            invariant
                set.is_trimmed(),
                it.seq().unref().to_set() == value@,
                it.index() < it.seq().len() ==> it.seq().unref().take(it.index() as int).push(
                    *it.seq()[it.index() as int],
                ) == it.seq().unref().take(it.index() + 1),
                it.seq().unref().take(it.seq().len() as int) == it.seq().unref(),
                forall|x: int|
                    #[trigger] set@.contains(x) <==> (0 <= x <= usize::MAX && it.seq().unref().take(
                        it.index() as int,
                    ).to_set().contains(x as usize)),
        {
            set.enable(*bit);
        }
        assert forall|x: int| #[trigger] set@.contains(x) == value@.map(|b: usize| b as int).contains(
            x,
        ) by {
            if set@.contains(x) {
                assert(value@.contains(x as usize));
            }
        }
        assert(set@ =~= value@.map(|b: usize| b as int));
        set
    }
}

} // verus!
