use std::ops::{BitAnd, BitOr, Not};
use vstd::prelude::*;

use super::word_bits::{
    lemma_bit_and, lemma_bit_and_not, lemma_bit_not, lemma_bit_or, lemma_bit_single,
    lemma_bit_zero, lemma_index_split, lemma_nonzero_has_bit, lemma_shift_out, lemma_shift_step,
    word_at, word_bit, words_hold, words_set,
};

verus! {

/// Number of actions held by each word of an action set.
pub const ACTION_CELL_SIZE: usize = 64;

/// Action `j * 64 + k` of a word sequence, read from word `j`.
proof fn lemma_action_at(words: Seq<u64>, j: int, k: u64)
    requires
        0 <= j,
        k < 64,
    ensures
        words_hold(words, j * 64 + k) == word_bit(word_at(words, j), k),
{
    let i = j * 64 + k;
    assert(i / 64 == j && i % 64 == k) by (nonlinear_arith)
        requires
            i == j * 64 + k,
            0 <= j,
            0 <= k < 64,
    ;
}

/// Set of enabled actions, each action being a bit of a sequence of 64-bit words.
#[derive(Clone)]
pub struct ActionSet {
    enabled: Vec<u64>,
}

impl View for ActionSet {
    type V = Set<int>;

    /// The enabled actions.
    open spec fn view(&self) -> Set<int> {
        words_set(self.words())
    }
}

impl ActionSet {
    /// The words of the set, lowest actions first.
    pub closed spec fn words(&self) -> Seq<u64> {
        self.enabled@
    }

    pub fn new() -> (set: Self)
        ensures
            set.words() == Seq::<u64>::empty(),
            set@ == Set::<int>::empty(),
    {
        let set = ActionSet { enabled: Vec::new() };
        assert forall|i: int| !#[trigger] set@.contains(i) by {
            lemma_bit_zero((i % 64) as u64);
        }
        assert(set@ =~= Set::<int>::empty());
        set
    }

    /// The set whose words are `enabled`.
    pub fn from(enabled: Vec<u64>) -> (set: Self)
        ensures
            set.words() == enabled@,
            set@ == words_set(enabled@),
    {
        ActionSet { enabled }
    }

    /// The word holding `action` with only that action's bit set, and the word's index.
    pub fn action_byte(action: usize) -> (r: (u64, usize))
        ensures
            r.0 == 1u64 << ((action % 64) as u64),
            r.1 == action / 64,
    {
        let shift = (action % ACTION_CELL_SIZE) as u64;
        (1u64 << shift, action / ACTION_CELL_SIZE)
    }

    /// Extends the words with zeros so that word `index` exists.
    fn reach_word(&mut self, index: usize)
        requires
            index < usize::MAX,
        ensures
            final(self).words().len() == if index < old(self).words().len() {
                old(self).words().len()
            } else {
                (index + 1) as nat
            },
            forall|j: int| 0 <= j ==> #[trigger] word_at(final(self).words(), j) == word_at(
                old(self).words(),
                j,
            ),
    {
        if index >= self.enabled.len() {
            let ghost before = self.enabled@;
            self.enabled.resize(index + 1, 0);
            assert forall|j: int| 0 <= j implies #[trigger] word_at(self.enabled@, j) == word_at(
                before,
                j,
            ) by {
                if j < before.len() {
                    assert(self.enabled@.subrange(0, before.len() as int)[j] == before[j]);
                } else if j < self.enabled@.len() {
                    assert(cloned::<u64>(0u64, self.enabled@[j]));
                }
            }
        }
    }

    /// Sets (`set == true`) or clears the bit of `action`, the words reaching it.
    proof fn lemma_change_bit(
        before: Seq<u64>,
        mid: Seq<u64>,
        after: Seq<u64>,
        action: usize,
        new_word: u64,
        set: bool,
    )
        requires
            forall|j: int| 0 <= j ==> #[trigger] word_at(mid, j) == word_at(before, j),
            action / 64 < mid.len(),
            after == mid.update((action / 64) as int, new_word),
            forall|k: u64|
                k < 64 ==> #[trigger] word_bit(new_word, k) == if k == (action % 64) as u64 {
                    set
                } else {
                    word_bit(mid[(action / 64) as int], k)
                },
        ensures
            words_set(after) == if set {
                words_set(before).insert(action as int)
            } else {
                words_set(before).remove(action as int)
            },
    {
        let target = if set {
            words_set(before).insert(action as int)
        } else {
            words_set(before).remove(action as int)
        };
        assert forall|i: int| #[trigger] words_set(after).contains(i) == target.contains(i) by {
            if 0 <= i {
                lemma_index_split(i);
                assert(word_at(mid, i / 64) == word_at(before, i / 64));
                if i / 64 == (action / 64) as int {
                    assert(i == action as int <==> (i % 64) as u64 == (action % 64) as u64);
                } else {
                    assert(i != action as int);
                }
            }
        }
        assert(words_set(after) =~= target);
    }

    pub fn enable(&mut self, action: usize)
        ensures
            final(self)@ == old(self)@.insert(action as int),
    {
        let (new_byte, byte_index) = Self::action_byte(action);
        self.reach_word(byte_index);
        let ghost mid = self.enabled@;
        let w = self.enabled[byte_index];
        self.enabled.set(byte_index, w | new_byte);
        proof {
            assert forall|k: u64| k < 64 implies #[trigger] word_bit(w | new_byte, k) == if k == (
            action % 64) as u64 {
                true
            } else {
                word_bit(w, k)
            } by {
                lemma_bit_or(w, new_byte, k);
                lemma_bit_single((action % 64) as u64, k);
            }
            Self::lemma_change_bit(old(self).words(), mid, self.enabled@, action, w | new_byte, true);
        }
    }

    /// Clears the bit of `action`; the words are extended to reach it, and never shortened.
    pub fn disable(&mut self, action: usize)
        ensures
            final(self)@ == old(self)@.remove(action as int),
            final(self).words().len() == if action / 64 < old(self).words().len() {
                old(self).words().len()
            } else {
                (action / 64 + 1) as nat
            },
    {
        let new_byte = !(1u64 << ((action % ACTION_CELL_SIZE) as u64));
        let byte_index = action / ACTION_CELL_SIZE;
        self.reach_word(byte_index);
        let ghost mid = self.enabled@;
        let w = self.enabled[byte_index];
        self.enabled.set(byte_index, w & new_byte);
        proof {
            let single = 1u64 << ((action % 64) as u64);
            assert forall|k: u64| k < 64 implies #[trigger] word_bit(w & new_byte, k) == if k == (
            action % 64) as u64 {
                false
            } else {
                word_bit(w, k)
            } by {
                lemma_bit_and_not(w, single, k);
                lemma_bit_single((action % 64) as u64, k);
            }
            Self::lemma_change_bit(
                old(self).words(),
                mid,
                self.enabled@,
                action,
                w & new_byte,
                false,
            );
        }
    }

    pub fn is_enabled(&self, action: usize) -> (r: bool)
        ensures
            r == self@.contains(action as int),
    {
        let (new_byte, byte_index) = Self::action_byte(action);
        proof {
            lemma_bit_zero((action % 64) as u64);
        }
        if byte_index >= self.enabled.len() {
            false
        } else {
            let w = self.enabled[byte_index];
            proof {
                let s = (action % 64) as u64;
                assert(((w & (1u64 << s)) > 0u64) <==> ((w >> s) & 1u64 == 1u64)) by (bit_vector)
                    requires
                        s < 64,
                ;
            }
            (w & new_byte) > 0
        }
    }

    /// Enables every action of `other`.
    pub fn merge(&mut self, other: &ActionSet)
        ensures
            final(self)@ == old(self)@.union(other@),
    {
        let ghost before = self.enabled@;
        if self.enabled.len() < other.enabled.len() {
            self.reach_word(other.enabled.len() - 1);
        }
        let ghost orig = self.enabled@;
        let n = other.enabled.len();
        for i in 0..n
            invariant
                n == other.enabled@.len(),
                orig.len() == self.enabled@.len(),
                n <= orig.len(),
                forall|j: int| 0 <= j ==> #[trigger] word_at(orig, j) == word_at(before, j),
                forall|j: int|
                    0 <= j < orig.len() ==> #[trigger] self.enabled@[j] == if j < i {
                        orig[j] | other.enabled@[j]
                    } else {
                        orig[j]
                    },
        {
            let w = self.enabled[i];
            self.enabled.set(i, w | other.enabled[i]);
        }
        proof {
            assert forall|x: int| #[trigger] self@.contains(x) == old(self)@.union(
                other@,
            ).contains(x) by {
                if 0 <= x {
                    lemma_index_split(x);
                    let j = x / 64;
                    let k = (x % 64) as u64;
                    lemma_bit_zero(k);
                    assert(word_at(orig, j) == word_at(before, j));
                    if j < n {
                        lemma_bit_or(orig[j], other.enabled@[j], k);
                    }
                }
            }
            assert(self@ =~= old(self)@.union(other@));
        }
    }

    /// The enabled actions, in increasing order.
    pub fn get_actions(&self) -> (res: Vec<usize>)
        requires
            self.words().len() * 64 <= usize::MAX + 1,
        ensures
            forall|i: int, j: int| 0 <= i < j < res@.len() ==> res@[i] < res@[j],
            forall|a: usize| #[trigger] res@.contains(a) <==> self@.contains(a as int),
            forall|a: int| #[trigger] self@.contains(a) ==> 0 <= a <= usize::MAX,
    {
        let mut res: Vec<usize> = Vec::new();
        let n = self.enabled.len();
        let mut b_i: usize = 0;
        while b_i < n
            invariant
                n == self.enabled@.len(),
                n * 64 <= usize::MAX + 1,
                b_i <= n,
                forall|i: int, j: int| 0 <= i < j < res@.len() ==> res@[i] < res@[j],
                forall|i: int| 0 <= i < res@.len() ==> res@[i] < b_i * 64,
                forall|a: usize| #[trigger]
                    res@.contains(a) <==> (a < b_i * 64 && self@.contains(a as int)),
            decreases n - b_i,
        {
            let b = self.enabled[b_i];
            let mut rem = b;
            let mut i: u64 = 0;
            proof {
                assert((b >> 0u64) == b) by (bit_vector);
            }
            while rem > 0
                invariant
                    n == self.enabled@.len(),
                    n * 64 <= usize::MAX + 1,
                    b_i < n,
                    b == self.enabled@[b_i as int],
                    i <= 64,
                    rem == b >> i,
                    forall|p: int, q: int| 0 <= p < q < res@.len() ==> res@[p] < res@[q],
                    forall|p: int| 0 <= p < res@.len() ==> res@[p] < b_i * 64 + i,
                    forall|a: usize| #[trigger]
                        res@.contains(a) <==> (a < b_i * 64 + i && self@.contains(a as int)),
                decreases 64 - i,
            {
                if i == 64 {
                    proof {
                        lemma_shift_out(b);
                    }
                }
                proof {
                    lemma_shift_step(b, rem, i);
                    lemma_action_at(self.enabled@, b_i as int, i);
                    assert(b_i * 64 + i < n * 64) by (nonlinear_arith)
                        requires
                            b_i < n,
                            i < 64,
                    ;
                }
                let ghost before = res@;
                let v = b_i * ACTION_CELL_SIZE + i as usize;
                if rem % 2 == 1 {
                    res.push(v);
                }
                proof {
                    assert forall|a: usize| #[trigger]
                        res@.contains(a) <==> (a < b_i * 64 + i + 1 && self@.contains(a as int)) by {
                        if a == v {
                            lemma_action_at(self.enabled@, b_i as int, i);
                            if rem % 2 == 1 {
                                assert(res@[before.len() as int] == a);
                            } else {
                                assert(!before.contains(a));
                            }
                        } else {
                            if res@.contains(a) {
                                let p = choose|p: int| 0 <= p < res@.len() && res@[p] == a;
                                assert(p < before.len());
                                assert(before.contains(a));
                            }
                            if before.contains(a) {
                                let p = choose|p: int| 0 <= p < before.len() && before[p] == a;
                                assert(res@[p] == a);
                            }
                        }
                    }
                }
                i += 1;
                rem >>= 1;
            }
            proof {
                assert forall|a: usize| #[trigger]
                    res@.contains(a) <==> (a < (b_i + 1) * 64 && self@.contains(a as int)) by {
                    if b_i * 64 + i <= a < (b_i + 1) * 64 {
                        let k = (a - b_i * 64) as u64;
                        lemma_action_at(self.enabled@, b_i as int, k);
                        if i < 64 {
                            lemma_shift_step(b, rem, i);
                        }
                    }
                }
            }
            b_i += 1;
        }
        proof {
            assert forall|a: int| #[trigger] self@.contains(a) implies 0 <= a <= usize::MAX && a
                < n * 64 by {
                lemma_index_split(a);
                lemma_bit_zero((a % 64) as u64);
            }
        }
        res
    }

    /// The actions enabled in `new` and not in `old`, on as many words as `new` has.
    pub fn get_newen(old: &ActionSet, new: &ActionSet) -> (res: ActionSet)
        ensures
            res@ == new@.difference(old@),
            res.words().len() == new.words().len(),
    {
        let mut res = ActionSet::new();
        let mut i: usize = 0;
        while i < new.enabled.len()
            invariant
                res.enabled@.len() == i,
                i <= new.enabled@.len(),
                forall|j: int|
                    0 <= j < i ==> #[trigger] res.enabled@[j] == if j < old.enabled@.len() {
                        new.enabled@[j] & !old.enabled@[j]
                    } else {
                        new.enabled@[j]
                    },
            decreases new.enabled@.len() - i,
        {
            if old.enabled.len() <= i {
                res.enabled.push(new.enabled[i]);
            } else {
                let to_push = new.enabled[i] & (!old.enabled[i]);
                res.enabled.push(to_push);
            }
            i += 1;
        }
        proof {
            assert forall|x: int| #[trigger] res@.contains(x) == new@.difference(old@).contains(
                x,
            ) by {
                if 0 <= x {
                    lemma_index_split(x);
                    let j = x / 64;
                    let k = (x % 64) as u64;
                    lemma_bit_zero(k);
                    if j < new.enabled@.len() && j < old.enabled@.len() {
                        lemma_bit_and_not(new.enabled@[j], old.enabled@[j], k);
                    }
                }
            }
            assert(res@ =~= new@.difference(old@));
        }
        res
    }

    /// Whether no action is enabled.
    pub fn is_empty(&self) -> (r: bool)
        ensures
            r == (self@ == Set::<int>::empty()),
    {
        let n = self.enabled.len();
        for i in 0..n
            invariant
                n == self.enabled@.len(),
                forall|j: int| 0 <= j < i ==> #[trigger] self.enabled@[j] == 0,
        {
            if self.enabled[i] != 0 {
                proof {
                    let w = self.enabled@[i as int];
                    lemma_nonzero_has_bit(w);
                    let k = choose|k: u64| k < 64 && #[trigger] word_bit(w, k);
                    lemma_action_at(self.enabled@, i as int, k);
                    assert(self@.contains(i * 64 + k));
                }
                return false;
            }
        }
        proof {
            assert forall|x: int| !#[trigger] self@.contains(x) by {
                if 0 <= x {
                    lemma_index_split(x);
                    lemma_bit_zero((x % 64) as u64);
                }
            }
            assert(self@ =~= Set::<int>::empty());
        }
        true
    }

    /// The word-wise conjunction, on as many words as the shorter set has.
    fn conjunction(&self, rhs: &ActionSet) -> (res: ActionSet)
        ensures
            res@ == self@.intersect(rhs@),
    {
        let len = if self.enabled.len() <= rhs.enabled.len() {
            self.enabled.len()
        } else {
            rhs.enabled.len()
        };
        let mut res: Vec<u64> = Vec::new();
        for i in 0..len
            invariant
                len <= self.enabled@.len(),
                len <= rhs.enabled@.len(),
                len == self.enabled@.len() || len == rhs.enabled@.len(),
                res@.len() == i,
                forall|j: int| 0 <= j < i ==> #[trigger] res@[j] == self.enabled@[j] & rhs.enabled@[j],
        {
            let byte = self.enabled[i] & rhs.enabled[i];
            res.push(byte);
        }
        proof {
            assert forall|x: int| #[trigger] words_set(res@).contains(x) == self@.intersect(
                rhs@,
            ).contains(x) by {
                if 0 <= x {
                    lemma_index_split(x);
                    let j = x / 64;
                    let k = (x % 64) as u64;
                    lemma_bit_zero(k);
                    if j < len {
                        lemma_bit_and(self.enabled@[j], rhs.enabled@[j], k);
                    }
                }
            }
            assert(words_set(res@) =~= self@.intersect(rhs@));
        }
        ActionSet::from(res)
    }

    /// Every word flipped; no word is added.
    fn negation(&self) -> (res: ActionSet)
        ensures
            res@ == Set::new(|i: int| 0 <= i < self.words().len() * 64 && !self@.contains(i)),
            res.words().len() == self.words().len(),
    {
        let mut res: Vec<u64> = Vec::new();
        let n = self.enabled.len();
        for i in 0..n
            invariant
                n == self.enabled@.len(),
                res@.len() == i,
                forall|j: int| 0 <= j < i ==> #[trigger] res@[j] == !self.enabled@[j],
        {
            res.push(!self.enabled[i]);
        }
        proof {
            let target = Set::new(|i: int| 0 <= i < n * 64 && !self@.contains(i));
            assert forall|x: int| #[trigger] words_set(res@).contains(x) == target.contains(x) by {
                if 0 <= x {
                    lemma_index_split(x);
                    let j = x / 64;
                    let k = (x % 64) as u64;
                    lemma_bit_zero(k);
                    if j < n {
                        lemma_bit_not(self.enabled@[j], k);
                        assert(x < n * 64) by (nonlinear_arith)
                            requires
                                x == j * 64 + k,
                                j < n,
                                k < 64,
                        ;
                    } else {
                        assert(x >= n * 64) by (nonlinear_arith)
                            requires
                                x == j * 64 + k,
                                j >= n,
                                k >= 0,
                        ;
                    }
                }
            }
            assert(words_set(res@) =~= target);
        }
        ActionSet::from(res)
    }
}

impl vstd::std_specs::ops::BitOrSpecImpl for ActionSet {
    open spec fn obeys_bitor_spec() -> bool {
        false
    }

    open spec fn bitor_req(self, rhs: ActionSet) -> bool {
        true
    }

    open spec fn bitor_spec(self, rhs: ActionSet) -> ActionSet {
        self
    }
}

impl BitOr for ActionSet {
    type Output = ActionSet;

    fn bitor(self, rhs: Self) -> (res: Self::Output)
        ensures
            res@ == self@.union(rhs@),
    {
        let mut res = self;
        res.merge(&rhs);
        res
    }
}

impl vstd::std_specs::ops::BitAndSpecImpl for ActionSet {
    open spec fn obeys_bitand_spec() -> bool {
        false
    }

    open spec fn bitand_req(self, rhs: ActionSet) -> bool {
        true
    }

    open spec fn bitand_spec(self, rhs: ActionSet) -> ActionSet {
        self
    }
}

impl BitAnd for ActionSet {
    type Output = ActionSet;

    fn bitand(self, rhs: Self) -> (res: Self::Output)
        ensures
            res@ == self@.intersect(rhs@),
    {
        self.conjunction(&rhs)
    }
}

impl vstd::std_specs::ops::NotSpecImpl for ActionSet {
    open spec fn obeys_not_spec() -> bool {
        false
    }

    open spec fn not_req(self) -> bool {
        true
    }

    open spec fn not_spec(self) -> ActionSet {
        self
    }
}

impl Not for ActionSet {
    type Output = ActionSet;

    fn not(self) -> (res: Self::Output)
        ensures
            res@ == Set::new(|i: int| 0 <= i < self.words().len() * 64 && !self@.contains(i)),
            res.words().len() == self.words().len(),
    {
        self.negation()
    }
}

} // verus!
