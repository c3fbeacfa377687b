use std::collections::HashMap;
use vstd::prelude::*;
use vstd::std_specs::iter::IteratorSpec;

verus! {

/// A position of `k` among the keys of an association list.
pub open spec fn pairs_index(pairs: Seq<(usize, i32)>, k: usize) -> int {
    choose|i: int| 0 <= i < pairs.len() && pairs[i].0 == k
}

/// The map from keys to values held by an association list with distinct keys.
pub open spec fn pairs_map(pairs: Seq<(usize, i32)>) -> Map<usize, i32> {
    Map::new(
        |k: usize| exists|i: int| 0 <= i < pairs.len() && pairs[i].0 == k,
        |k: usize| pairs[pairs_index(pairs, k)].1,
    )
}

/// The keys of an association list, in order.
pub open spec fn pairs_keys(pairs: Seq<(usize, i32)>) -> Seq<usize> {
    pairs.map_values(|p: (usize, i32)| p.0)
}

/// The first position of `x` in `s`, which holds it.
pub open spec fn first_position(s: Seq<usize>, x: usize) -> int {
    choose|p: int| 0 <= p < s.len() && s[p] == x && forall|q: int| 0 <= q < p ==> s[q] != x
}

/// Whether `k` holds a smallest value of `m`.
pub open spec fn is_min_key(m: Map<usize, i32>, k: usize) -> bool {
    &&& m.contains_key(k)
    &&& forall|j: usize| #[trigger] m.contains_key(j) ==> m[k] <= m[j]
}

/// In an association list with distinct keys, the value of the key of entry `i` is that
/// entry's value.
pub proof fn lemma_pairs_map_at(e: Seq<(usize, i32)>, i: int)
    requires
        pairs_keys(e).no_duplicates(),
        0 <= i < e.len(),
    ensures
        pairs_map(e).contains_key(e[i].0),
        pairs_map(e)[e[i].0] == e[i].1,
{
    let k = e[i].0;
    assert(pairs_map(e).contains_key(k));
    let j = pairs_index(e, k);
    assert(pairs_keys(e)[j] == pairs_keys(e)[i]);
    if j != i {
        assert(pairs_keys(e)[j] != pairs_keys(e)[i]);
    }
}

/// Values stored by index beside a common offset `delta`.
#[derive(Debug, Clone)]
pub struct DeltaList {
    elements: Vec<(usize, i32)>,
    delta: i32,
    index_min: Vec<usize>,
}

impl DeltaList {
    /// The stored values, by index.
    pub closed spec fn values(&self) -> Map<usize, i32> {
        pairs_map(self.elements@)
    }

    /// The common offset.
    pub closed spec fn offset(&self) -> i32 {
        self.delta
    }

    /// The indices recorded as holding the minimum.
    pub closed spec fn min_indices(&self) -> Seq<usize> {
        self.index_min@
    }

    /// No index is stored twice.
    pub closed spec fn wf(&self) -> bool {
        pairs_keys(self.elements@).no_duplicates()
    }

    proof fn lemma_map_finite_len(&self)
        requires
            self.wf(),
        ensures
            self.values().dom().finite(),
            self.values().len() == self.elements@.len(),
            self.values().dom() == pairs_keys(self.elements@).to_set(),
    {
        let keys = pairs_keys(self.elements@);
        assert(self.values().dom() =~= keys.to_set()) by {
            assert forall|k: usize| #[trigger] self.values().dom().contains(k) implies keys.contains(k) by {
                let i = choose|i: int| 0 <= i < self.elements@.len() && self.elements@[i].0 == k;
                assert(keys[i] == k);
            }
        }
        keys.unique_seq_to_set();
    }

    pub fn new(delta: i32) -> (l: Self)
        ensures
            l.wf(),
            l.values() == Map::<usize, i32>::empty(),
            l.offset() == delta,
            l.min_indices() == Seq::<usize>::empty(),
    {
        let l = DeltaList { elements: Vec::new(), delta, index_min: Vec::new() };
        assert(l.values() =~= Map::<usize, i32>::empty());
        assert(pairs_keys(l.elements@) =~= Seq::<usize>::empty());
        l
    }

    /// The position of the entry of `index`, if there is one.
    fn find(&self, index: usize) -> (r: Option<usize>)
        ensures
            match r {
                Some(i) => i < self.elements@.len() && self.elements@[i as int].0 == index,
                None => !self.values().contains_key(index),
            },
    {
        let mut i: usize = 0;
        while i < self.elements.len()
            invariant
                i <= self.elements@.len(),
                forall|j: int| 0 <= j < i ==> self.elements@[j].0 != index,
            decreases self.elements@.len() - i,
        {
            if self.elements[i].0 == index {
                return Some(i);
            }
            i += 1;
        }
        None
    }

    /// The stored value of `index`.
    fn stored(&self, index: usize) -> (r: i32)
        requires
            self.wf(),
            self.values().contains_key(index),
        ensures
            r == self.values()[index],
    {
        let i = self.find(index).unwrap();
        proof {
            lemma_pairs_map_at(self.elements@, i as int);
        }
        self.elements[i].1
    }

    /// Stores `x` for `index`, replacing its value if it has one.
    fn put(&mut self, index: usize, x: i32)
        requires
            old(self).wf(),
        ensures
            final(self).wf(),
            final(self).values() == old(self).values().insert(index, x),
            final(self).offset() == old(self).offset(),
            final(self).min_indices() == old(self).min_indices(),
    {
        let ghost before = self.elements@;
        let ghost mut pos: int = 0;
        match self.find(index) {
            Some(i) => {
                self.elements.set(i, (index, x));
                proof {
                    pos = i as int;
                    assert(pairs_keys(self.elements@) =~= pairs_keys(before));
                    assert forall|j: int| 0 <= j < before.len() && before[j].0 == index implies j
                        == i by {
                        assert(pairs_keys(before)[j] == pairs_keys(before)[i as int]);
                    }
                }
            },
            None => {
                self.elements.push((index, x));
                proof {
                    pos = before.len() as int;
                }
                proof {
                    assert(pairs_keys(self.elements@) =~= pairs_keys(before).push(index));
                    assert(!pairs_keys(before).contains(index)) by {
                        if pairs_keys(before).contains(index) {
                            let j = choose|j: int| 0 <= j < before.len() && pairs_keys(before)[j]
                                == index;
                            assert(before[j].0 == index);
                        }
                    }
                }
            },
        }
        proof {
            let m = pairs_map(self.elements@);
            let target = pairs_map(before).insert(index, x);
            let keys = pairs_keys(self.elements@);
            assert forall|k: usize| #[trigger] m.contains_key(k) == target.contains_key(k) by {
                if k != index && m.contains_key(k) {
                    let j = choose|j: int| 0 <= j < self.elements@.len() && self.elements@[j].0 == k;
                    assert(before[j] == self.elements@[j]);
                }
                if k != index && pairs_map(before).contains_key(k) {
                    let j = choose|j: int| 0 <= j < before.len() && before[j].0 == k;
                    assert(self.elements@[j] == before[j]);
                }
                if k == index {
                    let j = if exists|j: int| 0 <= j < before.len() && before[j].0 == index {
                        choose|j: int| 0 <= j < before.len() && before[j].0 == index
                    } else {
                        before.len() as int
                    };
                    assert(self.elements@[j].0 == index);
                }
            }
            assert forall|k: usize| #[trigger] m.contains_key(k) implies m[k] == target[k] by {
                if k != index {
                    let j0 = choose|j: int| 0 <= j < before.len() && before[j].0 == k;
                    assert(self.elements@[j0] == before[j0]);
                    lemma_pairs_map_at(self.elements@, j0);
                    lemma_pairs_map_at(before, j0);
                } else {
                    assert(self.elements@[pos] == (index, x));
                    lemma_pairs_map_at(self.elements@, pos);
                }
            }
            assert(m =~= target);
        }
    }

    /// The position of the entry of `index`; it is stored.
    fn position(&self, index: usize) -> (r: usize)
        requires
            self.wf(),
            self.values().contains_key(index),
        ensures
            r < self.elements@.len(),
            self.elements@[r as int].0 == index,
            self.values()[index] == self.elements@[r as int].1,
    {
        let i = self.find(index).unwrap();
        proof {
            lemma_pairs_map_at(self.elements@, i as int);
        }
        i
    }

    /// Records the indices holding the smallest value.
    fn refresh_min(&mut self)
        requires
            old(self).wf(),
        ensures
            final(self).wf(),
            final(self).elements == old(self).elements,
            final(self).values() == old(self).values(),
            final(self).offset() == old(self).offset(),
            old(self).elements@.len() == 0 ==> final(self).min_indices() == old(self).min_indices(),
            old(self).elements@.len() > 0 ==> {
                &&& final(self).min_indices().no_duplicates()
                &&& forall|k: usize|
                    #[trigger] final(self).min_indices().contains(k) <==> is_min_key(
                        final(self).values(),
                        k,
                    )
            },
    {
        if self.elements.len() == 0 {
            return;
        }
        let ghost e = self.elements@;
        let mut min_value = self.elements[0].1;
        let mut index_min: Vec<usize> = Vec::new();
        let n = self.elements.len();
        for i in 0..n
            invariant
                n == e.len(),
                e == self.elements@,
                n > 0,
                pairs_keys(e).no_duplicates(),
                forall|j: int| 0 <= j < i ==> min_value <= #[trigger] e[j].1,
                i == 0 ==> min_value == e[0].1,
                i > 0 ==> exists|j: int| 0 <= j < i && e[j].1 == min_value,
                index_min@.no_duplicates(),
                forall|k: usize|
                    #[trigger] index_min@.contains(k) <==> exists|j: int|
                        0 <= j < i && e[j].0 == k && e[j].1 == min_value,
        {
            let (k, x) = self.elements[i];
            let ghost before = index_min@;
            if x == min_value {
                proof {
                    assert(!before.contains(k)) by {
                        if before.contains(k) {
                            let j = choose|j: int| 0 <= j < i && e[j].0 == k && e[j].1 == min_value;
                            assert(pairs_keys(e)[j] == pairs_keys(e)[i as int]);
                            assert(pairs_keys(e)[j] != pairs_keys(e)[i as int]);
                        }
                    }
                }
                index_min.push(k);
                proof {
                    assert forall|k2: usize| #[trigger] index_min@.contains(k2) <==> exists|j: int|
                        0 <= j < i + 1 && e[j].0 == k2 && e[j].1 == min_value by {
                        if k2 == k {
                            assert(index_min@[before.len() as int] == k);
                            assert(e[i as int].0 == k2 && e[i as int].1 == min_value);
                        } else {
                            if index_min@.contains(k2) {
                                let p = choose|p: int| 0 <= p < index_min@.len() && index_min@[p] == k2;
                                assert(p < before.len());
                                assert(before[p] == k2);
                                assert(before.contains(k2));
                            }
                            if exists|j: int| 0 <= j < i + 1 && e[j].0 == k2 && e[j].1 == min_value {
                                let j = choose|j: int| 0 <= j < i + 1 && e[j].0 == k2 && e[j].1 == min_value;
                                assert(j < i);
                                assert(before.contains(k2));
                                let p = choose|p: int| 0 <= p < before.len() && before[p] == k2;
                                assert(index_min@[p] == k2);
                            }
                        }
                    }
                }
            } else if x < min_value {
                index_min = vec![k];
                min_value = x;
                proof {
                    assert forall|k2: usize| #[trigger] index_min@.contains(k2) <==> exists|j: int|
                        0 <= j < i + 1 && e[j].0 == k2 && e[j].1 == min_value by {
                        if k2 == k {
                            assert(index_min@[0] == k);
                        }
                        if index_min@.contains(k2) {
                            assert(index_min@[0] == k2);
                        }
                    }
                }
            }
        }
        proof {
            let m = self.values();
            assert forall|k: usize| #[trigger] index_min@.contains(k) <==> is_min_key(m, k) by {
                if index_min@.contains(k) {
                    let j = choose|j: int| 0 <= j < n && e[j].0 == k && e[j].1 == min_value;
                    let j0 = choose|j0: int| 0 <= j0 < e.len() && e[j0].0 == k;
                    assert(pairs_keys(e)[j] == pairs_keys(e)[j0]);
                    assert forall|k2: usize| #[trigger] m.contains_key(k2) implies m[k] <= m[k2] by {
                        let j2 = choose|j2: int| 0 <= j2 < e.len() && e[j2].0 == k2;
                        assert(min_value <= e[j2].1);
                    }
                }
                if is_min_key(m, k) {
                    let j = choose|j: int| 0 <= j < e.len() && e[j].0 == k;
                    let jm = choose|j: int| 0 <= j < n && e[j].1 == min_value;
                    assert(m.contains_key(e[jm].0));
                    let jm0 = choose|j0: int| 0 <= j0 < e.len() && e[j0].0 == e[jm].0;
                    assert(pairs_keys(e)[jm] == pairs_keys(e)[jm0]);
                    assert(m[k] <= m[e[jm].0]);
                    assert(min_value <= e[j].1);
                }
            }
        }
        self.index_min = index_min;
    }

    /// Stores `x` for `index`. On an empty list, `x` is stored with the offset added and
    /// the recorded minimum becomes `[0]`. Otherwise `x` is stored as given, and compared
    /// with the value of the first recorded index: when smaller, the recorded minimum
    /// becomes the number of stored values; then, when equal to the value of the (possibly
    /// new) first recorded index, that number is added to the record.
    pub fn push(&mut self, index: usize, x: i32)
        requires
            old(self).wf(),
            old(self).values().len() == 0 ==> i32::MIN <= x + old(self).offset() <= i32::MAX,
            old(self).values().len() > 0 ==> {
                &&& old(self).min_indices().len() > 0
                &&& old(self).values().contains_key(old(self).min_indices()[0])
                &&& x < old(self).values()[old(self).min_indices()[0]] ==> old(
                    self,
                ).values().contains_key(old(self).values().len() as usize)
            },
        ensures
            final(self).wf(),
            final(self).offset() == old(self).offset(),
            old(self).values().len() == 0 ==> {
                &&& final(self).values() == map![index => (x + old(self).offset()) as i32]
                &&& final(self).min_indices() == seq![0usize]
            },
            old(self).values().len() > 0 ==> {
                let m = old(self).values();
                let first = m[old(self).min_indices()[0]];
                let n = m.len() as usize;
                &&& final(self).values() == m.insert(index, x)
                &&& final(self).min_indices() == if x < first {
                    if x == m[n] {
                        seq![n, n]
                    } else {
                        seq![n]
                    }
                } else if x == first {
                    old(self).min_indices().push(n)
                } else {
                    old(self).min_indices()
                }
            },
    {
        proof {
            self.lemma_map_finite_len();
        }
        if self.elements.len() == 0 {
            let v = x + self.delta;
            self.put(index, v);
            proof {
                assert(self.values() =~= map![index => v]);
            }
            self.index_min = vec![0];
            return;
        }
        let n = self.elements.len();
        let first = self.stored(self.index_min[0]);
        if x < first {
            self.index_min = vec![n];
        }
        let current = self.stored(self.index_min[0]);
        if x == current {
            self.index_min.push(n);
        }
        self.put(index, x);
    }

    /// Adds `dx` to the offset.
    pub fn delta(&mut self, dx: i32)
        requires
            i32::MIN <= old(self).offset() + dx <= i32::MAX,
        ensures
            final(self).offset() == old(self).offset() + dx,
            final(self).values() == old(self).values(),
            final(self).min_indices() == old(self).min_indices(),
            final(self).wf() == old(self).wf(),
    {
        self.delta = self.delta + dx;
    }

    /// The value of `i`: its stored value plus the offset.
    pub fn at(&self, i: usize) -> (r: i32)
        requires
            self.wf(),
            self.values().contains_key(i),
            i32::MIN <= self.values()[i] + self.offset() <= i32::MAX,
        ensures
            r == self.values()[i] + self.offset(),
    {
        self.stored(i) + self.delta
    }

    /// Drops the entry of `index`, which is stored, and returns its stored value.
    fn take(&mut self, index: usize) -> (r: i32)
        requires
            old(self).wf(),
            old(self).values().contains_key(index),
        ensures
            final(self).wf(),
            r == old(self).values()[index],
            final(self).values() == old(self).values().remove(index),
            final(self).offset() == old(self).offset(),
            final(self).min_indices() == old(self).min_indices(),
    {
        let ghost before = self.elements@;
        let p = self.position(index);
        let (_, v) = self.elements.remove(p);
        proof {
            let e = self.elements@;
            assert(pairs_keys(e) =~= pairs_keys(before).remove(p as int));
            assert forall|a: int, b: int| 0 <= a < b < e.len() implies pairs_keys(e)[a]
                != pairs_keys(e)[b] by {
                let a0 = if a < p { a } else { a + 1 };
                let b0 = if b < p { b } else { b + 1 };
                assert(pairs_keys(before)[a0] != pairs_keys(before)[b0]);
            }
            assert forall|j: int| 0 <= j < before.len() && before[j].0 == index implies j == p by {
                assert(pairs_keys(before)[j] == pairs_keys(before)[p as int]);
            }
            let m = pairs_map(e);
            let target = pairs_map(before).remove(index);
            assert forall|k: usize| #[trigger] m.contains_key(k) == target.contains_key(k) by {
                if m.contains_key(k) {
                    let j = choose|j: int| 0 <= j < e.len() && e[j].0 == k;
                    let j0 = if j < p { j } else { j + 1 };
                    assert(before[j0] == e[j]);
                }
                if target.contains_key(k) {
                    let j = choose|j: int| 0 <= j < before.len() && before[j].0 == k;
                    assert(j != p);
                    let j1 = if j < p { j } else { j - 1 };
                    assert(e[j1] == before[j]);
                }
            }
            assert forall|k: usize| #[trigger] m.contains_key(k) implies m[k] == target[k] by {
                let j = choose|j: int| 0 <= j < e.len() && e[j].0 == k;
                let j0 = if j < p { j } else { j + 1 };
                assert(before[j0] == e[j]);
                lemma_pairs_map_at(e, j);
                lemma_pairs_map_at(before, j0);
            }
            assert(m =~= target);
        }
        v
    }

    /// Removes the entry of `i` and returns its stored value. When `i` is recorded in the
    /// minimum, its first occurrence is dropped from the record; a record left empty is
    /// refilled with the indices of the smallest value, `i` still counted among the values.
    pub fn remove(&mut self, i: usize) -> (r: i32)
        requires
            old(self).wf(),
            old(self).values().contains_key(i),
        ensures
            final(self).wf(),
            r == old(self).values()[i],
            final(self).values() == old(self).values().remove(i),
            final(self).offset() == old(self).offset(),
            ({
                let m = old(self).min_indices();
                if m.contains(i) {
                    let rest = m.remove(first_position(m, i));
                    if rest.len() == 0 {
                        &&& final(self).min_indices().no_duplicates()
                        &&& forall|k: usize|
                            #[trigger] final(self).min_indices().contains(k) <==> is_min_key(
                                old(self).values(),
                                k,
                            )
                    } else {
                        final(self).min_indices() == rest
                    }
                } else {
                    final(self).min_indices() == m
                }
            }),
    {
        let mut pos: usize = 0;
        while pos < self.index_min.len() && self.index_min[pos] != i
            invariant
                pos <= self.index_min@.len(),
                forall|q: int| 0 <= q < pos ==> self.index_min@[q] != i,
            decreases self.index_min@.len() - pos,
        {
            pos += 1;
        }
        if pos < self.index_min.len() {
            proof {
                assert(first_position(self.index_min@, i) == pos as int) by {
                    let f = first_position(self.index_min@, i);
                    assert(self.index_min@[pos as int] == i);
                    if f < pos {
                        assert(self.index_min@[f] != i);
                    }
                    if f > pos {
                        assert(self.index_min@[pos as int] != i);
                    }
                }
            }
            self.index_min.remove(pos);
            if self.index_min.len() == 0 {
                self.refresh_min();
            }
        } else {
            proof {
                assert(!old(self).min_indices().contains(i));
            }
        }
        self.take(i)
    }

    /// The indices recorded as holding the minimum.
    pub fn index_min(&self) -> (r: Vec<usize>)
        ensures
            r@ == self.min_indices(),
    {
        self.index_min.clone()
    }

    /// The value of the first recorded index, offset added.
    pub fn min_value(&self) -> (r: i32)
        requires
            self.wf(),
            self.values().len() > 0,
            self.min_indices().len() > 0,
            self.values().contains_key(self.min_indices()[0]),
            i32::MIN <= self.values()[self.min_indices()[0]] + self.offset() <= i32::MAX,
        ensures
            r == self.values()[self.min_indices()[0]] + self.offset(),
    {
        let indices = self.index_min();
        self.at(indices[0])
    }

    pub fn contains(&self, key: &usize) -> (r: bool)
        ensures
            r == self.values().contains_key(*key),
    {
        self.find(*key).is_some()
    }

    /// Leaves this list as it is: the entries of `other` are dropped.
    pub fn merge(&mut self, other: DeltaList)
        ensures
            *final(self) == *old(self),
    {
        let n = other.elements.len();
        for i in 0..n {
        }
    }

    /// The list holding the values of `source`, with offset `delta` and the indices of its
    /// smallest value recorded.
    pub fn from(source: HashMap<usize, i32>, delta: i32) -> (l: Self)
        ensures
            l.wf(),
            l.values() == source@,
            l.offset() == delta,
            l.values().len() > 0 ==> l.min_indices().no_duplicates() && forall|k: usize|
                #[trigger] l.min_indices().contains(k) <==> is_min_key(l.values(), k),
            l.values().len() == 0 ==> l.min_indices() == Seq::<usize>::empty(),
    {
        broadcast use vstd::std_specs::hash::axiom_spec_hash_map_iter;

        let mut pairs: Vec<(usize, i32)> = Vec::new();
        let ghost all = source.iter().remaining();
        for kv in it: source.iter()
            invariant
                it.seq() == all,
                pairs@.len() == it.index(),
                forall|j: int| 0 <= j < it.index() ==> #[trigger] pairs@[j] == (*all[j].0, *all[j].1),
        {
            let (k, x) = kv;
            pairs.push((*k, *x));
        }
        proof {
            assert(pairs@.len() == all.len());
            lemma_pairs_map_last_keys(pairs@);
            assert forall|k: usize| #[trigger] pairs_map_last(pairs@).contains_key(k) == source@.contains_key(k) by {
                if source@.contains_key(k) {
                    assert(all.contains((&k, &source@[k])));
                    let j = choose|j: int| 0 <= j < all.len() && all[j] == (&k, &source@[k]);
                    assert(pairs@[j].0 == k);
                }
                if pairs_map_last(pairs@).contains_key(k) {
                    let j = choose|j: int| 0 <= j < pairs@.len() && #[trigger] pairs@[j].0 == k;
                    assert(source@.contains_key(*all[j].0));
                }
            }
            assert forall|k: usize| #[trigger] pairs_map_last(pairs@).contains_key(k) implies pairs_map_last(pairs@)[k]
                == source@[k] by {
                let j = choose|j: int|
                    0 <= j < pairs@.len() && pairs@[j].0 == k && #[trigger] pairs@[j].1 == pairs_map_last(pairs@)[k];
                assert(source@[*all[j].0] == *all[j].1);
            }
            assert(pairs_map_last(pairs@) =~= source@);
        }
        Self::from_pairs(pairs, delta)
    }

    /// The list holding the values of `source` (a later pair replacing an earlier one of the
    /// same index), with offset `delta` and the indices of its smallest value recorded.
    fn from_pairs(source: Vec<(usize, i32)>, delta: i32) -> (l: Self)
        ensures
            l.wf(),
            l.values() == pairs_map_last(source@),
            l.offset() == delta,
            l.values().len() > 0 ==> l.min_indices().no_duplicates() && forall|k: usize|
                #[trigger] l.min_indices().contains(k) <==> is_min_key(l.values(), k),
            l.values().len() == 0 ==> l.min_indices() == Seq::<usize>::empty(),
    {
        let mut list = Self::new(delta);
        let n = source.len();
        for i in 0..n
            invariant
                n == source@.len(),
                list.wf(),
                list.values() == pairs_map_last(source@.take(i as int)),
                list.offset() == delta,
                list.min_indices() == Seq::<usize>::empty(),
        {
            let (k, x) = source[i];
            list.put(k, x);
            proof {
                assert(source@.take(i + 1).drop_last() =~= source@.take(i as int));
                assert(source@.take(i + 1).last() == (k, x));
            }
        }
        assert(source@.take(n as int) =~= source@);
        list.refresh_min();
        proof {
            list.lemma_map_finite_len();
        }
        list
    }
}

/// The map from keys to values of a list of pairs, a later pair of a key replacing an
/// earlier one.
pub open spec fn pairs_map_last(pairs: Seq<(usize, i32)>) -> Map<usize, i32>
    decreases pairs.len(),
{
    if pairs.len() == 0 {
        Map::empty()
    } else {
        pairs_map_last(pairs.drop_last()).insert(pairs.last().0, pairs.last().1)
    }
}

/// After `delta`, the list holds the same indices, each value shifted by `dx`, and the same
/// indices of the minimum.
pub proof fn lemma_delta_shifts_values(before: DeltaList, after: DeltaList, dx: int)
    requires
        after.offset() == before.offset() + dx,
        after.values() == before.values(),
        after.min_indices() == before.min_indices(),
    ensures
        forall|k: usize|
            #[trigger] after.values().contains_key(k) == before.values().contains_key(k),
        forall|k: usize|
            #[trigger] after.values().contains_key(k) ==> after.values()[k] + after.offset()
                == before.values()[k] + before.offset() + dx,
        after.min_indices() == before.min_indices(),
{
}

/// The indices of the map of a list of pairs are the indices of its pairs, and each value is
/// that of one of its pairs.
proof fn lemma_pairs_map_last_keys(pairs: Seq<(usize, i32)>)
    ensures
        forall|k: usize|
            #[trigger] pairs_map_last(pairs).contains_key(k) == exists|j: int|
                0 <= j < pairs.len() && #[trigger] pairs[j].0 == k,
        forall|k: usize|
            #[trigger] pairs_map_last(pairs).contains_key(k) ==> exists|j: int|
                0 <= j < pairs.len() && pairs[j].0 == k && #[trigger] pairs[j].1 == pairs_map_last(pairs)[k],
    decreases pairs.len(),
{
    if pairs.len() > 0 {
        let t = pairs.drop_last();
        lemma_pairs_map_last_keys(t);
        assert(pairs_map_last(pairs) == pairs_map_last(t).insert(pairs.last().0, pairs.last().1));
        assert forall|k: usize|
            #[trigger] pairs_map_last(pairs).contains_key(k) == exists|j: int|
                0 <= j < pairs.len() && #[trigger] pairs[j].0 == k by {
            if pairs_map_last(pairs).contains_key(k) && k != pairs.last().0 {
                assert(pairs_map_last(t).contains_key(k));
                let j = choose|j: int| 0 <= j < t.len() && #[trigger] t[j].0 == k;
                assert(pairs[j] == t[j]);
            }
            if pairs_map_last(pairs).contains_key(k) && k == pairs.last().0 {
                assert(pairs[pairs.len() - 1].0 == k);
            }
            if exists|j: int| 0 <= j < pairs.len() && #[trigger] pairs[j].0 == k {
                let j = choose|j: int| 0 <= j < pairs.len() && #[trigger] pairs[j].0 == k;
                if j < t.len() {
                    assert(t[j] == pairs[j]);
                }
            }
        }
        assert forall|k: usize| #[trigger] pairs_map_last(pairs).contains_key(k) implies exists|j: int|
            0 <= j < pairs.len() && pairs[j].0 == k && #[trigger] pairs[j].1 == pairs_map_last(pairs)[k] by {
            if k == pairs.last().0 {
                assert(pairs[pairs.len() - 1].1 == pairs_map_last(pairs)[k]);
            } else {
                let j = choose|j: int| 0 <= j < t.len() && t[j].0 == k && #[trigger] t[j].1 == pairs_map_last(t)[k];
                assert(pairs[j] == t[j]);
                assert(pairs[j].1 == pairs_map_last(pairs)[k]);
            }
        }
    }
}

} // verus!
