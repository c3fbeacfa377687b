use vstd::prelude::*;

use super::label::Label;

verus! {

/// The names of an association list, in order.
pub open spec fn entry_names<T>(entries: Seq<(Label, T)>) -> Seq<Seq<char>> {
    entries.map_values(|e: (Label, T)| e.0@)
}

/// The map from names to values held by an association list with distinct names.
pub open spec fn entries_map<T>(entries: Seq<(Label, T)>) -> Map<Seq<char>, T> {
    Map::new(
        |k: Seq<char>| exists|i: int| 0 <= i < entries.len() && entries[i].0@ == k,
        |k: Seq<char>| entries[choose|i: int| 0 <= i < entries.len() && entries[i].0@ == k].1,
    )
}

/// The position of `name` in an association list, if it is there.
fn find_entry<T>(entries: &Vec<(Label, T)>, name: &Label) -> (r: Option<usize>)
    ensures
        match r {
            Some(i) => i < entries@.len() && entries@[i as int].0@ == name@,
            None => forall|i: int| 0 <= i < entries@.len() ==> entries@[i].0@ != name@,
        },
{
    let mut i: usize = 0;
    while i < entries.len()
        invariant
            i <= entries@.len(),
            forall|j: int| 0 <= j < i ==> entries@[j].0@ != name@,
        decreases entries@.len() - i,
    {
        if entries[i].0 == *name {
            return Some(i);
        }
        i += 1;
    }
    None
}

/// Associates `value` to `name` in a list with distinct names: the entry of `name` is
/// replaced, or a new entry is added at the end.
fn put_entry<T>(entries: &mut Vec<(Label, T)>, name: Label, value: T)
    requires
        entry_names(old(entries)@).no_duplicates(),
    ensures
        entry_names(final(entries)@).no_duplicates(),
        entries_map(final(entries)@) == entries_map(old(entries)@).insert(name@, value),
{
    let ghost before = entries@;
    let ghost key = name@;
    match find_entry(entries, &name) {
        Some(i) => {
            entries.set(i, (name, value));
            proof {
                assert(entry_names(entries@) =~= entry_names(before));
                assert forall|j: int| 0 <= j < entries@.len() && entries@[j].0@ == key implies j
                    == i by {
                    assert(entry_names(before)[j] == entry_names(before)[i as int]);
                }
            }
        },
        None => {
            entries.push((name, value));
            proof {
                assert(entry_names(entries@) =~= entry_names(before).push(key));
                assert forall|j: int| 0 <= j < entries@.len() && entries@[j].0@ == key implies j
                    == before.len() by {}
            }
        },
    }
    proof {
        let m = entries_map(entries@);
        let target = entries_map(before).insert(key, value);
        assert forall|k: Seq<char>| #[trigger] m.contains_key(k) == target.contains_key(k) by {
            if k != key && m.contains_key(k) {
                let j = choose|j: int| 0 <= j < entries@.len() && entries@[j].0@ == k;
                assert(before[j] == entries@[j]);
            }
            if k != key && entries_map(before).contains_key(k) {
                let j = choose|j: int| 0 <= j < before.len() && before[j].0@ == k;
                assert(entries@[j] == before[j]);
            }
            if k == key {
                let j = if exists|j: int| 0 <= j < before.len() && before[j].0@ == key {
                    choose|j: int| 0 <= j < before.len() && before[j].0@ == key
                } else {
                    before.len() as int
                };
                assert(entries@[j].0@ == key);
            }
        }
        assert forall|k: Seq<char>| #[trigger] m.contains_key(k) implies m[k] == target[k] by {
            let j = choose|j: int| 0 <= j < entries@.len() && entries@[j].0@ == k;
            if k != key {
                let j0 = choose|j: int| 0 <= j < before.len() && before[j].0@ == k;
                assert(entries@[j0] == before[j0]);
                assert(entry_names(entries@)[j] == entry_names(entries@)[j0]);
            } else {
                let j1 = if exists|j: int| 0 <= j < before.len() && before[j].0@ == key {
                    choose|j: int| 0 <= j < before.len() && before[j].0@ == key
                } else {
                    before.len() as int
                };
                assert(entries@[j1].0@ == key);
                assert(entry_names(entries@)[j] == entry_names(entries@)[j1]);
            }
        }
        assert(m =~= target);
    }
}

/// Names of variables, actions and nested contexts, with the counts of variables and
/// actions they hold.
#[derive(Debug)]
pub struct NamingContext {
    vars: Vec<(Label, usize)>,
    actions: Vec<(Label, usize)>,
    sub_contexts: Vec<(Label, Box<NamingContext>)>,
    n_vars: usize,
    n_actions: usize,
}

impl NamingContext {
    /// The variables named here.
    pub closed spec fn var_names(&self) -> Map<Seq<char>, usize> {
        entries_map(self.vars@)
    }

    /// The actions named here.
    pub closed spec fn action_names(&self) -> Map<Seq<char>, usize> {
        entries_map(self.actions@)
    }

    /// The nested contexts.
    pub closed spec fn subs(&self) -> Map<Seq<char>, Box<NamingContext>> {
        entries_map(self.sub_contexts@)
    }

    /// Count of variables, nested contexts included.
    pub closed spec fn var_count(&self) -> nat {
        self.n_vars as nat
    }

    /// Count of actions, nested contexts included.
    pub closed spec fn action_count(&self) -> nat {
        self.n_actions as nat
    }

    /// No name appears twice in a list.
    pub closed spec fn wf(&self) -> bool {
        &&& entry_names(self.vars@).no_duplicates()
        &&& entry_names(self.actions@).no_duplicates()
        &&& entry_names(self.sub_contexts@).no_duplicates()
    }

    pub fn new() -> (c: Self)
        ensures
            c.wf(),
            c.var_names() == Map::<Seq<char>, usize>::empty(),
            c.action_names() == Map::<Seq<char>, usize>::empty(),
            c.subs() == Map::<Seq<char>, Box<NamingContext>>::empty(),
            c.var_count() == 0,
            c.action_count() == 0,
    {
        let c = NamingContext {
            vars: Vec::new(),
            actions: Vec::new(),
            sub_contexts: Vec::new(),
            n_vars: 0,
            n_actions: 0,
        };
        assert(c.var_names() =~= Map::<Seq<char>, usize>::empty());
        assert(c.action_names() =~= Map::<Seq<char>, usize>::empty());
        assert(c.subs() =~= Map::<Seq<char>, Box<NamingContext>>::empty());
        assert(entry_names(c.vars@) =~= Seq::<Seq<char>>::empty());
        assert(entry_names(c.actions@) =~= Seq::<Seq<char>>::empty());
        assert(entry_names(c.sub_contexts@) =~= Seq::<Seq<char>>::empty());
        c
    }

    /// Nests `sub` under `name` and counts its variables and actions here.
    pub fn add_sub_context(&mut self, name: Label, sub: NamingContext)
        requires
            old(self).wf(),
            old(self).var_count() + sub.var_count() <= usize::MAX,
            old(self).action_count() + sub.action_count() <= usize::MAX,
        ensures
            final(self).wf(),
            final(self).subs() == old(self).subs().insert(name@, Box::new(sub)),
            final(self).var_names() == old(self).var_names(),
            final(self).action_names() == old(self).action_names(),
            final(self).var_count() == old(self).var_count() + sub.var_count(),
            final(self).action_count() == old(self).action_count() + sub.action_count(),
    {
        self.n_vars += sub.n_vars();
        self.n_actions += sub.n_actions();
        put_entry(&mut self.sub_contexts, name, Box::new(sub));
    }

    /// Names the variable `value` by `name`, and counts one more variable.
    pub fn add_var(&mut self, name: Label, value: usize)
        requires
            old(self).wf(),
            old(self).var_count() < usize::MAX,
        ensures
            final(self).wf(),
            final(self).var_names() == old(self).var_names().insert(name@, value),
            final(self).action_names() == old(self).action_names(),
            final(self).subs() == old(self).subs(),
            final(self).var_count() == old(self).var_count() + 1,
            final(self).action_count() == old(self).action_count(),
    {
        put_entry(&mut self.vars, name, value);
        self.n_vars += 1;
    }

    /// Names the action `value` by `name`, and counts one more action.
    pub fn add_action(&mut self, name: Label, value: usize)
        requires
            old(self).wf(),
            old(self).action_count() < usize::MAX,
        ensures
            final(self).wf(),
            final(self).action_names() == old(self).action_names().insert(name@, value),
            final(self).var_names() == old(self).var_names(),
            final(self).subs() == old(self).subs(),
            final(self).action_count() == old(self).action_count() + 1,
            final(self).var_count() == old(self).var_count(),
    {
        put_entry(&mut self.actions, name, value);
        self.n_actions += 1;
    }

    pub fn n_vars(&self) -> (r: usize)
        ensures
            r == self.var_count(),
    {
        self.n_vars
    }

    pub fn n_actions(&self) -> (r: usize)
        ensures
            r == self.action_count(),
    {
        self.n_actions
    }
}

} // verus!
