use vstd::prelude::*;

use super::label::Label;

verus! {

/// Index of a clock that is not mapped to any slot of a state.
pub const UNMAPPED_CLOCK: usize = usize::MAX;

/// A clock of a model: its name and, once mapped, its index among the clocks of a state.
#[derive(Debug, PartialEq, Eq, Hash)]
pub struct ModelClock {
    pub name: Label,
    pub index: usize,
}

impl Clone for ModelClock {
    fn clone(&self) -> (r: Self)
        ensures
            r == *self,
    {
        ModelClock { name: self.name.clone(), index: self.index }
    }
}

impl ModelClock {
    pub fn new() -> (c: ModelClock)
        ensures
            c.name@ == Seq::<char>::empty(),
            c.index == usize::MAX,
    {
        ModelClock { name: Label::new(), index: UNMAPPED_CLOCK }
    }

    /// An unmapped clock called `name`.
    pub fn name(name: Label) -> (c: ModelClock)
        ensures
            c.name == name,
            c.index == usize::MAX,
    {
        ModelClock { name, index: UNMAPPED_CLOCK }
    }

    pub fn get_name(&self) -> (r: Label)
        ensures
            r == self.name,
    {
        self.name.clone()
    }

    pub fn get_index(&self) -> (r: usize)
        ensures
            r == self.index,
    {
        self.index
    }

    pub fn is_mapped(&self) -> (r: bool)
        ensures
            r == (self.index != usize::MAX),
    {
        self.index != UNMAPPED_CLOCK
    }
}

impl Default for ModelClock {
    fn default() -> (c: Self)
        ensures
            c.name@ == Seq::<char>::empty(),
            c.index == usize::MAX,
    {
        ModelClock::new()
    }
}

} // verus!
