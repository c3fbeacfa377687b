use vstd::prelude::*;

verus! {

/// Loader of timed-arc Petri nets from `.tapn` files.
pub struct TAPNLoader;

/// Writer of timed-arc Petri nets to `.tapn` files.
pub struct TAPNWriter;

} // verus!
