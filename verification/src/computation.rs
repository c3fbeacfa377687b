pub mod word_bits;
pub mod bit_set;
pub mod dbm;
pub mod combinatory;
pub mod action_set;
pub mod virtual_memory;
pub mod delta_list;
pub mod disjoint_interval;
pub mod fix_point;
pub mod intervals;

pub use bit_set::BitSet;
