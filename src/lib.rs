//! Generation and shrinking of bit sets.
//!
//! A bit container is anything that implements [`BitSetLike`]: the machine
//! integers, `Vec<bool>`, `bit_set::BitSet` and [`VarBitSet`]. Two
//! strategies draw values from a random source, and [`BitSetValueTree`]
//! shrinks a drawn value one cleared bit at a time, with a one-step undo.

mod flags;
mod ints;
mod like;
mod rng;
mod sparse;
mod strategy;
mod tree;
mod varsize;
mod vecbool;

pub use flags::{flags_below, lemma_flags_below};
pub use ints::{
    bit_i16, bit_i32, bit_i64, bit_i8, bit_isize, bit_u16, bit_u32, bit_u64, bit_u8, bit_usize,
};
pub use like::BitSetLike;
pub use sparse::{bitset_members, bitset_nbits, bitvec_flags};
pub use strategy::{valid_sampled, BitSetStrategy, SampledBitSetStrategy};
pub use tree::{
    complicate_step, first_from, lemma_complicate_undoes_simplify, lemma_simplify_removes_one_bit,
    lemma_simplify_stops_at_floor, simplify_step, BitSetValueTree,
};
pub use varsize::{sampled, VarBitSet};
pub use vecbool::flag_at;
