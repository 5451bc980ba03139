//! Where downloaded pieces are kept.
use crate::bitfield::BitField;
use vstd::prelude::*;

verus! {

/// A store of pieces that knows which pieces it holds. Reading and writing pieces is
/// I/O and belongs to the program that owns the store.
pub trait Storage: Clone {
    fn get_bitfield(&self) -> BitField;
}

/// The byte offset of piece `index` when every piece is `piece_length` bytes long, where
/// it fits in a `u64`.
pub fn piece_offset(index: usize, piece_length: u64) -> (r: Option<u64>)
    ensures
        r == if index * piece_length <= u64::MAX {
            Some((index * piece_length) as u64)
        } else {
            None::<u64>
        },
{
    (index as u64).checked_mul(piece_length)
}

} // verus!
