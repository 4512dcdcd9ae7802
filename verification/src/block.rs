//! Blocks: fixed-size, immutable, uniquely identified units of file content.

use vstd::prelude::*;
use crate::hex::{hex_rep, u128_to_hex};
use crate::strutil::append_str;

verus! {

/// One unit of file content.  `id` is globally unique, `len` the payload
/// length in bytes, and `seq` the 0-based ordinal within the owning file.
/// Equality compares `id` only; `len` and `seq` are metadata.
#[derive(Copy, Clone, Debug)]
pub struct Block {
    pub id: u128,
    pub len: u64,
    pub seq: u64,
}

impl Block {
    pub fn new(id: u128, len: u64, seq: u64) -> (b: Block)
        ensures
            b == (Block { id, len, seq }),
    {
        Block { id, len, seq }
    }

    /// The on-disk file name that stores this block's bytes.
    pub fn filename(&self) -> (r: String)
        ensures
            r@ == spec_block_filename(self.id),
    {
        let mut s = "block_".to_owned();
        let h = u128_to_hex(self.id);
        append_str(&mut s, h.as_str());
        s
    }
}

/// The file name of a block: `block_` followed by the 32-digit hex id.
pub open spec fn spec_block_filename(id: u128) -> Seq<char> {
    "block_"@ + hex_rep(id as nat, 32)
}

impl PartialEq for Block {
    fn eq(&self, other: &Block) -> bool {
        self.id == other.id
    }
}

impl vstd::std_specs::cmp::PartialEqSpecImpl for Block {
    open spec fn obeys_eq_spec() -> bool {
        true
    }

    open spec fn eq_spec(&self, other: &Block) -> bool {
        self.id == other.id
    }
}

impl Eq for Block {

}

} // verus!
