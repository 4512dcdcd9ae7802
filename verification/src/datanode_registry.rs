//! The storage-server side of block creation: the exclusive in-progress set.
//!
//! A block file is created as a temporary file while its id sits in this
//! set; committing renames the file and releases the id, aborting just
//! releases it.  The disk work happens outside the crate; the set and its
//! exclusivity rules live here.

use vstd::prelude::*;
use crate::errors::{CudddlyError, CuddlyResult};

verus! {

/// The ids of the blocks currently being written to disk.
pub struct DatanodeDataRegistry {
    pub blocks_being_created: Vec<u128>,
}

impl DatanodeDataRegistry {
    /// Whether a creation of this block is under way.
    pub open spec fn spec_in_progress(self, block_id: u128) -> bool {
        self.blocks_being_created@.contains(block_id)
    }

    /// No id is held twice.
    pub open spec fn wf(self) -> bool {
        forall|a: int, b: int|
            0 <= a < b < self.blocks_being_created@.len() ==> self.blocks_being_created@[a]
                != self.blocks_being_created@[b]
    }

    pub fn new() -> (r: DatanodeDataRegistry)
        ensures
            r.wf(),
            forall|b: u128| !r.spec_in_progress(b),
    {
        DatanodeDataRegistry { blocks_being_created: Vec::new() }
    }

    fn find(&self, block_id: u128) -> (r: Option<usize>)
        ensures
            match r {
                Some(i) => i < self.blocks_being_created@.len()
                    && self.blocks_being_created@[i as int] == block_id,
                None => !self.spec_in_progress(block_id),
            },
    {
        let mut i: usize = 0;
        while i < self.blocks_being_created.len()
            invariant
                i <= self.blocks_being_created@.len(),
                forall|j: int| 0 <= j < i ==> self.blocks_being_created@[j] != block_id,
            decreases self.blocks_being_created@.len() - i,
        {
            if self.blocks_being_created[i] == block_id {
                return Some(i);
            }
            i = i + 1;
        }
        None
    }

    /// Whether a creation of this block is under way.
    pub fn contains_in_progress_block(&self, block_id: u128) -> (r: bool)
        ensures
            r == self.spec_in_progress(block_id),
    {
        self.find(block_id).is_some()
    }

    /// Claims the block for writing; fails if a creation is already under
    /// way (the exclusivity that keeps two writers off one temp file).
    pub fn insert_in_progress_block(&mut self, block_id: u128) -> (r: CuddlyResult<()>)
        requires
            old(self).wf(),
        ensures
            final(self).wf(),
            ({
                if old(self).spec_in_progress(block_id) {
                    &&& r is Err
                    &&& r->Err_0 is IOError
                    &&& *final(self) == *old(self)
                } else {
                    &&& r is Ok
                    &&& forall|b: u128|
                        final(self).spec_in_progress(b) <==> (old(self).spec_in_progress(b) || b
                            == block_id)
                }
            }),
    {
        if self.find(block_id).is_some() {
            return Err(
                CudddlyError::IOError("a creation of this block is already in progress".to_owned()),
            );
        }
        let ghost pre = self.blocks_being_created@;
        self.blocks_being_created.push(block_id);
        proof {
            assert forall|b: u128|
                final(self).spec_in_progress(b) <==> (pre.contains(b) || b == block_id) by {
                if self.blocks_being_created@.contains(b) {
                    let w = choose|w: int|
                        0 <= w < self.blocks_being_created@.len()
                            && self.blocks_being_created@[w] == b;
                    if w < pre.len() {
                        assert(pre[w] == b);
                    }
                }
                if pre.contains(b) {
                    let w = choose|w: int| 0 <= w < pre.len() && pre[w] == b;
                    assert(self.blocks_being_created@[w] == b);
                }
                if b == block_id {
                    assert(self.blocks_being_created@[pre.len() as int] == b);
                }
            }
            assert forall|a: int, b: int|
                0 <= a < b < self.blocks_being_created@.len() implies self.blocks_being_created@[a]
                != self.blocks_being_created@[b] by {
                if b == pre.len() as int {
                    assert(pre[a] == self.blocks_being_created@[a]);
                    assert(pre.contains(pre[a]));
                }
            }
        }
        Ok(())
    }

    /// Releases the block (after a commit's rename or an abort); fails if no
    /// creation was under way.
    pub fn remove_in_progress_block(&mut self, block_id: u128) -> (r: CuddlyResult<()>)
        requires
            old(self).wf(),
        ensures
            final(self).wf(),
            ({
                if old(self).spec_in_progress(block_id) {
                    &&& r is Ok
                    &&& forall|b: u128|
                        final(self).spec_in_progress(b) <==> (old(self).spec_in_progress(b) && b
                            != block_id)
                } else {
                    &&& r is Err
                    &&& r->Err_0 is IOError
                    &&& *final(self) == *old(self)
                }
            }),
    {
        match self.find(block_id) {
            Some(i) => {
                let ghost pre = self.blocks_being_created@;
                self.blocks_being_created.swap_remove(i);
                proof {
                    let m = pre.len() - 1;
                    let post = self.blocks_being_created@;
                    assert(post =~= pre.update(i as int, pre.last()).drop_last());
                    assert forall|b: u128|
                        post.contains(b) <==> (pre.contains(b) && b != block_id) by {
                        if post.contains(b) {
                            let w = choose|w: int| 0 <= w < post.len() && post[w] == b;
                            if w == i as int {
                                assert(pre[m] == b);
                                if m != i as int {
                                    assert(b != block_id);
                                }
                            } else {
                                assert(pre[w] == b);
                                assert(b != block_id);
                            }
                        }
                        if pre.contains(b) && b != block_id {
                            let w = choose|w: int| 0 <= w < pre.len() && pre[w] == b;
                            assert(w != i as int);
                            if w == m {
                                assert((i as int) < m);
                                assert(post[i as int] == b);
                            } else {
                                assert(post[w] == b);
                            }
                        }
                    }
                    assert forall|a: int, b: int|
                        0 <= a < b < post.len() implies post[a] != post[b] by {
                        let xa = if a == i as int {
                            m
                        } else {
                            a
                        };
                        let xb = if b == i as int {
                            m
                        } else {
                            b
                        };
                        assert(post[a] == pre[xa] && post[b] == pre[xb]);
                    }
                }
                Ok(())
            },
            None => Err(
                CudddlyError::IOError("no creation of this block has been started".to_owned()),
            ),
        }
    }
}

} // verus!
