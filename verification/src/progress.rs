//! The in-flight write tracker: per-file reserved block ids and sequence
//! counter, plus the global per-block replication counter.
//!
//! A file lives here from `start_create` until it is committed into the
//! namespace or aborted; replication counts rise as storage servers report
//! blocks and are never decremented.

use vstd::prelude::*;
use crate::errors::{CudddlyError, CuddlyResult};
use crate::strutil::{concat3, str_eq};

verus! {

/// One in-flight file: its path string, the reserved block ids in
/// reservation order, and the next block ordinal to hand out.
pub struct FileProgress {
    pub filename: String,
    pub block_ids: Vec<u128>,
    pub next_seq: u64,
}

/// The coordinator's in-flight bookkeeping.
pub struct NamenodeProgressTracker {
    pub files: Vec<FileProgress>,
    pub counts: Vec<(u128, u64)>,
}

/// Whether the file list has an entry for `name`.
pub open spec fn files_in_flight(files: Seq<FileProgress>, name: Seq<char>) -> bool {
    exists|i: int| 0 <= i < files.len() && files[i].filename@ == name
}

/// The index of `name`'s entry in the file list.
pub open spec fn files_index_of(files: Seq<FileProgress>, name: Seq<char>) -> int {
    choose|i: int| 0 <= i < files.len() && files[i].filename@ == name
}

/// Whether the counter list has an entry for the block id.
pub open spec fn counts_track(counts: Seq<(u128, u64)>, block_id: u128) -> bool {
    exists|i: int| 0 <= i < counts.len() && counts[i].0 == block_id
}

/// The replication count recorded for the block id (0 if untracked).
pub open spec fn counts_value(counts: Seq<(u128, u64)>, block_id: u128) -> u64 {
    if counts_track(counts, block_id) {
        counts[choose|i: int| 0 <= i < counts.len() && counts[i].0 == block_id].1
    } else {
        0
    }
}

impl NamenodeProgressTracker {
    /// Whether `name` has an in-flight entry.
    pub open spec fn spec_in_flight(self, name: Seq<char>) -> bool {
        files_in_flight(self.files@, name)
    }

    /// The index of `name`'s entry.
    pub open spec fn spec_file_index(self, name: Seq<char>) -> int {
        files_index_of(self.files@, name)
    }

    /// The reserved block ids of `name`, in reservation order.
    pub open spec fn spec_block_ids(self, name: Seq<char>) -> Seq<u128> {
        self.files@[self.spec_file_index(name)].block_ids@
    }

    /// The next block ordinal of `name`.
    pub open spec fn spec_next_seq(self, name: Seq<char>) -> u64 {
        self.files@[self.spec_file_index(name)].next_seq
    }

    /// Whether the block id has a replication-counter entry.
    pub open spec fn spec_tracks(self, block_id: u128) -> bool {
        counts_track(self.counts@, block_id)
    }

    /// The replication count of the block id (0 if untracked).
    pub open spec fn spec_count(self, block_id: u128) -> u64 {
        counts_value(self.counts@, block_id)
    }

    /// File names and counter keys are distinct.
    pub open spec fn wf(self) -> bool {
        &&& forall|i: int, j: int|
            0 <= i < j < self.files@.len() ==> self.files@[i].filename@
                != self.files@[j].filename@
        &&& forall|i: int, j: int|
            0 <= i < j < self.counts@.len() ==> self.counts@[i].0 != self.counts@[j].0
    }

    /// An empty tracker.
    pub fn new() -> (t: NamenodeProgressTracker)
        ensures
            t.wf(),
            forall|name: Seq<char>| !t.spec_in_flight(name),
            forall|b: u128| !t.spec_tracks(b),
            forall|b: u128| t.spec_count(b) == 0,
    {
        NamenodeProgressTracker { files: Vec::new(), counts: Vec::new() }
    }

    fn find_file(&self, filename: &str) -> (r: Option<usize>)
        requires
            self.wf(),
        ensures
            match r {
                Some(i) => i < self.files@.len() && self.files@[i as int].filename@ == filename@
                    && self.spec_in_flight(filename@) && self.spec_file_index(filename@)
                    == i as int,
                None => !self.spec_in_flight(filename@),
            },
    {
        let mut i: usize = 0;
        while i < self.files.len()
            invariant
                self.wf(),
                i <= self.files@.len(),
                forall|j: int| 0 <= j < i ==> self.files@[j].filename@ != filename@,
            decreases self.files@.len() - i,
        {
            if str_eq(self.files[i].filename.as_str(), filename) {
                proof {
                    let w = self.spec_file_index(filename@);
                    assert(self.files@[i as int].filename@ == filename@);
                    assert(0 <= w < self.files@.len() && self.files@[w].filename@ == filename@);
                    assert(w == i as int);
                }
                return Some(i);
            }
            i = i + 1;
        }
        None
    }

    fn find_count(&self, block_id: u128) -> (r: Option<usize>)
        requires
            self.wf(),
        ensures
            match r {
                Some(i) => i < self.counts@.len() && self.counts@[i as int].0 == block_id
                    && self.spec_tracks(block_id) && self.spec_count(block_id)
                    == self.counts@[i as int].1,
                None => !self.spec_tracks(block_id),
            },
    {
        let mut i: usize = 0;
        while i < self.counts.len()
            invariant
                self.wf(),
                i <= self.counts@.len(),
                forall|j: int| 0 <= j < i ==> self.counts@[j].0 != block_id,
            decreases self.counts@.len() - i,
        {
            if self.counts[i].0 == block_id {
                proof {
                    let w = choose|w: int|
                        0 <= w < self.counts@.len() && self.counts@[w].0 == block_id;
                    assert(self.counts@[i as int].0 == block_id);
                    assert(w == i as int);
                }
                return Some(i);
            }
            i = i + 1;
        }
        None
    }

    /// Whether `filename` has an in-flight entry.
    pub fn contains_file(&self, filename: &str) -> (r: bool)
        requires
            self.wf(),
        ensures
            r == self.spec_in_flight(filename@),
    {
        self.find_file(filename).is_some()
    }

    /// Whether the block id is being tracked.
    pub fn contains_block(&self, block_id: &u128) -> (r: bool)
        requires
            self.wf(),
        ensures
            r == self.spec_tracks(*block_id),
    {
        self.find_count(*block_id).is_some()
    }

    /// The replication count of the block id; 0 if untracked.
    pub fn get_replication_count(&self, block_id: u128) -> (r: u64)
        requires
            self.wf(),
        ensures
            r == self.spec_count(block_id),
    {
        match self.find_count(block_id) {
            Some(i) => self.counts[i].1,
            None => 0,
        }
    }

    /// Raises the replication count of the block id by one (saturating at the
    /// integer's top; the count only ever grows).
    pub fn increment_replication(&mut self, block_id: u128)
        requires
            old(self).wf(),
        ensures
            final(self).wf(),
            final(self).files == old(self).files,
            forall|b: u128| final(self).spec_tracks(b) <==> (old(self).spec_tracks(b) || b == block_id),
            forall|b: u128| b != block_id ==> final(self).spec_count(b) == old(self).spec_count(b),
            final(self).spec_count(block_id) as int == (if old(self).spec_count(block_id)
                < u64::MAX {
                old(self).spec_count(block_id) + 1
            } else {
                u64::MAX as int
            }),
    {
        let ghost pre = *self;
        match self.find_count(block_id) {
            Some(i) => {
                let prev = self.counts[i].1;
                let next: u64 = if prev < u64::MAX {
                    prev + 1
                } else {
                    u64::MAX
                };
                let slot = &mut self.counts[i];
                *slot = (block_id, next);
                proof {
                    lemma_count_updated(pre, *self, i as int);
                }
            },
            None => {
                self.counts.push((block_id, 1));
                proof {
                    lemma_count_pushed(pre, *self, block_id);
                }
            },
        }
    }

    /// Starts tracking a new in-flight file; fails if one is already there.
    pub fn add_file(&mut self, filename: String) -> (r: CuddlyResult<()>)
        requires
            old(self).wf(),
        ensures
            final(self).wf(),
            final(self).counts == old(self).counts,
            ({
                if old(self).spec_in_flight(filename@) {
                    &&& r is Err
                    &&& r->Err_0 is FSError
                    &&& r->Err_0.spec_message() == "'"@ + filename@
                        + "': File creation already in progress"@
                    &&& final(self).files == old(self).files
                } else {
                    &&& r is Ok
                    &&& forall|name: Seq<char>|
                        final(self).spec_in_flight(name) <==> (old(self).spec_in_flight(name)
                            || name == filename@)
                    &&& forall|name: Seq<char>|
                        old(self).spec_in_flight(name) ==> final(self).spec_block_ids(name) == old(self).spec_block_ids(name) && final(self).spec_next_seq(name) == old(self).spec_next_seq(name)
                    &&& final(self).spec_block_ids(filename@) == Seq::<u128>::empty()
                    &&& final(self).spec_next_seq(filename@) == 0u64
                }
            }),
    {
        let ghost pre = *self;
        if self.find_file(filename.as_str()).is_some() {
            let msg = concat3("'", filename.as_str(), "': File creation already in progress");
            return Err(CudddlyError::FSError(msg));
        }
        self.files.push(FileProgress { filename, block_ids: Vec::new(), next_seq: 0 });
        proof {
            lemma_file_pushed(pre, *self);
        }
        Ok(())
    }

    /// Stops tracking `filename` and drops the replication counters of its
    /// reserved blocks; fails if the file is not in flight.
    #[verifier::spinoff_prover]
    #[verifier::rlimit(30)]
    pub fn remove_file(&mut self, filename: &str) -> (r: CuddlyResult<()>)
        requires
            old(self).wf(),
        ensures
            final(self).wf(),
            ({
                if old(self).spec_in_flight(filename@) {
                    &&& r is Ok
                    &&& forall|name: Seq<char>|
                        final(self).spec_in_flight(name) <==> (old(self).spec_in_flight(name)
                            && name != filename@)
                    &&& forall|name: Seq<char>|
                        name != filename@ && old(self).spec_in_flight(name) ==> final(self).spec_block_ids(name) == old(self).spec_block_ids(name) && final(self).spec_next_seq(name) == old(self).spec_next_seq(name)
                    &&& forall|b: u128|
                        final(self).spec_tracks(b) <==> (old(self).spec_tracks(b) && !old(self).spec_block_ids(filename@).contains(b))
                    &&& forall|b: u128|
                        final(self).spec_tracks(b) ==> final(self).spec_count(b) == old(self).spec_count(b)
                } else {
                    &&& r is Err
                    &&& r->Err_0 is FSError
                    &&& r->Err_0.spec_message() == "'"@ + filename@
                        + "': File creation has not started yet"@
                    &&& *final(self) == *old(self)
                }
            }),
    {
        let ghost pre = *self;
        match self.find_file(filename) {
            Some(i) => {
                let entry = self.files.swap_remove(i);
                proof {
                    lemma_file_swap_removed(pre, *self, i as int);
                }
                let ghost mid = *self;
                let mut j: usize = 0;
                let ids = entry.block_ids;
                while j < ids.len()
                    invariant
                        self.wf(),
                        j <= ids@.len(),
                        self.files == mid.files,
                        forall|b: u128|
                            self.spec_tracks(b) <==> (mid.spec_tracks(b) && !ids@.take(
                                j as int,
                            ).contains(b)),
                        forall|b: u128|
                            self.spec_tracks(b) ==> self.spec_count(b) == mid.spec_count(b),
                    decreases ids@.len() - j,
                {
                    let ghost step = *self;
                    proof {
                        assert(forall|b: u128|
                            step.spec_tracks(b) <==> (mid.spec_tracks(b) && !ids@.take(
                                j as int,
                            ).contains(b)));
                        assert(forall|b: u128|
                            step.spec_tracks(b) ==> step.spec_count(b) == mid.spec_count(b));
                    }
                    self.drop_count(ids[j]);
                    proof {
                        let tnext = ids@.take(j + 1);
                        let tprev = ids@.take(j as int);
                        assert forall|b: u128|
                            self.spec_tracks(b) <==> (mid.spec_tracks(b) && !tnext.contains(
                                b,
                            )) by {
                            assert(self.spec_tracks(b) <==> (step.spec_tracks(b) && b != ids@[
                                j as int
                            ]));
                            assert(step.spec_tracks(b) <==> (mid.spec_tracks(b)
                                && !tprev.contains(b)));
                            if tnext.contains(b) {
                                let w = choose|w: int| 0 <= w < tnext.len() && tnext[w] == b;
                                if w < j {
                                    assert(ids@.take(j as int)[w] == b);
                                    assert(ids@.take(j as int).contains(b));
                                } else {
                                    assert(b == ids@[j as int]);
                                }
                            }
                            if !tnext.contains(b) {
                                assert forall|w: int|
                                    0 <= w < j implies ids@.take(j as int)[w] != b by {
                                    assert(tnext[w] == ids@.take(j as int)[w]);
                                }
                                assert(!ids@.take(j as int).contains(b));
                                assert(b != ids@[j as int]) by {
                                    assert(tnext[j as int] == ids@[j as int]);
                                }
                            }
                        }
                    }
                    j = j + 1;
                }
                proof {
                    assert(ids@.take(ids@.len() as int) =~= ids@);
                    assert(ids@ == pre.spec_block_ids(filename@));
                }
                Ok(())
            },
            None => {
                let msg = concat3("'", filename, "': File creation has not started yet");
                Err(CudddlyError::FSError(msg))
            },
        }
    }

    /// Drops the replication counter of one block id, if present.
    fn drop_count(&mut self, block_id: u128)
        requires
            old(self).wf(),
        ensures
            final(self).wf(),
            final(self).files == old(self).files,
            forall|b: u128|
                final(self).spec_tracks(b) <==> (old(self).spec_tracks(b) && b != block_id),
            forall|b: u128|
                b != block_id && old(self).spec_tracks(b) ==> final(self).spec_count(b) == old(self).spec_count(b),
    {
        let ghost pre = *self;
        match self.find_count(block_id) {
            Some(i) => {
                self.counts.swap_remove(i);
                proof {
                    lemma_count_swap_removed(pre, *self, i as int);
                }
            },
            None => {},
        }
    }

    /// The reserved block ids of `filename`, oldest first; fails if the file
    /// is not in flight.
    pub fn get_block_ids(&self, filename: &str) -> (r: CuddlyResult<Vec<u128>>)
        requires
            self.wf(),
        ensures
            ({
                if self.spec_in_flight(filename@) {
                    &&& r is Ok
                    &&& r->Ok_0@ == self.spec_block_ids(filename@)
                } else {
                    &&& r is Err
                    &&& r->Err_0 is FSError
                    &&& r->Err_0.spec_message() == "'"@ + filename@
                        + "': File creation has not started yet"@
                }
            }),
    {
        match self.find_file(filename) {
            Some(i) => {
                let ids = &self.files[i].block_ids;
                let mut out: Vec<u128> = Vec::new();
                let mut j: usize = 0;
                while j < ids.len()
                    invariant
                        j <= ids@.len(),
                        out@ == ids@.take(j as int),
                    decreases ids@.len() - j,
                {
                    out.push(ids[j]);
                    proof {
                        assert(ids@.take(j + 1) =~= ids@.take(j as int).push(ids@[j as int]));
                    }
                    j = j + 1;
                }
                proof {
                    assert(ids@.take(ids@.len() as int) =~= ids@);
                }
                Ok(out)
            },
            None => {
                let msg = concat3("'", filename, "': File creation has not started yet");
                Err(CudddlyError::FSError(msg))
            },
        }
    }

    /// Reserves `block_id` for `filename` and returns its assigned ordinal;
    /// the block's replication counter starts at zero.  Fails if the file is
    /// not in flight.
    pub fn add_block(&mut self, filename: &str, block_id: u128) -> (r: CuddlyResult<u64>)
        requires
            old(self).wf(),
            !old(self).spec_tracks(block_id),
        ensures
            final(self).wf(),
            ({
                if old(self).spec_in_flight(filename@) {
                    &&& r is Ok
                    &&& r->Ok_0 == old(self).spec_next_seq(filename@)
                    &&& forall|name: Seq<char>|
                        final(self).spec_in_flight(name) == old(self).spec_in_flight(name)
                    &&& forall|name: Seq<char>|
                        name != filename@ && old(self).spec_in_flight(name) ==> final(self).spec_block_ids(name) == old(self).spec_block_ids(name) && final(self).spec_next_seq(name) == old(self).spec_next_seq(name)
                    &&& final(self).spec_block_ids(filename@) == old(self).spec_block_ids(
                        filename@,
                    ).push(block_id)
                    &&& final(self).spec_next_seq(filename@) as int == (if old(
                        self,
                    ).spec_next_seq(filename@) < u64::MAX {
                        old(self).spec_next_seq(filename@) + 1
                    } else {
                        0int
                    })
                    &&& forall|b: u128|
                        final(self).spec_tracks(b) <==> (old(self).spec_tracks(b) || b == block_id)
                    &&& forall|b: u128|
                        b != block_id ==> final(self).spec_count(b) == old(self).spec_count(b)
                    &&& final(self).spec_count(block_id) == 0u64
                } else {
                    &&& r is Err
                    &&& r->Err_0 is FSError
                    &&& r->Err_0.spec_message() == "'"@ + filename@
                        + "': File creation has not started yet"@
                    &&& *final(self) == *old(self)
                }
            }),
    {
        let ghost pre = *self;
        match self.find_file(filename) {
            Some(i) => {
                let seq_no = self.files[i].next_seq;
                let next: u64 = if seq_no < u64::MAX {
                    seq_no + 1
                } else {
                    0
                };
                let entry = &mut self.files[i];
                entry.block_ids.push(block_id);
                entry.next_seq = next;
                proof {
                    lemma_file_block_added(pre, *self, i as int, block_id);
                }
                let ghost mid = *self;
                self.counts.push((block_id, 0));
                proof {
                    assert(mid.files == self.files);
                    lemma_count_pushed_zero(mid, *self, block_id);
                }
                Ok(seq_no)
            },
            None => {
                let msg = concat3("'", filename, "': File creation has not started yet");
                Err(CudddlyError::FSError(msg))
            },
        }
    }

    /// Forgets one reserved block id of `filename` (its replication counter
    /// stays); fails if the file is not in flight.
    pub fn remove_block(&mut self, filename: &str, block_id: u128) -> (r: CuddlyResult<()>)
        requires
            old(self).wf(),
        ensures
            final(self).wf(),
            final(self).counts == old(self).counts,
            ({
                if old(self).spec_in_flight(filename@) {
                    &&& r is Ok
                    &&& forall|name: Seq<char>|
                        final(self).spec_in_flight(name) == old(self).spec_in_flight(name)
                    &&& forall|name: Seq<char>|
                        name != filename@ && old(self).spec_in_flight(name) ==> final(self).spec_block_ids(name) == old(self).spec_block_ids(name) && final(self).spec_next_seq(name) == old(self).spec_next_seq(name)
                    &&& final(self).spec_block_ids(filename@) == remove_all(
                        old(self).spec_block_ids(filename@),
                        block_id,
                    )
                    &&& forall|b: u128|
                        final(self).spec_block_ids(filename@).contains(b) <==> (old(self).spec_block_ids(filename@).contains(b) && b != block_id)
                    &&& final(self).spec_next_seq(filename@) == old(self).spec_next_seq(filename@)
                } else {
                    &&& r is Err
                    &&& r->Err_0 is FSError
                    &&& r->Err_0.spec_message() == "'"@ + filename@
                        + "': File creation has not started yet"@
                    &&& *final(self) == *old(self)
                }
            }),
    {
        let ghost pre = *self;
        match self.find_file(filename) {
            Some(i) => {
                let kept = remove_block_id(&self.files[i].block_ids, block_id);
                let entry = &mut self.files[i];
                entry.block_ids = kept;
                proof {
                    lemma_file_blocks_replaced(pre, *self, i as int, block_id);
                }
                Ok(())
            },
            None => {
                let msg = concat3("'", filename, "': File creation has not started yet");
                Err(CudddlyError::FSError(msg))
            },
        }
    }
}

/// `s` with every occurrence of `x` removed; the kept elements stay in
/// their relative order.
pub open spec fn remove_all(s: Seq<u128>, x: u128) -> Seq<u128>
    decreases s.len(),
{
    if s.len() == 0 {
        s
    } else if s[0] == x {
        remove_all(s.drop_first(), x)
    } else {
        seq![s[0]] + remove_all(s.drop_first(), x)
    }
}

/// What `remove_all` keeps: exactly the other elements.
pub proof fn lemma_remove_all_contains_one(s: Seq<u128>, x: u128, y: u128)
    ensures
        remove_all(s, x).contains(y) <==> (s.contains(y) && y != x),
    decreases s.len(),
{
    if s.len() > 0 {
        lemma_remove_all_contains_one(s.drop_first(), x, y);
        let t = s.drop_first();
        if s[0] == x {
            assert(remove_all(s, x) == remove_all(t, x));
        } else {
            assert(remove_all(s, x) == seq![s[0]] + remove_all(t, x));
        }
        if remove_all(s, x).contains(y) {
            if s[0] == x {
                let v = choose|v: int| 0 <= v < t.len() && t[v] == y;
                assert(s[v + 1] == y);
                assert(s.contains(y));
            } else {
                let w = choose|w: int|
                    0 <= w < remove_all(s, x).len() && remove_all(s, x)[w] == y;
                if w == 0 {
                    assert(y == s[0]);
                    assert(s.contains(y));
                } else {
                    assert(remove_all(t, x)[w - 1] == y);
                    assert(remove_all(t, x).contains(y));
                    let v = choose|v: int| 0 <= v < t.len() && t[v] == y;
                    assert(s[v + 1] == y);
                    assert(s.contains(y));
                }
            }
        }
        if s.contains(y) && y != x {
            let w = choose|w: int| 0 <= w < s.len() && s[w] == y;
            if w == 0 {
                assert(s[0] != x);
                assert(remove_all(s, x)[0] == y);
                assert(remove_all(s, x).contains(y));
            } else {
                assert(t[w - 1] == y);
                assert(t.contains(y));
                assert(remove_all(t, x).contains(y));
                let v = choose|v: int|
                    0 <= v < remove_all(t, x).len() && remove_all(t, x)[v] == y;
                if s[0] == x {
                    assert(remove_all(s, x)[v] == y);
                } else {
                    assert(remove_all(s, x)[v + 1] == y);
                }
                assert(remove_all(s, x).contains(y));
            }
        }
    }
}

/// A copy of `ids` with every occurrence of `block_id` removed; the kept ids
/// stay in their reservation order.
fn remove_block_id(ids: &Vec<u128>, block_id: u128) -> (r: Vec<u128>)
    ensures
        r@ == remove_all(ids@, block_id),
        forall|x: u128| r@.contains(x) <==> (ids@.contains(x) && x != block_id),
{
    let mut r: Vec<u128> = Vec::new();
    let mut i: usize = 0;
    proof {
        assert(ids@.skip(0) =~= ids@);
        assert(r@ + remove_all(ids@.skip(0), block_id) =~= remove_all(ids@, block_id));
    }
    while i < ids.len()
        invariant
            i <= ids@.len(),
            remove_all(ids@, block_id) == r@ + remove_all(ids@.skip(i as int), block_id),
        decreases ids@.len() - i,
    {
        let cur = ids[i];
        let ghost prev = r@;
        let ghost rest = ids@.skip(i as int);
        proof {
            assert(rest[0] == cur);
            assert(rest.drop_first() =~= ids@.skip(i + 1));
        }
        if cur != block_id {
            r.push(cur);
            proof {
                assert(remove_all(rest, block_id) == seq![cur] + remove_all(
                    ids@.skip(i + 1),
                    block_id,
                ));
                assert(prev + (seq![cur] + remove_all(ids@.skip(i + 1), block_id)) =~= r@
                    + remove_all(ids@.skip(i + 1), block_id));
            }
        } else {
            proof {
                assert(remove_all(rest, block_id) == remove_all(ids@.skip(i + 1), block_id));
            }
        }
        i = i + 1;
    }
    proof {
        assert(ids@.skip(ids@.len() as int) =~= Seq::<u128>::empty());
        assert(r@ + Seq::<u128>::empty() =~= r@);
        assert forall|x: u128| r@.contains(x) <==> (ids@.contains(x) && x != block_id) by {
            lemma_remove_all_contains_one(ids@, block_id, x);
        }
    }
    r
}

/// After updating the counter pair at `i` (same key, new count).
proof fn lemma_count_updated(
    pre: NamenodeProgressTracker,
    post: NamenodeProgressTracker,
    i: int,
)
    requires
        pre.wf(),
        0 <= i < pre.counts@.len(),
        post.files == pre.files,
        post.counts@.len() == pre.counts@.len(),
        forall|j: int| 0 <= j < pre.counts@.len() && j != i ==> post.counts@[j] == pre.counts@[j],
        post.counts@[i].0 == pre.counts@[i].0,
    ensures
        post.wf(),
        forall|b: u128| post.spec_tracks(b) == pre.spec_tracks(b),
        forall|b: u128|
            b != pre.counts@[i].0 && pre.spec_tracks(b) ==> post.spec_count(b) == pre.spec_count(
                b,
            ),
        post.spec_count(pre.counts@[i].0) == post.counts@[i].1,
{
    let key = pre.counts@[i].0;
    assert forall|b: u128| post.spec_tracks(b) == pre.spec_tracks(b) by {
        if post.spec_tracks(b) {
            let w = choose|j: int| 0 <= j < post.counts@.len() && post.counts@[j].0 == b;
            assert(pre.counts@[w].0 == b);
        }
        if pre.spec_tracks(b) {
            let w = choose|j: int| 0 <= j < pre.counts@.len() && pre.counts@[j].0 == b;
            assert(post.counts@[w].0 == b);
        }
    }
    assert forall|b: u128|
        b != key && pre.spec_tracks(b) implies post.spec_count(b) == pre.spec_count(b) by {
        let w = choose|j: int| 0 <= j < pre.counts@.len() && pre.counts@[j].0 == b;
        let w2 = choose|j: int| 0 <= j < post.counts@.len() && post.counts@[j].0 == b;
        assert(pre.counts@[w2].0 == b);
        if w2 != w {
            assert(false);
        }
    }
    let w2 = choose|j: int| 0 <= j < post.counts@.len() && post.counts@[j].0 == key;
    assert(post.counts@[i].0 == key);
    if w2 != i {
        assert(pre.counts@[w2].0 == key);
        assert(false);
    }
}

/// After pushing a fresh counter pair `(block_id, 1)`.
proof fn lemma_count_pushed(
    pre: NamenodeProgressTracker,
    post: NamenodeProgressTracker,
    block_id: u128,
)
    requires
        pre.wf(),
        !pre.spec_tracks(block_id),
        post.files == pre.files,
        post.counts@ == pre.counts@.push((block_id, 1u64)),
    ensures
        post.wf(),
        forall|b: u128| post.spec_tracks(b) <==> (pre.spec_tracks(b) || b == block_id),
        forall|b: u128| b != block_id ==> post.spec_count(b) == pre.spec_count(b),
        post.spec_count(block_id) == 1u64,
{
    lemma_count_pushed_any(pre, post, block_id, 1u64);
}

/// After pushing a fresh counter pair `(block_id, 0)`.
proof fn lemma_count_pushed_zero(
    pre: NamenodeProgressTracker,
    post: NamenodeProgressTracker,
    block_id: u128,
)
    requires
        pre.wf(),
        !pre.spec_tracks(block_id),
        post.files == pre.files,
        post.counts@ == pre.counts@.push((block_id, 0u64)),
    ensures
        post.wf(),
        forall|b: u128| post.spec_tracks(b) <==> (pre.spec_tracks(b) || b == block_id),
        forall|b: u128| b != block_id ==> post.spec_count(b) == pre.spec_count(b),
        post.spec_count(block_id) == 0u64,
{
    lemma_count_pushed_any(pre, post, block_id, 0u64);
}

/// After pushing a fresh counter pair.
proof fn lemma_count_pushed_any(
    pre: NamenodeProgressTracker,
    post: NamenodeProgressTracker,
    block_id: u128,
    count: u64,
)
    requires
        pre.wf(),
        !pre.spec_tracks(block_id),
        post.files == pre.files,
        post.counts@ == pre.counts@.push((block_id, count)),
    ensures
        post.wf(),
        forall|b: u128| post.spec_tracks(b) <==> (pre.spec_tracks(b) || b == block_id),
        forall|b: u128| b != block_id ==> post.spec_count(b) == pre.spec_count(b),
        post.spec_count(block_id) == count,
{
    let m = pre.counts@.len() as int;
    assert(post.counts@[m] == (block_id, count));
    assert(forall|j: int| 0 <= j < m ==> post.counts@[j] == pre.counts@[j]);
    assert(post.wf()) by {
        assert forall|i: int, j: int|
            0 <= i < j < post.counts@.len() implies post.counts@[i].0 != post.counts@[j].0 by {
            if j == m {
                if post.counts@[i].0 == block_id {
                    assert(pre.counts@[i].0 == block_id);
                    assert(pre.spec_tracks(block_id));
                }
            }
        }
    }
    assert forall|b: u128| post.spec_tracks(b) <==> (pre.spec_tracks(b) || b == block_id) by {
        if post.spec_tracks(b) {
            let w = choose|j: int| 0 <= j < post.counts@.len() && post.counts@[j].0 == b;
            if w < m {
                assert(pre.counts@[w].0 == b);
            }
        }
        if pre.spec_tracks(b) {
            let w = choose|j: int| 0 <= j < pre.counts@.len() && pre.counts@[j].0 == b;
            assert(post.counts@[w].0 == b);
        }
        if b == block_id {
            assert(post.counts@[m].0 == block_id);
        }
    }
    assert forall|b: u128| b != block_id implies post.spec_count(b) == pre.spec_count(b) by {
        if pre.spec_tracks(b) {
            let w = choose|j: int| 0 <= j < pre.counts@.len() && pre.counts@[j].0 == b;
            let w2 = choose|j: int| 0 <= j < post.counts@.len() && post.counts@[j].0 == b;
            assert(post.counts@[w].0 == b);
            if w2 != w {
                if w2 == m {
                    assert(false);
                } else {
                    assert(pre.counts@[w2].0 == b);
                    assert(false);
                }
            }
        } else {
            if post.spec_tracks(b) {
                let w = choose|j: int| 0 <= j < post.counts@.len() && post.counts@[j].0 == b;
                if w < m {
                    assert(pre.counts@[w].0 == b);
                    assert(false);
                } else {
                    assert(false);
                }
            }
        }
    }
    let w2 = choose|j: int| 0 <= j < post.counts@.len() && post.counts@[j].0 == block_id;
    if w2 != m {
        assert(pre.counts@[w2].0 == block_id);
        assert(false);
    }
}

/// After `swap_remove` of the counter pair at `i`.
proof fn lemma_count_swap_removed(
    pre: NamenodeProgressTracker,
    post: NamenodeProgressTracker,
    i: int,
)
    requires
        pre.wf(),
        0 <= i < pre.counts@.len(),
        post.files == pre.files,
        post.counts@ == pre.counts@.update(i, pre.counts@.last()).drop_last(),
    ensures
        post.wf(),
        forall|b: u128| post.spec_tracks(b) <==> (pre.spec_tracks(b) && b != pre.counts@[i].0),
        forall|b: u128|
            b != pre.counts@[i].0 && pre.spec_tracks(b) ==> post.spec_count(b) == pre.spec_count(
                b,
            ),
{
    let key = pre.counts@[i].0;
    let m = pre.counts@.len() - 1;
    assert forall|j: int| 0 <= j < m implies post.counts@[j] == (if j == i {
        pre.counts@[m]
    } else {
        pre.counts@[j]
    }) by {}
    assert forall|b: u128|
        post.spec_tracks(b) <==> (pre.spec_tracks(b) && b != key) by {
        if post.spec_tracks(b) {
            let w = choose|j: int| 0 <= j < post.counts@.len() && post.counts@[j].0 == b;
            if w == i {
                assert(pre.counts@[m].0 == b);
                if m != i {
                    assert(b != key);
                }
            } else {
                assert(pre.counts@[w].0 == b);
                assert(b != key);
            }
        }
        if pre.spec_tracks(b) && b != key {
            let w = choose|j: int| 0 <= j < pre.counts@.len() && pre.counts@[j].0 == b;
            assert(w != i);
            if w == m {
                assert(i < m);
                assert(post.counts@[i].0 == b);
            } else {
                assert(post.counts@[w].0 == b);
            }
        }
    }
    assert forall|b: u128|
        b != key && pre.spec_tracks(b) implies post.spec_count(b) == pre.spec_count(b) by {
        let w = choose|j: int| 0 <= j < pre.counts@.len() && pre.counts@[j].0 == b;
        assert(w != i);
        let v = if w == m {
            i
        } else {
            w
        };
        assert(post.counts@[v].0 == b && post.counts@[v].1 == pre.counts@[w].1);
        let w2 = choose|j: int| 0 <= j < post.counts@.len() && post.counts@[j].0 == b;
        if w2 != v {
            if w2 == i {
                assert(pre.counts@[m].0 == b);
                assert(m == w);
            } else {
                assert(pre.counts@[w2].0 == b);
                assert(w2 == w);
            }
        }
    }
}

/// After pushing a fresh in-flight file with no blocks.
proof fn lemma_file_pushed(pre: NamenodeProgressTracker, post: NamenodeProgressTracker)
    requires
        pre.wf(),
        post.counts == pre.counts,
        post.files@.len() == pre.files@.len() + 1,
        forall|j: int| 0 <= j < pre.files@.len() ==> post.files@[j] == pre.files@[j],
        !pre.spec_in_flight(post.files@.last().filename@),
        post.files@.last().block_ids@.len() == 0,
        post.files@.last().next_seq == 0u64,
    ensures
        post.wf(),
        forall|name: Seq<char>|
            post.spec_in_flight(name) <==> (pre.spec_in_flight(name) || name
                == post.files@.last().filename@),
        forall|name: Seq<char>|
            pre.spec_in_flight(name) ==> post.spec_block_ids(name) == pre.spec_block_ids(name)
                && post.spec_next_seq(name) == pre.spec_next_seq(name),
        post.spec_block_ids(post.files@.last().filename@) == Seq::<u128>::empty(),
        post.spec_next_seq(post.files@.last().filename@) == 0u64,
{
    let m = pre.files@.len() as int;
    let fname = post.files@.last().filename@;
    assert(post.wf()) by {
        assert forall|i: int, j: int|
            0 <= i < j < post.files@.len() implies post.files@[i].filename@
            != post.files@[j].filename@ by {
            if j == m {
                if post.files@[i].filename@ == fname {
                    assert(pre.files@[i].filename@ == fname);
                    assert(pre.spec_in_flight(fname));
                }
            }
        }
    }
    assert forall|name: Seq<char>|
        post.spec_in_flight(name) <==> (pre.spec_in_flight(name) || name == fname) by {
        if post.spec_in_flight(name) {
            let w = choose|j: int| 0 <= j < post.files@.len() && post.files@[j].filename@ == name;
            if w < m {
                assert(pre.files@[w].filename@ == name);
            }
        }
        if pre.spec_in_flight(name) {
            let w = choose|j: int| 0 <= j < pre.files@.len() && pre.files@[j].filename@ == name;
            assert(post.files@[w].filename@ == name);
        }
        if name == fname {
            assert(post.files@[m].filename@ == fname);
        }
    }
    assert forall|name: Seq<char>|
        pre.spec_in_flight(name) implies post.spec_block_ids(name) == pre.spec_block_ids(name)
        && post.spec_next_seq(name) == pre.spec_next_seq(name) by {
        let w = pre.spec_file_index(name);
        assert(0 <= w < m && pre.files@[w].filename@ == name);
        assert(post.files@[w].filename@ == name);
        let w2 = post.spec_file_index(name);
        assert(0 <= w2 < post.files@.len() && post.files@[w2].filename@ == name);
        if w2 != w {
            if w2 < m {
                assert(pre.files@[w2].filename@ == name);
                assert(false);
            } else {
                assert(pre.spec_in_flight(fname));
                assert(false);
            }
        }
    }
    let wk = post.spec_file_index(fname);
    assert(post.files@[m].filename@ == fname);
    if wk != m {
        assert(pre.files@[wk].filename@ == fname);
        assert(false);
    }
}

/// After `swap_remove` of the in-flight file at `i`.
proof fn lemma_file_swap_removed(
    pre: NamenodeProgressTracker,
    post: NamenodeProgressTracker,
    i: int,
)
    requires
        pre.wf(),
        0 <= i < pre.files@.len(),
        post.counts == pre.counts,
        post.files@ == pre.files@.update(i, pre.files@.last()).drop_last(),
    ensures
        post.wf(),
        forall|name: Seq<char>|
            post.spec_in_flight(name) <==> (pre.spec_in_flight(name) && name
                != pre.files@[i].filename@),
        forall|name: Seq<char>|
            name != pre.files@[i].filename@ && pre.spec_in_flight(name) ==> post.spec_block_ids(
                name,
            ) == pre.spec_block_ids(name) && post.spec_next_seq(name) == pre.spec_next_seq(name),
        forall|b: u128| post.spec_tracks(b) == pre.spec_tracks(b),
        forall|b: u128| post.spec_count(b) == pre.spec_count(b),
{
    let key = pre.files@[i].filename@;
    let m = pre.files@.len() - 1;
    assert forall|j: int| 0 <= j < m implies post.files@[j] == (if j == i {
        pre.files@[m]
    } else {
        pre.files@[j]
    }) by {}
    assert forall|name: Seq<char>|
        post.spec_in_flight(name) <==> (pre.spec_in_flight(name) && name != key) by {
        if post.spec_in_flight(name) {
            let w = choose|j: int| 0 <= j < post.files@.len() && post.files@[j].filename@ == name;
            if w == i {
                assert(pre.files@[m].filename@ == name);
                if m != i {
                    assert(name != key);
                }
            } else {
                assert(pre.files@[w].filename@ == name);
                assert(name != key);
            }
        }
        if pre.spec_in_flight(name) && name != key {
            let w = choose|j: int| 0 <= j < pre.files@.len() && pre.files@[j].filename@ == name;
            assert(w != i);
            if w == m {
                assert(i < m);
                assert(post.files@[i].filename@ == name);
            } else {
                assert(post.files@[w].filename@ == name);
            }
        }
    }
    assert forall|name: Seq<char>|
        name != key && pre.spec_in_flight(name) implies post.spec_block_ids(name)
        == pre.spec_block_ids(name) && post.spec_next_seq(name) == pre.spec_next_seq(name) by {
        let w = pre.spec_file_index(name);
        assert(0 <= w < pre.files@.len() && pre.files@[w].filename@ == name);
        assert(w != i);
        let v = if w == m {
            i
        } else {
            w
        };
        assert(post.files@[v].filename@ == name);
        assert(post.files@[v] == pre.files@[w]);
        let w2 = post.spec_file_index(name);
        assert(0 <= w2 < post.files@.len() && post.files@[w2].filename@ == name);
        if w2 != v {
            if w2 == i {
                assert(pre.files@[m].filename@ == name);
                assert(m == w);
            } else {
                assert(pre.files@[w2].filename@ == name);
                assert(w2 == w);
            }
        }
    }
}

/// After pushing a block id onto the in-flight file at `i` and bumping its
/// sequence counter.
proof fn lemma_file_block_added(
    pre: NamenodeProgressTracker,
    post: NamenodeProgressTracker,
    i: int,
    block_id: u128,
)
    requires
        pre.wf(),
        0 <= i < pre.files@.len(),
        post.counts == pre.counts,
        post.files@.len() == pre.files@.len(),
        forall|j: int| 0 <= j < pre.files@.len() && j != i ==> post.files@[j] == pre.files@[j],
        post.files@[i].filename@ == pre.files@[i].filename@,
        post.files@[i].block_ids@ == pre.files@[i].block_ids@.push(block_id),
    ensures
        post.wf(),
        forall|name: Seq<char>| post.spec_in_flight(name) == pre.spec_in_flight(name),
        forall|name: Seq<char>|
            name != pre.files@[i].filename@ && pre.spec_in_flight(name) ==> post.spec_block_ids(
                name,
            ) == pre.spec_block_ids(name) && post.spec_next_seq(name) == pre.spec_next_seq(name),
        post.spec_block_ids(pre.files@[i].filename@) == pre.spec_block_ids(
            pre.files@[i].filename@,
        ).push(block_id),
        post.spec_next_seq(pre.files@[i].filename@) == post.files@[i].next_seq,
        pre.spec_next_seq(pre.files@[i].filename@) == pre.files@[i].next_seq,
    {
    let key = pre.files@[i].filename@;
    assert forall|name: Seq<char>| post.spec_in_flight(name) == pre.spec_in_flight(name) by {
        if post.spec_in_flight(name) {
            let w = choose|j: int| 0 <= j < post.files@.len() && post.files@[j].filename@ == name;
            assert(pre.files@[w].filename@ == name);
        }
        if pre.spec_in_flight(name) {
            let w = choose|j: int| 0 <= j < pre.files@.len() && pre.files@[j].filename@ == name;
            assert(post.files@[w].filename@ == name);
        }
    }
    assert forall|name: Seq<char>|
        name != key && pre.spec_in_flight(name) implies post.spec_block_ids(name)
        == pre.spec_block_ids(name) && post.spec_next_seq(name) == pre.spec_next_seq(name) by {
        let w = pre.spec_file_index(name);
        assert(0 <= w < pre.files@.len() && pre.files@[w].filename@ == name);
        assert(w != i);
        assert(post.files@[w].filename@ == name);
        let w2 = post.spec_file_index(name);
        assert(pre.files@[w2].filename@ == name);
        if w2 != w {
            assert(false);
        }
    }
    let w = pre.spec_file_index(key);
    assert(pre.files@[i].filename@ == key);
    if w != i {
        assert(pre.files@[w].filename@ == key);
        assert(false);
    }
    let w2 = post.spec_file_index(key);
    assert(post.files@[i].filename@ == key);
    if w2 != i {
        assert(pre.files@[w2].filename@ == key);
        assert(false);
    }
}

/// After replacing the block id list of the in-flight file at `i`.
proof fn lemma_file_blocks_replaced(
    pre: NamenodeProgressTracker,
    post: NamenodeProgressTracker,
    i: int,
    block_id: u128,
)
    requires
        pre.wf(),
        0 <= i < pre.files@.len(),
        post.counts == pre.counts,
        post.files@.len() == pre.files@.len(),
        forall|j: int| 0 <= j < pre.files@.len() && j != i ==> post.files@[j] == pre.files@[j],
        post.files@[i].filename@ == pre.files@[i].filename@,
        post.files@[i].next_seq == pre.files@[i].next_seq,
        forall|x: u128|
            post.files@[i].block_ids@.contains(x) <==> (pre.files@[i].block_ids@.contains(x) && x
                != block_id),
    ensures
        post.wf(),
        forall|name: Seq<char>| post.spec_in_flight(name) == pre.spec_in_flight(name),
        forall|name: Seq<char>|
            name != pre.files@[i].filename@ && pre.spec_in_flight(name) ==> post.spec_block_ids(
                name,
            ) == pre.spec_block_ids(name) && post.spec_next_seq(name) == pre.spec_next_seq(name),
        forall|x: u128|
            post.spec_block_ids(pre.files@[i].filename@).contains(x) <==> (pre.spec_block_ids(
                pre.files@[i].filename@,
            ).contains(x) && x != block_id),
        post.spec_next_seq(pre.files@[i].filename@) == pre.spec_next_seq(pre.files@[i].filename@),
        post.spec_block_ids(pre.files@[i].filename@) == post.files@[i].block_ids@,
        pre.spec_block_ids(pre.files@[i].filename@) == pre.files@[i].block_ids@,
{
    let key = pre.files@[i].filename@;
    assert forall|name: Seq<char>| post.spec_in_flight(name) == pre.spec_in_flight(name) by {
        if post.spec_in_flight(name) {
            let w = choose|j: int| 0 <= j < post.files@.len() && post.files@[j].filename@ == name;
            assert(pre.files@[w].filename@ == name);
        }
        if pre.spec_in_flight(name) {
            let w = choose|j: int| 0 <= j < pre.files@.len() && pre.files@[j].filename@ == name;
            assert(post.files@[w].filename@ == name);
        }
    }
    assert forall|name: Seq<char>|
        name != key && pre.spec_in_flight(name) implies post.spec_block_ids(name)
        == pre.spec_block_ids(name) && post.spec_next_seq(name) == pre.spec_next_seq(name) by {
        let w = pre.spec_file_index(name);
        assert(0 <= w < pre.files@.len() && pre.files@[w].filename@ == name);
        assert(w != i);
        assert(post.files@[w].filename@ == name);
        let w2 = post.spec_file_index(name);
        assert(pre.files@[w2].filename@ == name);
        if w2 != w {
            assert(false);
        }
    }
    let w = pre.spec_file_index(key);
    if w != i {
        assert(pre.files@[w].filename@ == key);
        assert(false);
    }
    let w2 = post.spec_file_index(key);
    if w2 != i {
        assert(pre.files@[w2].filename@ == key);
        assert(false);
    }
}

} // verus!
