//! The coordinator's registry: one object holding the namespace, the
//! block⇄replica bimap, the in-flight write tracker, the heartbeat cache and
//! the ghost journal, with the rules that glue them together.
//!
//! Its invariant carries the system's safety properties: the two sides of
//! the bimap agree, a path is never both in flight and committed, the
//! replication counters never overstate the replica sets (until a server is
//! evicted), and the journal replays to the current namespace.

use vstd::prelude::*;
use crate::block::Block;
use crate::datanode_info::DatanodeInfo;
use crate::editlog::{model_addfile_ok, model_mkdir_ok, op_path_segs, replay, EditOperation};
use crate::errors::{CudddlyError, CuddlyResult};
use crate::hex::u128_to_hex;
use crate::maps::KeyToDataAndIdMap;
use crate::namespace::{file_in, mkdir_outcome, MkdirStep, NamenodeState};
use crate::namespace::lemma_mkdir_outcome_iff;
use crate::outside_world::{
    fresh_id, lru_contents, lru_entries, lru_new, lru_pop, lru_put, now_seconds,
    shuffle_datanodes, HeartbeatCache,
};
use crate::paths::{is_valid_filename, spec_split, split_path, starts_with_root_directory};
use crate::progress::NamenodeProgressTracker;
use crate::strutil::concat3;

verus! {

/// Capacity of the heartbeat cache.
pub const CACHE_SIZE: usize = 100;

/// Seconds of silence after which a server is considered dead.
pub const HEARTBEAT_TIMEOUT: i64 = 600;

/// Seconds between liveness sweeps (used by the hosting process).
pub const HEARTBEAT_RECHECK_INTERVAL: u64 = 20;

/// Whether a heartbeat stamped `stamp` has gone stale by clock time `now`.
pub open spec fn spec_stale(now: i64, stamp: i64) -> bool {
    (now as int) - (stamp as int) > (HEARTBEAT_TIMEOUT as int)
}

/// A server's self-identification inside a heartbeat.
pub struct HeartbeatRegistration {
    pub datanode_uuid: Option<u128>,
    pub address: String,
}

/// One capacity report inside a heartbeat.
pub struct StorageReport {
    pub capacity: u64,
    pub dfs_used: u64,
}

/// The coordinator's answer to a heartbeat (the coordinator is always the
/// active one in a single-coordinator deployment).
pub struct HeartbeatResponse {
    pub success: bool,
    pub active: bool,
    pub txid: u128,
    pub message: String,
}

/// The coordinator's whole mutable state.
pub struct DataRegistry {
    pub heartbeat_cache: HeartbeatCache,
    pub block_to_datanodes: KeyToDataAndIdMap<Block>,
    pub datanode_to_blocks: KeyToDataAndIdMap<DatanodeInfo>,
    pub namenode_progress_tracker: NamenodeProgressTracker,
    pub fs_directory: NamenodeState,
    pub block_size: u64,
    pub replication_factor: u64,
    pub journal: Ghost<Seq<EditOperation>>,
    pub evicted: Ghost<bool>,
}

impl DataRegistry {
    /// A server is alive while its last heartbeat is in the cache.
    pub open spec fn spec_alive(self, s: u128) -> bool {
        lru_contents(self.heartbeat_cache).contains_key(s)
    }

    /// The registry's invariant; every public operation preserves it.
    pub open spec fn inv(self) -> bool {
        &&& self.block_to_datanodes.wf()
        &&& self.datanode_to_blocks.wf()
        &&& self.namenode_progress_tracker.wf()
        &&& self.fs_directory.wf()
        // the two sides of the block⇄server bimap agree
        &&& forall|b: u128, s: u128|
            #[trigger] self.block_to_datanodes.spec_has_id(b, s)
                <==> self.datanode_to_blocks.spec_has_id(s, b)
        // replica holders are registered servers
        &&& forall|b: u128, s: u128|
            #[trigger] self.block_to_datanodes.spec_has_id(b, s)
                ==> self.datanode_to_blocks.spec_contains_key(s)
        // a server's record is filed under its own identifier
        &&& forall|s: u128|
            #[trigger] self.datanode_to_blocks.spec_contains_key(s)
                ==> self.datanode_to_blocks.spec_data(s).datanode_uuid == s
        // cached heartbeats belong to registered servers
        &&& forall|s: u128|
            #[trigger] lru_contents(self.heartbeat_cache).contains_key(s)
                ==> self.datanode_to_blocks.spec_contains_key(s)
        // an in-flight path is absolute and never committed
        &&& forall|n: Seq<char>|
            #[trigger] self.namenode_progress_tracker.spec_in_flight(n) ==> n.len() > 0 && n[0]
                == '/' && !self.fs_directory.is_file_path(op_path_segs(n))
        // replication counters never overstate the replica sets, as long as
        // no server has been evicted
        &&& (!self.evicted@ ==> forall|b: u128|
            #[trigger] self.namenode_progress_tracker.spec_count(b) as nat
                <= self.block_to_datanodes.spec_num_ids(b))
        // the journal replays to the current namespace
        &&& forall|p: Seq<Seq<char>>|
            #[trigger] replay(self.journal@).dirs.contains(p) <==> self.fs_directory.is_dir_path(
                p,
            )
        &&& forall|p: Seq<Seq<char>>|
            #[trigger] replay(self.journal@).files.dom().contains(p)
                <==> self.fs_directory.is_file_path(p)
        &&& forall|p: Seq<Seq<char>>|
            self.fs_directory.is_file_path(p) ==> #[trigger] replay(self.journal@).files[p]
                == self.fs_directory.file_blocks(p)
    }

    /// A fresh registry: empty namespace, no servers, no blocks, empty
    /// journal.
    pub fn new(block_size: u64, replication_factor: u64) -> (r: DataRegistry)
        ensures
            r.inv(),
            r.journal@ == Seq::<EditOperation>::empty(),
            r.block_size == block_size,
            r.replication_factor == replication_factor,
            forall|p: Seq<Seq<char>>| r.fs_directory.is_dir_path(p) <==> p.len() == 0,
            forall|p: Seq<Seq<char>>| !r.fs_directory.is_file_path(p),
            forall|n: Seq<char>| !r.namenode_progress_tracker.spec_in_flight(n),
            forall|s: u128| !r.spec_alive(s),
            forall|b: u128| !r.block_to_datanodes.spec_contains_key(b),
    {
        let r = DataRegistry {
            heartbeat_cache: lru_new(CACHE_SIZE),
            block_to_datanodes: KeyToDataAndIdMap::new(),
            datanode_to_blocks: KeyToDataAndIdMap::new(),
            namenode_progress_tracker: NamenodeProgressTracker::new(),
            fs_directory: NamenodeState::new(),
            block_size,
            replication_factor,
            journal: Ghost(Seq::empty()),
            evicted: Ghost(false),
        };
        proof {
            assert(replay(r.journal@).dirs =~= Set::new(|p: Seq<Seq<char>>| p.len() == 0));
            assert(replay(r.journal@).files.dom() =~= Set::<Seq<Seq<char>>>::empty());
        }
        r
    }

    /// Checks a `make_dir` walk against the committed files without touching
    /// anything.
    fn mkdir_precheck(&self, parts: &Vec<String>) -> (r: CuddlyResult<()>)
        requires
            self.fs_directory.wf(),
        ensures
            ({
                let segs = parts.deep_view();
                match mkdir_outcome(self.fs_directory.files@, segs, 0) {
                    MkdirStep::MkDone => r is Ok,
                    MkdirStep::MkEmpty(i) => r is Err && r->Err_0 is FSError
                        && r->Err_0.spec_message() == "Directory name cannot be empty"@,
                    MkdirStep::MkInvalid(i) => r is Err && r->Err_0 is FSError
                        && r->Err_0.spec_message() == "'"@ + segs[i]
                        + "' is not a valid directory name."@,
                    MkdirStep::MkNotDir(i) => r is Err && r->Err_0 is FSError
                        && r->Err_0.spec_message() == "'"@ + segs[i - 1] + "' s not a directory"@,
                }
            }),
    {
        let ghost segs = parts.deep_view();
        let n = parts.len();
        let mut idx: usize = 0;
        while idx < n
            invariant
                self.fs_directory.wf(),
                segs == parts.deep_view(),
                n == parts@.len(),
                idx <= n,
                mkdir_outcome(self.fs_directory.files@, segs, 0) == mkdir_outcome(
                    self.fs_directory.files@,
                    segs,
                    idx as int,
                ),
            decreases n - idx,
        {
            proof {
                assert(segs[idx as int] == parts@[idx as int]@);
                assert(segs.len() == parts@.len());
            }
            if parts[idx].as_str().is_empty() {
                return Err(CudddlyError::FSError("Directory name cannot be empty".to_owned()));
            }
            if !is_valid_filename(parts[idx].as_str()) {
                let msg = concat3("'", parts[idx].as_str(), "' is not a valid directory name.");
                return Err(CudddlyError::FSError(msg));
            }
            if idx >= 1 {
                if self.fs_directory.find_file_prefix(parts, idx).is_some() {
                    proof {
                        assert(segs[idx - 1] == parts@[idx - 1]@);
                    }
                    let msg = concat3("'", parts[idx - 1].as_str(), "' s not a directory");
                    return Err(CudddlyError::FSError(msg));
                }
            }
            idx = idx + 1;
        }
        Ok(())
    }

    /// Creates the directories along `path` and returns the journal record;
    /// nothing changes when the walk is rejected.
    pub fn make_dir(&mut self, path: &str) -> (r: CuddlyResult<EditOperation>)
        requires
            old(self).inv(),
        ensures
            final(self).inv(),
            final(self).heartbeat_cache == old(self).heartbeat_cache,
            final(self).block_to_datanodes == old(self).block_to_datanodes,
            final(self).datanode_to_blocks == old(self).datanode_to_blocks,
            final(self).namenode_progress_tracker == old(self).namenode_progress_tracker,
            final(self).fs_directory.files@ == old(self).fs_directory.files@,
            final(self).evicted == old(self).evicted,
            final(self).block_size == old(self).block_size,
            final(self).replication_factor == old(self).replication_factor,
            ({
                if path@.len() == 0 || path@[0] != '/' {
                    &&& r is Err
                    &&& r->Err_0 is FSError
                    &&& r->Err_0.spec_message() == "Has to start with root directory"@
                    &&& *final(self) == *old(self)
                } else {
                    let segs = op_path_segs(path@);
                    match mkdir_outcome(old(self).fs_directory.files@, segs, 0) {
                        MkdirStep::MkDone => {
                            &&& r is Ok
                            &&& r->Ok_0 is Mkdir
                            &&& r->Ok_0->Mkdir_0@ == path@
                            &&& final(self).journal@ == old(self).journal@.push(r->Ok_0)
                            &&& final(self).fs_directory.dirs_extended_by(
                                old(self).fs_directory,
                                segs,
                                segs.len() as int,
                            )
                        },
                        MkdirStep::MkEmpty(i) => {
                            &&& r is Err
                            &&& r->Err_0 is FSError
                            &&& r->Err_0.spec_message() == "Directory name cannot be empty"@
                            &&& *final(self) == *old(self)
                        },
                        MkdirStep::MkInvalid(i) => {
                            &&& r is Err
                            &&& r->Err_0 is FSError
                            &&& r->Err_0.spec_message() == "'"@ + segs[i]
                                + "' is not a valid directory name."@
                            &&& *final(self) == *old(self)
                        },
                        MkdirStep::MkNotDir(i) => {
                            &&& r is Err
                            &&& r->Err_0 is FSError
                            &&& r->Err_0.spec_message() == "'"@ + segs[i - 1]
                                + "' s not a directory"@
                            &&& *final(self) == *old(self)
                        },
                    }
                }
            }),
    {
        let stripped = match starts_with_root_directory(path) {
            Ok(s) => s,
            Err(e) => {
                return Err(e);
            },
        };
        let parts = split_path(stripped);
        let ghost segs = op_path_segs(path@);
        proof {
            assert(parts.deep_view() == segs);
        }
        if let Err(e) = self.mkdir_precheck(&parts) {
            return Err(e);
        }
        let ghost pre = *self;
        let inner = self.fs_directory.make_dir(path);
        proof {
            assert(inner is Ok);
        }
        let op = EditOperation::Mkdir(path.to_owned());
        self.journal = Ghost(pre.journal@.push(op));
        proof {
            let m0 = replay(pre.journal@);
            let m1 = crate::editlog::model_step(m0, op);
            assert(pre.journal@.push(op).drop_last() =~= pre.journal@);
            assert(pre.journal@.push(op).last() == op);
            assert(replay(pre.journal@.push(op)) == m1);
            lemma_mkdir_outcome_iff(pre.fs_directory.files@, segs, 0);
            assert(model_mkdir_ok(m0, segs)) by {
                assert forall|t: int|
                    1 <= t < segs.len() implies !m0.files.dom().contains(
                    #[trigger] segs.take(t),
                ) by {
                    assert(!file_in(pre.fs_directory.files@, segs.take(t)));
                }
            }
            assert(m1.files == m0.files);
            assert forall|p: Seq<Seq<char>>| #[trigger]
                m1.dirs.contains(p) <==> self.fs_directory.is_dir_path(p) by {
                assert(self.fs_directory.is_dir_path(p) <==> (pre.fs_directory.is_dir_path(p) || (
                exists|t: int|
                    1 <= t <= segs.len() && p == segs.take(t) && !file_in(
                        pre.fs_directory.files@,
                        p,
                    ))));
                assert(m1.dirs.contains(p) <==> (m0.dirs.contains(p) || (exists|t: int|
                    1 <= t <= segs.len() && p == segs.take(t) && !m0.files.dom().contains(p))));
                if exists|t: int|
                    1 <= t <= segs.len() && p == segs.take(t) && !file_in(
                        pre.fs_directory.files@,
                        p,
                    ) {
                    let t = choose|t: int|
                        1 <= t <= segs.len() && p == segs.take(t) && !file_in(
                            pre.fs_directory.files@,
                            p,
                        );
                    assert(!m0.files.dom().contains(p));
                }
                if exists|t: int|
                    1 <= t <= segs.len() && p == segs.take(t) && !m0.files.dom().contains(p) {
                    let t = choose|t: int|
                        1 <= t <= segs.len() && p == segs.take(t) && !m0.files.dom().contains(p);
                    assert(!file_in(pre.fs_directory.files@, p));
                }
            }
        }
        Ok(op)
    }
}

/// Saturating add on capacities.
pub open spec fn spec_sat_add(a: u64, b: u64) -> u64 {
    if a + b > u64::MAX {
        u64::MAX
    } else {
        (a + b) as u64
    }
}

/// Total reported capacity of a heartbeat, saturating.
pub open spec fn spec_sum_capacity(rs: Seq<StorageReport>) -> u64
    decreases rs.len(),
{
    if rs.len() == 0 {
        0
    } else {
        spec_sat_add(spec_sum_capacity(rs.drop_last()), rs.last().capacity)
    }
}

/// Total reported used bytes of a heartbeat, saturating.
pub open spec fn spec_sum_used(rs: Seq<StorageReport>) -> u64
    decreases rs.len(),
{
    if rs.len() == 0 {
        0
    } else {
        spec_sat_add(spec_sum_used(rs.drop_last()), rs.last().dfs_used)
    }
}

/// Sums the capacity figures of the reports, saturating at the integer top.
fn sum_reports(rs: &Vec<StorageReport>) -> (r: (u64, u64))
    ensures
        r.0 == spec_sum_capacity(rs@),
        r.1 == spec_sum_used(rs@),
{
    let mut total: u64 = 0;
    let mut used: u64 = 0;
    let mut i: usize = 0;
    proof {
        assert(rs@.take(0) =~= Seq::<StorageReport>::empty());
    }
    while i < rs.len()
        invariant
            i <= rs@.len(),
            total == spec_sum_capacity(rs@.take(i as int)),
            used == spec_sum_used(rs@.take(i as int)),
        decreases rs@.len() - i,
    {
        proof {
            assert(rs@.take(i + 1).drop_last() =~= rs@.take(i as int));
            assert(rs@.take(i + 1).last() == rs@[i as int]);
        }
        let c = rs[i].capacity;
        let u = rs[i].dfs_used;
        total = if total > u64::MAX - c {
            u64::MAX
        } else {
            total + c
        };
        used = if used > u64::MAX - u {
            u64::MAX
        } else {
            used + u
        };
        i = i + 1;
    }
    proof {
        assert(rs@.take(rs@.len() as int) =~= rs@);
    }
    (total, used)
}

/// A field-for-field copy of a server description.
fn clone_info(d: &DatanodeInfo) -> (r: DatanodeInfo)
    ensures
        r == *d,
{
    DatanodeInfo {
        address: d.address.clone(),
        datanode_uuid: d.datanode_uuid,
        total_capacity: d.total_capacity,
        used_capacity: d.used_capacity,
    }
}

impl DataRegistry {
    /// Ingests one heartbeat at clock time `now`: refreshes the server's
    /// liveness entry and its capacity figures.  A registration without an
    /// identifier is rejected and changes nothing.
    pub fn handle_heartbeat_at(
        &mut self,
        registration: &HeartbeatRegistration,
        reports: &Vec<StorageReport>,
        now: i64,
    ) -> (r: HeartbeatResponse)
        requires
            old(self).inv(),
        ensures
            final(self).inv(),
            final(self).fs_directory == old(self).fs_directory,
            final(self).namenode_progress_tracker == old(self).namenode_progress_tracker,
            final(self).block_to_datanodes == old(self).block_to_datanodes,
            final(self).journal == old(self).journal,
            final(self).evicted == old(self).evicted,
            final(self).block_size == old(self).block_size,
            final(self).replication_factor == old(self).replication_factor,
            ({
                match registration.datanode_uuid {
                    Some(id) => {
                        &&& r.success == true
                        &&& r.active == true
                        &&& r.message@ == "Ok"@
                        &&& lru_contents(final(self).heartbeat_cache).contains_pair(id, now)
                        &&& forall|k: u128| #[trigger]
                            lru_contents(final(self).heartbeat_cache).contains_key(k) ==> k == id
                                || (lru_contents(old(self).heartbeat_cache).contains_key(k)
                                && lru_contents(final(self).heartbeat_cache)[k] == lru_contents(
                                old(self).heartbeat_cache,
                            )[k])
                        &&& final(self).datanode_to_blocks.spec_contains_key(id)
                        &&& final(self).datanode_to_blocks.spec_data(id) == (DatanodeInfo {
                            address: registration.address,
                            datanode_uuid: id,
                            total_capacity: spec_sum_capacity(reports@),
                            used_capacity: spec_sum_used(reports@),
                        })
                        &&& forall|k: u128|
                            final(self).datanode_to_blocks.spec_contains_key(k) <==> (old(self).datanode_to_blocks.spec_contains_key(k) || k == id)
                        &&& forall|k: u128, b: u128|
                            final(self).datanode_to_blocks.spec_has_id(k, b) == old(self).datanode_to_blocks.spec_has_id(k, b)
                        &&& forall|k: u128|
                            k != id && old(self).datanode_to_blocks.spec_contains_key(k) ==> final(self).datanode_to_blocks.spec_data(k) == old(self).datanode_to_blocks.spec_data(k)
                    },
                    None => {
                        &&& r.success == false
                        &&& r.message@ == "Request doesn't have UUID of node"@
                        &&& *final(self) == *old(self)
                    },
                }
            }),
    {
        match registration.datanode_uuid {
            Some(id) => {
                let _previous = lru_put(&mut self.heartbeat_cache, id, now);
                let (total, used) = sum_reports(reports);
                let info = DatanodeInfo {
                    address: registration.address.clone(),
                    datanode_uuid: id,
                    total_capacity: total,
                    used_capacity: used,
                };
                self.datanode_to_blocks.update_data(id, info);
                HeartbeatResponse {
                    success: true,
                    active: true,
                    txid: fresh_id(),
                    message: "Ok".to_owned(),
                }
            },
            None => HeartbeatResponse {
                success: false,
                active: true,
                txid: fresh_id(),
                message: "Request doesn't have UUID of node".to_owned(),
            },
        }
    }

    /// Ingests one heartbeat at the current wall-clock time.
    pub fn handle_heartbeat(
        &mut self,
        registration: &HeartbeatRegistration,
        reports: &Vec<StorageReport>,
    ) -> (r: HeartbeatResponse)
        requires
            old(self).inv(),
        ensures
            final(self).inv(),
            final(self).fs_directory == old(self).fs_directory,
            final(self).namenode_progress_tracker == old(self).namenode_progress_tracker,
            final(self).block_to_datanodes == old(self).block_to_datanodes,
            final(self).journal == old(self).journal,
            final(self).evicted == old(self).evicted,
            r.success == registration.datanode_uuid is Some,
            ({
                match registration.datanode_uuid {
                    Some(id) => {
                        // the clock value is the outside call's; everything
                        // else is pinned exactly
                        &&& r.active == true
                        &&& r.message@ == "Ok"@
                        &&& exists|t: i64|
                            lru_contents(final(self).heartbeat_cache).contains_pair(id, t)
                        &&& forall|k: u128| #[trigger]
                            lru_contents(final(self).heartbeat_cache).contains_key(k) ==> k == id
                                || (lru_contents(old(self).heartbeat_cache).contains_key(k)
                                && lru_contents(final(self).heartbeat_cache)[k] == lru_contents(
                                old(self).heartbeat_cache,
                            )[k])
                        &&& final(self).datanode_to_blocks.spec_contains_key(id)
                        &&& final(self).datanode_to_blocks.spec_data(id) == (DatanodeInfo {
                            address: registration.address,
                            datanode_uuid: id,
                            total_capacity: spec_sum_capacity(reports@),
                            used_capacity: spec_sum_used(reports@),
                        })
                        &&& forall|k: u128|
                            final(self).datanode_to_blocks.spec_contains_key(k) <==> (old(self).datanode_to_blocks.spec_contains_key(k) || k == id)
                        &&& forall|k: u128, b: u128|
                            final(self).datanode_to_blocks.spec_has_id(k, b) == old(self).datanode_to_blocks.spec_has_id(k, b)
                        &&& forall|k: u128|
                            k != id && old(self).datanode_to_blocks.spec_contains_key(k) ==> final(self).datanode_to_blocks.spec_data(k) == old(self).datanode_to_blocks.spec_data(k)
                    },
                    None => {
                        &&& r.message@ == "Request doesn't have UUID of node"@
                        &&& *final(self) == *old(self)
                    },
                }
            }),
    {
        let now = now_seconds();
        let response = self.handle_heartbeat_at(registration, reports, now);
        proof {
            if registration.datanode_uuid is Some {
                let id = registration.datanode_uuid->0;
                assert(lru_contents(self.heartbeat_cache).contains_pair(id, now));
            }
        }
        response
    }

    /// Records that a registered server holds a replica of `block`.  A report
    /// from an unregistered server is rejected and changes nothing.
    pub fn block_received(&mut self, node_id: u128, block: &Block) -> (r: CuddlyResult<()>)
        requires
            old(self).inv(),
        ensures
            final(self).inv(),
            final(self).fs_directory == old(self).fs_directory,
            final(self).heartbeat_cache == old(self).heartbeat_cache,
            final(self).journal == old(self).journal,
            final(self).evicted == old(self).evicted,
            final(self).block_size == old(self).block_size,
            final(self).replication_factor == old(self).replication_factor,
            ({
                if !old(self).datanode_to_blocks.spec_contains_key(node_id) {
                    &&& r is Err
                    &&& r->Err_0 is FSError
                    &&& *final(self) == *old(self)
                } else {
                    &&& r is Ok
                    &&& forall|b2: u128, s2: u128|
                        final(self).block_to_datanodes.spec_has_id(b2, s2) <==> (old(self).block_to_datanodes.spec_has_id(b2, s2) || (b2 == block.id && s2
                            == node_id))
                    &&& forall|b2: u128|
                        final(self).block_to_datanodes.spec_contains_key(b2) <==> (old(self).block_to_datanodes.spec_contains_key(b2) || b2 == block.id)
                    &&& forall|b2: u128|
                        old(self).block_to_datanodes.spec_contains_key(b2) ==> final(self).block_to_datanodes.spec_data(b2) == old(self).block_to_datanodes.spec_data(
                            b2,
                        )
                    &&& (!old(self).block_to_datanodes.spec_contains_key(block.id) ==> final(self).block_to_datanodes.spec_data(block.id) == *block)
                    &&& forall|n: Seq<char>|
                        final(self).namenode_progress_tracker.spec_in_flight(n) == old(self).namenode_progress_tracker.spec_in_flight(n)
                    &&& (if !old(self).block_to_datanodes.spec_has_id(block.id, node_id) {
                        final(self).namenode_progress_tracker.spec_count(block.id) as int == (
                        if old(self).namenode_progress_tracker.spec_count(block.id) < u64::MAX {
                            old(self).namenode_progress_tracker.spec_count(block.id) + 1
                        } else {
                            u64::MAX as int
                        })
                    } else {
                        final(self).namenode_progress_tracker == old(self).namenode_progress_tracker
                    })
                    &&& forall|b2: u128|
                        b2 != block.id ==> final(self).namenode_progress_tracker.spec_count(b2)
                            == old(self).namenode_progress_tracker.spec_count(b2)
                }
            }),
    {
        if !self.datanode_to_blocks.contains_key(&node_id) {
            let hexid = u128_to_hex(node_id);
            let msg = concat3(
                "Block received from unregistered datanode '",
                hexid.as_str(),
                "'.",
            );
            return Err(CudddlyError::FSError(msg));
        }
        let ghost s0 = *self;
        let new_reported = self.block_to_datanodes.insert_id_for_key(block.id, *block, node_id);
        let ghost s1 = *self;
        if new_reported {
            self.namenode_progress_tracker.increment_replication(block.id);
        }
        let ghost s2 = *self;
        let _present = self.datanode_to_blocks.insert_id_for_key_if_present(node_id, block.id);
        proof {
            assert(_present);
            assert(self.inv()) by {
                assert forall|b: u128, s: u128|
                    #[trigger] self.block_to_datanodes.spec_has_id(b, s)
                        <==> self.datanode_to_blocks.spec_has_id(s, b) by {
                    assert(self.block_to_datanodes.spec_has_id(b, s) <==> (
                    s0.block_to_datanodes.spec_has_id(b, s) || (b == block.id && s == node_id)));
                    assert(self.datanode_to_blocks.spec_has_id(s, b) <==> (
                    s0.datanode_to_blocks.spec_has_id(s, b) || (s == node_id && b == block.id)));
                }
                assert forall|b: u128, s: u128|
                    #[trigger] self.block_to_datanodes.spec_has_id(b, s)
                        implies self.datanode_to_blocks.spec_contains_key(s) by {
                    if s0.block_to_datanodes.spec_has_id(b, s) {
                        assert(s0.datanode_to_blocks.spec_contains_key(s));
                    }
                }
                if !self.evicted@ {
                    assert forall|b: u128|
                        #[trigger] self.namenode_progress_tracker.spec_count(b) as nat
                            <= self.block_to_datanodes.spec_num_ids(b) by {
                        if b != block.id {
                            assert(self.namenode_progress_tracker.spec_count(b)
                                == s0.namenode_progress_tracker.spec_count(b));
                            assert(self.block_to_datanodes.spec_num_ids(b)
                                == s0.block_to_datanodes.spec_num_ids(b));
                        } else {
                            if new_reported {
                                assert(s1.block_to_datanodes.spec_num_ids(block.id)
                                    == s0.block_to_datanodes.spec_num_ids(block.id) + 1);
                            } else {
                                assert(self.namenode_progress_tracker.spec_count(b)
                                    == s0.namenode_progress_tracker.spec_count(b));
                            }
                        }
                    }
                }
                assert forall|n: Seq<char>|
                    #[trigger] self.namenode_progress_tracker.spec_in_flight(n)
                        implies n.len() > 0 && n[0] == '/' && !self.fs_directory.is_file_path(
                        op_path_segs(n),
                    ) by {
                    assert(s0.namenode_progress_tracker.spec_in_flight(n));
                }
            }
        }
        Ok(())
    }

    /// `v` is a faithful snapshot of the alive servers: every entry is an
    /// alive registered server with its current record, every alive server
    /// appears, and no server appears twice.
    pub open spec fn alive_snapshot_ok(self, v: Seq<DatanodeInfo>) -> bool {
        &&& forall|i: int|
            0 <= i < v.len() ==> self.spec_alive((#[trigger] v[i]).datanode_uuid)
                && self.datanode_to_blocks.spec_contains_key(v[i].datanode_uuid) && v[i]
                == self.datanode_to_blocks.spec_data(v[i].datanode_uuid)
        &&& forall|s: u128| #[trigger]
            self.spec_alive(s) ==> exists|i: int|
                0 <= i < v.len() && (#[trigger] v[i]).datanode_uuid == s
        &&& forall|i: int, j: int|
            0 <= i < j < v.len() ==> v[i].datanode_uuid != v[j].datanode_uuid
    }

    /// The servers currently alive, with their last reported capacities.
    pub fn get_alive_datanodes(&self) -> (r: Vec<DatanodeInfo>)
        requires
            self.inv(),
        ensures
            self.alive_snapshot_ok(r@),
    {
        let entries = lru_entries(&self.heartbeat_cache);
        let mut out: Vec<DatanodeInfo> = Vec::new();
        let mut i: usize = 0;
        while i < entries.len()
            invariant
                self.inv(),
                i <= entries@.len(),
                forall|a: int|
                    0 <= a < entries@.len() ==> lru_contents(self.heartbeat_cache).contains_pair(
                        (#[trigger] entries@[a]).0,
                        entries@[a].1,
                    ),
                forall|a: int, b: int|
                    0 <= a < b < entries@.len() ==> entries@[a].0 != entries@[b].0,
                out@.len() == i,
                forall|a: int|
                    0 <= a < i ==> (#[trigger] out@[a]).datanode_uuid == entries@[a].0 && out@[a]
                        == self.datanode_to_blocks.spec_data(entries@[a].0),
            decreases entries@.len() - i,
        {
            let key = entries[i].0;
            match self.datanode_to_blocks.get_data(&key) {
                Some(d) => {
                    out.push(clone_info(d));
                },
                None => {
                    proof {
                        assert(lru_contents(self.heartbeat_cache).contains_key(key));
                        assert(false);
                    }
                },
            }
            i = i + 1;
        }
        proof {
            assert forall|s: u128| #[trigger]
                self.spec_alive(s) implies exists|i2: int|
                0 <= i2 < out@.len() && (#[trigger] out@[i2]).datanode_uuid == s by {
                let w = choose|w: int| 0 <= w < entries@.len() && (#[trigger] entries@[w]).0 == s;
                assert(out@[w].datanode_uuid == s);
            }
            assert forall|i: int, j: int|
                0 <= i < j < out@.len() implies out@[i].datanode_uuid != out@[j].datanode_uuid by {
                assert(out@[i].datanode_uuid == entries@[i].0);
                assert(out@[j].datanode_uuid == entries@[j].0);
            }
        }
        out
    }

    /// A snapshot of the alive servers for reporting.
    pub fn report_datanodes(&self) -> (r: CuddlyResult<Vec<DatanodeInfo>>)
        requires
            self.inv(),
        ensures
            r is Ok,
            self.alive_snapshot_ok(r->Ok_0@),
    {
        Ok(self.get_alive_datanodes())
    }

    /// Removes one (already un-cached) server from both sides of the bimap.
    fn remove_datanode(&mut self, server: u128)
        requires
            old(self).inv(),
            !lru_contents(old(self).heartbeat_cache).contains_key(server),
        ensures
            final(self).inv(),
            final(self).fs_directory == old(self).fs_directory,
            final(self).heartbeat_cache == old(self).heartbeat_cache,
            final(self).namenode_progress_tracker == old(self).namenode_progress_tracker,
            final(self).journal == old(self).journal,
            final(self).evicted@ == true,
            final(self).block_size == old(self).block_size,
            final(self).replication_factor == old(self).replication_factor,
            forall|k: u128|
                final(self).datanode_to_blocks.spec_contains_key(k) <==> (old(self).datanode_to_blocks.spec_contains_key(k) && k != server),
            forall|b: u128, s: u128|
                final(self).block_to_datanodes.spec_has_id(b, s) <==> (old(self).block_to_datanodes.spec_has_id(b, s) && s != server),
            forall|b: u128|
                final(self).block_to_datanodes.spec_contains_key(b) == old(self).block_to_datanodes.spec_contains_key(b),
    {
        let ids: Vec<u128> = match self.datanode_to_blocks.get_ids_for_key(&server) {
            Some(v) => copy_u128s(v),
            None => Vec::new(),
        };
        let ghost pre = *self;
        proof {
            assert forall|b: u128|
                pre.block_to_datanodes.spec_has_id(b, server) implies ids@.contains(b) by {
                assert(pre.datanode_to_blocks.spec_has_id(server, b));
                assert(pre.datanode_to_blocks.spec_contains_key(server));
            }
        }
        let _info = self.datanode_to_blocks.remove_key(&server);
        proof {
            self.evicted@ = true;
        }
        let mut j: usize = 0;
        proof {
            assert(ids@.take(0) =~= Seq::<u128>::empty());
        }
        while j < ids.len()
            invariant
                pre.inv(),
                !lru_contents(pre.heartbeat_cache).contains_key(server),
                self.block_to_datanodes.wf(),
                self.datanode_to_blocks.wf(),
                j <= ids@.len(),
                self.fs_directory == pre.fs_directory,
                self.heartbeat_cache == pre.heartbeat_cache,
                self.namenode_progress_tracker == pre.namenode_progress_tracker,
                self.journal == pre.journal,
                self.evicted@ == true,
                self.block_size == pre.block_size,
                self.replication_factor == pre.replication_factor,
                forall|k: u128|
                    self.datanode_to_blocks.spec_contains_key(k) <==> (
                    pre.datanode_to_blocks.spec_contains_key(k) && k != server),
                forall|s: u128, b: u128|
                    self.datanode_to_blocks.spec_has_id(s, b) <==> (
                    pre.datanode_to_blocks.spec_has_id(s, b) && s != server),
                forall|k: u128|
                    k != server && pre.datanode_to_blocks.spec_contains_key(k)
                        ==> self.datanode_to_blocks.spec_data(k)
                        == pre.datanode_to_blocks.spec_data(k),
                forall|b: u128|
                    pre.block_to_datanodes.spec_has_id(b, server) ==> ids@.contains(b),
                forall|b: u128, s: u128|
                    s != server ==> (self.block_to_datanodes.spec_has_id(b, s)
                        == pre.block_to_datanodes.spec_has_id(b, s)),
                forall|b: u128|
                    self.block_to_datanodes.spec_has_id(b, server) <==> (
                    pre.block_to_datanodes.spec_has_id(b, server) && !ids@.take(
                        j as int,
                    ).contains(b)),
                forall|b: u128|
                    self.block_to_datanodes.spec_contains_key(b)
                        == pre.block_to_datanodes.spec_contains_key(b),
                forall|b: u128|
                    pre.block_to_datanodes.spec_contains_key(b)
                        ==> self.block_to_datanodes.spec_data(b)
                        == pre.block_to_datanodes.spec_data(b),
            decreases ids@.len() - j,
        {
            let b = ids[j];
            let ghost step = *self;
            proof {
                assert(forall|b2: u128, s2: u128|
                    s2 != server ==> (step.block_to_datanodes.spec_has_id(b2, s2)
                        == pre.block_to_datanodes.spec_has_id(b2, s2)));
                assert(forall|b2: u128|
                    step.block_to_datanodes.spec_has_id(b2, server) <==> (
                    pre.block_to_datanodes.spec_has_id(b2, server) && !ids@.take(
                        j as int,
                    ).contains(b2)));
                assert(forall|b2: u128|
                    step.block_to_datanodes.spec_contains_key(b2)
                        == pre.block_to_datanodes.spec_contains_key(b2));
                assert(forall|b2: u128|
                    pre.block_to_datanodes.spec_contains_key(b2)
                        ==> step.block_to_datanodes.spec_data(b2)
                        == pre.block_to_datanodes.spec_data(b2));
            }
            self.block_to_datanodes.remove_id_for_key(&b, &server);
            proof {
                let tprev = ids@.take(j as int);
                let tnext = ids@.take(j + 1);
                assert forall|b2: u128|
                    self.block_to_datanodes.spec_has_id(b2, server) <==> (
                    pre.block_to_datanodes.spec_has_id(b2, server) && !tnext.contains(b2)) by {
                    assert(self.block_to_datanodes.spec_has_id(b2, server) <==> (
                    step.block_to_datanodes.spec_has_id(b2, server) && !(b2 == b && server
                        == server)));
                    if tnext.contains(b2) {
                        let w = choose|w: int| 0 <= w < tnext.len() && tnext[w] == b2;
                        if w < j {
                            assert(tprev[w] == b2);
                            assert(tprev.contains(b2));
                        } else {
                            assert(b2 == ids@[j as int]);
                        }
                    }
                    if !tnext.contains(b2) {
                        assert forall|w: int| 0 <= w < j implies tprev[w] != b2 by {
                            assert(tnext[w] == tprev[w]);
                        }
                        assert(!tprev.contains(b2));
                        assert(b2 != ids@[j as int]) by {
                            assert(tnext[j as int] == ids@[j as int]);
                        }
                    }
                }
            }
            j = j + 1;
        }
        proof {
            assert(ids@.take(ids@.len() as int) =~= ids@);
            assert forall|b: u128, s: u128|
                self.block_to_datanodes.spec_has_id(b, s) <==> (
                pre.block_to_datanodes.spec_has_id(b, s) && s != server) by {
                if s == server {
                    if pre.block_to_datanodes.spec_has_id(b, server) {
                        assert(ids@.contains(b));
                    }
                }
            }
            assert(self.inv()) by {
                assert forall|b: u128, s: u128| #[trigger]
                    self.block_to_datanodes.spec_has_id(b, s)
                        <==> self.datanode_to_blocks.spec_has_id(s, b) by {
                    assert(self.block_to_datanodes.spec_has_id(b, s) <==> (
                    pre.block_to_datanodes.spec_has_id(b, s) && s != server));
                    assert(self.datanode_to_blocks.spec_has_id(s, b) <==> (
                    pre.datanode_to_blocks.spec_has_id(s, b) && s != server));
                    assert(pre.block_to_datanodes.spec_has_id(b, s)
                        <==> pre.datanode_to_blocks.spec_has_id(s, b));
                }
                assert forall|b: u128, s: u128| #[trigger]
                    self.block_to_datanodes.spec_has_id(b, s)
                        implies self.datanode_to_blocks.spec_contains_key(s) by {
                    assert(pre.block_to_datanodes.spec_has_id(b, s) && s != server);
                    assert(pre.datanode_to_blocks.spec_contains_key(s));
                }
                assert forall|s: u128| #[trigger]
                    lru_contents(self.heartbeat_cache).contains_key(s)
                        implies self.datanode_to_blocks.spec_contains_key(s) by {
                    assert(lru_contents(pre.heartbeat_cache).contains_key(s));
                    assert(s != server);
                }
                assert forall|s: u128| #[trigger]
                    self.datanode_to_blocks.spec_contains_key(s)
                        implies self.datanode_to_blocks.spec_data(s).datanode_uuid == s by {
                    assert(pre.datanode_to_blocks.spec_contains_key(s) && s != server);
                }
                assert forall|n: Seq<char>|
                    #[trigger] self.namenode_progress_tracker.spec_in_flight(n)
                        implies n.len() > 0 && n[0] == '/' && !self.fs_directory.is_file_path(
                        op_path_segs(n),
                    ) by {
                    assert(pre.namenode_progress_tracker.spec_in_flight(n));
                }
            }
        }
    }

    /// Evicts every server whose last heartbeat is older than the timeout at
    /// clock time `now`, removing it from the liveness cache and from every
    /// replica set.
    #[verifier::spinoff_prover]
    #[verifier::rlimit(60)]
    pub fn remove_invalid_datanodes(&mut self, now: i64)
        requires
            old(self).inv(),
        ensures
            final(self).inv(),
            final(self).fs_directory == old(self).fs_directory,
            final(self).namenode_progress_tracker == old(self).namenode_progress_tracker,
            final(self).journal == old(self).journal,
            final(self).block_size == old(self).block_size,
            final(self).replication_factor == old(self).replication_factor,
            forall|s: u128| #[trigger]
                final(self).spec_alive(s) ==> old(self).spec_alive(s) && (now as int)
                    - (lru_contents(old(self).heartbeat_cache)[s] as int) <= (
                HEARTBEAT_TIMEOUT as int),
            forall|s: u128| #[trigger]
                old(self).spec_alive(s) && (now as int) - (lru_contents(
                    old(self).heartbeat_cache,
                )[s] as int) <= (HEARTBEAT_TIMEOUT as int) ==> final(self).spec_alive(s),
            forall|b: u128, s: u128|
                final(self).block_to_datanodes.spec_has_id(b, s) ==> old(self).block_to_datanodes.spec_has_id(b, s),
            // an evicted server leaves every block's replica set and the
            // server registry
            forall|b: u128, s: u128|
                #![trigger final(self).block_to_datanodes.spec_has_id(b, s)]
                old(self).spec_alive(s) && spec_stale(
                    now,
                    lru_contents(old(self).heartbeat_cache)[s],
                ) ==> !final(self).block_to_datanodes.spec_has_id(b, s) && !final(self).datanode_to_blocks.spec_contains_key(s),
    {
        let entries = lru_entries(&self.heartbeat_cache);
        let ghost orig = *self;
        let mut i: usize = 0;
        while i < entries.len()
            invariant
                self.inv(),
                i <= entries@.len(),
                self.fs_directory == orig.fs_directory,
                self.namenode_progress_tracker == orig.namenode_progress_tracker,
                self.journal == orig.journal,
                self.block_size == orig.block_size,
                self.replication_factor == orig.replication_factor,
                forall|a: int|
                    0 <= a < entries@.len() ==> lru_contents(orig.heartbeat_cache).contains_pair(
                        (#[trigger] entries@[a]).0,
                        entries@[a].1,
                    ),
                forall|a: int, b: int|
                    0 <= a < b < entries@.len() ==> entries@[a].0 != entries@[b].0,
                forall|k: u128| #[trigger]
                    lru_contents(orig.heartbeat_cache).contains_key(k) ==> exists|a: int|
                        0 <= a < entries@.len() && (#[trigger] entries@[a]).0 == k,
                forall|s: u128| #[trigger]
                    lru_contents(self.heartbeat_cache).contains_key(s) <==> (lru_contents(
                        orig.heartbeat_cache,
                    ).contains_key(s) && !(exists|a: int|
                        0 <= a < i && (#[trigger] entries@[a]).0 == s && (now as int) - (
                        entries@[a].1 as int) > (HEARTBEAT_TIMEOUT as int))),
                forall|s: u128| #[trigger]
                    lru_contents(self.heartbeat_cache).contains_key(s) ==> lru_contents(
                        self.heartbeat_cache,
                    )[s] == lru_contents(orig.heartbeat_cache)[s],
                forall|b: u128, s: u128|
                    #![trigger self.block_to_datanodes.spec_has_id(b, s)]
                    self.block_to_datanodes.spec_has_id(b, s) <==> (
                    orig.block_to_datanodes.spec_has_id(b, s) && !(exists|a: int|
                        0 <= a < i && (#[trigger] entries@[a]).0 == s && spec_stale(
                            now,
                            entries@[a].1,
                        ))),
                forall|s: u128|
                    #![trigger self.datanode_to_blocks.spec_contains_key(s)]
                    self.datanode_to_blocks.spec_contains_key(s) <==> (
                    orig.datanode_to_blocks.spec_contains_key(s) && !(exists|a: int|
                        0 <= a < i && (#[trigger] entries@[a]).0 == s && spec_stale(
                            now,
                            entries@[a].1,
                        ))),
            decreases entries@.len() - i,
        {
            let ghost at_head = *self;
            proof {
                assert(forall|b: u128, s: u128|
                    #![trigger at_head.block_to_datanodes.spec_has_id(b, s)]
                    at_head.block_to_datanodes.spec_has_id(b, s) <==> (
                    orig.block_to_datanodes.spec_has_id(b, s) && !(exists|a: int|
                        0 <= a < i && (#[trigger] entries@[a]).0 == s && spec_stale(
                            now,
                            entries@[a].1,
                        ))));
                assert(forall|s: u128|
                    #![trigger at_head.datanode_to_blocks.spec_contains_key(s)]
                    at_head.datanode_to_blocks.spec_contains_key(s) <==> (
                    orig.datanode_to_blocks.spec_contains_key(s) && !(exists|a: int|
                        0 <= a < i && (#[trigger] entries@[a]).0 == s && spec_stale(
                            now,
                            entries@[a].1,
                        ))));
            }
            let k = entries[i].0;
            let stamp = entries[i].1;
            let stale_now = (now as i128) - (stamp as i128) > (HEARTBEAT_TIMEOUT as i128);
            if stale_now {
                let ghost pre_step = *self;
                lru_pop(&mut self.heartbeat_cache, &k);
                proof {
                    assert forall|s: u128| #[trigger]
                        lru_contents(self.heartbeat_cache).contains_key(s)
                            implies self.datanode_to_blocks.spec_contains_key(s) by {
                        assert(lru_contents(pre_step.heartbeat_cache).contains_key(s));
                    }
                }
                self.remove_datanode(k);
            }
            proof {
                assert(stale_now == spec_stale(now, stamp));
                assert forall|b: u128, s: u128|
                    #![trigger self.block_to_datanodes.spec_has_id(b, s)]
                    self.block_to_datanodes.spec_has_id(b, s) <==> (
                orig.block_to_datanodes.spec_has_id(b, s) && !(exists|a: int|
                    0 <= a < i + 1 && (#[trigger] entries@[a]).0 == s && spec_stale(
                        now,
                        entries@[a].1,
                    ))) by {
                    if stale_now {
                        assert(self.block_to_datanodes.spec_has_id(b, s) <==> (
                        at_head.block_to_datanodes.spec_has_id(b, s) && s != k));
                    } else {
                        assert(*self == at_head);
                    }
                    if exists|a: int|
                        0 <= a < i + 1 && (#[trigger] entries@[a]).0 == s && spec_stale(
                            now,
                            entries@[a].1,
                        ) {
                        let a = choose|a: int|
                            0 <= a < i + 1 && (#[trigger] entries@[a]).0 == s && spec_stale(
                                now,
                                entries@[a].1,
                            );
                        if a == i {
                            assert(s == k && stale_now);
                        }
                    }
                    if s == k && stale_now {
                        assert(entries@[i as int].0 == s && spec_stale(now, entries@[i as int].1));
                    }
                }
                assert forall|s: u128|
                    #![trigger self.datanode_to_blocks.spec_contains_key(s)]
                    self.datanode_to_blocks.spec_contains_key(s) <==> (
                orig.datanode_to_blocks.spec_contains_key(s) && !(exists|a: int|
                    0 <= a < i + 1 && (#[trigger] entries@[a]).0 == s && spec_stale(
                        now,
                        entries@[a].1,
                    ))) by {
                    if stale_now {
                        assert(self.datanode_to_blocks.spec_contains_key(s) <==> (
                        at_head.datanode_to_blocks.spec_contains_key(s) && s != k));
                    } else {
                        assert(*self == at_head);
                    }
                    if exists|a: int|
                        0 <= a < i + 1 && (#[trigger] entries@[a]).0 == s && spec_stale(
                            now,
                            entries@[a].1,
                        ) {
                        let a = choose|a: int|
                            0 <= a < i + 1 && (#[trigger] entries@[a]).0 == s && spec_stale(
                                now,
                                entries@[a].1,
                            );
                        if a == i {
                            assert(s == k && stale_now);
                        }
                    }
                    if s == k && stale_now {
                        assert(entries@[i as int].0 == s && spec_stale(now, entries@[i as int].1));
                    }
                }
            }
            i = i + 1;
        }
        proof {
            assert forall|b: u128, s: u128|
                #![trigger self.block_to_datanodes.spec_has_id(b, s)]
                orig.spec_alive(s) && spec_stale(
                    now,
                    lru_contents(orig.heartbeat_cache)[s],
                ) implies !self.block_to_datanodes.spec_has_id(b, s)
                && !self.datanode_to_blocks.spec_contains_key(s) by {
                let a = choose|a: int|
                    0 <= a < entries@.len() && (#[trigger] entries@[a]).0 == s;
                assert(lru_contents(orig.heartbeat_cache).contains_pair(
                    entries@[a].0,
                    entries@[a].1,
                ));
                assert(entries@[a].1 == lru_contents(orig.heartbeat_cache)[s]);
                assert(0 <= a < i && entries@[a].0 == s && spec_stale(now, entries@[a].1));
            }
        }
    }
}

impl DataRegistry {
    /// A fresh block id: one that collides neither with a known block nor
    /// with an in-flight reservation, drawn by rejection sampling with a
    /// bounded number of attempts (a collision of even one random 128-bit
    /// draw is already astronomically unlikely).
    fn next_block_id(&self) -> (r: Option<u128>)
        requires
            self.inv(),
        ensures
            match r {
                Some(id) => !self.block_to_datanodes.spec_contains_key(id)
                    && !self.namenode_progress_tracker.spec_tracks(id),
                None => true,
            },
    {
        let mut attempts: usize = 0;
        while attempts < 64
            invariant
                self.inv(),
            decreases 64 - attempts,
        {
            let id = fresh_id();
            if !self.block_to_datanodes.contains_key(&id)
                && !self.namenode_progress_tracker.contains_block(&id) {
                return Some(id);
            }
            attempts = attempts + 1;
        }
        None
    }

    /// A server qualifies as a replica target: alive, registered, and with
    /// room for one more block.
    pub open spec fn spec_qualifies(self, s: u128) -> bool {
        &&& self.spec_alive(s)
        &&& self.datanode_to_blocks.spec_contains_key(s)
        &&& self.datanode_to_blocks.spec_data(s).spec_free_capacity() > self.block_size
    }

    /// A candidate replica set: distinct servers, each qualifying.
    pub open spec fn spec_qualifying_targets(self, ids: Seq<u128>) -> bool {
        &&& forall|a: int, b: int| 0 <= a < b < ids.len() ==> ids[a] != ids[b]
        &&& forall|i: int| 0 <= i < ids.len() ==> self.spec_qualifies(#[trigger] ids[i])
    }

    /// How many distinct qualifying servers a `None` answer rules out: the
    /// replication factor (or one, when the factor is zero and no server at
    /// all was alive).
    pub open spec fn spec_needed_targets(self) -> int {
        if self.replication_factor == 0 {
            1
        } else {
            self.replication_factor as int
        }
    }

    /// Picks replica targets: alive servers with room for a block, drawn in a
    /// random order, until the replication factor is met.  `None` only when
    /// the cluster holds too few distinct qualifying servers.
    fn select_targets(&self) -> (r: Option<Vec<DatanodeInfo>>)
        requires
            self.inv(),
        ensures
            match r {
                Some(v) => {
                    &&& self.replication_factor > 0 ==> v@.len() == self.replication_factor
                    &&& v@.len() <= self.replication_factor + 1
                    &&& forall|i: int|
                        0 <= i < v@.len() ==> self.spec_alive((#[trigger] v@[i]).datanode_uuid)
                            && v@[i].spec_free_capacity() > self.block_size
                    &&& forall|i: int, j: int|
                        0 <= i < j < v@.len() ==> v@[i].datanode_uuid != v@[j].datanode_uuid
                },
                None => forall|ids: Seq<u128>|
                    self.spec_qualifying_targets(ids) ==> (ids.len() as int)
                        < self.spec_needed_targets(),
            },
    {
        broadcast use vstd::seq_lib::group_to_multiset_ensures;

        let mut available = self.get_alive_datanodes();
        let ghost orig_avail = available@;
        shuffle_datanodes(&mut available);
        proof {
            assert forall|i: int|
                0 <= i < available@.len() implies self.spec_alive(
                (#[trigger] available@[i]).datanode_uuid,
            ) && self.datanode_to_blocks.spec_contains_key(available@[i].datanode_uuid)
                && available@[i] == self.datanode_to_blocks.spec_data(
                available@[i].datanode_uuid,
            ) by {
                assert(available@.to_multiset().contains(available@[i]));
                assert(orig_avail.to_multiset().contains(available@[i]));
                assert(orig_avail.contains(available@[i]));
                let w = choose|w: int|
                    0 <= w < orig_avail.len() && orig_avail[w] == available@[i];
                assert(self.spec_alive(orig_avail[w].datanode_uuid));
            }
            assert forall|s: u128| #[trigger]
                self.spec_alive(s) implies exists|j: int|
                0 <= j < available@.len() && (#[trigger] available@[j]).datanode_uuid == s by {
                let w = choose|w: int|
                    0 <= w < orig_avail.len() && (#[trigger] orig_avail[w]).datanode_uuid == s;
                assert(orig_avail.contains(orig_avail[w]));
                assert(orig_avail.to_multiset().contains(orig_avail[w]));
                assert(available@.to_multiset().contains(orig_avail[w]));
                assert(available@.contains(orig_avail[w]));
                let j = choose|j: int|
                    0 <= j < available@.len() && available@[j] == orig_avail[w];
                assert(available@[j].datanode_uuid == s);
            }
        }
        let mut targets: Vec<DatanodeInfo> = Vec::new();
        let mut idx: usize = 0;
        while idx < available.len()
            invariant
                self.inv(),
                idx <= available@.len(),
                forall|i: int|
                    0 <= i < available@.len() ==> self.spec_alive(
                        (#[trigger] available@[i]).datanode_uuid,
                    ) && self.datanode_to_blocks.spec_contains_key(available@[i].datanode_uuid)
                        && available@[i] == self.datanode_to_blocks.spec_data(
                        available@[i].datanode_uuid,
                    ),
                self.replication_factor > 0 ==> (targets@.len() as u64) < self.replication_factor,
                self.replication_factor == 0 ==> targets@.len() == 0,
                forall|i: int|
                    0 <= i < targets@.len() ==> self.spec_alive(
                        (#[trigger] targets@[i]).datanode_uuid,
                    ) && targets@[i].spec_free_capacity() > self.block_size,
                forall|i: int, j: int|
                    0 <= i < j < targets@.len() ==> targets@[i].datanode_uuid
                        != targets@[j].datanode_uuid,
                forall|s: u128| #[trigger]
                    self.spec_qualifies(s) ==> uuid_among(targets@, s) || (exists|j: int|
                        idx <= j < available@.len() && (#[trigger] available@[j]).datanode_uuid
                            == s),
            decreases available@.len() - idx,
        {
            let node = &available[idx];
            let ghost prev_targets = targets@;
            if node.free_capacity() > self.block_size && !holds_uuid(&targets, node.datanode_uuid)
                {
                targets.push(clone_info(node));
            }
            proof {
                assert forall|s: u128| #[trigger]
                    self.spec_qualifies(s) implies uuid_among(targets@, s) || (exists|j: int|
                    idx + 1 <= j < available@.len() && (#[trigger] available@[j]).datanode_uuid
                        == s) by {
                    if uuid_among(prev_targets, s) {
                        let a = choose|a: int|
                            0 <= a < prev_targets.len()
                                && (#[trigger] prev_targets[a]).datanode_uuid == s;
                        assert(targets@[a].datanode_uuid == s);
                    } else {
                        let j = choose|j: int|
                            idx <= j < available@.len()
                                && (#[trigger] available@[j]).datanode_uuid == s;
                        if j == idx {
                            // this very server is being looked at; it
                            // qualifies, so it was either just pushed or
                            // already collected
                            assert(available@[j] == self.datanode_to_blocks.spec_data(s));
                            assert(available@[j].spec_free_capacity() > self.block_size);
                            assert(targets@[targets@.len() - 1].datanode_uuid == s);
                        } else {
                            assert(available@[j].datanode_uuid == s);
                        }
                    }
                }
            }
            if (targets.len() as u64) >= self.replication_factor {
                return Some(targets);
            }
            idx = idx + 1;
        }
        proof {
            assert forall|ids: Seq<u128>|
                self.spec_qualifying_targets(ids) implies (ids.len() as int)
                < self.spec_needed_targets() by {
                assert forall|i: int| 0 <= i < ids.len() implies uuid_among(
                    targets@,
                    #[trigger] ids[i],
                ) by {
                    assert(self.spec_qualifies(ids[i]));
                    if exists|j: int|
                        idx <= j < available@.len() && (#[trigger] available@[j]).datanode_uuid
                            == ids[i] {
                        let j = choose|j: int|
                            idx <= j < available@.len()
                                && (#[trigger] available@[j]).datanode_uuid == ids[i];
                        assert(false);
                    }
                }
                assert(forall|a: int, b: int| 0 <= a < b < ids.len() ==> ids[a] != ids[b]);
                lemma_distinct_ids_in_targets(ids, targets@);
                vstd::std_specs::vec::axiom_spec_len(&targets);
                assert((targets@.len() as int) < self.spec_needed_targets());
            }
        }
        None
    }

    /// Every reserved block of the in-flight file has reached the replication
    /// factor; otherwise the caller must wait.
    pub fn check_all_blocks_replicated(&self, path: &str) -> (r: CuddlyResult<()>)
        requires
            self.inv(),
        ensures
            ({
                if !self.namenode_progress_tracker.spec_in_flight(path@) {
                    &&& r is Err
                    &&& r->Err_0 is FSError
                    &&& r->Err_0.spec_message() == "'"@ + path@
                        + "': File creation has not started yet"@
                } else if exists|i: int|
                    0 <= i < self.namenode_progress_tracker.spec_block_ids(path@).len()
                        && self.namenode_progress_tracker.spec_count(
                        #[trigger] self.namenode_progress_tracker.spec_block_ids(path@)[i],
                    ) < self.replication_factor {
                    &&& r is Err
                    &&& r->Err_0 is WaitingForReplication
                } else {
                    r is Ok
                }
            }),
    {
        let ids = match self.namenode_progress_tracker.get_block_ids(path) {
            Ok(v) => v,
            Err(e) => {
                return Err(e);
            },
        };
        let mut i: usize = 0;
        while i < ids.len()
            invariant
                self.inv(),
                self.namenode_progress_tracker.spec_in_flight(path@),
                i <= ids@.len(),
                ids@ == self.namenode_progress_tracker.spec_block_ids(path@),
                forall|j: int|
                    0 <= j < i ==> self.namenode_progress_tracker.spec_count(#[trigger] ids@[j])
                        >= self.replication_factor,
            decreases ids@.len() - i,
        {
            let count = self.namenode_progress_tracker.get_replication_count(ids[i]);
            if count < self.replication_factor {
                proof {
                    assert(self.namenode_progress_tracker.spec_block_ids(path@)[i as int]
                        == ids@[i as int]);
                }
                let hexid = u128_to_hex(ids[i]);
                let msg = concat3(
                    "Block ",
                    hexid.as_str(),
                    " has not been replicated often enough yet",
                );
                return Err(CudddlyError::WaitingForReplication(msg));
            }
            i = i + 1;
        }
        proof {
            assert forall|j: int|
                0 <= j < self.namenode_progress_tracker.spec_block_ids(path@).len()
                    implies self.namenode_progress_tracker.spec_count(
                #[trigger] self.namenode_progress_tracker.spec_block_ids(path@)[j],
            ) >= self.replication_factor by {
                assert(self.namenode_progress_tracker.spec_block_ids(path@)[j] == ids@[j]);
            }
        }
        Ok(())
    }

    /// Starts creating a file: verifies the leaf is creatable and, once
    /// replica targets are found, registers the in-flight entry and reserves
    /// the first block.  `Some` carries the fresh block (ordinal 0) and its
    /// targets; `None` means too few servers have room right now — and then
    /// nothing is registered, so a plain retry succeeds once enough servers
    /// are alive.
    pub fn start_file_create(&mut self, path: &str) -> (r: CuddlyResult<
        Option<(Block, Vec<DatanodeInfo>)>,
    >)
        requires
            old(self).inv(),
        ensures
            final(self).inv(),
            final(self).fs_directory == old(self).fs_directory,
            final(self).heartbeat_cache == old(self).heartbeat_cache,
            final(self).datanode_to_blocks == old(self).datanode_to_blocks,
            final(self).journal == old(self).journal,
            final(self).evicted == old(self).evicted,
            r is Err ==> *final(self) == *old(self),
            ({
                if !(old(self).fs_directory.check_creation_ok(path@) && !old(self).namenode_progress_tracker.spec_in_flight(path@)) {
                    &&& r is Err
                    &&& r->Err_0 is FSError
                } else {
                    match r {
                        // only the fresh-id draw may fail past the checks
                        Err(e) => e is RPCError,
                        Ok(None) => {
                            &&& *final(self) == *old(self)
                            &&& forall|ids: Seq<u128>|
                                old(self).spec_qualifying_targets(ids) ==> (ids.len() as int)
                                    < old(self).spec_needed_targets()
                        },
                        Ok(Some((b, targets))) => {
                            &&& b.seq == 0
                            &&& b.len == 0
                            &&& !old(self).block_to_datanodes.spec_contains_key(b.id)
                            &&& final(self).namenode_progress_tracker.spec_in_flight(path@)
                            &&& forall|n: Seq<char>|
                                n != path@ ==> final(self).namenode_progress_tracker.spec_in_flight(n) == old(self).namenode_progress_tracker.spec_in_flight(n)
                            &&& final(self).namenode_progress_tracker.spec_block_ids(path@)
                                =~= seq![b.id]
                            &&& final(self).namenode_progress_tracker.spec_count(b.id) == 0
                            &&& (final(self).replication_factor > 0 ==> targets@.len() == final(self).replication_factor)
                            &&& forall|i: int|
                                0 <= i < targets@.len() ==> old(self).spec_alive(
                                    (#[trigger] targets@[i]).datanode_uuid,
                                ) && targets@[i].spec_free_capacity() > old(self).block_size
                            &&& forall|i: int, j: int|
                                0 <= i < j < targets@.len() ==> targets@[i].datanode_uuid
                                    != targets@[j].datanode_uuid
                        },
                    }
                }
            }),
    {
        if let Err(e) = self.fs_directory.check_file_creation(path) {
            return Err(e);
        }
        if self.namenode_progress_tracker.contains_file(path) {
            let msg = concat3("'", path, "': File creation already in progress");
            return Err(CudddlyError::FSError(msg));
        }
        let targets = match self.select_targets() {
            Some(t) => t,
            None => {
                return Ok(None);
            },
        };
        let id = match self.next_block_id() {
            Some(id) => id,
            None => {
                return Err(
                    CudddlyError::RPCError("could not draw a fresh block id".to_owned()),
                );
            },
        };
        let path_owned = path.to_owned();
        let ghost pre = *self;
        match self.namenode_progress_tracker.add_file(path_owned) {
            Ok(()) => {},
            Err(e) => {
                proof {
                    assert(false);
                }
                return Err(e);
            },
        }
        proof {
            assert(self.inv()) by {
                assert forall|n: Seq<char>|
                    #[trigger] self.namenode_progress_tracker.spec_in_flight(n) implies n.len()
                    > 0 && n[0] == '/' && !self.fs_directory.is_file_path(op_path_segs(n)) by {
                    if n != path@ {
                        assert(pre.namenode_progress_tracker.spec_in_flight(n));
                    }
                }
                assert(self.namenode_progress_tracker.counts
                    == pre.namenode_progress_tracker.counts);
                if !self.evicted@ {
                    assert forall|b: u128|
                        #[trigger] self.namenode_progress_tracker.spec_count(b) as nat
                            <= self.block_to_datanodes.spec_num_ids(b) by {
                        assert(self.namenode_progress_tracker.spec_count(b)
                            == pre.namenode_progress_tracker.spec_count(b));
                        assert(self.block_to_datanodes == pre.block_to_datanodes);
                    }
                }
            }
        }
        let ghost mid = *self;
        let seq_no = match self.namenode_progress_tracker.add_block(path, id) {
            Ok(s) => s,
            Err(e) => {
                proof {
                    assert(false);
                }
                return Err(e);
            },
        };
        proof {
            assert(seq_no == 0);
            assert(self.inv()) by {
                assert forall|n: Seq<char>|
                    #[trigger] self.namenode_progress_tracker.spec_in_flight(n) implies n.len()
                    > 0 && n[0] == '/' && !self.fs_directory.is_file_path(op_path_segs(n)) by {
                    assert(mid.namenode_progress_tracker.spec_in_flight(n));
                }
                if !self.evicted@ {
                    assert forall|b: u128|
                        #[trigger] self.namenode_progress_tracker.spec_count(b) as nat
                            <= self.block_to_datanodes.spec_num_ids(b) by {
                        if b != id {
                            assert(self.namenode_progress_tracker.spec_count(b)
                                == mid.namenode_progress_tracker.spec_count(b));
                        }
                    }
                }
            }
            assert(self.namenode_progress_tracker.spec_block_ids(path@) =~= seq![id]);
        }
        let block = Block::new(id, 0, seq_no);
        Ok(Some((block, targets)))
    }

    /// Reserves one more block for an in-flight file, provided every earlier
    /// block has met the replication factor.  `None` means too few servers
    /// have room right now, and nothing changes.
    pub fn start_another_block(&mut self, path: &str) -> (r: CuddlyResult<
        Option<(Block, Vec<DatanodeInfo>)>,
    >)
        requires
            old(self).inv(),
        ensures
            final(self).inv(),
            final(self).fs_directory == old(self).fs_directory,
            final(self).heartbeat_cache == old(self).heartbeat_cache,
            final(self).datanode_to_blocks == old(self).datanode_to_blocks,
            final(self).journal == old(self).journal,
            final(self).evicted == old(self).evicted,
            r is Err ==> *final(self) == *old(self),
            ({
                let ids = old(self).namenode_progress_tracker.spec_block_ids(path@);
                if !old(self).namenode_progress_tracker.spec_in_flight(path@) {
                    &&& r is Err
                    &&& r->Err_0 is FSError
                    &&& r->Err_0.spec_message() == "'"@ + path@
                        + "': File creation has not started yet"@
                } else if exists|i: int|
                    0 <= i < ids.len() && old(self).namenode_progress_tracker.spec_count(
                        #[trigger] ids[i],
                    ) < old(self).replication_factor {
                    &&& r is Err
                    &&& r->Err_0 is WaitingForReplication
                } else {
                    match r {
                        // only the fresh-id draw may fail past the checks
                        Err(e) => e is RPCError,
                        Ok(None) => {
                            &&& *final(self) == *old(self)
                            &&& forall|ids2: Seq<u128>|
                                old(self).spec_qualifying_targets(ids2) ==> (ids2.len() as int)
                                    < old(self).spec_needed_targets()
                        },
                        Ok(Some((b, targets))) => {
                            &&& b.len == 0
                            &&& b.seq == old(self).namenode_progress_tracker.spec_next_seq(path@)
                            &&& !old(self).block_to_datanodes.spec_contains_key(b.id)
                            // every earlier block of the file had met the
                            // replication factor
                            &&& forall|i: int|
                                0 <= i < ids.len() ==> old(self).namenode_progress_tracker.spec_count(#[trigger] ids[i]) >= old(self).replication_factor
                            &&& final(self).namenode_progress_tracker.spec_block_ids(path@)
                                == ids.push(b.id)
                            &&& final(self).namenode_progress_tracker.spec_count(b.id) == 0
                            &&& (final(self).replication_factor > 0 ==> targets@.len() == final(self).replication_factor)
                            &&& forall|i: int|
                                0 <= i < targets@.len() ==> old(self).spec_alive(
                                    (#[trigger] targets@[i]).datanode_uuid,
                                ) && targets@[i].spec_free_capacity() > old(self).block_size
                            &&& forall|i: int, j: int|
                                0 <= i < j < targets@.len() ==> targets@[i].datanode_uuid
                                    != targets@[j].datanode_uuid
                        },
                    }
                }
            }),
    {
        if let Err(e) = self.check_all_blocks_replicated(path) {
            return Err(e);
        }
        let targets = match self.select_targets() {
            Some(t) => t,
            None => {
                return Ok(None);
            },
        };
        let id = match self.next_block_id() {
            Some(id) => id,
            None => {
                return Err(
                    CudddlyError::RPCError("could not draw a fresh block id".to_owned()),
                );
            },
        };
        let ghost mid = *self;
        let seq_no = match self.namenode_progress_tracker.add_block(path, id) {
            Ok(s) => s,
            Err(e) => {
                proof {
                    assert(false);
                }
                return Err(e);
            },
        };
        proof {
            assert(self.inv()) by {
                assert forall|n: Seq<char>|
                    #[trigger] self.namenode_progress_tracker.spec_in_flight(n) implies n.len()
                    > 0 && n[0] == '/' && !self.fs_directory.is_file_path(op_path_segs(n)) by {
                    assert(mid.namenode_progress_tracker.spec_in_flight(n));
                }
                if !self.evicted@ {
                    assert forall|b: u128|
                        #[trigger] self.namenode_progress_tracker.spec_count(b) as nat
                            <= self.block_to_datanodes.spec_num_ids(b) by {
                        if b != id {
                            assert(self.namenode_progress_tracker.spec_count(b)
                                == mid.namenode_progress_tracker.spec_count(b));
                        }
                    }
                }
            }
        }
        let block = Block::new(id, 0, seq_no);
        Ok(Some((block, targets)))
    }

    /// Drops the in-flight entry of `path` (its blocks and counters with it).
    pub fn abort_file_create(&mut self, path: &str) -> (r: CuddlyResult<()>)
        requires
            old(self).inv(),
        ensures
            final(self).inv(),
            final(self).fs_directory == old(self).fs_directory,
            final(self).heartbeat_cache == old(self).heartbeat_cache,
            final(self).block_to_datanodes == old(self).block_to_datanodes,
            final(self).datanode_to_blocks == old(self).datanode_to_blocks,
            final(self).journal == old(self).journal,
            final(self).evicted == old(self).evicted,
            ({
                if old(self).namenode_progress_tracker.spec_in_flight(path@) {
                    &&& r is Ok
                    &&& !final(self).namenode_progress_tracker.spec_in_flight(path@)
                    &&& forall|n: Seq<char>|
                        n != path@ ==> final(self).namenode_progress_tracker.spec_in_flight(n)
                            == old(self).namenode_progress_tracker.spec_in_flight(n)
                    &&& forall|n: Seq<char>|
                        n != path@ && old(self).namenode_progress_tracker.spec_in_flight(n)
                            ==> final(self).namenode_progress_tracker.spec_block_ids(n) == old(self).namenode_progress_tracker.spec_block_ids(n)
                    // the reserved blocks' replication counters go with the
                    // entry; other counters keep their values
                    &&& forall|b: u128|
                        final(self).namenode_progress_tracker.spec_tracks(b) <==> (old(self).namenode_progress_tracker.spec_tracks(b) && !old(self).namenode_progress_tracker.spec_block_ids(path@).contains(b))
                    &&& forall|b: u128|
                        final(self).namenode_progress_tracker.spec_tracks(b) ==> final(self).namenode_progress_tracker.spec_count(b) == old(self).namenode_progress_tracker.spec_count(b)
                } else {
                    &&& r is Err
                    &&& r->Err_0 is FSError
                    &&& *final(self) == *old(self)
                }
            }),
    {
        let ghost pre = *self;
        match self.namenode_progress_tracker.remove_file(path) {
            Ok(()) => {
                proof {
                    assert(self.inv()) by {
                        assert forall|n: Seq<char>|
                            #[trigger] self.namenode_progress_tracker.spec_in_flight(n) implies
                            n.len() > 0 && n[0] == '/' && !self.fs_directory.is_file_path(
                            op_path_segs(n),
                        ) by {
                            assert(pre.namenode_progress_tracker.spec_in_flight(n));
                        }
                        if !self.evicted@ {
                            assert forall|b: u128|
                                #[trigger] self.namenode_progress_tracker.spec_count(b) as nat
                                    <= self.block_to_datanodes.spec_num_ids(b) by {
                                if self.namenode_progress_tracker.spec_tracks(b) {
                                    assert(self.namenode_progress_tracker.spec_count(b)
                                        == pre.namenode_progress_tracker.spec_count(b));
                                }
                            }
                        }
                    }
                }
                Ok(())
            },
            Err(e) => Err(e),
        }
    }

    /// Forgets one reserved block of an in-flight file (its replication
    /// counter stays until the file is committed or aborted).
    pub fn abort_block(&mut self, path: &str, block: &Block) -> (r: CuddlyResult<()>)
        requires
            old(self).inv(),
        ensures
            final(self).inv(),
            final(self).fs_directory == old(self).fs_directory,
            final(self).heartbeat_cache == old(self).heartbeat_cache,
            final(self).block_to_datanodes == old(self).block_to_datanodes,
            final(self).datanode_to_blocks == old(self).datanode_to_blocks,
            final(self).journal == old(self).journal,
            final(self).evicted == old(self).evicted,
            // the replication counters are untouched: an aborted block's
            // orphaned replicas stay tracked until the file is resolved
            final(self).namenode_progress_tracker.counts == old(self).namenode_progress_tracker.counts,
            ({
                if old(self).namenode_progress_tracker.spec_in_flight(path@) {
                    &&& r is Ok
                    &&& final(self).namenode_progress_tracker.spec_block_ids(path@)
                        == crate::progress::remove_all(
                        old(self).namenode_progress_tracker.spec_block_ids(path@),
                        block.id,
                    )
                    &&& forall|b2: u128|
                        final(self).namenode_progress_tracker.spec_block_ids(path@).contains(b2)
                            <==> (old(self).namenode_progress_tracker.spec_block_ids(
                            path@,
                        ).contains(b2) && b2 != block.id)
                    &&& forall|n: Seq<char>|
                        final(self).namenode_progress_tracker.spec_in_flight(n) == old(self).namenode_progress_tracker.spec_in_flight(n)
                    &&& forall|n: Seq<char>|
                        n != path@ && old(self).namenode_progress_tracker.spec_in_flight(n)
                            ==> final(self).namenode_progress_tracker.spec_block_ids(n) == old(self).namenode_progress_tracker.spec_block_ids(n)
                    &&& final(self).namenode_progress_tracker.spec_next_seq(path@) == old(self).namenode_progress_tracker.spec_next_seq(path@)
                } else {
                    &&& r is Err
                    &&& r->Err_0 is FSError
                    &&& *final(self) == *old(self)
                }
            }),
    {
        let ghost pre = *self;
        match self.namenode_progress_tracker.remove_block(path, block.id) {
            Ok(()) => {
                proof {
                    assert(self.inv()) by {
                        assert forall|n: Seq<char>|
                            #[trigger] self.namenode_progress_tracker.spec_in_flight(n) implies
                            n.len() > 0 && n[0] == '/' && !self.fs_directory.is_file_path(
                            op_path_segs(n),
                        ) by {
                            assert(pre.namenode_progress_tracker.spec_in_flight(n));
                        }
                        if !self.evicted@ {
                            assert(self.namenode_progress_tracker.counts
                                == pre.namenode_progress_tracker.counts);
                            assert forall|b: u128|
                                #[trigger] self.namenode_progress_tracker.spec_count(b) as nat
                                    <= self.block_to_datanodes.spec_num_ids(b) by {
                                assert(self.namenode_progress_tracker.spec_count(b)
                                    == pre.namenode_progress_tracker.spec_count(b));
                                assert(self.block_to_datanodes == pre.block_to_datanodes);
                            }
                        }
                    }
                }
                Ok(())
            },
            Err(e) => Err(e),
        }
    }
}

impl DataRegistry {
    /// Commits an in-flight file: checks that every reserved block met the
    /// replication factor, binds the blocks (with their reported lengths, in
    /// reservation order, ordinals renumbered contiguously from 0) into the
    /// namespace, journals the record, and drops the in-flight entry.
    pub fn finish_file_create(&mut self, path: &str) -> (r: CuddlyResult<EditOperation>)
        requires
            old(self).inv(),
        ensures
            final(self).inv(),
            final(self).heartbeat_cache == old(self).heartbeat_cache,
            final(self).datanode_to_blocks == old(self).datanode_to_blocks,
            final(self).evicted == old(self).evicted,
            final(self).block_size == old(self).block_size,
            final(self).replication_factor == old(self).replication_factor,
            r is Err ==> final(self).fs_directory.dirs@ == old(self).fs_directory.dirs@
                && final(self).fs_directory.files@ == old(self).fs_directory.files@ && final(self).namenode_progress_tracker == old(self).namenode_progress_tracker && final(self).block_to_datanodes == old(self).block_to_datanodes && final(self).journal == old(self).journal,
            ({
                let segs = op_path_segs(path@);
                let ids = old(self).namenode_progress_tracker.spec_block_ids(path@);
                match r {
                    Err(e) => {
                        ||| !old(self).namenode_progress_tracker.spec_in_flight(path@)
                        ||| (exists|i: int|
                            0 <= i < ids.len() && old(self).namenode_progress_tracker.spec_count(
                                #[trigger] ids[i],
                            ) < old(self).replication_factor)
                        ||| !(old(self).fs_directory.parent_walk(segs, 0) is POk && !old(self).fs_directory.is_dir_path(segs))
                    },
                    Ok(op) => {
                        // the commit happened exactly when the file was in
                        // flight, fully replicated, and bindable
                        &&& old(self).namenode_progress_tracker.spec_in_flight(path@)
                        &&& forall|i: int|
                            0 <= i < ids.len() ==> old(self).namenode_progress_tracker.spec_count(#[trigger] ids[i]) >= old(self).replication_factor
                        // the journal record carries the committed list
                        &&& op is AddFile
                        &&& op->AddFile_0@ == path@
                        &&& final(self).journal@ == old(self).journal@.push(op)
                        // the committed list: the reserved blocks in order,
                        // ordinals contiguous from zero
                        &&& op->AddFile_1@.len() == ids.len()
                        &&& forall|i: int|
                            0 <= i < ids.len() ==> (#[trigger] op->AddFile_1@[i]).id == ids[i]
                                && op->AddFile_1@[i].seq == i
                        // every committed block met the replication factor
                        // (counters always; replica sets while no server was
                        // evicted)
                        &&& (!old(self).evicted@ ==> forall|i: int|
                            0 <= i < ids.len() ==> old(self).block_to_datanodes.spec_num_ids(
                                #[trigger] ids[i],
                            ) >= old(self).replication_factor)
                        // the namespace gained exactly this binding
                        &&& forall|p: Seq<Seq<char>>|
                            final(self).fs_directory.is_file_path(p) <==> (old(self).fs_directory.is_file_path(p) || p == segs)
                        &&& final(self).fs_directory.file_blocks(segs) == op->AddFile_1@
                        &&& forall|p: Seq<Seq<char>>|
                            p != segs && old(self).fs_directory.is_file_path(p) ==> final(self).fs_directory.file_blocks(p) == old(self).fs_directory.file_blocks(p)
                        &&& forall|p: Seq<Seq<char>>|
                            final(self).fs_directory.is_dir_path(p) == old(self).fs_directory.is_dir_path(p)
                        // the committed blocks are all known to the block
                        // registry, so opening the path resolves every block
                        &&& forall|i: int|
                            0 <= i < ids.len() ==> final(self).block_to_datanodes.spec_contains_key(#[trigger] ids[i])
                        // the file left the in-flight tracker
                        &&& !final(self).namenode_progress_tracker.spec_in_flight(path@)
                        &&& forall|n: Seq<char>|
                            n != path@ ==> final(self).namenode_progress_tracker.spec_in_flight(n)
                                == old(self).namenode_progress_tracker.spec_in_flight(n)
                    },
                }
            }),
    {
        let ids = match self.namenode_progress_tracker.get_block_ids(path) {
            Ok(v) => v,
            Err(e) => {
                return Err(e);
            },
        };
        let ghost orig = *self;
        // every reserved block must have met the replication factor
        let mut i: usize = 0;
        while i < ids.len()
            invariant
                self.inv(),
                *self == orig,
                i <= ids@.len(),
                self.namenode_progress_tracker.spec_in_flight(path@),
                ids@ == self.namenode_progress_tracker.spec_block_ids(path@),
                forall|j: int|
                    0 <= j < i ==> self.namenode_progress_tracker.spec_count(#[trigger] ids@[j])
                        >= self.replication_factor,
            decreases ids@.len() - i,
        {
            let count = self.namenode_progress_tracker.get_replication_count(ids[i]);
            if count < self.replication_factor {
                proof {
                    assert(self.namenode_progress_tracker.spec_block_ids(path@)[i as int]
                        == ids@[i as int]);
                }
                let hexid = u128_to_hex(ids[i]);
                let msg = concat3(
                    "Block ",
                    hexid.as_str(),
                    " has not been replicated often enough yet",
                );
                return Err(CudddlyError::WaitingForReplication(msg));
            }
            i = i + 1;
        }
        // the committed list: reported lengths, ordinals renumbered from 0
        let mut blocks: Vec<Block> = Vec::new();
        let mut k: usize = 0;
        while k < ids.len()
            invariant
                self.inv(),
                *self == orig,
                k <= ids@.len(),
                blocks@.len() == k,
                forall|j: int|
                    0 <= j < k ==> (#[trigger] blocks@[j]).id == ids@[j] && blocks@[j].seq == j,
            decreases ids@.len() - k,
        {
            let blen: u64 = match self.block_to_datanodes.get_data(&ids[k]) {
                Some(b) => b.len,
                None => 0,
            };
            blocks.push(Block::new(ids[k], blen, k as u64));
            k = k + 1;
        }
        // bind the list into the namespace
        let ghost pre = *self;
        match self.fs_directory.create_file(path, blocks.as_slice()) {
            Ok(()) => {},
            Err(e) => {
                return Err(e);
            },
        }
        let ghost segs = op_path_segs(path@);
        proof {
            assert(path@.len() > 0 && path@[0] == '/');
            assert(spec_split(path@.drop_first()) == segs);
            assert(pre.fs_directory.parent_walk(segs, 0) is POk);
            assert(!pre.fs_directory.is_dir_path(segs) && !pre.fs_directory.is_file_path(segs));
        }
        // record every committed block (a no-op for blocks already reported)
        let ghost mid = *self;
        let mut q: usize = 0;
        while q < blocks.len()
            invariant
                q <= blocks@.len(),
                self.block_to_datanodes.wf(),
                self.datanode_to_blocks == mid.datanode_to_blocks,
                self.fs_directory == mid.fs_directory,
                self.heartbeat_cache == mid.heartbeat_cache,
                self.namenode_progress_tracker == mid.namenode_progress_tracker,
                self.journal == mid.journal,
                self.evicted == mid.evicted,
                self.block_size == mid.block_size,
                self.replication_factor == mid.replication_factor,
                forall|b2: u128, s2: u128|
                    self.block_to_datanodes.spec_has_id(b2, s2) == mid.block_to_datanodes.spec_has_id(
                        b2,
                        s2,
                    ),
                forall|b2: u128| #[trigger]
                    self.block_to_datanodes.spec_num_ids(b2) == mid.block_to_datanodes.spec_num_ids(
                        b2,
                    ),
                forall|b2: u128|
                    mid.block_to_datanodes.spec_contains_key(b2)
                        ==> self.block_to_datanodes.spec_contains_key(b2)
                        && self.block_to_datanodes.spec_data(b2)
                        == mid.block_to_datanodes.spec_data(b2),
                forall|a: int|
                    0 <= a < q ==> self.block_to_datanodes.spec_contains_key(
                        (#[trigger] blocks@[a]).id,
                    ),
            decreases blocks@.len() - q,
        {
            let ghost step = *self;
            let b = blocks[q];
            self.block_to_datanodes.insert_data(b.id, b);
            q = q + 1;
        }
        // journal the mutation
        let op = EditOperation::AddFile(path.to_owned(), blocks);
        self.journal = Ghost(pre.journal@.push(op));
        proof {
            let m0 = replay(pre.journal@);
            let m1 = crate::editlog::model_step(m0, op);
            assert(pre.journal@.push(op).drop_last() =~= pre.journal@);
            assert(pre.journal@.push(op).last() == op);
            assert(replay(self.journal@) == m1);
            crate::paths::lemma_spec_split_len(path@.drop_first());
            assert(segs.take(0) =~= Seq::<Seq<char>>::empty());
            pre.fs_directory.lemma_parent_walk_ok(segs, 0);
            assert(model_addfile_ok(m0, segs)) by {
                assert(m0.dirs.contains(segs.take(segs.len() - 1)));
                assert(!m0.files.dom().contains(segs));
                assert(!m0.dirs.contains(segs));
            }
            assert(m1.files == m0.files.insert(segs, op->AddFile_1@));
            let m = pre.fs_directory.files@.len() as int;
            assert forall|p: Seq<Seq<char>>|
                #[trigger] self.fs_directory.is_file_path(p) <==> (
                pre.fs_directory.is_file_path(p) || p == segs) by {
                if self.fs_directory.is_file_path(p) {
                    let w = choose|i2: int|
                        0 <= i2 < self.fs_directory.files@.len()
                            && self.fs_directory.files@[i2].path.deep_view() == p;
                    if w < m {
                        assert(self.fs_directory.files@[w] == pre.fs_directory.files@[w]);
                        assert(pre.fs_directory.is_file_path(p));
                    } else {
                        assert(self.fs_directory.files@.last().path.deep_view() == segs);
                    }
                }
                if pre.fs_directory.is_file_path(p) {
                    let w = choose|i2: int|
                        0 <= i2 < pre.fs_directory.files@.len()
                            && pre.fs_directory.files@[i2].path.deep_view() == p;
                    assert(self.fs_directory.files@[w] == pre.fs_directory.files@[w]);
                }
                if p == segs {
                    assert(self.fs_directory.files@[m].path.deep_view() == segs);
                }
            }
            assert forall|p: Seq<Seq<char>>|
                p != segs && pre.fs_directory.is_file_path(p) implies #[trigger] self.fs_directory.file_blocks(
                p,
            ) == pre.fs_directory.file_blocks(p) by {
                let w = choose|i2: int|
                    0 <= i2 < pre.fs_directory.files@.len()
                        && pre.fs_directory.files@[i2].path.deep_view() == p;
                assert(self.fs_directory.files@[w] == pre.fs_directory.files@[w]);
                let w2 = choose|i2: int|
                    0 <= i2 < self.fs_directory.files@.len()
                        && self.fs_directory.files@[i2].path.deep_view() == p;
                if w2 == m {
                    assert(p == segs);
                }
                assert(self.fs_directory.files@[w2] == pre.fs_directory.files@[w2]);
                if w2 != w {
                    assert(pre.fs_directory.files@[w2].path.deep_view() == p);
                    assert(false);
                }
            }
            assert(self.fs_directory.file_blocks(segs) == op->AddFile_1@) by {
                let w2 = choose|i2: int|
                    0 <= i2 < self.fs_directory.files@.len()
                        && self.fs_directory.files@[i2].path.deep_view() == segs;
                assert(self.fs_directory.files@[m].path.deep_view() == segs);
                if w2 != m {
                    assert(self.fs_directory.files@[w2] == pre.fs_directory.files@[w2]);
                    assert(pre.fs_directory.files@[w2].path.deep_view() == segs);
                    assert(pre.fs_directory.is_file_path(segs));
                }
            }
            assert forall|p: Seq<Seq<char>>|
                #[trigger] self.fs_directory.is_dir_path(p) == pre.fs_directory.is_dir_path(
                p,
            ) by {
                assert(self.fs_directory.dirs@ == pre.fs_directory.dirs@);
                if self.fs_directory.is_dir_path(p) && p.len() > 0 {
                    let w = choose|i2: int|
                        0 <= i2 < self.fs_directory.dirs@.len()
                            && self.fs_directory.dirs@[i2].deep_view() == p;
                    assert(pre.fs_directory.dirs@[w].deep_view() == p);
                }
                if pre.fs_directory.is_dir_path(p) && p.len() > 0 {
                    let w = choose|i2: int|
                        0 <= i2 < pre.fs_directory.dirs@.len()
                            && pre.fs_directory.dirs@[i2].deep_view() == p;
                    assert(self.fs_directory.dirs@[w].deep_view() == p);
                }
            }
        }
        // release the in-flight entry
        let ghost before_remove = *self;
        proof {
            assert(self.namenode_progress_tracker == orig.namenode_progress_tracker);
            assert(self.namenode_progress_tracker.spec_in_flight(path@));
            assert(forall|a: int|
                0 <= a < blocks@.len() ==> before_remove.block_to_datanodes.spec_contains_key(
                    (#[trigger] blocks@[a]).id,
                ));
        }
        match self.namenode_progress_tracker.remove_file(path) {
            Ok(()) => {},
            Err(e) => {
                proof {
                    assert(false);
                }
                return Err(e);
            },
        }
        proof {
            assert(self.inv()) by {
                assert forall|b: u128, s: u128|
                    #[trigger] self.block_to_datanodes.spec_has_id(b, s)
                        <==> self.datanode_to_blocks.spec_has_id(s, b) by {
                    assert(self.block_to_datanodes.spec_has_id(b, s)
                        == mid.block_to_datanodes.spec_has_id(b, s));
                    assert(mid.block_to_datanodes == pre.block_to_datanodes);
                    assert(pre.block_to_datanodes == orig.block_to_datanodes);
                    assert(self.datanode_to_blocks == orig.datanode_to_blocks);
                    assert(orig.block_to_datanodes.spec_has_id(b, s)
                        <==> orig.datanode_to_blocks.spec_has_id(s, b));
                }
                assert forall|n: Seq<char>|
                    #[trigger] self.namenode_progress_tracker.spec_in_flight(n) implies n.len()
                    > 0 && n[0] == '/' && !self.fs_directory.is_file_path(op_path_segs(n)) by {
                    assert(before_remove.namenode_progress_tracker.spec_in_flight(n));
                    assert(orig.namenode_progress_tracker.spec_in_flight(n));
                    assert(n != path@);
                    assert(!orig.fs_directory.is_file_path(op_path_segs(n)));
                    if op_path_segs(n) == segs {
                        crate::paths::lemma_spec_split_injective(
                            n.drop_first(),
                            path@.drop_first(),
                        );
                        assert(n.drop_first() == path@.drop_first());
                        assert(n.len() == path@.len()) by {
                            assert(n.drop_first().len() == path@.drop_first().len());
                        }
                        assert forall|j: int| 0 <= j < n.len() implies n[j] == path@[j] by {
                            if j > 0 {
                                assert(n.drop_first()[j - 1] == n[j]);
                                assert(path@.drop_first()[j - 1] == path@[j]);
                            }
                        }
                        assert(n =~= path@);
                    }
                }
                if !self.evicted@ {
                    assert forall|b: u128|
                        #[trigger] self.namenode_progress_tracker.spec_count(b) as nat
                            <= self.block_to_datanodes.spec_num_ids(b) by {
                        if self.namenode_progress_tracker.spec_tracks(b) {
                            assert(self.namenode_progress_tracker.spec_count(b)
                                == before_remove.namenode_progress_tracker.spec_count(b));
                            assert(before_remove.namenode_progress_tracker.spec_count(b)
                                == orig.namenode_progress_tracker.spec_count(b));
                            assert(self.block_to_datanodes.spec_num_ids(b)
                                == orig.block_to_datanodes.spec_num_ids(b));
                        } else {
                            assert(self.namenode_progress_tracker.spec_count(b) == 0);
                        }
                    }
                }
            }
            assert forall|i2: int|
                0 <= i2 < orig.namenode_progress_tracker.spec_block_ids(path@).len() implies old(self).namenode_progress_tracker.spec_count(
                #[trigger] orig.namenode_progress_tracker.spec_block_ids(path@)[i2],
            ) >= old(self).replication_factor by {
                assert(orig.namenode_progress_tracker.spec_block_ids(path@)[i2] == ids@[i2]);
            }
            if !old(self).evicted@ {
                assert forall|i2: int|
                    0 <= i2 < orig.namenode_progress_tracker.spec_block_ids(path@).len()
                        implies old(self).block_to_datanodes.spec_num_ids(
                    #[trigger] orig.namenode_progress_tracker.spec_block_ids(path@)[i2],
                ) >= old(self).replication_factor by {
                    assert(orig.namenode_progress_tracker.spec_block_ids(path@)[i2] == ids@[i2]);
                    assert(orig.namenode_progress_tracker.spec_count(ids@[i2])
                        >= orig.replication_factor);
                }
            }
            assert forall|i2: int|
                0 <= i2 < orig.namenode_progress_tracker.spec_block_ids(path@).len()
                    implies self.block_to_datanodes.spec_contains_key(
                #[trigger] orig.namenode_progress_tracker.spec_block_ids(path@)[i2],
            ) by {
                assert(orig.namenode_progress_tracker.spec_block_ids(path@)[i2] == ids@[i2]);
                assert(blocks@[i2].id == ids@[i2]);
                assert(self.block_to_datanodes == before_remove.block_to_datanodes);
                assert(before_remove.block_to_datanodes.spec_contains_key(blocks@[i2].id));
            }
        }
        Ok(op)
    }
}

impl DataRegistry {
    /// Lists the entries under `path`: the child names of a directory, or
    /// the file's own name for a file.
    pub fn list(&self, path: &str) -> (r: CuddlyResult<Vec<String>>)
        requires
            self.inv(),
        ensures
            ({
                if path@.len() == 0 || path@[0] != '/' {
                    &&& r is Err
                    &&& r->Err_0 is FSError
                    &&& r->Err_0.spec_message() == "Has to start with root directory"@
                } else {
                    let rest = path@.drop_first();
                    if rest.len() == 0 {
                        &&& r is Ok
                        &&& self.fs_directory.children_ok(Seq::empty(), r->Ok_0.deep_view())
                    } else {
                        let segs = spec_split(rest);
                        match self.fs_directory.resolve_from(segs, 0) {
                            crate::namespace::Resolved::RDir => {
                                &&& r is Ok
                                &&& self.fs_directory.children_ok(segs, r->Ok_0.deep_view())
                            },
                            crate::namespace::Resolved::RFile => {
                                &&& r is Ok
                                &&& r->Ok_0.deep_view() == seq![segs.last()]
                            },
                            crate::namespace::Resolved::RNotDir => {
                                &&& r is Err
                                &&& r->Err_0 is FSError
                                &&& r->Err_0.spec_message() == "'"@ + rest + "': Not a directory"@
                            },
                            crate::namespace::Resolved::RMissing => {
                                &&& r is Err
                                &&& r->Err_0 is FSError
                                &&& r->Err_0.spec_message() == "'"@ + rest
                                    + "': No such file or directory"@
                            },
                        }
                    }
                }
            }),
    {
        self.fs_directory.list(path)
    }

    /// Opens a committed file: its ordered block list, each block with the
    /// servers currently holding a replica.  Fails like a namespace lookup
    /// when the path does not name a file, and with an unresolvable block
    /// when a committed block is no longer known to the block registry.
    pub fn open_file(&self, path: &str) -> (r: CuddlyResult<Vec<(Block, Vec<DatanodeInfo>)>>)
        requires
            self.inv(),
        ensures
            ({
                if path@.len() == 0 || path@[0] != '/' {
                    &&& r is Err
                    &&& r->Err_0 is FSError
                    &&& r->Err_0.spec_message() == "Has to start with root directory"@
                } else {
                    let rest = path@.drop_first();
                    let segs = spec_split(rest);
                    let blocks = self.fs_directory.file_blocks(segs);
                    match self.fs_directory.resolve_from(segs, 0) {
                        crate::namespace::Resolved::RFile => {
                            if forall|i: int|
                                0 <= i < blocks.len()
                                    ==> self.block_to_datanodes.spec_contains_key(
                                    (#[trigger] blocks[i]).id,
                                ) {
                                &&& r is Ok
                                &&& r->Ok_0@.len() == blocks.len()
                                &&& forall|i: int|
                                    0 <= i < r->Ok_0@.len() ==> (#[trigger] r->Ok_0@[i]).0
                                        == blocks[i]
                                &&& forall|i: int|
                                    0 <= i < r->Ok_0@.len() ==> self.replica_snapshot_ok(
                                        (#[trigger] r->Ok_0@[i]).0.id,
                                        r->Ok_0@[i].1@,
                                    )
                            } else {
                                &&& r is Err
                                &&& r->Err_0 is FSError
                            }
                        },
                        crate::namespace::Resolved::RDir => {
                            &&& r is Err
                            &&& r->Err_0 is FSError
                            &&& r->Err_0.spec_message() == "'"@ + rest
                                + "': Is not a file but a directory"@
                        },
                        crate::namespace::Resolved::RNotDir => {
                            &&& r is Err
                            &&& r->Err_0 is FSError
                            &&& r->Err_0.spec_message() == "'"@ + rest + "': Not a directory"@
                        },
                        crate::namespace::Resolved::RMissing => {
                            &&& r is Err
                            &&& r->Err_0 is FSError
                            &&& r->Err_0.spec_message() == "'"@ + rest
                                + "': No such file or directory"@
                        },
                    }
                }
            }),
    {
        let blocks = match self.fs_directory.open_file(path) {
            Ok(v) => v,
            Err(e) => {
                return Err(e);
            },
        };
        let mut out: Vec<(Block, Vec<DatanodeInfo>)> = Vec::new();
        let mut i: usize = 0;
        let ghost segs = op_path_segs(path@);
        let ghost committed = self.fs_directory.file_blocks(segs);
        proof {
            assert(path@.len() > 0 && path@[0] == '/');
            assert(self.fs_directory.resolve_from(segs, 0) is RFile);
        }
        while i < blocks.len()
            invariant
                self.inv(),
                i <= blocks@.len(),
                blocks@ == committed,
                path@.len() > 0 && path@[0] == '/',
                segs == op_path_segs(path@),
                committed == self.fs_directory.file_blocks(segs),
                self.fs_directory.resolve_from(segs, 0) is RFile,
                out@.len() == i,
                forall|a: int| 0 <= a < i ==> (#[trigger] out@[a]).0 == blocks@[a],
                forall|a: int|
                    0 <= a < i ==> self.block_to_datanodes.spec_contains_key(
                        (#[trigger] blocks@[a]).id,
                    ),
                forall|a: int|
                    0 <= a < i ==> self.replica_snapshot_ok(
                        (#[trigger] out@[a]).0.id,
                        out@[a].1@,
                    ),
            decreases blocks@.len() - i,
        {
            let block = blocks[i];
            let holders = match self.replica_infos(block.id) {
                Ok(v) => v,
                Err(_e) => {
                    proof {
                        assert(!self.block_to_datanodes.spec_contains_key(
                            committed[i as int].id,
                        ));
                    }
                    let msg = concat3("'", path, "': a committed block has no known replicas");
                    return Err(CudddlyError::FSError(msg));
                },
            };
            out.push((block, holders));
            i = i + 1;
        }
        Ok(out)
    }

    /// `v` is a faithful snapshot of one block's replica holders: every entry
    /// is a holder with its current record, and every holder appears.
    pub open spec fn replica_snapshot_ok(self, block_id: u128, v: Seq<DatanodeInfo>) -> bool {
        &&& forall|j: int|
            0 <= j < v.len() ==> self.block_to_datanodes.spec_has_id(
                block_id,
                (#[trigger] v[j]).datanode_uuid,
            ) && v[j] == self.datanode_to_blocks.spec_data(v[j].datanode_uuid)
        &&& forall|s: u128|
            #[trigger] self.block_to_datanodes.spec_has_id(block_id, s) ==> exists|j: int|
                0 <= j < v.len() && (#[trigger] v[j]).datanode_uuid == s
    }

    /// The current holders of one block's replicas, resolved to their server
    /// records; fails when the block is unknown.
    fn replica_infos(&self, block_id: u128) -> (r: CuddlyResult<Vec<DatanodeInfo>>)
        requires
            self.inv(),
        ensures
            r is Err ==> !self.block_to_datanodes.spec_contains_key(block_id),
            r is Ok ==> self.block_to_datanodes.spec_contains_key(block_id)
                && self.replica_snapshot_ok(block_id, r->Ok_0@),
    {
        let server_ids = match self.block_to_datanodes.get_ids_for_key(&block_id) {
            Some(v) => v,
            None => {
                return Err(
                    CudddlyError::FSError("block is not known to the registry".to_owned()),
                );
            },
        };
        proof {
            assert forall|a: int|
                0 <= a < server_ids@.len() implies self.block_to_datanodes.spec_has_id(
                block_id,
                #[trigger] server_ids@[a],
            ) by {
                assert(server_ids@.contains(server_ids@[a]));
            }
        }
        let mut hs: Vec<DatanodeInfo> = Vec::new();
        let mut j: usize = 0;
        while j < server_ids.len()
            invariant
                self.inv(),
                j <= server_ids@.len(),
                hs@.len() == j,
                forall|a: int|
                    0 <= a < server_ids@.len() ==> self.block_to_datanodes.spec_has_id(
                        block_id,
                        #[trigger] server_ids@[a],
                    ),
                forall|a: int|
                    0 <= a < j ==> (#[trigger] hs@[a]).datanode_uuid == server_ids@[a] && hs@[a]
                        == self.datanode_to_blocks.spec_data(server_ids@[a]),
            decreases server_ids@.len() - j,
        {
            let sid = server_ids[j];
            match self.datanode_to_blocks.get_data(&sid) {
                Some(d) => {
                    hs.push(clone_info(d));
                },
                None => {
                    proof {
                        assert(self.block_to_datanodes.spec_has_id(block_id, sid));
                        assert(false);
                    }
                },
            }
            j = j + 1;
        }
        proof {
            assert forall|s: u128|
                #[trigger] self.block_to_datanodes.spec_has_id(block_id, s) implies exists|
                j2: int,
            |
                0 <= j2 < hs@.len() && (#[trigger] hs@[j2]).datanode_uuid == s by {
                assert(server_ids@.contains(s));
                let w = choose|w: int| 0 <= w < server_ids@.len() && server_ids@[w] == s;
                assert(hs@[w].datanode_uuid == s);
            }
            assert forall|j2: int|
                0 <= j2 < hs@.len() implies self.block_to_datanodes.spec_has_id(
                block_id,
                (#[trigger] hs@[j2]).datanode_uuid,
            ) && hs@[j2] == self.datanode_to_blocks.spec_data(hs@[j2].datanode_uuid) by {
                assert(hs@[j2].datanode_uuid == server_ids@[j2]);
            }
        }
        Ok(hs)
    }
}

/// The edit log determines the namespace: in every reachable registry state,
/// replaying the journal from the empty namespace yields exactly the
/// committed directory set and the file→blocks binding.
pub proof fn lemma_journal_replays_to_namespace(r: DataRegistry)
    requires
        r.inv(),
    ensures
        forall|p: Seq<Seq<char>>|
            #[trigger] replay(r.journal@).dirs.contains(p) <==> r.fs_directory.is_dir_path(p),
        forall|p: Seq<Seq<char>>|
            #[trigger] replay(r.journal@).files.dom().contains(p)
                <==> r.fs_directory.is_file_path(p),
        forall|p: Seq<Seq<char>>|
            r.fs_directory.is_file_path(p) ==> #[trigger] replay(r.journal@).files[p]
                == r.fs_directory.file_blocks(p),
{
}

/// The in-flight tracker and the committed namespace never both hold a path:
/// whoever is in flight is not a committed file, and a committed file is not
/// in flight.
pub proof fn lemma_in_flight_committed_disjoint(r: DataRegistry, path: Seq<char>)
    requires
        r.inv(),
        r.namenode_progress_tracker.spec_in_flight(path),
    ensures
        !r.fs_directory.is_file_path(op_path_segs(path)),
{
}

impl DataRegistry {
    /// Applies one journal record, the way recovery replays the log before
    /// the coordinator accepts requests: a directory record runs the walk, a
    /// file record rebinds the committed file and registers its blocks.  A
    /// record the current state cannot take (a corrupt log, or a path still
    /// in flight) is rejected and changes nothing.
    pub fn apply_edit(&mut self, op: &EditOperation) -> (r: CuddlyResult<()>)
        requires
            old(self).inv(),
        ensures
            final(self).inv(),
            final(self).heartbeat_cache == old(self).heartbeat_cache,
            final(self).datanode_to_blocks == old(self).datanode_to_blocks,
            final(self).namenode_progress_tracker == old(self).namenode_progress_tracker,
            final(self).evicted == old(self).evicted,
            final(self).block_size == old(self).block_size,
            final(self).replication_factor == old(self).replication_factor,
    {
        match op {
            EditOperation::Mkdir(p) => {
                match self.make_dir(p.as_str()) {
                    Ok(_) => Ok(()),
                    Err(e) => Err(e),
                }
            },
            EditOperation::AddFile(p, bs) => self.commit_recovered_file(p.as_str(), bs),
        }
    }

    /// Rebinds one recovered file: the namespace entry and its blocks in the
    /// block registry, journalled again so the ghost journal keeps replaying
    /// to the namespace.
    fn commit_recovered_file(&mut self, path: &str, blocks: &Vec<Block>) -> (r: CuddlyResult<()>)
        requires
            old(self).inv(),
        ensures
            final(self).inv(),
            final(self).heartbeat_cache == old(self).heartbeat_cache,
            final(self).datanode_to_blocks == old(self).datanode_to_blocks,
            final(self).namenode_progress_tracker == old(self).namenode_progress_tracker,
            final(self).evicted == old(self).evicted,
            final(self).block_size == old(self).block_size,
            final(self).replication_factor == old(self).replication_factor,
            ({
                match r {
                    Ok(()) => {
                        let segs = op_path_segs(path@);
                        &&& forall|p2: Seq<Seq<char>>|
                            final(self).fs_directory.is_file_path(p2) <==> (old(self).fs_directory.is_file_path(p2) || p2 == segs)
                        &&& final(self).fs_directory.file_blocks(segs) == blocks@
                        &&& forall|i: int|
                            0 <= i < blocks@.len() ==> final(self).block_to_datanodes.spec_contains_key((#[trigger] blocks@[i]).id)
                    },
                    Err(e) => final(self).fs_directory.files@ == old(self).fs_directory.files@
                        && final(self).journal == old(self).journal && final(self).block_to_datanodes == old(self).block_to_datanodes,
                }
            }),
    {
        // a path still being created cannot be rebound: it would stand in
        // both the tracker and the namespace
        if self.namenode_progress_tracker.contains_file(path) {
            let msg = concat3("'", path, "': File creation already in progress");
            return Err(CudddlyError::FSError(msg));
        }
        let ghost pre = *self;
        match self.fs_directory.create_file(path, blocks.as_slice()) {
            Ok(()) => {},
            Err(e) => {
                return Err(e);
            },
        }
        let ghost segs = op_path_segs(path@);
        proof {
            assert(path@.len() > 0 && path@[0] == '/');
            assert(spec_split(path@.drop_first()) == segs);
            assert(pre.fs_directory.parent_walk(segs, 0) is POk);
            assert(!pre.fs_directory.is_dir_path(segs) && !pre.fs_directory.is_file_path(segs));
        }
        // register the recovered blocks (a no-op for ids already known)
        let ghost mid = *self;
        let mut q: usize = 0;
        while q < blocks.len()
            invariant
                q <= blocks@.len(),
                self.block_to_datanodes.wf(),
                self.datanode_to_blocks == mid.datanode_to_blocks,
                self.fs_directory == mid.fs_directory,
                self.heartbeat_cache == mid.heartbeat_cache,
                self.namenode_progress_tracker == mid.namenode_progress_tracker,
                self.journal == mid.journal,
                self.evicted == mid.evicted,
                self.block_size == mid.block_size,
                self.replication_factor == mid.replication_factor,
                forall|b2: u128, s2: u128|
                    self.block_to_datanodes.spec_has_id(b2, s2) == mid.block_to_datanodes.spec_has_id(
                        b2,
                        s2,
                    ),
                forall|b2: u128| #[trigger]
                    self.block_to_datanodes.spec_num_ids(b2) == mid.block_to_datanodes.spec_num_ids(
                        b2,
                    ),
                forall|b2: u128|
                    mid.block_to_datanodes.spec_contains_key(b2)
                        ==> self.block_to_datanodes.spec_contains_key(b2)
                        && self.block_to_datanodes.spec_data(b2)
                        == mid.block_to_datanodes.spec_data(b2),
                forall|a: int|
                    0 <= a < q ==> self.block_to_datanodes.spec_contains_key(
                        (#[trigger] blocks@[a]).id,
                    ),
            decreases blocks@.len() - q,
        {
            let b = blocks[q];
            self.block_to_datanodes.insert_data(b.id, b);
            q = q + 1;
        }
        // journal the rebinding
        let block_list = copy_block_list(blocks);
        let op = EditOperation::AddFile(path.to_owned(), block_list);
        self.journal = Ghost(pre.journal@.push(op));
        proof {
            let m0 = replay(pre.journal@);
            let m1 = crate::editlog::model_step(m0, op);
            assert(pre.journal@.push(op).drop_last() =~= pre.journal@);
            assert(pre.journal@.push(op).last() == op);
            assert(replay(self.journal@) == m1);
            crate::paths::lemma_spec_split_len(path@.drop_first());
            assert(segs.take(0) =~= Seq::<Seq<char>>::empty());
            pre.fs_directory.lemma_parent_walk_ok(segs, 0);
            assert(model_addfile_ok(m0, segs)) by {
                assert(m0.dirs.contains(segs.take(segs.len() - 1)));
                assert(!m0.files.dom().contains(segs));
                assert(!m0.dirs.contains(segs));
            }
            assert(op->AddFile_1@ == blocks@);
            assert(m1.files == m0.files.insert(segs, blocks@));
            let m = pre.fs_directory.files@.len() as int;
            assert forall|p: Seq<Seq<char>>|
                #[trigger] self.fs_directory.is_file_path(p) <==> (
                pre.fs_directory.is_file_path(p) || p == segs) by {
                if self.fs_directory.is_file_path(p) {
                    let w = choose|i2: int|
                        0 <= i2 < self.fs_directory.files@.len()
                            && self.fs_directory.files@[i2].path.deep_view() == p;
                    if w < m {
                        assert(self.fs_directory.files@[w] == pre.fs_directory.files@[w]);
                        assert(pre.fs_directory.is_file_path(p));
                    } else {
                        assert(self.fs_directory.files@.last().path.deep_view() == segs);
                    }
                }
                if pre.fs_directory.is_file_path(p) {
                    let w = choose|i2: int|
                        0 <= i2 < pre.fs_directory.files@.len()
                            && pre.fs_directory.files@[i2].path.deep_view() == p;
                    assert(self.fs_directory.files@[w] == pre.fs_directory.files@[w]);
                }
                if p == segs {
                    assert(self.fs_directory.files@[m].path.deep_view() == segs);
                }
            }
            assert forall|p: Seq<Seq<char>>|
                p != segs && pre.fs_directory.is_file_path(p) implies #[trigger] self.fs_directory.file_blocks(
                p,
            ) == pre.fs_directory.file_blocks(p) by {
                let w = choose|i2: int|
                    0 <= i2 < pre.fs_directory.files@.len()
                        && pre.fs_directory.files@[i2].path.deep_view() == p;
                assert(self.fs_directory.files@[w] == pre.fs_directory.files@[w]);
                let w2 = choose|i2: int|
                    0 <= i2 < self.fs_directory.files@.len()
                        && self.fs_directory.files@[i2].path.deep_view() == p;
                if w2 == m {
                    assert(p == segs);
                }
                assert(self.fs_directory.files@[w2] == pre.fs_directory.files@[w2]);
                if w2 != w {
                    assert(pre.fs_directory.files@[w2].path.deep_view() == p);
                    assert(false);
                }
            }
            assert(self.fs_directory.file_blocks(segs) == blocks@) by {
                let w2 = choose|i2: int|
                    0 <= i2 < self.fs_directory.files@.len()
                        && self.fs_directory.files@[i2].path.deep_view() == segs;
                assert(self.fs_directory.files@[m].path.deep_view() == segs);
                if w2 != m {
                    assert(self.fs_directory.files@[w2] == pre.fs_directory.files@[w2]);
                    assert(pre.fs_directory.files@[w2].path.deep_view() == segs);
                    assert(pre.fs_directory.is_file_path(segs));
                }
            }
            assert forall|p: Seq<Seq<char>>|
                #[trigger] self.fs_directory.is_dir_path(p) == pre.fs_directory.is_dir_path(
                p,
            ) by {
                assert(self.fs_directory.dirs@ == pre.fs_directory.dirs@);
                if self.fs_directory.is_dir_path(p) && p.len() > 0 {
                    let w = choose|i2: int|
                        0 <= i2 < self.fs_directory.dirs@.len()
                            && self.fs_directory.dirs@[i2].deep_view() == p;
                    assert(pre.fs_directory.dirs@[w].deep_view() == p);
                }
                if pre.fs_directory.is_dir_path(p) && p.len() > 0 {
                    let w = choose|i2: int|
                        0 <= i2 < pre.fs_directory.dirs@.len()
                            && pre.fs_directory.dirs@[i2].deep_view() == p;
                    assert(self.fs_directory.dirs@[w].deep_view() == p);
                }
            }
            assert(self.inv()) by {
                assert forall|b2: u128, s2: u128|
                    #[trigger] self.block_to_datanodes.spec_has_id(b2, s2)
                        <==> self.datanode_to_blocks.spec_has_id(s2, b2) by {
                    assert(self.block_to_datanodes.spec_has_id(b2, s2)
                        == mid.block_to_datanodes.spec_has_id(b2, s2));
                    assert(mid.block_to_datanodes == pre.block_to_datanodes);
                    assert(self.datanode_to_blocks == pre.datanode_to_blocks);
                }
                assert forall|n: Seq<char>|
                    #[trigger] self.namenode_progress_tracker.spec_in_flight(n) implies n.len()
                    > 0 && n[0] == '/' && !self.fs_directory.is_file_path(op_path_segs(n)) by {
                    assert(pre.namenode_progress_tracker.spec_in_flight(n));
                    assert(!pre.fs_directory.is_file_path(op_path_segs(n)));
                    if op_path_segs(n) == segs {
                        crate::paths::lemma_spec_split_injective(
                            n.drop_first(),
                            path@.drop_first(),
                        );
                        assert(n.drop_first() == path@.drop_first());
                        assert(n.len() == path@.len()) by {
                            assert(n.drop_first().len() == path@.drop_first().len());
                        }
                        assert forall|j: int| 0 <= j < n.len() implies n[j] == path@[j] by {
                            if j > 0 {
                                assert(n.drop_first()[j - 1] == n[j]);
                                assert(path@.drop_first()[j - 1] == path@[j]);
                            }
                        }
                        assert(n =~= path@);
                        assert(pre.namenode_progress_tracker.spec_in_flight(path@));
                        assert(false);
                    }
                }
                if !self.evicted@ {
                    assert forall|b2: u128|
                        #[trigger] self.namenode_progress_tracker.spec_count(b2) as nat
                            <= self.block_to_datanodes.spec_num_ids(b2) by {
                        assert(self.namenode_progress_tracker.spec_count(b2)
                            == pre.namenode_progress_tracker.spec_count(b2));
                        assert(self.block_to_datanodes.spec_num_ids(b2)
                            == mid.block_to_datanodes.spec_num_ids(b2));
                        assert(mid.block_to_datanodes == pre.block_to_datanodes);
                    }
                }
            }
        }
        Ok(())
    }
}

/// An element-for-element copy of a block list.
fn copy_block_list(v: &Vec<Block>) -> (r: Vec<Block>)
    ensures
        r@ == v@,
{
    let mut r: Vec<Block> = Vec::new();
    let mut i: usize = 0;
    while i < v.len()
        invariant
            i <= v@.len(),
            r@ == v@.take(i as int),
        decreases v@.len() - i,
    {
        r.push(v[i]);
        proof {
            assert(v@.take(i + 1) =~= v@.take(i as int).push(v@[i as int]));
        }
        i = i + 1;
    }
    proof {
        assert(v@.take(v@.len() as int) =~= v@);
    }
    r
}

/// Read-after-commit: once a path is a committed file, resolving it reaches
/// the file, which is the success condition of `open_file` — so an open
/// issued after a successful commit returns the committed block list (its
/// blocks are in the block registry by the commit's own contract).
pub proof fn lemma_commit_then_open(r: DataRegistry, path: Seq<char>)
    requires
        r.inv(),
        path.len() > 0 && path[0] == '/',
        r.fs_directory.is_file_path(op_path_segs(path)),
    ensures
        r.fs_directory.resolve_from(op_path_segs(path), 0) is RFile,
{
    crate::paths::lemma_spec_split_len(path.drop_first());
    r.fs_directory.lemma_committed_file_resolves(op_path_segs(path), 0);
}

/// The two sides of the block⇄server bimap always agree: a server holds a
/// replica of a block exactly when the block lists that server.
pub proof fn lemma_bimap_agrees(r: DataRegistry, block_id: u128, server_id: u128)
    requires
        r.inv(),
    ensures
        r.block_to_datanodes.spec_has_id(block_id, server_id)
            <==> r.datanode_to_blocks.spec_has_id(server_id, block_id),
        r.block_to_datanodes.spec_has_id(block_id, server_id)
            ==> r.datanode_to_blocks.spec_contains_key(server_id),
{
}

/// Whether some entry of `tg` carries the identifier `s`.
pub open spec fn uuid_among(tg: Seq<DatanodeInfo>, s: u128) -> bool {
    exists|j: int| 0 <= j < tg.len() && (#[trigger] tg[j]).datanode_uuid == s
}

/// If every id of a duplicate-free list appears among the (duplicate-free)
/// identifiers of `tg`, there are at least as many entries in `tg`.
proof fn lemma_distinct_ids_in_targets(ids: Seq<u128>, tg: Seq<DatanodeInfo>)
    requires
        forall|a: int, b: int| 0 <= a < b < ids.len() ==> ids[a] != ids[b],
        forall|a: int, b: int|
            0 <= a < b < tg.len() ==> tg[a].datanode_uuid != tg[b].datanode_uuid,
        forall|i: int| 0 <= i < ids.len() ==> uuid_among(tg, #[trigger] ids[i]),
    ensures
        ids.len() <= tg.len(),
    decreases ids.len(),
{
    if ids.len() > 0 {
        let x = ids.last();
        assert(uuid_among(tg, x));
        let j = choose|j: int| 0 <= j < tg.len() && (#[trigger] tg[j]).datanode_uuid == x;
        let tg2 = tg.remove(j);
        assert forall|a: int, b: int|
            0 <= a < b < tg2.len() implies tg2[a].datanode_uuid != tg2[b].datanode_uuid by {
            let xa = if a < j {
                a
            } else {
                a + 1
            };
            let xb = if b < j {
                b
            } else {
                b + 1
            };
            assert(tg2[a] == tg[xa] && tg2[b] == tg[xb]);
        }
        let front = ids.drop_last();
        assert forall|i: int| 0 <= i < front.len() implies uuid_among(
            tg2,
            #[trigger] front[i],
        ) by {
            assert(front[i] == ids[i]);
            assert(uuid_among(tg, ids[i]));
            let w = choose|w: int|
                0 <= w < tg.len() && (#[trigger] tg[w]).datanode_uuid == ids[i];
            assert(ids[i] != x);
            assert(w != j);
            if w < j {
                assert(tg2[w] == tg[w]);
                assert(tg2[w].datanode_uuid == front[i]);
            } else {
                assert(tg2[w - 1] == tg[w]);
                assert(tg2[w - 1].datanode_uuid == front[i]);
            }
        }
        assert forall|a: int, b: int|
            0 <= a < b < front.len() implies front[a] != front[b] by {
            assert(front[a] == ids[a] && front[b] == ids[b]);
        }
        lemma_distinct_ids_in_targets(front, tg2);
    }
}

/// Whether `v` already holds a server with this identifier.
fn holds_uuid(v: &Vec<DatanodeInfo>, uuid: u128) -> (r: bool)
    ensures
        r == (exists|i: int| 0 <= i < v@.len() && (#[trigger] v@[i]).datanode_uuid == uuid),
{
    let mut i: usize = 0;
    while i < v.len()
        invariant
            i <= v@.len(),
            forall|j: int| 0 <= j < i ==> (#[trigger] v@[j]).datanode_uuid != uuid,
        decreases v@.len() - i,
    {
        if v[i].datanode_uuid == uuid {
            return true;
        }
        i = i + 1;
    }
    false
}

/// An element-for-element copy of an identifier list./// An element-for-element copy of an identifier list.
fn copy_u128s(v: &Vec<u128>) -> (r: Vec<u128>)
    ensures
        r@ == v@,
{
    let mut r: Vec<u128> = Vec::new();
    let mut i: usize = 0;
    while i < v.len()
        invariant
            i <= v@.len(),
            r@ == v@.take(i as int),
        decreases v@.len() - i,
    {
        r.push(v[i]);
        proof {
            assert(v@.take(i + 1) =~= v@.take(i as int).push(v@[i as int]));
        }
        i = i + 1;
    }
    proof {
        assert(v@.take(v@.len() as int) =~= v@);
    }
    r
}

} // verus!
