//! What the coordinator knows of one storage server.

use vstd::prelude::*;

verus! {

/// A storage server: its transfer endpoint, its identifier, and its last
/// reported capacity figures (`used_capacity <= total_capacity` is refreshed
/// on every heartbeat but not enforced here; free capacity saturates at 0).
#[derive(Clone, Debug)]
pub struct DatanodeInfo {
    pub address: String,
    pub datanode_uuid: u128,
    pub total_capacity: u64,
    pub used_capacity: u64,
}

impl DatanodeInfo {
    pub fn new(address: String, datanode_uuid: u128, total_capacity: u64, used_capacity: u64) -> (d:
        DatanodeInfo)
        ensures
            d.address == address,
            d.datanode_uuid == datanode_uuid,
            d.total_capacity == total_capacity,
            d.used_capacity == used_capacity,
    {
        DatanodeInfo { address, datanode_uuid, total_capacity, used_capacity }
    }

    pub fn socket_address(&self) -> (r: &String)
        ensures
            r == &self.address,
    {
        &self.address
    }

    pub fn datanode_uuid(&self) -> (r: &u128)
        ensures
            r == &self.datanode_uuid,
    {
        &self.datanode_uuid
    }

    pub fn total_capacity(&self) -> (r: u64)
        ensures
            r == self.total_capacity,
    {
        self.total_capacity
    }

    pub fn used_capacity(&self) -> (r: u64)
        ensures
            r == self.used_capacity,
    {
        self.used_capacity
    }

    /// Capacity still free on the server (0 if the report was inconsistent).
    pub fn free_capacity(&self) -> (r: u64)
        ensures
            r == self.spec_free_capacity(),
    {
        if self.total_capacity >= self.used_capacity {
            self.total_capacity - self.used_capacity
        } else {
            0
        }
    }

    pub open spec fn spec_free_capacity(self) -> u64 {
        if self.total_capacity >= self.used_capacity {
            (self.total_capacity - self.used_capacity) as u64
        } else {
            0
        }
    }
}

} // verus!
