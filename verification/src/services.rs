//! The service endpoint types of the two processes.  Their network surface
//! (accepting streams, answering RPCs) lives outside the crate; the types
//! themselves and their construction live here.

use vstd::prelude::*;

verus! {

/// The storage-server endpoint that peers dial to replicate blocks; the
/// hosting process attaches its transport to it.
pub struct DatanodeDatanodeService {

}

impl DatanodeDatanodeService {
    pub fn new() -> (r: DatanodeDatanodeService)
        ensures
            r == (DatanodeDatanodeService {  }),
    {
        DatanodeDatanodeService {  }
    }
}

/// The coordinator endpoint that answers bare liveness probes.
pub struct NamenodeHeartbeatService {

}

impl NamenodeHeartbeatService {
    pub fn new() -> (r: NamenodeHeartbeatService)
        ensures
            r == (NamenodeHeartbeatService {  }),
    {
        NamenodeHeartbeatService {  }
    }
}

} // verus!
