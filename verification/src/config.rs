//! The process-wide configuration: immutable after load.  Loading from files
//! and the environment happens outside the crate; the defaults live here.

use vstd::prelude::*;
use crate::{DEFAULT_BLOCK_SIZE, DEFAULT_PACKET_SIZE, DEFAULT_REPLICATION_FACTOR};

verus! {

/// Settings of a storage server process.
pub struct DatanodeConfig {
    pub namenode_rpc_address: String,
    pub data_dir: String,
    pub disk_check_interval: u64,
}

/// Settings of the coordinator process.
pub struct NamenodeConfig {
    pub bind_address: String,
    pub name_dir: String,
}

/// Everything a process of the store reads at start-up.
pub struct AppConfig {
    pub debug: bool,
    pub namenode: NamenodeConfig,
    pub datanode: DatanodeConfig,
    pub packet_size: u64,
    pub block_size: u64,
    pub replication_factor: u64,
    pub xfer_port: u32,
    pub host_ip: String,
}

impl Default for DatanodeConfig {
    fn default() -> (r: DatanodeConfig)
        ensures
            r.namenode_rpc_address@ == "http://[::1]:50051"@,
            r.data_dir@ == "/tmp/cuddlyfs/datanode"@,
            r.disk_check_interval == 3000,
    {
        DatanodeConfig {
            namenode_rpc_address: "http://[::1]:50051".to_owned(),
            data_dir: "/tmp/cuddlyfs/datanode".to_owned(),
            disk_check_interval: 3000,
        }
    }
}

impl Default for NamenodeConfig {
    fn default() -> (r: NamenodeConfig)
        ensures
            r.bind_address@ == "[::1]:50051"@,
            r.name_dir@ == "/tmp/cuddlyfs/namenode"@,
    {
        NamenodeConfig {
            bind_address: "[::1]:50051".to_owned(),
            name_dir: "/tmp/cuddlyfs/namenode".to_owned(),
        }
    }
}

impl Default for AppConfig {
    fn default() -> (r: AppConfig)
        ensures
            r.debug == false,
            r.packet_size == DEFAULT_PACKET_SIZE,
            r.block_size == DEFAULT_BLOCK_SIZE,
            r.replication_factor == DEFAULT_REPLICATION_FACTOR,
            r.xfer_port == 50010,
            r.host_ip@ == "http://[::1]"@,
            r.namenode.bind_address@ == "[::1]:50051"@,
            r.datanode.namenode_rpc_address@ == "http://[::1]:50051"@,
            r.datanode.data_dir@ == "/tmp/cuddlyfs/datanode"@,
            r.datanode.disk_check_interval == 3000,
    {
        AppConfig {
            debug: false,
            namenode: Default::default(),
            datanode: Default::default(),
            packet_size: DEFAULT_PACKET_SIZE,
            block_size: DEFAULT_BLOCK_SIZE,
            replication_factor: DEFAULT_REPLICATION_FACTOR,
            xfer_port: 50010,
            host_ip: "http://[::1]".to_owned(),
        }
    }
}

} // verus!
