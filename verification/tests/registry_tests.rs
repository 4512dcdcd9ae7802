use cuddlyfs::block::Block;
use cuddlyfs::datanode_registry::DatanodeDataRegistry;
use cuddlyfs::editlog::{decode_edit_record, encode_edit_record};
use cuddlyfs::errors::TransportClass;
use cuddlyfs::errors::CudddlyError;
use cuddlyfs::maps::{BlockIdToDatanodeMap, KeyToDataAndIdMap};
use cuddlyfs::pipeline::{assemble_packets, cut_into_pieces, make_packets};
use cuddlyfs::progress::NamenodeProgressTracker;
use cuddlyfs::registry::{DataRegistry, HeartbeatRegistration, StorageReport, HEARTBEAT_TIMEOUT};

fn heartbeat(reg: &mut DataRegistry, id: u128, now: i64) {
    let r = reg.handle_heartbeat_at(
        &HeartbeatRegistration {
            datanode_uuid: Some(id),
            address: format!("127.0.0.1:{}", 50000 + id as u64),
        },
        &vec![StorageReport { capacity: 1 << 40, dfs_used: 0 }],
        now,
    );
    assert!(r.success);
    assert!(r.active);
}

/// Streams one reserved block's bytes through the packetizer and reports it
/// from every target, the way the storage servers would.
fn stream_block(_reg: &mut DataRegistry, data: &[u8], packet_size: u64) -> (Vec<u8>, u64) {
    let packets = make_packets(data, packet_size);
    let total: u64 = packets.iter().map(|p| p.0.size).sum();
    let assembled = assemble_packets(&packets).unwrap();
    assert_eq!(assembled, data.to_vec());
    assert_eq!(total as usize, data.len());
    if !packets.is_empty() {
        for (i, p) in packets.iter().enumerate() {
            assert_eq!(p.0.last, i == packets.len() - 1);
        }
    }
    (assembled, total)
}

#[test]
fn single_block_round_trip() {
    let mut reg = DataRegistry::new(8, 1);
    heartbeat(&mut reg, 11, 0);
    let data = b"hello!!!";
    let out = reg.start_file_create("/f").unwrap().unwrap();
    let (block, targets) = out;
    assert_eq!(targets.len(), 1);
    assert_eq!(block.seq, 0);
    let pieces = cut_into_pieces(data, 8);
    assert_eq!(pieces.len(), 1);
    let (bytes, total) = stream_block(&mut reg, &pieces[0], 4);
    assert_eq!(total, 8);
    assert_eq!(bytes, data.to_vec());
    reg.block_received(11, &Block::new(block.id, total, block.seq))
        .unwrap();
    // the two sides of the bimap stay paired
    let held = reg.datanode_to_blocks.get_ids_for_key(&11).unwrap();
    assert!(held.contains(&block.id));
    let holders = reg.block_to_datanodes.get_ids_for_key(&block.id).unwrap();
    assert_eq!(holders, &vec![11u128]);
    reg.finish_file_create("/f").unwrap();
    assert_eq!(reg.fs_directory.list("/").unwrap(), vec!["f".to_string()]);
    let opened = reg.open_file("/f").unwrap();
    assert_eq!(opened.len(), 1);
    assert_eq!(opened[0].0.len, 8);
    assert_eq!(opened[0].0.seq, 0);
    assert_eq!(opened[0].1.len(), 1);
    assert_eq!(opened[0].1[0].datanode_uuid, 11);
}

#[test]
fn multi_block_round_trip() {
    let mut reg = DataRegistry::new(4, 1);
    heartbeat(&mut reg, 21, 0);
    let data = b"abcdefghij";
    let pieces = cut_into_pieces(data, 4);
    assert_eq!(pieces.len(), 3);
    assert_eq!(pieces[0], b"abcd".to_vec());
    assert_eq!(pieces[2], b"ij".to_vec());
    let mut committed: Vec<u8> = Vec::new();
    let mut first = true;
    for piece in &pieces {
        let out = if first {
            reg.start_file_create("/g").unwrap().unwrap()
        } else {
            reg.start_another_block("/g").unwrap().unwrap()
        };
        first = false;
        let (block, _targets) = out;
        let (bytes, total) = stream_block(&mut reg, piece, 4);
        committed.extend_from_slice(&bytes);
        reg.block_received(21, &Block::new(block.id, total, block.seq))
            .unwrap();
    }
    reg.finish_file_create("/g").unwrap();
    assert_eq!(committed, data.to_vec());
    let opened = reg.open_file("/g").unwrap();
    assert_eq!(opened.len(), 3);
    let lens: Vec<u64> = opened.iter().map(|e| e.0.len).collect();
    assert_eq!(lens, vec![4, 4, 2]);
    let seqs: Vec<u64> = opened.iter().map(|e| e.0.seq).collect();
    assert_eq!(seqs, vec![0, 1, 2]);
}

#[test]
fn under_replication_then_retry() {
    let mut reg = DataRegistry::new(8, 3);
    heartbeat(&mut reg, 1, 0);
    heartbeat(&mut reg, 2, 0);
    let out = reg.start_file_create("/x").unwrap();
    assert!(out.is_none());
    // nothing was registered, so a plain retry succeeds once a third
    // server has reported in
    heartbeat(&mut reg, 3, 0);
    let out = reg.start_file_create("/x").unwrap();
    assert!(out.is_some());
    let (_, targets) = out.unwrap();
    assert_eq!(targets.len(), 3);
}

#[test]
fn unicode_directory_names_are_valid() {
    let mut reg = DataRegistry::new(8, 1);
    reg.make_dir("/caf\u{e9}/b\u{fc}cher").unwrap();
    let names = reg.list("/").unwrap();
    assert_eq!(names, vec!["caf\u{e9}".to_string()]);
    assert_eq!(
        reg.list("/caf\u{e9}").unwrap(),
        vec!["b\u{fc}cher".to_string()]
    );
}

#[test]
fn abort_keeps_counters_and_other_files() {
    let mut reg = DataRegistry::new(8, 1);
    heartbeat(&mut reg, 5, 0);
    let (block, _) = reg.start_file_create("/a").unwrap().unwrap();
    reg.block_received(5, &Block::new(block.id, 8, 0)).unwrap();
    assert_eq!(
        reg.namenode_progress_tracker.get_replication_count(block.id),
        1
    );
    // forgetting the reserved block keeps its replication counter
    reg.abort_block("/a", &block).unwrap();
    assert_eq!(
        reg.namenode_progress_tracker.get_replication_count(block.id),
        1
    );
    // the orphaned counter survives even dropping the file: aborted blocks
    // stay tracked until the process restarts
    reg.abort_file_create("/a").unwrap();
    assert_eq!(
        reg.namenode_progress_tracker.get_replication_count(block.id),
        1
    );
}

#[test]
fn replay_rebuilds_the_namespace() {
    let mut reg = DataRegistry::new(8, 1);
    heartbeat(&mut reg, 9, 0);
    let mut log: Vec<u8> = Vec::new();
    let rec = reg.make_dir("/d").unwrap();
    assert!(encode_edit_record(&rec, &mut log));
    let (block, _) = reg.start_file_create("/d/f").unwrap().unwrap();
    reg.block_received(9, &Block::new(block.id, 8, 0)).unwrap();
    let rec = reg.finish_file_create("/d/f").unwrap();
    assert!(encode_edit_record(&rec, &mut log));

    // a fresh coordinator replays the log and sees the same namespace
    let mut fresh = DataRegistry::new(8, 1);
    let mut pos = 0usize;
    while pos < log.len() {
        let (op, next) = decode_edit_record(&log, pos).unwrap();
        fresh.apply_edit(&op).unwrap();
        pos = next;
    }
    assert_eq!(fresh.list("/").unwrap(), vec!["d".to_string()]);
    assert_eq!(fresh.list("/d").unwrap(), vec!["f".to_string()]);
    let opened = fresh.open_file("/d/f").unwrap();
    assert_eq!(opened.len(), 1);
    assert_eq!(opened[0].0.id, block.id);
    assert_eq!(opened[0].0.len, 8);
}

#[test]
fn finish_waits_for_replication() {
    let mut reg = DataRegistry::new(8, 2);
    heartbeat(&mut reg, 1, 0);
    heartbeat(&mut reg, 2, 0);
    let (block, _targets) = reg.start_file_create("/w").unwrap().unwrap();
    reg.block_received(1, &Block::new(block.id, 8, 0)).unwrap();
    let err = reg.finish_file_create("/w").unwrap_err();
    match err {
        CudddlyError::WaitingForReplication(_) => {}
        other => panic!("unexpected error: {:?}", other),
    }
    reg.block_received(2, &Block::new(block.id, 8, 0)).unwrap();
    reg.finish_file_create("/w").unwrap();
    assert_eq!(reg.fs_directory.list("/").unwrap(), vec!["w".to_string()]);
}

#[test]
fn errors_map_to_transport_classes() {
    let waiting = CudddlyError::WaitingForReplication("soon".to_string());
    assert!(matches!(waiting.transport_class(), TransportClass::Unavailable));
    let bad = CudddlyError::FSError("no".to_string());
    assert!(matches!(bad.transport_class(), TransportClass::InvalidArgument));
}

#[test]
fn block_received_requires_registration() {
    let mut reg = DataRegistry::new(8, 1);
    let err = reg.block_received(99, &Block::new(5, 1, 0)).unwrap_err();
    match err {
        CudddlyError::FSError(msg) => {
            assert!(msg.starts_with("Block received from unregistered datanode"))
        }
        other => panic!("unexpected error: {:?}", other),
    }
}

#[test]
fn heartbeat_without_uuid_is_rejected() {
    let mut reg = DataRegistry::new(8, 1);
    let r = reg.handle_heartbeat_at(
        &HeartbeatRegistration { datanode_uuid: None, address: "x".to_string() },
        &Vec::new(),
        0,
    );
    assert!(!r.success);
    assert_eq!(r.message, "Request doesn't have UUID of node");
}

#[test]
fn heartbeat_expiry_evicts_server_and_replicas() {
    let mut reg = DataRegistry::new(8, 1);
    heartbeat(&mut reg, 7, 0);
    let (block, _targets) = reg.start_file_create("/only").unwrap().unwrap();
    reg.block_received(7, &Block::new(block.id, 8, 0)).unwrap();
    reg.finish_file_create("/only").unwrap();
    // the server goes silent past the timeout
    reg.remove_invalid_datanodes(HEARTBEAT_TIMEOUT + 1);
    let alive = reg.report_datanodes().unwrap();
    assert!(alive.is_empty());
    let opened = reg.open_file("/only").unwrap();
    assert_eq!(opened.len(), 1);
    assert!(opened[0].1.is_empty());
}

#[test]
fn fresh_heartbeat_survives_the_sweep() {
    let mut reg = DataRegistry::new(8, 1);
    heartbeat(&mut reg, 7, 100);
    reg.remove_invalid_datanodes(100 + HEARTBEAT_TIMEOUT);
    let alive = reg.report_datanodes().unwrap();
    assert_eq!(alive.len(), 1);
    assert_eq!(alive[0].datanode_uuid, 7);
}

#[test]
fn mkdir_via_registry_is_atomic() {
    let mut reg = DataRegistry::new(8, 1);
    let rec = reg.make_dir("/a/b").unwrap();
    match rec {
        cuddlyfs::editlog::EditOperation::Mkdir(p) => assert_eq!(p, "/a/b"),
        _ => panic!("wrong record kind"),
    }
    // a rejected walk changes nothing, not even the valid leading segments
    assert!(reg.make_dir("/ok/ bad").is_err());
    let mut names = reg.fs_directory.list("/").unwrap();
    names.sort();
    assert_eq!(names, vec!["a".to_string()]);
}

#[test]
fn tracker_assigns_ordinals_in_order() {
    let mut t = NamenodeProgressTracker::new();
    t.add_file("/f".to_string()).unwrap();
    assert_eq!(t.add_block("/f", 100).unwrap(), 0);
    assert_eq!(t.add_block("/f", 101).unwrap(), 1);
    assert_eq!(t.get_block_ids("/f").unwrap(), vec![100, 101]);
    t.remove_block("/f", 100).unwrap();
    assert_eq!(t.get_block_ids("/f").unwrap(), vec![101]);
    assert_eq!(t.get_replication_count(101), 0);
    t.increment_replication(101);
    t.increment_replication(101);
    assert_eq!(t.get_replication_count(101), 2);
    assert!(t.contains_block(&101));
    t.remove_file("/f").unwrap();
    assert!(!t.contains_block(&101));
    assert!(t.get_block_ids("/f").is_err());
}

#[test]
fn tracker_rejects_duplicates_and_missing() {
    let mut t = NamenodeProgressTracker::new();
    t.add_file("/f".to_string()).unwrap();
    let err = t.add_file("/f".to_string()).unwrap_err();
    assert_eq!(
        err,
        CudddlyError::FSError("'/f': File creation already in progress".to_string())
    );
    let err = t.add_block("/other", 1).unwrap_err();
    assert_eq!(
        err,
        CudddlyError::FSError("'/other': File creation has not started yet".to_string())
    );
}

#[test]
fn key_to_data_and_id_map_basics() {
    let mut m: KeyToDataAndIdMap<u64> = KeyToDataAndIdMap::new();
    assert!(!m.contains_key(&1));
    m.insert_data(1, 10);
    assert!(m.contains_key(&1));
    assert_eq!(m.get_data(&1), Some(&10));
    // inserting again keeps the first datum
    m.insert_data(1, 20);
    assert_eq!(m.get_data(&1), Some(&10));
    assert!(m.insert_id_for_key(1, 10, 5));
    assert!(!m.insert_id_for_key(1, 10, 5));
    assert!(m.contains_id_for_key(&1, &5));
    assert!(m.insert_id_for_key(2, 30, 6));
    assert_eq!(m.get_data(&2), Some(&30));
    assert!(m.remove_id_for_key(&1, &5));
    assert!(!m.remove_id_for_key(&1, &5));
    assert_eq!(m.remove_key(&2), Some(30));
    assert!(!m.contains_key(&2));
    assert!(m.insert_id_for_key_if_present(1, 9));
    assert!(!m.insert_id_for_key_if_present(42, 9));
    let ids = m.get_ids_for_key(&1).unwrap();
    assert_eq!(ids, &vec![9]);
}

#[test]
fn block_map_basics() {
    let mut m: BlockIdToDatanodeMap<u64> = BlockIdToDatanodeMap::new();
    m.insert_block(1, 111);
    assert!(m.contains_block(&1));
    assert_eq!(m.get_block(&1), Some(&111));
    assert!(m.insert_datanode_for_block(1, 111, 7));
    assert!(!m.insert_datanode_for_block(1, 111, 7));
    assert!(m.contains_datanode_for_block(&1, &7));
    assert_eq!(m.get_datanodes_for_block(&1), Some(&vec![7]));
    assert!(m.remove_datanode_for_block(&1, &7));
    assert!(!m.contains_datanode_for_block(&1, &7));
}

#[test]
fn in_progress_set_is_exclusive() {
    let mut d = DatanodeDataRegistry::new();
    d.insert_in_progress_block(5).unwrap();
    assert!(d.contains_in_progress_block(5));
    let err = d.insert_in_progress_block(5).unwrap_err();
    match err {
        CudddlyError::IOError(_) => {}
        other => panic!("unexpected error: {:?}", other),
    }
    d.remove_in_progress_block(5).unwrap();
    assert!(!d.contains_in_progress_block(5));
    assert!(d.remove_in_progress_block(5).is_err());
}
