use cuddlyfs::block::Block;
use cuddlyfs::chunk::{calculate_checksum, checksum_matches, Chunk};
use cuddlyfs::config::AppConfig;
use cuddlyfs::editlog::{decode_edit_record, encode_edit_record, EditOperation};
use cuddlyfs::framing::{
    decode_block, decode_frame, decode_operation, decode_packet, decode_read_op, decode_response,
    decode_varint, decode_write_op, encode_block, encode_frame, encode_operation, encode_packet,
    encode_read_op, encode_response, encode_varint, encode_write_op, OpCode, Operation, Packet,
    ReadBlockOperation, WriteBlockOperation, WriteBlockResponse,
};
use cuddlyfs::hex::{bytes_to_hex, u128_to_hex};
use cuddlyfs::outside_world::{fresh_id, shuffle_datanodes};
use cuddlyfs::datanode_info::DatanodeInfo;
use cuddlyfs::pipeline::{
    assemble_packets, bytes_to_fill_block, cut_into_pieces, heartbeat_failure_step, make_packets,
    next_backoff, next_hop_targets, reader_step, write_reply, ReadStep,
};

#[test]
fn varint_round_trips() {
    for x in [0u64, 1, 127, 128, 300, 16383, 16384, 1 << 32, u64::MAX] {
        let mut out = Vec::new();
        encode_varint(x, &mut out);
        let (v, n) = decode_varint(&out, 0).unwrap();
        assert_eq!(v, x);
        assert_eq!(n, out.len());
    }
    let mut out = Vec::new();
    encode_varint(300, &mut out);
    assert_eq!(out, vec![0xAC, 0x02]);
}

#[test]
fn block_round_trips() {
    let b = Block::new(0x0123_4567_89ab_cdef_0011_2233_4455_6677, 42, 3);
    let mut out = Vec::new();
    encode_block(&b, &mut out);
    assert_eq!(out.len(), 32);
    let (got, n) = decode_block(&out, 0).unwrap();
    assert_eq!(n, 32);
    assert_eq!(got.id, b.id);
    assert_eq!(got.len, b.len);
    assert_eq!(got.seq, b.seq);
}

#[test]
fn operation_and_response_round_trip() {
    for op in [OpCode::ReadBlock, OpCode::WriteBlock] {
        let mut out = Vec::new();
        encode_operation(&Operation { op }, &mut out);
        let (m, n) = decode_operation(&out, 0).unwrap();
        assert_eq!(n, 1);
        assert_eq!(m.op, op);
    }
    for success in [true, false] {
        let mut out = Vec::new();
        encode_response(&WriteBlockResponse { success }, &mut out);
        let (m, _) = decode_response(&out, 0).unwrap();
        assert_eq!(m.success, success);
    }
    assert!(decode_operation(&[9u8], 0).is_none());
}

#[test]
fn read_op_round_trips() {
    let m = ReadBlockOperation { block: Block::new(77, 8, 0) };
    let mut out = Vec::new();
    encode_read_op(&m, &mut out);
    let (got, _) = decode_read_op(&out, 0).unwrap();
    assert_eq!(got.block.id, 77);
}

#[test]
fn write_op_encodes_targets() {
    let m = WriteBlockOperation {
        block: Block::new(5, 0, 0),
        targets: vec!["127.0.0.1:50010".to_string(), "127.0.0.1:50011".to_string()],
    };
    let mut out = Vec::new();
    assert!(encode_write_op(&m, &mut out));
    // block (32) + count varint (1) + 2 * (length varint 1 + 15 bytes)
    assert_eq!(out.len(), 32 + 1 + 2 * 16);
    let (blk, after_block) = decode_block(&out, 0).unwrap();
    assert_eq!(blk.id, 5);
    let (count, mut pos) = decode_varint(&out, after_block).unwrap();
    assert_eq!(count, 2);
    for expect in ["127.0.0.1:50010", "127.0.0.1:50011"] {
        let (len, p) = decode_varint(&out, pos).unwrap();
        let bytes = &out[p..p + len as usize];
        assert_eq!(bytes, expect.as_bytes());
        pos = p + len as usize;
    }
    assert_eq!(pos, out.len());
    let (decoded, n) = decode_write_op(&out, 0).unwrap();
    assert_eq!(n, out.len());
    assert_eq!(decoded.block.id, 5);
    assert_eq!(decoded.targets, m.targets);
}

#[test]
fn packet_header_round_trips() {
    let payload = b"abcd";
    let digest = calculate_checksum(payload);
    assert_eq!(digest.len(), 32);
    let packets = make_packets(payload, 8);
    assert_eq!(packets.len(), 1);
    let header = &packets[0].0;
    let mut out = Vec::new();
    encode_packet(header, &mut out);
    assert_eq!(out.len(), 25);
    let (got, _) = decode_packet(&out, 0).unwrap();
    assert_eq!(got.size, 4);
    assert!(got.last);
    assert_eq!(got.checksum, header.checksum);
}

#[test]
fn frame_round_trips() {
    let body = b"some message body".to_vec();
    let mut out = Vec::new();
    encode_frame(&body, &mut out);
    let (start, end) = decode_frame(&out, 0).unwrap();
    assert_eq!(&out[start..end], body.as_slice());
    assert_eq!(end, out.len());
}

#[test]
fn corrupted_payload_is_detected() {
    let data = b"hello!!!";
    let mut packets = make_packets(data, 4);
    assert_eq!(packets.len(), 2);
    // flip one payload byte; the checksum no longer matches
    packets[1].1[0] ^= 0x01;
    let err = assemble_packets(&packets).unwrap_err();
    match err {
        cuddlyfs::errors::CudddlyError::ProtoError(msg) => {
            assert_eq!(msg, "packet checksum mismatch")
        }
        other => panic!("unexpected error: {:?}", other),
    }
}

#[test]
fn packets_cover_all_bytes() {
    let data = b"abcdefghij";
    let packets = make_packets(data, 4);
    let sizes: Vec<u64> = packets.iter().map(|p| p.0.size).collect();
    assert_eq!(sizes, vec![4, 4, 2]);
    let total: u64 = sizes.iter().sum();
    assert_eq!(total as usize, data.len());
    let lasts: Vec<bool> = packets.iter().map(|p| p.0.last).collect();
    assert_eq!(lasts, vec![false, false, true]);
    assert_eq!(assemble_packets(&packets).unwrap(), data.to_vec());
    assert!(make_packets(b"", 4).is_empty());
}

#[test]
fn checksum_has_known_value() {
    // the digest of the empty input, in hex
    assert_eq!(calculate_checksum(b""), "d41d8cd98f00b204e9800998ecf8427e");
    assert!(checksum_matches(b"", "d41d8cd98f00b204e9800998ecf8427e"));
    assert!(!checksum_matches(b"x", "d41d8cd98f00b204e9800998ecf8427e"));
}

#[test]
fn chunk_checksum_verifies() {
    let c = Chunk::new("c1".to_string(), b"payload".to_vec());
    assert!(c.verify_checksum());
    let mut broken = Chunk::new("c2".to_string(), b"payload".to_vec());
    broken.data[0] ^= 0xff;
    assert!(!broken.verify_checksum());
}

#[test]
fn hex_rendering() {
    assert_eq!(bytes_to_hex(&[0xde, 0xad, 0x0b, 0xee]), "dead0bee");
    assert_eq!(bytes_to_hex(&[]), "");
    assert_eq!(u128_to_hex(1), format!("{}1", "0".repeat(31)));
}

#[test]
fn edit_records_round_trip() {
    let ops = vec![
        EditOperation::Mkdir("/a/b".to_string()),
        EditOperation::AddFile(
            "/a/b/f".to_string(),
            vec![Block::new(1, 4, 0), Block::new(2, 2, 1)],
        ),
    ];
    let mut out = Vec::new();
    for op in &ops {
        assert!(encode_edit_record(op, &mut out));
    }
    let (first, n1) = decode_edit_record(&out, 0).unwrap();
    match first {
        EditOperation::Mkdir(p) => assert_eq!(p, "/a/b"),
        _ => panic!("wrong first record"),
    }
    let (second, n2) = decode_edit_record(&out, n1).unwrap();
    match second {
        EditOperation::AddFile(p, blocks) => {
            assert_eq!(p, "/a/b/f");
            assert_eq!(blocks.len(), 2);
            assert_eq!(blocks[0].id, 1);
            assert_eq!(blocks[1].seq, 1);
        }
        _ => panic!("wrong second record"),
    }
    assert_eq!(n2, out.len());
    assert!(decode_edit_record(&out, n2).is_err());
}

#[test]
fn cut_into_pieces_shapes() {
    let pieces = cut_into_pieces(b"abcdefgh", 8);
    assert_eq!(pieces.len(), 1);
    let pieces = cut_into_pieces(b"abcdefghi", 8);
    assert_eq!(pieces.len(), 2);
    assert_eq!(pieces[1], b"i".to_vec());
    assert!(cut_into_pieces(b"", 8).is_empty());
}

#[test]
fn chain_write_decisions() {
    assert!(write_reply(true, true).success);
    assert!(!write_reply(true, false).success);
    assert!(!write_reply(false, true).success);
    let targets = vec!["a".to_string(), "b".to_string(), "c".to_string()];
    assert_eq!(
        next_hop_targets(&targets),
        vec!["b".to_string(), "c".to_string()]
    );
    let empty: Vec<String> = Vec::new();
    assert!(next_hop_targets(&empty).is_empty());
}

#[test]
fn client_side_decisions() {
    assert_eq!(bytes_to_fill_block(6, 10, 8), 2);
    assert_eq!(bytes_to_fill_block(2, 3, 8), 0);
    assert_eq!(next_backoff(500), 1000);
    assert_eq!(next_backoff(u64::MAX), u64::MAX);
    let (count, shutdown) = heartbeat_failure_step(3);
    assert_eq!(count, 4);
    assert!(!shutdown);
    let (count, shutdown) = heartbeat_failure_step(4);
    assert_eq!(count, 5);
    assert!(shutdown);
    assert!(matches!(reader_step(10, 10, 0, 8, 0, 4), ReadStep::Finished));
    assert!(matches!(reader_step(5, 10, 8, 8, 0, 4), ReadStep::NeedBlock));
    assert!(matches!(reader_step(5, 10, 4, 8, 4, 4), ReadStep::NeedPacket));
    assert!(matches!(
        reader_step(5, 10, 4, 8, 2, 4),
        ReadStep::CopyFromBuffer
    ));
}

#[test]
fn random_ids_are_fresh_and_shuffle_keeps_servers() {
    let a = fresh_id();
    let b = fresh_id();
    assert_ne!(a, b);
    let mut v = vec![
        DatanodeInfo::new("a".to_string(), 1, 10, 0),
        DatanodeInfo::new("b".to_string(), 2, 10, 0),
        DatanodeInfo::new("c".to_string(), 3, 10, 0),
    ];
    shuffle_datanodes(&mut v);
    let mut ids: Vec<u128> = v.iter().map(|d| d.datanode_uuid).collect();
    ids.sort();
    assert_eq!(ids, vec![1, 2, 3]);
}

#[test]
fn default_config_values() {
    let config = AppConfig::default();
    assert_eq!(config.namenode.bind_address, "[::1]:50051");
    assert_eq!(config.datanode.namenode_rpc_address, "http://[::1]:50051");
    assert_eq!(config.datanode.disk_check_interval, 3000);
    assert_eq!(config.block_size, 64 * 1024 * 1024);
    assert_eq!(config.packet_size, 64 * 1024);
    assert_eq!(config.replication_factor, 3);
}
