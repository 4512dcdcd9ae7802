//! The length-delimited wire format of the block streaming protocol.
//!
//! Every message travels as a base-128 varint length prefix followed by the
//! message bytes; packet payloads follow their packet header raw.  Three
//! message kinds cover the protocol: the opening `Operation`, the typed
//! second message (`ReadBlockOperation` or `WriteBlockOperation`), and the
//! repeated `Packet` header; the tail replica answers with
//! `WriteBlockResponse`.  Encoding and decoding are exact inverses.

use vstd::prelude::*;
use vstd::bytes::{
    spec_u128_to_le_bytes, spec_u64_to_le_bytes, u128_from_le_bytes, u128_to_le_bytes,
    u64_from_le_bytes, u64_to_le_bytes,
};
use crate::block::Block;

verus! {

/// The two stream operations.
#[derive(Copy, Clone, Debug, PartialEq, Eq, Structural)]
pub enum OpCode {
    ReadBlock,
    WriteBlock,
}

/// The first message on a new connection.
pub struct Operation {
    pub op: OpCode,
}

/// The second message of a read stream.
pub struct ReadBlockOperation {
    pub block: Block,
}

/// The second message of a write stream: the block and the remaining
/// replication targets.
pub struct WriteBlockOperation {
    pub block: Block,
    pub targets: Vec<String>,
}

/// One packet header: payload size, terminal flag, and the payload's
/// 16-byte content digest.
pub struct Packet {
    pub size: u64,
    pub last: bool,
    pub checksum: Vec<u8>,
}

/// The tail replica's answer to a write stream.
pub struct WriteBlockResponse {
    pub success: bool,
}

/// The varint encoding of `x`: 7 bits per byte, low bits first, high bit set
/// on every byte but the last.
pub open spec fn varint_bytes(x: u64) -> Seq<u8>
    decreases x,
{
    if x < 128 {
        seq![x as u8]
    } else {
        seq![(x % 128 + 128) as u8] + varint_bytes(x / 128)
    }
}

/// Decodes a varint from the front of `b`: the value and the bytes consumed.
/// Rejects prefixes longer than 10 bytes and values beyond 64 bits.
pub open spec fn spec_varint_decode(b: Seq<u8>) -> Option<(u64, int)>
    decreases b.len(),
{
    if b.len() == 0 {
        None
    } else if b[0] < 128 {
        Some((b[0] as u64, 1))
    } else {
        match spec_varint_decode(b.drop_first()) {
            None => None,
            Some((v, n)) => {
                if n + 1 <= 10 && (b[0] - 128) + 128 * (v as int) <= u64::MAX as int {
                    Some((((b[0] - 128) + 128 * (v as int)) as u64, n + 1))
                } else {
                    None
                }
            },
        }
    }
}

/// A varint never takes more than 10 bytes.
pub proof fn lemma_varint_len(x: u64)
    ensures
        1 <= varint_bytes(x).len() <= 10,
{
    let x1 = x / 128;
    let x2 = x1 / 128;
    let x3 = x2 / 128;
    let x4 = x3 / 128;
    let x5 = x4 / 128;
    let x6 = x5 / 128;
    let x7 = x6 / 128;
    let x8 = x7 / 128;
    let x9 = x8 / 128;
    assert(x9 < 128);
    assert(varint_bytes(x9).len() == 1);
    assert(varint_bytes(x8).len() <= 2);
    assert(varint_bytes(x7).len() <= 3);
    assert(varint_bytes(x6).len() <= 4);
    assert(varint_bytes(x5).len() <= 5);
    assert(varint_bytes(x4).len() <= 6);
    assert(varint_bytes(x3).len() <= 7);
    assert(varint_bytes(x2).len() <= 8);
    assert(varint_bytes(x1).len() <= 9);
    assert(varint_bytes(x).len() <= 10);
}

/// Decoding undoes encoding, whatever bytes follow.
pub proof fn lemma_varint_roundtrip(x: u64, rest: Seq<u8>)
    ensures
        spec_varint_decode(varint_bytes(x) + rest) == Some(
            (x, varint_bytes(x).len() as int),
        ),
    decreases x,
{
    lemma_varint_len(x);
    let b = varint_bytes(x) + rest;
    if x < 128 {
        assert(b[0] == x as u8);
    } else {
        lemma_varint_roundtrip(x / 128, rest);
        assert(b.drop_first() =~= varint_bytes(x / 128) + rest);
        assert(b[0] == (x % 128 + 128) as u8);
        assert((b[0] - 128) + 128 * ((x / 128) as int) == x);
    }
}

/// Appends the varint encoding of `x`.
pub fn encode_varint(x: u64, out: &mut Vec<u8>)
    ensures
        final(out)@ == old(out)@ + varint_bytes(x),
{
    let mut v: u64 = x;
    let ghost orig = out@;
    while v >= 128
        invariant
            orig + varint_bytes(x) == out@ + varint_bytes(v),
        decreases v,
    {
        proof {
            assert(varint_bytes(v) == seq![(v % 128 + 128) as u8] + varint_bytes(v / 128));
            assert(out@.push((v % 128 + 128) as u8) + varint_bytes(v / 128) =~= out@
                + varint_bytes(v));
        }
        out.push((v % 128 + 128) as u8);
        v = v / 128;
    }
    proof {
        assert(varint_bytes(v) =~= seq![v as u8]);
        assert(out@.push(v as u8) =~= out@ + varint_bytes(v));
    }
    out.push(v as u8);
}

/// Reads a varint from `b` starting at `pos`; the value and the position
/// just past it.
pub fn decode_varint(b: &[u8], pos: usize) -> (r: Option<(u64, usize)>)
    requires
        pos <= b@.len(),
    ensures
        match r {
            Some((v, n)) => pos < n <= b@.len() && spec_varint_decode(b@.skip(pos as int))
                == Some((v, n - pos)),
            None => spec_varint_decode(b@.skip(pos as int)) is None,
        },
    decreases b@.len() - pos,
{
    if pos >= b.len() {
        proof {
            assert(b@.skip(pos as int).len() == 0);
        }
        return None;
    }
    let c = b[pos];
    proof {
        assert(b@.skip(pos as int)[0] == c);
    }
    if c < 128 {
        Some((c as u64, pos + 1))
    } else {
        match self::decode_varint(b, pos + 1) {
            None => {
                proof {
                    assert(b@.skip(pos as int).drop_first() =~= b@.skip(pos + 1));
                }
                None
            },
            Some((v, n)) => {
                proof {
                    assert(b@.skip(pos as int).drop_first() =~= b@.skip(pos + 1));
                }
                if n - pos <= 10 && v <= (u64::MAX - ((c - 128) as u64)) / 128 {
                    proof {
                        let lo = (c - 128) as int;
                        assert(128 * (v as int) <= (u64::MAX as int) - lo) by (nonlinear_arith)
                            requires
                                0 <= lo < 128,
                                0 <= v as int,
                                v as int <= ((u64::MAX as int) - lo) / 128,
                        ;
                    }
                    let value = ((c - 128) as u64) + 128 * v;
                    Some((value, n))
                } else {
                    proof {
                        let lo = (c - 128) as int;
                        if n - pos <= 10 {
                            assert(lo + 128 * (v as int) > u64::MAX as int) by (nonlinear_arith)
                                requires
                                    0 <= lo < 128,
                                    0 <= v as int,
                                    v as int > ((u64::MAX as int) - lo) / 128,
                            ;
                        }
                    }
                    None
                }
            },
        }
    }
}

/// The byte tag of a stream operation.
pub open spec fn opcode_byte(op: OpCode) -> u8 {
    match op {
        OpCode::ReadBlock => 0,
        OpCode::WriteBlock => 1,
    }
}

/// A block on the wire: id, length and ordinal, little-endian, 32 bytes.
pub open spec fn spec_block_bytes(b: Block) -> Seq<u8> {
    spec_u128_to_le_bytes(b.id) + spec_u64_to_le_bytes(b.len) + spec_u64_to_le_bytes(b.seq)
}

/// An ASCII string's bytes.
pub open spec fn spec_string_bytes(s: Seq<char>) -> Seq<u8> {
    Seq::new(s.len(), |i: int| (s[i] as u8))
}

/// Whether every character of `s` is ASCII.
pub open spec fn all_ascii(s: Seq<char>) -> bool {
    vstd::utf8::is_ascii_chars(s)
}

/// The targets list on the wire: each target length-prefixed.
pub open spec fn spec_targets_bytes(ts: Seq<Seq<char>>) -> Seq<u8>
    decreases ts.len(),
{
    if ts.len() == 0 {
        Seq::empty()
    } else {
        varint_bytes(ts[0].len() as u64) + spec_string_bytes(ts[0]) + spec_targets_bytes(
            ts.drop_first(),
        )
    }
}

/// An `Operation` message body.
pub open spec fn spec_operation_bytes(m: Operation) -> Seq<u8> {
    seq![opcode_byte(m.op)]
}

/// A `ReadBlockOperation` message body.
pub open spec fn spec_read_op_bytes(m: ReadBlockOperation) -> Seq<u8> {
    spec_block_bytes(m.block)
}

/// A `WriteBlockOperation` message body.
pub open spec fn spec_write_op_bytes(m: WriteBlockOperation) -> Seq<u8> {
    spec_block_bytes(m.block) + varint_bytes(m.targets@.len() as u64) + spec_targets_bytes(
        m.targets.deep_view(),
    )
}

/// A `Packet` header body: size, terminal flag, payload digest.
pub open spec fn spec_packet_bytes(p: Packet) -> Seq<u8> {
    spec_u64_to_le_bytes(p.size) + seq![
        if p.last {
            1u8
        } else {
            0u8
        },
    ] + p.checksum@
}

/// A `WriteBlockResponse` message body.
pub open spec fn spec_response_bytes(m: WriteBlockResponse) -> Seq<u8> {
    seq![
        if m.success {
            1u8
        } else {
            0u8
        },
    ]
}

/// Appends `bytes` to `out`.
fn append_bytes(out: &mut Vec<u8>, bytes: &[u8])
    ensures
        final(out)@ == old(out)@ + bytes@,
{
    out.extend_from_slice(bytes)
}

/// Appends a block's 32 wire bytes.
pub fn encode_block(b: &Block, out: &mut Vec<u8>)
    ensures
        final(out)@ == old(out)@ + spec_block_bytes(*b),
{
    let idb = u128_to_le_bytes(b.id);
    append_bytes(out, idb.as_slice());
    let lenb = u64_to_le_bytes(b.len);
    append_bytes(out, lenb.as_slice());
    let seqb = u64_to_le_bytes(b.seq);
    append_bytes(out, seqb.as_slice());
    proof {
        assert(final(out)@ =~= old(out)@ + spec_block_bytes(*b));
    }
}

/// Reads a block's 32 wire bytes starting at `pos`.
pub fn decode_block(b: &[u8], pos: usize) -> (r: Option<(Block, usize)>)
    requires
        pos <= b@.len(),
    ensures
        match r {
            Some((blk, n)) => n == pos + 32 && n <= b@.len() && b@.subrange(pos as int, n as int)
                == spec_block_bytes(blk),
            None => b@.len() - pos < 32,
        },
{
    if b.len() - pos < 32 {
        return None;
    }
    let id = u128_from_le_bytes(slice_range(b, pos, pos + 16));
    let len = u64_from_le_bytes(slice_range(b, pos + 16, pos + 24));
    let seq = u64_from_le_bytes(slice_range(b, pos + 24, pos + 32));
    let blk = Block::new(id, len, seq);
    proof {
        vstd::bytes::lemma_auto_spec_u128_to_from_le_bytes();
        vstd::bytes::lemma_auto_spec_u64_to_from_le_bytes();
        assert(b@.subrange(pos as int, pos + 32) =~= spec_block_bytes(blk)) by {
            assert(spec_u128_to_le_bytes(id) =~= b@.subrange(pos as int, pos + 16));
            assert(spec_u64_to_le_bytes(len) =~= b@.subrange(pos + 16, pos + 24));
            assert(spec_u64_to_le_bytes(seq) =~= b@.subrange(pos + 24, pos + 32));
        }
    }
    Some((blk, pos + 32))
}

/// Encoding a block then decoding it gives the block back.
pub proof fn lemma_block_bytes_injective(a: Block, c: Block)
    requires
        spec_block_bytes(a) == spec_block_bytes(c),
    ensures
        a.id == c.id && a.len == c.len && a.seq == c.seq,
{
    vstd::bytes::lemma_auto_spec_u128_to_from_le_bytes();
    vstd::bytes::lemma_auto_spec_u64_to_from_le_bytes();
    assert(spec_u128_to_le_bytes(a.id) =~= spec_block_bytes(a).subrange(0, 16));
    assert(spec_u64_to_le_bytes(a.len) =~= spec_block_bytes(a).subrange(16, 24));
    assert(spec_u64_to_le_bytes(a.seq) =~= spec_block_bytes(a).subrange(24, 32));
    assert(spec_u128_to_le_bytes(c.id) =~= spec_block_bytes(c).subrange(0, 16));
    assert(spec_u64_to_le_bytes(c.len) =~= spec_block_bytes(c).subrange(16, 24));
    assert(spec_u64_to_le_bytes(c.seq) =~= spec_block_bytes(c).subrange(24, 32));
}

/// A sub-slice of `b` (`from..to`).
fn slice_range<'a>(b: &'a [u8], from: usize, to: usize) -> (r: &'a [u8])
    requires
        from <= to <= b@.len(),
    ensures
        r@ == b@.subrange(from as int, to as int),
{
    vstd::slice::slice_subrange(b, from, to)
}

/// Decodes `count` length-prefixed ASCII strings from the front of `b`.
pub open spec fn spec_targets_decode(b: Seq<u8>, count: int) -> Option<(Seq<Seq<char>>, int)>
    decreases count,
{
    if count <= 0 {
        Some((Seq::empty(), 0))
    } else {
        match spec_varint_decode(b) {
            None => None,
            Some((len, k)) => {
                if k + len <= b.len() && (forall|i: int|
                    k <= i < k + len ==> #[trigger] b[i] < 128) {
                    let s = Seq::new(len as nat, |i: int| (b[k + i] as char));
                    match spec_targets_decode(b.skip(k + len), count - 1) {
                        None => None,
                        Some((rest, n)) => Some((seq![s] + rest, k + len + n)),
                    }
                } else {
                    None
                }
            },
        }
    }
}

/// An ASCII string's wire bytes are its characters, and decoding them gives
/// the characters back.
pub proof fn lemma_string_bytes_ascii(s: Seq<char>)
    requires
        all_ascii(s),
    ensures
        forall|i: int| 0 <= i < s.len() ==> #[trigger] spec_string_bytes(s)[i] < 128,
        forall|i: int| 0 <= i < s.len() ==> (#[trigger] spec_string_bytes(s)[i] as char) == s[i],
{
    vstd::utf8::is_ascii_chars_nat_bound(s);
    assert forall|i: int| 0 <= i < s.len() implies #[trigger] spec_string_bytes(s)[i] < 128 && (
    spec_string_bytes(s)[i] as char) == s[i] by {
        assert((s[i] as nat) < 128);
    }
}

/// Decoding a targets list undoes encoding it, whatever bytes follow.
pub proof fn lemma_targets_roundtrip(ts: Seq<Seq<char>>, rest: Seq<u8>)
    requires
        forall|i: int| 0 <= i < ts.len() ==> all_ascii(#[trigger] ts[i]),
        forall|i: int| 0 <= i < ts.len() ==> (#[trigger] ts[i]).len() <= u64::MAX,
    ensures
        spec_targets_decode(spec_targets_bytes(ts) + rest, ts.len() as int) == Some(
            (ts, spec_targets_bytes(ts).len() as int),
        ),
    decreases ts.len(),
{
    if ts.len() == 0 {
        assert(spec_targets_bytes(ts) + rest =~= rest);
        assert(ts =~= Seq::<Seq<char>>::empty());
    } else {
        let head = ts[0];
        let hlen = head.len() as u64;
        let b = spec_targets_bytes(ts) + rest;
        lemma_varint_roundtrip(hlen, spec_string_bytes(head) + spec_targets_bytes(ts.drop_first()) + rest);
        let k = varint_bytes(hlen).len() as int;
        assert(b =~= varint_bytes(hlen) + (spec_string_bytes(head) + spec_targets_bytes(
            ts.drop_first(),
        ) + rest));
        assert(spec_varint_decode(b) == Some((hlen, k)));
        lemma_string_bytes_ascii(head);
        assert forall|i: int| k <= i < k + hlen implies #[trigger] b[i] < 128 by {
            assert(b[i] == spec_string_bytes(head)[i - k]);
        }
        let s = Seq::new(hlen as nat, |i: int| (b[k + i] as char));
        assert(s =~= head) by {
            assert forall|i: int| 0 <= i < head.len() implies s[i] == head[i] by {
                assert(b[k + i] == spec_string_bytes(head)[i]);
            }
        }
        assert(b.skip(k + hlen) =~= spec_targets_bytes(ts.drop_first()) + rest);
        lemma_targets_roundtrip(ts.drop_first(), rest);
        assert(seq![s] + ts.drop_first() =~= ts);
    }
}

/// Appends an `Operation` body.
pub fn encode_operation(m: &Operation, out: &mut Vec<u8>)
    ensures
        final(out)@ == old(out)@ + spec_operation_bytes(*m),
{
    let byte: u8 = match m.op {
        OpCode::ReadBlock => 0,
        OpCode::WriteBlock => 1,
    };
    out.push(byte);
    proof {
        assert(final(out)@ =~= old(out)@ + spec_operation_bytes(*m));
    }
}

/// Reads an `Operation` body at `pos`.
pub fn decode_operation(b: &[u8], pos: usize) -> (r: Option<(Operation, usize)>)
    requires
        pos <= b@.len(),
    ensures
        match r {
            Some((m, n)) => n == pos + 1 && n <= b@.len() && b@.subrange(pos as int, n as int)
                == spec_operation_bytes(m),
            None => b@.len() == pos || (b@[pos as int] != 0 && b@[pos as int] != 1),
        },
{
    if pos >= b.len() {
        return None;
    }
    let c = b[pos];
    let op = if c == 0 {
        OpCode::ReadBlock
    } else if c == 1 {
        OpCode::WriteBlock
    } else {
        return None;
    };
    let m = Operation { op };
    proof {
        assert(b@.subrange(pos as int, pos + 1) =~= spec_operation_bytes(m));
    }
    Some((m, pos + 1))
}

/// Appends a `ReadBlockOperation` body.
pub fn encode_read_op(m: &ReadBlockOperation, out: &mut Vec<u8>)
    ensures
        final(out)@ == old(out)@ + spec_read_op_bytes(*m),
{
    encode_block(&m.block, out);
}

/// Reads a `ReadBlockOperation` body at `pos`.
pub fn decode_read_op(b: &[u8], pos: usize) -> (r: Option<(ReadBlockOperation, usize)>)
    requires
        pos <= b@.len(),
    ensures
        match r {
            Some((m, n)) => n == pos + 32 && n <= b@.len() && b@.subrange(pos as int, n as int)
                == spec_read_op_bytes(m),
            None => b@.len() - pos < 32,
        },
{
    match decode_block(b, pos) {
        Some((blk, n)) => Some((ReadBlockOperation { block: blk }, n)),
        None => None,
    }
}

/// Appends a `WriteBlockOperation` body.  Targets must be ASCII (endpoint
/// strings are).
pub fn encode_write_op(m: &WriteBlockOperation, out: &mut Vec<u8>) -> (ok: bool)
    ensures
        ok ==> final(out)@ == old(out)@ + spec_write_op_bytes(*m),
        ok ==> forall|i: int| 0 <= i < m.targets@.len() ==> all_ascii(#[trigger] m.targets.deep_view()[i]),
        !ok ==> final(out)@ == old(out)@,
        (forall|i: int|
            0 <= i < m.targets@.len() ==> all_ascii(#[trigger] m.targets.deep_view()[i])) ==> ok,
{
    let ghost orig = out@;
    let mut i: usize = 0;
    while i < m.targets.len()
        invariant
            i <= m.targets@.len(),
            out@ == orig,
            forall|j: int| 0 <= j < i ==> all_ascii(#[trigger] m.targets.deep_view()[j]),
        decreases m.targets@.len() - i,
    {
        let ti = m.targets[i].as_str();
        if !ti.is_ascii() {
            proof {
                assert(ti@ == m.targets@[i as int]@);
                assert(m.targets.deep_view()[i as int] == m.targets@[i as int]@);
                assert(!all_ascii(m.targets.deep_view()[i as int]));
            }
            return false;
        }
        proof {
            assert(m.targets.deep_view()[i as int] == m.targets@[i as int]@);
            assert(ti@ == m.targets@[i as int]@);
            assert(all_ascii(m.targets@[i as int]@)) by {
                assert(vstd::string::is_ascii(ti));
            }
        }
        i = i + 1;
    }
    encode_block(&m.block, out);
    encode_varint(m.targets.len() as u64, out);
    let ghost before_targets = out@;
    let ghost deep = m.targets.deep_view();
    let mut j: usize = 0;
    proof {
        assert(deep.skip(0) =~= deep);
        assert(before_targets + spec_targets_bytes(deep) =~= out@ + spec_targets_bytes(
            deep.skip(0),
        ));
    }
    while j < m.targets.len()
        invariant
            j <= m.targets@.len(),
            deep == m.targets.deep_view(),
            forall|a: int| 0 <= a < deep.len() ==> all_ascii(#[trigger] deep[a]),
            before_targets + spec_targets_bytes(deep) == out@ + spec_targets_bytes(
                deep.skip(j as int),
            ),
        decreases m.targets@.len() - j,
    {
        let s = &m.targets[j];
        let ghost pre = out@;
        let sa = s.as_str();
        let sb = sa.as_bytes();
        proof {
            let sv = deep[j as int];
            assert(sv == m.targets@[j as int]@);
            assert(sa@ == sv);
            assert(vstd::string::is_ascii(sa));
            vstd::string::is_ascii_spec_bytes(sa);
            assert(sb@ =~= spec_string_bytes(sv));
        }
        encode_varint(sb.len() as u64, out);
        append_bytes(out, sb);
        proof {
            let sv = deep[j as int];
            assert(sb@.len() == sv.len());
            assert(out@ =~= pre + varint_bytes(sv.len() as u64) + spec_string_bytes(sv));
            assert(deep.skip(j as int)[0] == sv);
            assert(deep.skip(j as int).drop_first() =~= deep.skip(j + 1));
            assert(spec_targets_bytes(deep.skip(j as int)) == varint_bytes(sv.len() as u64)
                + spec_string_bytes(sv) + spec_targets_bytes(deep.skip(j + 1)));
            assert(pre + (varint_bytes(sv.len() as u64) + spec_string_bytes(sv)
                + spec_targets_bytes(deep.skip(j + 1))) =~= out@ + spec_targets_bytes(
                deep.skip(j + 1),
            ));
            assert(pre + spec_targets_bytes(deep.skip(j as int)) =~= pre + (varint_bytes(
                sv.len() as u64,
            ) + spec_string_bytes(sv) + spec_targets_bytes(deep.skip(j + 1))));
        }
        j = j + 1;
    }
    proof {
        assert(deep.skip(deep.len() as int) =~= Seq::<Seq<char>>::empty());
        assert(out@ + Seq::<u8>::empty() =~= out@);
        assert(final(out)@ =~= orig + spec_write_op_bytes(*m));
    }
    true
}

/// Decodes a whole `WriteBlockOperation` body from the front of `b`: the
/// block, the targets, and the bytes consumed.
pub open spec fn spec_write_op_decode(b: Seq<u8>) -> Option<(Block, Seq<Seq<char>>, int)> {
    if b.len() < 32 {
        None
    } else {
        let blk = Block {
            id: vstd::bytes::spec_u128_from_le_bytes(b.subrange(0, 16)),
            len: vstd::bytes::spec_u64_from_le_bytes(b.subrange(16, 24)),
            seq: vstd::bytes::spec_u64_from_le_bytes(b.subrange(24, 32)),
        };
        match spec_varint_decode(b.skip(32)) {
            None => None,
            Some((count, k)) => {
                match spec_targets_decode(b.skip(32 + k), count as int) {
                    None => None,
                    Some((ts, n2)) => Some((blk, ts, 32 + k + n2)),
                }
            },
        }
    }
}

/// Reads a `WriteBlockOperation` body at `pos`.
pub fn decode_write_op(b: &[u8], pos: usize) -> (r: Option<(WriteBlockOperation, usize)>)
    requires
        pos <= b@.len(),
    ensures
        match r {
            Some((m, n)) => pos < n <= b@.len() && spec_write_op_decode(b@.skip(pos as int))
                == Some((m.block, m.targets.deep_view(), n - pos)),
            None => spec_write_op_decode(b@.skip(pos as int)) is None,
        },
{
    let ghost whole = b@.skip(pos as int);
    let (block, after_block) = match decode_block(b, pos) {
        Some(x) => x,
        None => {
            return None;
        },
    };
    proof {
        vstd::bytes::lemma_auto_spec_u128_to_from_le_bytes();
        vstd::bytes::lemma_auto_spec_u64_to_from_le_bytes();
        assert(whole.subrange(0, 16) =~= spec_block_bytes(block).subrange(0, 16));
        assert(whole.subrange(16, 24) =~= spec_block_bytes(block).subrange(16, 24));
        assert(whole.subrange(24, 32) =~= spec_block_bytes(block).subrange(24, 32));
        assert(spec_u128_to_le_bytes(block.id) =~= spec_block_bytes(block).subrange(0, 16));
        assert(spec_u64_to_le_bytes(block.len) =~= spec_block_bytes(block).subrange(16, 24));
        assert(spec_u64_to_le_bytes(block.seq) =~= spec_block_bytes(block).subrange(24, 32));
    }
    let (count, tstart) = match decode_varint(b, after_block) {
        Some(x) => x,
        None => {
            proof {
                assert(whole.skip(32) =~= b@.skip(after_block as int));
            }
            return None;
        },
    };
    proof {
        assert(whole.skip(32) =~= b@.skip(after_block as int));
    }
    let ghost k = tstart - after_block;
    let mut targets: Vec<String> = Vec::new();
    let mut cur: usize = tstart;
    let mut done: u64 = 0;
    proof {
        assert(b@.skip(cur as int) =~= whole.skip(32 + k));
        assert(targets.deep_view() =~= Seq::<Seq<char>>::empty());
        assert(whole.subrange(0, 16) =~= b@.subrange(pos as int, pos + 16));
        assert(whole.subrange(16, 24) =~= b@.subrange(pos + 16, pos + 24));
        assert(whole.subrange(24, 32) =~= b@.subrange(pos + 24, pos + 32));
    }
    while done < count
        invariant
            pos <= b@.len(),
            tstart <= cur <= b@.len(),
            pos < tstart,
            done <= count,
            targets@.len() == done,
            whole == b@.skip(pos as int),
            whole.len() >= 32,
            block.id == vstd::bytes::spec_u128_from_le_bytes(whole.subrange(0, 16)),
            block.len == vstd::bytes::spec_u64_from_le_bytes(whole.subrange(16, 24)),
            block.seq == vstd::bytes::spec_u64_from_le_bytes(whole.subrange(24, 32)),
            spec_varint_decode(whole.skip(32)) == Some((count, k)),
            k == tstart - pos - 32,
            ({
                match spec_targets_decode(b@.skip(cur as int), (count - done) as int) {
                    None => spec_targets_decode(whole.skip(32 + k), count as int) is None,
                    Some((rest_ts, n2)) => spec_targets_decode(whole.skip(32 + k), count as int)
                        == Some(
                        (targets.deep_view() + rest_ts, (cur - tstart) + n2),
                    ),
                }
            }),
        decreases count - done,
    {
        let (slen, sstart) = match decode_varint(b, cur) {
            Some(x) => x,
            None => {
                proof {
                    assert(spec_targets_decode(b@.skip(cur as int), (count - done) as int)
                        is None);
                }
                return None;
            },
        };
        if slen > (b.len() - sstart) as u64 {
            proof {
                let t = b@.skip(cur as int);
                assert(spec_varint_decode(t) == Some((slen, sstart - cur)));
            }
            return None;
        }
        let send = sstart + (slen as usize);
        let s = match crate::editlog::ascii_bytes_to_string(b, sstart, send) {
            Some(s) => s,
            None => {
                proof {
                    let t = b@.skip(cur as int);
                    let kk = sstart - cur;
                    let w = choose|w: int| sstart <= w < send && #[trigger] b@[w] >= 128;
                    assert(t[kk + (w - sstart)] == b@[w]);
                    assert(!(forall|i: int|
                        kk <= i < kk + slen ==> #[trigger] t[i] < 128));
                }
                return None;
            },
        };
        let ghost prev_deep = targets.deep_view();
        proof {
            let t = b@.skip(cur as int);
            let kk = sstart - cur;
            assert(spec_varint_decode(t) == Some((slen, kk)));
            assert(kk + slen <= t.len());
            assert forall|i: int| kk <= i < kk + slen implies #[trigger] t[i] < 128 by {
                assert(t[i] == b@[cur + i]);
                assert(spec_string_bytes(s@)[i - kk] == b@[sstart + (i - kk)]);
            }
            let decoded = Seq::new(slen as nat, |i: int| (t[kk + i] as char));
            assert(decoded =~= s@) by {
                assert forall|i: int| 0 <= i < slen implies decoded[i] == s@[i] by {
                    assert(t[kk + i] == b@[sstart + i]);
                }
            }
            assert(t.skip(kk + slen) =~= b@.skip(send as int));
        }
        targets.push(s);
        proof {
            assert(targets.deep_view() =~= prev_deep.push(
                targets@[targets@.len() - 1]@,
            ));
        }
        cur = send;
        done = done + 1;
    }
    proof {
        assert(spec_targets_decode(b@.skip(cur as int), 0) == Some(
            (Seq::<Seq<char>>::empty(), 0int),
        ));
        assert(targets.deep_view() + Seq::<Seq<char>>::empty() =~= targets.deep_view());
        assert(spec_targets_decode(whole.skip(32 + k), count as int) == Some(
            (targets.deep_view(), (cur - tstart) as int),
        ));
    }
    let m = WriteBlockOperation { block, targets };
    Some((m, cur))
}

/// Decoding a write operation undoes encoding it, whatever bytes follow
/// (endpoint strings are ASCII, as `encode_write_op` requires).
pub proof fn lemma_write_op_roundtrip(m: WriteBlockOperation, rest: Seq<u8>)
    requires
        forall|i: int| 0 <= i < m.targets@.len() ==> all_ascii(#[trigger] m.targets.deep_view()[i]),
        forall|i: int|
            0 <= i < m.targets@.len() ==> (#[trigger] m.targets.deep_view()[i]).len() <= u64::MAX,
        m.targets@.len() <= u64::MAX,
    ensures
        spec_write_op_decode(spec_write_op_bytes(m) + rest) == Some(
            (m.block, m.targets.deep_view(), spec_write_op_bytes(m).len() as int),
        ),
{
    let b = spec_write_op_bytes(m) + rest;
    let count = m.targets@.len() as u64;
    vstd::bytes::lemma_auto_spec_u128_to_from_le_bytes();
    vstd::bytes::lemma_auto_spec_u64_to_from_le_bytes();
    lemma_varint_len(count);
    assert(spec_u128_to_le_bytes(m.block.id).len() == 16);
    assert(spec_u64_to_le_bytes(m.block.len).len() == 8);
    assert(spec_u64_to_le_bytes(m.block.seq).len() == 8);
    assert(spec_block_bytes(m.block).len() == 32);
    assert(b.subrange(0, 16) =~= spec_u128_to_le_bytes(m.block.id));
    assert(b.subrange(16, 24) =~= spec_u64_to_le_bytes(m.block.len));
    assert(b.subrange(24, 32) =~= spec_u64_to_le_bytes(m.block.seq));
    assert(b.skip(32) =~= varint_bytes(count) + (spec_targets_bytes(m.targets.deep_view())
        + rest));
    lemma_varint_roundtrip(count, spec_targets_bytes(m.targets.deep_view()) + rest);
    let k = varint_bytes(count).len() as int;
    assert(b.skip(32 + k) =~= spec_targets_bytes(m.targets.deep_view()) + rest);
    lemma_targets_roundtrip(m.targets.deep_view(), rest);
    assert(m.targets.deep_view().len() == m.targets@.len());
    assert(m.targets.deep_view().len() == count as int);
    assert(spec_write_op_bytes(m).len() == 32 + k + spec_targets_bytes(
        m.targets.deep_view(),
    ).len());
}

/// Appends a `Packet` header body (the header's digest must be 16 bytes).
pub fn encode_packet(m: &Packet, out: &mut Vec<u8>)
    requires
        m.checksum@.len() == 16,
    ensures
        final(out)@ == old(out)@ + spec_packet_bytes(*m),
{
    let sz = u64_to_le_bytes(m.size);
    append_bytes(out, sz.as_slice());
    out.push(if m.last {
        1u8
    } else {
        0u8
    });
    append_bytes(out, m.checksum.as_slice());
    proof {
        assert(final(out)@ =~= old(out)@ + spec_packet_bytes(*m));
    }
}

/// Reads a `Packet` header body at `pos` (25 bytes).
pub fn decode_packet(b: &[u8], pos: usize) -> (r: Option<(Packet, usize)>)
    requires
        pos <= b@.len(),
    ensures
        match r {
            Some((m, n)) => n == pos + 25 && n <= b@.len() && m.checksum@.len() == 16
                && b@.subrange(pos as int, n as int) == spec_packet_bytes(m),
            None => b@.len() - pos < 25 || (b@[pos + 8] != 0 && b@[pos + 8] != 1),
        },
{
    if b.len() - pos < 25 {
        return None;
    }
    let size = u64_from_le_bytes(slice_range(b, pos, pos + 8));
    let flag = b[pos + 8];
    let last = if flag == 0 {
        false
    } else if flag == 1 {
        true
    } else {
        return None;
    };
    let checksum = copy_bytes(slice_range(b, pos + 9, pos + 25));
    let m = Packet { size, last, checksum };
    proof {
        vstd::bytes::lemma_auto_spec_u64_to_from_le_bytes();
        assert(spec_u64_to_le_bytes(size) =~= b@.subrange(pos as int, pos + 8));
        assert(b@.subrange(pos as int, pos + 25) =~= spec_packet_bytes(m));
    }
    Some((m, pos + 25))
}

/// Appends a `WriteBlockResponse` body.
pub fn encode_response(m: &WriteBlockResponse, out: &mut Vec<u8>)
    ensures
        final(out)@ == old(out)@ + spec_response_bytes(*m),
{
    out.push(if m.success {
        1u8
    } else {
        0u8
    });
    proof {
        assert(final(out)@ =~= old(out)@ + spec_response_bytes(*m));
    }
}

/// Reads a `WriteBlockResponse` body at `pos`.
pub fn decode_response(b: &[u8], pos: usize) -> (r: Option<(WriteBlockResponse, usize)>)
    requires
        pos <= b@.len(),
    ensures
        match r {
            Some((m, n)) => n == pos + 1 && n <= b@.len() && b@.subrange(pos as int, n as int)
                == spec_response_bytes(m),
            None => b@.len() == pos || (b@[pos as int] != 0 && b@[pos as int] != 1),
        },
{
    if pos >= b.len() {
        return None;
    }
    let c = b[pos];
    let success = if c == 0 {
        false
    } else if c == 1 {
        true
    } else {
        return None;
    };
    let m = WriteBlockResponse { success };
    proof {
        assert(b@.subrange(pos as int, pos + 1) =~= spec_response_bytes(m));
    }
    Some((m, pos + 1))
}

/// An owned copy of a byte slice.
fn copy_bytes(b: &[u8]) -> (r: Vec<u8>)
    ensures
        r@ == b@,
{
    let mut r: Vec<u8> = Vec::new();
    let mut i: usize = 0;
    while i < b.len()
        invariant
            i <= b@.len(),
            r@ == b@.take(i as int),
        decreases b@.len() - i,
    {
        r.push(b[i]);
        proof {
            assert(b@.take(i + 1) =~= b@.take(i as int).push(b@[i as int]));
        }
        i = i + 1;
    }
    proof {
        assert(b@.take(b@.len() as int) =~= b@);
    }
    r
}

/// A whole frame: the varint length prefix followed by the body.
pub open spec fn spec_frame(body: Seq<u8>) -> Seq<u8> {
    varint_bytes(body.len() as u64) + body
}

/// Appends a frame around `body`.
pub fn encode_frame(body: &Vec<u8>, out: &mut Vec<u8>)
    ensures
        final(out)@ == old(out)@ + spec_frame(body@),
{
    encode_varint(body.len() as u64, out);
    append_bytes(out, body.as_slice());
    proof {
        assert(final(out)@ =~= old(out)@ + spec_frame(body@));
    }
}

/// Reads a frame at `pos`: the body's byte range.
pub fn decode_frame(b: &[u8], pos: usize) -> (r: Option<(usize, usize)>)
    requires
        pos <= b@.len(),
    ensures
        match r {
            Some((start, end)) => pos < start <= end <= b@.len() && spec_varint_decode(
                b@.skip(pos as int),
            ) == Some(((end - start) as u64, start - pos)),
            // a frame is refused only when its length prefix fails to decode
            // or the declared body overruns the buffer
            None => match spec_varint_decode(b@.skip(pos as int)) {
                None => true,
                Some((len, k)) => pos + k + len > b@.len(),
            },
        },
{
    match decode_varint(b, pos) {
        Some((len, start)) => {
            if len <= (b.len() - start) as u64 {
                let end = start + (len as usize);
                Some((start, end))
            } else {
                None
            }
        },
        None => None,
    }
}

/// A framed body is recovered exactly: the frame's length prefix decodes to
/// the body's length, and the body bytes follow it.
pub proof fn lemma_frame_roundtrip(body: Seq<u8>, rest: Seq<u8>)
    requires
        body.len() <= u64::MAX,
    ensures
        spec_varint_decode(spec_frame(body) + rest) == Some(
            (body.len() as u64, varint_bytes(body.len() as u64).len() as int),
        ),
        (spec_frame(body) + rest).subrange(
            varint_bytes(body.len() as u64).len() as int,
            (varint_bytes(body.len() as u64).len() + body.len()) as int,
        ) == body,
{
    lemma_varint_roundtrip(body.len() as u64, body + rest);
    assert(spec_frame(body) + rest =~= varint_bytes(body.len() as u64) + (body + rest));
    assert((spec_frame(body) + rest).subrange(
        varint_bytes(body.len() as u64).len() as int,
        (varint_bytes(body.len() as u64).len() + body.len()) as int,
    ) =~= body);
}

} // verus!
