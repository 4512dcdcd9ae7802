//! The edit log: the journalled namespace mutations and their replay
//! semantics.
//!
//! Each successful namespace mutation at the coordinator is recorded as one
//! `EditOperation`.  Replaying a journal from the empty namespace rebuilds
//! the directory set and the file→blocks binding; `NsModel` is the abstract
//! state that replay produces.

use vstd::prelude::*;
use crate::block::Block;
use crate::errors::{CudddlyError, CuddlyResult};
use crate::framing::{
    all_ascii, decode_block, decode_varint, encode_block, encode_varint, lemma_varint_roundtrip,
    spec_block_bytes, spec_string_bytes, spec_varint_decode, varint_bytes,
};
use crate::paths::{spec_split, spec_valid_name};
use crate::strutil::push_char;

verus! {

/// One journalled namespace mutation.
#[derive(Debug)]
pub enum EditOperation {
    Mkdir(String),
    AddFile(String, Vec<Block>),
}

/// An abstract namespace: the set of directory paths (the root `[]` is a
/// member) and the map from file paths to ordered block lists.
pub struct NsModel {
    pub dirs: Set<Seq<Seq<char>>>,
    pub files: Map<Seq<Seq<char>>, Seq<Block>>,
}

/// The empty namespace: just the root directory.
pub open spec fn model_empty() -> NsModel {
    NsModel { dirs: Set::new(|p: Seq<Seq<char>>| p.len() == 0), files: Map::empty() }
}

/// The segments a journalled absolute path denotes.
pub open spec fn op_path_segs(path: Seq<char>) -> Seq<Seq<char>> {
    spec_split(path.drop_first())
}

/// When a directory walk over `segs` runs to completion: every segment is a
/// non-empty valid name and no proper prefix is a file.
pub open spec fn model_mkdir_ok(m: NsModel, segs: Seq<Seq<char>>) -> bool {
    &&& forall|i: int|
        0 <= i < segs.len() ==> (#[trigger] segs[i]).len() >= 1 && spec_valid_name(segs[i])
    &&& forall|t: int| 1 <= t < segs.len() ==> !m.files.dom().contains(#[trigger] segs.take(t))
}

/// The effect of a `Mkdir` record: on success every walked prefix that is not
/// a standing file becomes a directory; on failure nothing changes.
pub open spec fn model_mkdir(m: NsModel, segs: Seq<Seq<char>>) -> NsModel {
    if model_mkdir_ok(m, segs) {
        NsModel {
            dirs: m.dirs.union(
                Set::new(
                    |p: Seq<Seq<char>>|
                        exists|t: int|
                            1 <= t <= segs.len() && p == segs.take(t) && !m.files.dom().contains(
                                p,
                            ),
                ),
            ),
            files: m.files,
        }
    } else {
        m
    }
}

/// When a file can be bound at `segs`: the leaf is free and the parent is a
/// directory.
pub open spec fn model_addfile_ok(m: NsModel, segs: Seq<Seq<char>>) -> bool {
    &&& segs.len() >= 1
    &&& !m.files.dom().contains(segs)
    &&& !m.dirs.contains(segs)
    &&& m.dirs.contains(segs.take(segs.len() - 1))
}

/// The effect of an `AddFile` record.
pub open spec fn model_addfile(m: NsModel, segs: Seq<Seq<char>>, blocks: Seq<Block>) -> NsModel {
    if model_addfile_ok(m, segs) {
        NsModel { dirs: m.dirs, files: m.files.insert(segs, blocks) }
    } else {
        m
    }
}

/// One replay step.
pub open spec fn model_step(m: NsModel, op: EditOperation) -> NsModel {
    match op {
        EditOperation::Mkdir(p) => {
            if p@.len() > 0 && p@[0] == '/' {
                model_mkdir(m, op_path_segs(p@))
            } else {
                m
            }
        },
        EditOperation::AddFile(p, blocks) => {
            if p@.len() > 0 && p@[0] == '/' {
                model_addfile(m, op_path_segs(p@), blocks@)
            } else {
                m
            }
        },
    }
}

/// Replay of a whole journal from the empty namespace.
pub open spec fn replay(ops: Seq<EditOperation>) -> NsModel
    decreases ops.len(),
{
    if ops.len() == 0 {
        model_empty()
    } else {
        model_step(replay(ops.drop_last()), ops.last())
    }
}


/// The wire bytes of a block list, front to back.
pub open spec fn spec_blocks_bytes(bs: Seq<Block>) -> Seq<u8>
    decreases bs.len(),
{
    if bs.len() == 0 {
        Seq::empty()
    } else {
        spec_block_bytes(bs[0]) + spec_blocks_bytes(bs.drop_first())
    }
}

/// One journal record on disk: a tag byte, the length-prefixed path, and for
/// a file the length-prefixed block list.
pub open spec fn spec_edit_bytes(op: EditOperation) -> Seq<u8> {
    match op {
        EditOperation::Mkdir(p) => seq![77u8] + varint_bytes(p@.len() as u64) + spec_string_bytes(
            p@,
        ),
        EditOperation::AddFile(p, bs) => seq![65u8] + varint_bytes(p@.len() as u64)
            + spec_string_bytes(p@) + varint_bytes(bs@.len() as u64) + spec_blocks_bytes(bs@),
    }
}

/// Appends the record's bytes; the path must be ASCII.
pub fn encode_edit_record(op: &EditOperation, out: &mut Vec<u8>) -> (ok: bool)
    ensures
        ok ==> final(out)@ == old(out)@ + spec_edit_bytes(*op),
        !ok ==> final(out)@ == old(out)@,
        all_ascii(spec_edit_path(*op)) ==> ok,
{
    match op {
        EditOperation::Mkdir(p) => {
            let pa = p.as_str();
            if !pa.is_ascii() {
                return false;
            }
            let pb = pa.as_bytes();
            proof {
                vstd::string::is_ascii_spec_bytes(pa);
                assert(pb@ =~= spec_string_bytes(p@));
            }
            out.push(77u8);
            encode_varint(pb.len() as u64, out);
            append_record_bytes(out, pb);
            proof {
                assert(final(out)@ =~= old(out)@ + spec_edit_bytes(*op));
            }
            true
        },
        EditOperation::AddFile(p, bs) => {
            let pa = p.as_str();
            if !pa.is_ascii() {
                return false;
            }
            let pb = pa.as_bytes();
            proof {
                vstd::string::is_ascii_spec_bytes(pa);
                assert(pb@ =~= spec_string_bytes(p@));
            }
            out.push(65u8);
            encode_varint(pb.len() as u64, out);
            append_record_bytes(out, pb);
            encode_varint(bs.len() as u64, out);
            let ghost before_blocks = out@;
            let mut i: usize = 0;
            proof {
                assert(bs@.skip(0) =~= bs@);
            }
            while i < bs.len()
                invariant
                    i <= bs@.len(),
                    before_blocks + spec_blocks_bytes(bs@) == out@ + spec_blocks_bytes(
                        bs@.skip(i as int),
                    ),
                decreases bs@.len() - i,
            {
                let ghost pre = out@;
                encode_block(&bs[i], out);
                proof {
                    assert(bs@.skip(i as int)[0] == bs@[i as int]);
                    assert(bs@.skip(i as int).drop_first() =~= bs@.skip(i + 1));
                    assert(spec_blocks_bytes(bs@.skip(i as int)) == spec_block_bytes(
                        bs@[i as int],
                    ) + spec_blocks_bytes(bs@.skip(i + 1)));
                    assert(pre + (spec_block_bytes(bs@[i as int]) + spec_blocks_bytes(
                        bs@.skip(i + 1),
                    )) =~= out@ + spec_blocks_bytes(bs@.skip(i + 1)));
                    assert(pre + spec_blocks_bytes(bs@.skip(i as int)) =~= pre + (
                    spec_block_bytes(bs@[i as int]) + spec_blocks_bytes(bs@.skip(i + 1))));
                }
                i = i + 1;
            }
            proof {
                assert(bs@.skip(bs@.len() as int) =~= Seq::<Block>::empty());
                assert(out@ + Seq::<u8>::empty() =~= out@);
                assert(final(out)@ =~= old(out)@ + spec_edit_bytes(*op));
            }
            true
        },
    }
}

/// Appends raw bytes.
fn append_record_bytes(out: &mut Vec<u8>, bytes: &[u8])
    ensures
        final(out)@ == old(out)@ + bytes@,
{
    out.extend_from_slice(bytes)
}

/// Builds a string from ASCII bytes; rejects any byte of 128 or more.
pub fn ascii_bytes_to_string(b: &[u8], from: usize, to: usize) -> (r: Option<String>)
    requires
        from <= to <= b@.len(),
    ensures
        match r {
            Some(s) => s@.len() == to - from && all_ascii(s@) && (forall|i: int|
                0 <= i < s@.len() ==> s@[i] == (#[trigger] b@[from + i] as char))
                && spec_string_bytes(s@) == b@.subrange(from as int, to as int),
            None => exists|i: int| from <= i < to && #[trigger] b@[i] >= 128,
        },
{
    let mut s = String::new();
    let mut i: usize = from;
    while i < to
        invariant
            from <= i <= to <= b@.len(),
            s@.len() == i - from,
            forall|j: int| 0 <= j < s@.len() ==> s@[j] == (#[trigger] b@[from + j] as char),
            forall|j: int| from <= j < i ==> #[trigger] b@[j] < 128,
        decreases to - i,
    {
        let c = b[i];
        if c >= 128 {
            return None;
        }
        push_char(&mut s, c as char);
        i = i + 1;
    }
    proof {
        assert(all_ascii(s@)) by {
            assert forall|j: int| 0 <= j < s@.len() implies '\0' <= #[trigger] s@[j]
                <= '\u{7f}' by {
                assert(s@[j] == (b@[from + j] as char));
            }
        }
        assert(spec_string_bytes(s@) =~= b@.subrange(from as int, to as int)) by {
            assert forall|j: int|
                0 <= j < s@.len() implies #[trigger] spec_string_bytes(s@)[j] == b@[from + j] by {
                assert(s@[j] == (b@[from + j] as char));
            }
        }
    }
    Some(s)
}

/// Decodes `count` 32-byte blocks from the front of `b`.
pub open spec fn spec_blocks_decode(b: Seq<u8>, count: int) -> Option<(Seq<Block>, int)>
    decreases count,
{
    if count <= 0 {
        Some((Seq::empty(), 0))
    } else if b.len() < 32 {
        None
    } else {
        let blk = Block {
            id: vstd::bytes::spec_u128_from_le_bytes(b.subrange(0, 16)),
            len: vstd::bytes::spec_u64_from_le_bytes(b.subrange(16, 24)),
            seq: vstd::bytes::spec_u64_from_le_bytes(b.subrange(24, 32)),
        };
        match spec_blocks_decode(b.skip(32), count - 1) {
            None => None,
            Some((rest, n)) => Some((seq![blk] + rest, 32 + n)),
        }
    }
}

/// Decodes one journal record from the front of `b`: whether it is a
/// directory record, the path, the blocks, and the bytes consumed.
pub open spec fn spec_edit_decode(b: Seq<u8>) -> Option<(bool, Seq<char>, Seq<Block>, int)> {
    if b.len() == 0 || (b[0] != 77 && b[0] != 65) {
        None
    } else {
        match spec_varint_decode(b.skip(1)) {
            None => None,
            Some((plen, k)) => {
                if 1 + k + plen <= b.len() && (forall|i: int|
                    1 + k <= i < 1 + k + plen ==> #[trigger] b[i] < 128) {
                    let path = Seq::new(plen as nat, |i: int| (b[1 + k + i] as char));
                    if b[0] == 77 {
                        Some((true, path, Seq::empty(), 1 + k + plen))
                    } else {
                        let after = b.skip(1 + k + plen);
                        match spec_varint_decode(after) {
                            None => None,
                            Some((cnt, k2)) => {
                                match spec_blocks_decode(after.skip(k2), cnt as int) {
                                    None => None,
                                    Some((bs, n2)) => Some(
                                        (false, path, bs, 1 + k + plen + k2 + n2),
                                    ),
                                }
                            },
                        }
                    }
                } else {
                    None
                }
            },
        }
    }
}

/// The blocks a record carries (none for a directory record).
pub open spec fn spec_edit_blocks(op: EditOperation) -> Seq<Block> {
    match op {
        EditOperation::Mkdir(p) => Seq::empty(),
        EditOperation::AddFile(p, bs) => bs@,
    }
}

/// Reads one record at `pos`: the record and the position just past it.
/// The result is exactly what the record grammar assigns to the bytes.
pub fn decode_edit_record(b: &[u8], pos: usize) -> (r: CuddlyResult<(EditOperation, usize)>)
    requires
        pos <= b@.len(),
    ensures
        match r {
            Ok((op, n)) => pos < n <= b@.len() && all_ascii(spec_edit_path(op))
                && spec_edit_decode(b@.skip(pos as int)) == Some(
                (op is Mkdir, spec_edit_path(op), spec_edit_blocks(op), n - pos),
            ),
            Err(e) => e is ProtoError && spec_edit_decode(b@.skip(pos as int)) is None,
        },
{
    let ghost whole = b@.skip(pos as int);
    if pos >= b.len() {
        return Err(CudddlyError::ProtoError("empty record".to_owned()));
    }
    let tag = b[pos];
    proof {
        assert(whole[0] == tag);
    }
    if tag != 77 && tag != 65 {
        return Err(CudddlyError::ProtoError("unknown record tag".to_owned()));
    }
    let (plen, p1) = match decode_varint(b, pos + 1) {
        Some(x) => x,
        None => {
            proof {
                assert(whole.skip(1) =~= b@.skip(pos + 1));
            }
            return Err(CudddlyError::ProtoError("bad path length".to_owned()));
        },
    };
    proof {
        assert(whole.skip(1) =~= b@.skip(pos + 1));
    }
    let ghost k = p1 - (pos + 1);
    if plen > (b.len() - p1) as u64 {
        return Err(CudddlyError::ProtoError("record truncated".to_owned()));
    }
    let pend = p1 + (plen as usize);
    let path = match ascii_bytes_to_string(b, p1, pend) {
        Some(s) => s,
        None => {
            proof {
                let w = choose|w: int| p1 <= w < pend && #[trigger] b@[w] >= 128;
                assert(whole[1 + k + (w - p1)] == b@[w]);
            }
            return Err(CudddlyError::ProtoError("path is not plain text".to_owned()));
        },
    };
    proof {
        assert forall|i: int| 1 + k <= i < 1 + k + plen implies #[trigger] whole[i] < 128 by {
            assert(whole[i] == b@[pos + i]);
            assert(spec_string_bytes(path@)[i - (1 + k)] == b@[p1 + (i - (1 + k))]);
        }
        let decoded = Seq::new(plen as nat, |i: int| (whole[1 + k + i] as char));
        assert(decoded =~= path@) by {
            assert forall|i: int| 0 <= i < plen implies decoded[i] == path@[i] by {
                assert(whole[1 + k + i] == b@[p1 + i]);
            }
        }
    }
    if tag == 77 {
        return Ok((EditOperation::Mkdir(path), pend));
    }
    let (count, bstart) = match decode_varint(b, pend) {
        Some(x) => x,
        None => {
            proof {
                assert(whole.skip(1 + k + plen) =~= b@.skip(pend as int));
            }
            return Err(CudddlyError::ProtoError("bad block count".to_owned()));
        },
    };
    proof {
        assert(whole.skip(1 + k + plen) =~= b@.skip(pend as int));
    }
    let ghost k2 = bstart - pend;
    let ghost after = whole.skip(1 + k + plen);
    let mut blocks: Vec<Block> = Vec::new();
    let mut done: u64 = 0;
    let mut cur: usize = bstart;
    proof {
        assert(after.skip(k2) =~= b@.skip(cur as int));
    }
    while done < count
        invariant
            pos < bstart <= cur <= b@.len(),
            pos + 1 <= p1 <= pend <= bstart,
            done <= count,
            blocks@.len() == done,
            whole == b@.skip(pos as int),
            whole.len() == b@.len() - pos,
            whole[0] == 65,
            k == p1 - (pos + 1),
            0 < k,
            pend == p1 + plen,
            1 + k + plen <= whole.len(),
            spec_varint_decode(whole.skip(1)) == Some((plen, k)),
            forall|i: int| 1 + k <= i < 1 + k + plen ==> #[trigger] whole[i] < 128,
            Seq::new(plen as nat, |i: int| (whole[1 + k + i] as char)) == path@,
            after == whole.skip(1 + k + plen),
            k2 == bstart - pend,
            0 < k2,
            spec_varint_decode(after) == Some((count, k2)),
            ({
                match spec_blocks_decode(b@.skip(cur as int), (count - done) as int) {
                    None => spec_blocks_decode(after.skip(k2), count as int) is None,
                    Some((rest, n2)) => spec_blocks_decode(after.skip(k2), count as int) == Some(
                        (blocks@ + rest, (cur - bstart) + n2),
                    ),
                }
            }),
        decreases count - done,
    {
        let (blk, n2) = match decode_block(b, cur) {
            Some(x) => x,
            None => {
                proof {
                    assert(b@.skip(cur as int).len() < 32);
                    assert(spec_blocks_decode(b@.skip(cur as int), (count - done) as int)
                        is None);
                }
                return Err(CudddlyError::ProtoError("record truncated".to_owned()));
            },
        };
        proof {
            let t = b@.skip(cur as int);
            let remaining = (count - done) as int;
            vstd::bytes::lemma_auto_spec_u128_to_from_le_bytes();
            vstd::bytes::lemma_auto_spec_u64_to_from_le_bytes();
            assert(t.subrange(0, 16) =~= spec_block_bytes(blk).subrange(0, 16));
            assert(t.subrange(16, 24) =~= spec_block_bytes(blk).subrange(16, 24));
            assert(t.subrange(24, 32) =~= spec_block_bytes(blk).subrange(24, 32));
            assert(vstd::bytes::spec_u128_to_le_bytes(blk.id) =~= spec_block_bytes(
                blk,
            ).subrange(0, 16));
            assert(vstd::bytes::spec_u64_to_le_bytes(blk.len) =~= spec_block_bytes(blk).subrange(
                16,
                24,
            ));
            assert(vstd::bytes::spec_u64_to_le_bytes(blk.seq) =~= spec_block_bytes(blk).subrange(
                24,
                32,
            ));
            assert(t.skip(32) =~= b@.skip(n2 as int));
            let inner = spec_blocks_decode(b@.skip(n2 as int), remaining - 1);
            assert(spec_blocks_decode(t, remaining) == (match inner {
                None => None,
                Some((rest, m2)) => Some((seq![blk] + rest, 32 + m2)),
            }));
        }
        let ghost prev = blocks@;
        blocks.push(blk);
        proof {
            let remaining = (count - done) as int;
            let inner = spec_blocks_decode(b@.skip(n2 as int), remaining - 1);
            if inner is Some {
                let (rest, m2) = inner->0;
                assert(prev + (seq![blk] + rest) =~= blocks@ + rest);
            }
        }
        cur = n2;
        done = done + 1;
    }
    proof {
        assert(spec_blocks_decode(b@.skip(cur as int), 0) == Some((Seq::<Block>::empty(), 0int)));
        assert(blocks@ + Seq::<Block>::empty() =~= blocks@);
        assert(spec_blocks_decode(after.skip(k2), count as int) == Some(
            (blocks@, (cur - bstart) as int),
        ));
        assert(spec_edit_decode(whole) == Some(
            (false, path@, blocks@, (cur - pos) as int),
        ));
    }
    Ok((EditOperation::AddFile(path, blocks), cur))
}

/// Decoding a block list undoes encoding it, whatever bytes follow.
pub proof fn lemma_blocks_roundtrip(bs: Seq<Block>, rest: Seq<u8>)
    ensures
        spec_blocks_bytes(bs).len() == 32 * bs.len(),
        spec_blocks_decode(spec_blocks_bytes(bs) + rest, bs.len() as int) == Some(
            (bs, spec_blocks_bytes(bs).len() as int),
        ),
    decreases bs.len(),
{
    vstd::bytes::lemma_auto_spec_u128_to_from_le_bytes();
    vstd::bytes::lemma_auto_spec_u64_to_from_le_bytes();
    if bs.len() == 0 {
        assert(bs =~= Seq::<Block>::empty());
        assert(spec_blocks_bytes(bs) =~= Seq::<u8>::empty());
    } else {
        let head = bs[0];
        let b = spec_blocks_bytes(bs) + rest;
        assert(vstd::bytes::spec_u128_to_le_bytes(head.id).len() == 16);
        assert(vstd::bytes::spec_u64_to_le_bytes(head.len).len() == 8);
        assert(vstd::bytes::spec_u64_to_le_bytes(head.seq).len() == 8);
        assert(spec_block_bytes(head).len() == 32);
        assert(b.subrange(0, 16) =~= vstd::bytes::spec_u128_to_le_bytes(head.id));
        assert(b.subrange(16, 24) =~= vstd::bytes::spec_u64_to_le_bytes(head.len));
        assert(b.subrange(24, 32) =~= vstd::bytes::spec_u64_to_le_bytes(head.seq));
        lemma_blocks_roundtrip(bs.drop_first(), rest);
        assert(b.skip(32) =~= spec_blocks_bytes(bs.drop_first()) + rest);
        assert(seq![head] + bs.drop_first() =~= bs);
    }
}

/// Decoding a journal record undoes encoding it, whatever bytes follow: the
/// on-disk journal carries exactly the operations that were written, so
/// replaying a parsed log replays the journalled history.
pub proof fn lemma_edit_record_roundtrip(op: EditOperation, rest: Seq<u8>)
    requires
        all_ascii(spec_edit_path(op)),
        spec_edit_path(op).len() <= u64::MAX,
        spec_edit_blocks(op).len() <= u64::MAX,
    ensures
        spec_edit_decode(spec_edit_bytes(op) + rest) == Some(
            (op is Mkdir, spec_edit_path(op), spec_edit_blocks(op), spec_edit_bytes(op).len() as int),
        ),
{
    let path = spec_edit_path(op);
    let plen = path.len() as u64;
    let b = spec_edit_bytes(op) + rest;
    crate::framing::lemma_varint_len(plen);
    crate::framing::lemma_string_bytes_ascii(path);
    match op {
        EditOperation::Mkdir(p) => {
            assert(b[0] == 77);
            lemma_varint_roundtrip(plen, spec_string_bytes(path) + rest);
            let k = varint_bytes(plen).len() as int;
            assert(b.skip(1) =~= varint_bytes(plen) + (spec_string_bytes(path) + rest));
            assert(spec_varint_decode(b.skip(1)) == Some((plen, k)));
            assert forall|i: int| 1 + k <= i < 1 + k + plen implies #[trigger] b[i] < 128 by {
                assert(b[i] == spec_string_bytes(path)[i - (1 + k)]);
            }
            let decoded = Seq::new(plen as nat, |i: int| (b[1 + k + i] as char));
            assert(decoded =~= path) by {
                assert forall|i: int| 0 <= i < path.len() implies decoded[i] == path[i] by {
                    assert(b[1 + k + i] == spec_string_bytes(path)[i]);
                }
            }
        },
        EditOperation::AddFile(p, blocks) => {
            let bs = blocks@;
            let cnt = bs.len() as u64;
            assert(b[0] == 65);
            lemma_varint_roundtrip(
                plen,
                spec_string_bytes(path) + varint_bytes(cnt) + spec_blocks_bytes(bs) + rest,
            );
            let k = varint_bytes(plen).len() as int;
            assert(b.skip(1) =~= varint_bytes(plen) + (spec_string_bytes(path) + varint_bytes(cnt)
                + spec_blocks_bytes(bs) + rest));
            assert(spec_varint_decode(b.skip(1)) == Some((plen, k)));
            assert forall|i: int| 1 + k <= i < 1 + k + plen implies #[trigger] b[i] < 128 by {
                assert(b[i] == spec_string_bytes(path)[i - (1 + k)]);
            }
            let decoded = Seq::new(plen as nat, |i: int| (b[1 + k + i] as char));
            assert(decoded =~= path) by {
                assert forall|i: int| 0 <= i < path.len() implies decoded[i] == path[i] by {
                    assert(b[1 + k + i] == spec_string_bytes(path)[i]);
                }
            }
            let after = b.skip(1 + k + plen);
            assert(after =~= varint_bytes(cnt) + (spec_blocks_bytes(bs) + rest));
            lemma_varint_roundtrip(cnt, spec_blocks_bytes(bs) + rest);
            let k2 = varint_bytes(cnt).len() as int;
            assert(spec_varint_decode(after) == Some((cnt, k2)));
            assert(after.skip(k2) =~= spec_blocks_bytes(bs) + rest);
            lemma_blocks_roundtrip(bs, rest);
            assert(spec_edit_bytes(op).len() == 1 + k + plen + k2 + spec_blocks_bytes(bs).len());
        },
    }
}

/// The path a record names./// The path a record names.
pub open spec fn spec_edit_path(op: EditOperation) -> Seq<char> {
    match op {
        EditOperation::Mkdir(p) => p@,
        EditOperation::AddFile(p, bs) => p@,
    }
}


} // verus!
