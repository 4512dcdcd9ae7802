//! The streaming pipeline's pure core: cutting data into blocks, blocks into
//! checksummed packets, reassembling them, and the small decisions the
//! streaming clients make around their network loops.

use vstd::prelude::*;
use crate::chunk::{md5_digest, md5_of};
use crate::errors::{CudddlyError, CuddlyResult};
use crate::framing::{Packet, WriteBlockResponse};

verus! {

/// The byte sequences of a list of buffers.
pub open spec fn views_of(v: Seq<Vec<u8>>) -> Seq<Seq<u8>> {
    v.map_values(|b: Vec<u8>| b@)
}

/// Appending one more piece extends the concatenation by exactly it.
pub proof fn lemma_flatten_push(s: Seq<Seq<u8>>, v: Seq<u8>)
    ensures
        s.push(v).flatten() == s.flatten() + v,
{
    s.push(v).lemma_flatten_and_flatten_alt_are_equivalent();
    s.lemma_flatten_and_flatten_alt_are_equivalent();
    assert(s.push(v).drop_last() =~= s);
    assert(s.push(v).flatten_alt() == s.flatten_alt() + v);
}

/// The empty list concatenates to nothing.
pub proof fn lemma_flatten_empty()
    ensures
        Seq::<Seq<u8>>::empty().flatten() == Seq::<u8>::empty(),
{
    assert(Seq::<Seq<u8>>::empty().flatten() =~= Seq::<u8>::empty());
}

/// Cuts `data` into pieces of exactly `piece_size` bytes, the final piece
/// alone allowed to be smaller; their concatenation is `data`.
pub fn cut_into_pieces(data: &[u8], piece_size: u64) -> (r: Vec<Vec<u8>>)
    requires
        piece_size >= 1,
    ensures
        views_of(r@).flatten() == data@,
        forall|i: int| 0 <= i < r@.len() ==> 1 <= (#[trigger] r@[i])@.len() <= piece_size,
        forall|i: int| 0 <= i < r@.len() - 1 ==> (#[trigger] r@[i])@.len() == piece_size,
        data@.len() == 0 ==> r@.len() == 0,
        data@.len() > 0 ==> r@.len() >= 1,
{
    let mut r: Vec<Vec<u8>> = Vec::new();
    let mut pos: usize = 0;
    proof {
        lemma_flatten_empty();
        assert(views_of(r@) =~= Seq::<Seq<u8>>::empty());
        assert(data@.take(0) =~= Seq::<u8>::empty());
    }
    while ((data.len() - pos) as u64) >= piece_size
        invariant
            piece_size >= 1,
            pos <= data@.len(),
            views_of(r@).flatten() == data@.take(pos as int),
            forall|i: int| 0 <= i < r@.len() ==> (#[trigger] r@[i])@.len() == piece_size,
            r@.len() >= 1 ==> pos >= 1,
        decreases data@.len() - pos,
    {
        let take = piece_size as usize;
        let piece = copy_byte_range(data, pos, pos + take);
        let ghost prev = views_of(r@);
        r.push(piece);
        proof {
            assert(views_of(r@) =~= prev.push(data@.subrange(pos as int, (pos + take) as int)));
            lemma_flatten_push(prev, data@.subrange(pos as int, (pos + take) as int));
            assert(data@.take(pos as int) + data@.subrange(pos as int, (pos + take) as int)
                =~= data@.take((pos + take) as int));
        }
        pos = pos + take;
    }
    if pos < data.len() {
        let piece = copy_byte_range(data, pos, data.len());
        let ghost prev = views_of(r@);
        r.push(piece);
        proof {
            assert(views_of(r@) =~= prev.push(
                data@.subrange(pos as int, data@.len() as int),
            ));
            lemma_flatten_push(prev, data@.subrange(pos as int, data@.len() as int));
            assert(data@.take(pos as int) + data@.subrange(pos as int, data@.len() as int)
                =~= data@);
        }
    } else {
        proof {
            assert(data@.take(pos as int) =~= data@);
        }
    }
    r
}

/// A sub-slice copied out of `data`.
fn copy_byte_range(data: &[u8], from: usize, to: usize) -> (r: Vec<u8>)
    requires
        from <= to <= data@.len(),
    ensures
        r@ == data@.subrange(from as int, to as int),
{
    let mut r: Vec<u8> = Vec::new();
    let mut i: usize = from;
    while i < to
        invariant
            from <= i <= to <= data@.len(),
            r@ == data@.subrange(from as int, i as int),
        decreases to - i,
    {
        r.push(data[i]);
        proof {
            assert(data@.subrange(from as int, i + 1) =~= data@.subrange(
                from as int,
                i as int,
            ).push(data@[i as int]));
        }
        i = i + 1;
    }
    r
}

/// The payload views of a packet list.
pub open spec fn payloads_of(v: Seq<(Packet, Vec<u8>)>) -> Seq<Seq<u8>> {
    v.map_values(|p: (Packet, Vec<u8>)| p.1@)
}

/// A packet sequence is sound for a block: sizes equal payload lengths,
/// checksums are the payloads' digests, and the terminal flag stands exactly
/// on the final packet.
pub open spec fn packets_wf(v: Seq<(Packet, Vec<u8>)>, packet_size: u64) -> bool {
    &&& forall|i: int| 0 <= i < v.len() ==> (#[trigger] v[i]).0.size == v[i].1@.len()
    &&& forall|i: int| 0 <= i < v.len() ==> (#[trigger] v[i]).0.checksum@ == md5_of(v[i].1@)
    &&& forall|i: int| 0 <= i < v.len() ==> (#[trigger] v[i]).0.checksum@.len() == 16
    &&& forall|i: int| 0 <= i < v.len() ==> ((#[trigger] v[i]).0.last <==> i == v.len() - 1)
    &&& forall|i: int| 0 <= i < v.len() ==> (#[trigger] v[i]).1@.len() <= packet_size
    &&& forall|i: int| 0 <= i < v.len() - 1 ==> (#[trigger] v[i]).1@.len() == packet_size
}

/// Cuts one block's bytes into checksummed packets.  Their payloads
/// concatenate back to the block, so the sizes sum to the block's length.
pub fn make_packets(block: &[u8], packet_size: u64) -> (r: Vec<(Packet, Vec<u8>)>)
    requires
        packet_size >= 1,
    ensures
        payloads_of(r@).flatten() == block@,
        packets_wf(r@, packet_size),
        forall|i: int| 0 <= i < r@.len() ==> (#[trigger] r@[i]).1@.len() >= 1,
        block@.len() == 0 ==> r@.len() == 0,
        block@.len() > 0 ==> r@.len() >= 1,
{
    let pieces = cut_into_pieces(block, packet_size);
    let n = pieces.len();
    let mut r: Vec<(Packet, Vec<u8>)> = Vec::new();
    let mut i: usize = 0;
    proof {
        lemma_flatten_empty();
        assert(payloads_of(r@) =~= Seq::<Seq<u8>>::empty());
        assert(views_of(pieces@).take(0) =~= Seq::<Seq<u8>>::empty());
    }
    while i < n
        invariant
            packet_size >= 1,
            n == pieces@.len(),
            i <= n,
            r@.len() == i,
            payloads_of(r@).flatten() == views_of(pieces@).take(i as int).flatten(),
            forall|a: int| 0 <= a < i ==> (#[trigger] r@[a]).1@ == pieces@[a]@,
            forall|a: int| 0 <= a < i ==> (#[trigger] r@[a]).0.size == r@[a].1@.len(),
            forall|a: int| 0 <= a < i ==> (#[trigger] r@[a]).0.checksum@ == md5_of(r@[a].1@),
            forall|a: int| 0 <= a < i ==> (#[trigger] r@[a]).0.checksum@.len() == 16,
            forall|a: int| 0 <= a < i ==> ((#[trigger] r@[a]).0.last <==> a == n - 1),
            forall|a: int| 0 <= a < pieces@.len() ==> 1 <= (#[trigger] pieces@[a])@.len()
                <= packet_size,
            forall|a: int| 0 <= a < pieces@.len() - 1 ==> (#[trigger] pieces@[a])@.len()
                == packet_size,
        decreases n - i,
    {
        let payload = copy_byte_range(pieces[i].as_slice(), 0, pieces[i].len());
        proof {
            assert(payload@ =~= pieces@[i as int]@);
        }
        let digest = md5_digest(payload.as_slice());
        let header = Packet { size: payload.len() as u64, last: i == n - 1, checksum: digest };
        let ghost prev = payloads_of(r@);
        r.push((header, payload));
        proof {
            assert(payloads_of(r@) =~= prev.push(pieces@[i as int]@));
            lemma_flatten_push(prev, pieces@[i as int]@);
            let tv = views_of(pieces@);
            assert(tv.take(i + 1).drop_last() =~= tv.take(i as int));
            tv.take(i + 1).lemma_flatten_and_flatten_alt_are_equivalent();
            tv.take(i as int).lemma_flatten_and_flatten_alt_are_equivalent();
            assert(tv.take(i + 1).flatten_alt() == tv.take(i as int).flatten_alt() + tv.take(
                i + 1,
            ).last());
            assert(tv.take(i + 1).last() == pieces@[i as int]@);
        }
        i = i + 1;
    }
    proof {
        assert(views_of(pieces@).take(n as int) =~= views_of(pieces@));
    }
    r
}

/// A receivable packet sequence: sizes match the payloads, checksums are the
/// payloads' digests, and the terminal flag stands exactly on the final
/// packet.
pub open spec fn packets_sound(v: Seq<(Packet, Vec<u8>)>) -> bool {
    &&& forall|i: int| 0 <= i < v.len() ==> (#[trigger] v[i]).0.size == v[i].1@.len()
    &&& forall|i: int| 0 <= i < v.len() ==> (#[trigger] v[i]).0.checksum@ == md5_of(v[i].1@)
    &&& forall|i: int| 0 <= i < v.len() ==> ((#[trigger] v[i]).0.last <==> i == v.len() - 1)
}

/// Reassembles a packet sequence, verifying every checksum, every size, and
/// the placement of the terminal flag; yields the block's bytes exactly when
/// the sequence is sound, and rejects it otherwise.
pub fn assemble_packets(packets: &Vec<(Packet, Vec<u8>)>) -> (r: CuddlyResult<Vec<u8>>)
    ensures
        r is Ok <==> packets_sound(packets@),
        match r {
            Ok(d) => d@ == payloads_of(packets@).flatten(),
            Err(e) => e is ProtoError,
        },
{
    let mut out: Vec<u8> = Vec::new();
    let mut i: usize = 0;
    proof {
        lemma_flatten_empty();
        assert(payloads_of(packets@).take(0) =~= Seq::<Seq<u8>>::empty());
    }
    while i < packets.len()
        invariant
            i <= packets@.len(),
            out@ == payloads_of(packets@).take(i as int).flatten(),
            forall|a: int| 0 <= a < i ==> (#[trigger] packets@[a]).0.size == packets@[a].1@.len(),
            forall|a: int| 0 <= a < i ==> (#[trigger] packets@[a]).0.checksum@ == md5_of(
                packets@[a].1@,
            ),
            forall|a: int|
                0 <= a < i ==> ((#[trigger] packets@[a]).0.last <==> a == packets@.len() - 1),
        decreases packets@.len() - i,
    {
        let header = &packets[i].0;
        let payload = &packets[i].1;
        if header.size != payload.len() as u64 {
            proof {
                assert(!packets_sound(packets@));
            }
            return Err(CudddlyError::ProtoError("packet size does not match payload".to_owned()));
        }
        let digest = md5_digest(payload.as_slice());
        if !bytes_equal(&digest, &header.checksum) {
            proof {
                assert(!packets_sound(packets@));
            }
            return Err(CudddlyError::ProtoError("packet checksum mismatch".to_owned()));
        }
        let expected_last = i == packets.len() - 1;
        if header.last != expected_last {
            proof {
                assert(!packets_sound(packets@));
            }
            return Err(CudddlyError::ProtoError("terminal flag out of place".to_owned()));
        }
        let ghost prev = out@;
        let mut j: usize = 0;
        while j < payload.len()
            invariant
                j <= payload@.len(),
                out@ == prev + payload@.take(j as int),
            decreases payload@.len() - j,
        {
            out.push(payload[j]);
            proof {
                assert(payload@.take(j + 1) =~= payload@.take(j as int).push(
                    payload@[j as int],
                ));
                assert(prev + payload@.take(j as int).push(payload@[j as int]) =~= (prev
                    + payload@.take(j as int)).push(payload@[j as int]));
            }
            j = j + 1;
        }
        proof {
            assert(payload@.take(payload@.len() as int) =~= payload@);
            let pv = payloads_of(packets@);
            assert(pv.take(i + 1).drop_last() =~= pv.take(i as int));
            pv.take(i + 1).lemma_flatten_and_flatten_alt_are_equivalent();
            pv.take(i as int).lemma_flatten_and_flatten_alt_are_equivalent();
            assert(pv.take(i + 1).flatten_alt() == pv.take(i as int).flatten_alt() + pv.take(
                i + 1,
            ).last());
            assert(pv.take(i + 1).last() == payload@);
        }
        i = i + 1;
    }
    proof {
        assert(payloads_of(packets@).take(packets@.len() as int) =~= payloads_of(packets@));
    }
    Ok(out)
}

/// Whether two byte lists hold the same bytes.
fn bytes_equal(a: &Vec<u8>, b: &Vec<u8>) -> (r: bool)
    ensures
        r == (a@ == b@),
{
    if a.len() != b.len() {
        return false;
    }
    let mut i: usize = 0;
    while i < a.len()
        invariant
            a@.len() == b@.len(),
            i <= a@.len(),
            forall|j: int| 0 <= j < i ==> a@[j] == b@[j],
        decreases a@.len() - i,
    {
        if a[i] != b[i] {
            return false;
        }
        i = i + 1;
    }
    proof {
        assert(a@ =~= b@);
    }
    true
}

/// Round trip of a streamed file: cut into blocks, every block cut into
/// packets, every block reassembled from its packets, the blocks
/// concatenated — the original bytes come back.
pub proof fn lemma_stream_round_trip(
    data: Seq<u8>,
    blocks: Seq<Seq<u8>>,
    packets: Seq<Seq<Seq<u8>>>,
)
    requires
        blocks.flatten() == data,
        packets.len() == blocks.len(),
        forall|i: int| 0 <= i < packets.len() ==> (#[trigger] packets[i]).flatten() == blocks[i],
    ensures
        Seq::new(packets.len(), |i: int| packets[i].flatten()).flatten() == data,
{
    assert(Seq::new(packets.len(), |i: int| packets[i].flatten()) =~= blocks);
}

/// How many buffered bytes complete the current block (the rest start the
/// next one).
pub fn bytes_to_fill_block(bytes_written: u64, buf_len: u64, block_size: u64) -> (r: u64)
    requires
        bytes_written <= block_size,
    ensures
        r == (if bytes_written + buf_len >= block_size {
            (block_size - bytes_written) as int
        } else {
            0int
        }),
{
    if buf_len >= block_size - bytes_written {
        block_size - bytes_written
    } else {
        0
    }
}

/// The next retry delay: doubled, saturating.
pub fn next_backoff(ms: u64) -> (r: u64)
    ensures
        r as int == (if ms <= u64::MAX / 2 {
            2 * ms
        } else {
            u64::MAX as int
        }),
{
    if ms <= u64::MAX / 2 {
        2 * ms
    } else {
        u64::MAX
    }
}

/// One heartbeat failure: the new consecutive-failure count and whether the
/// server must shut itself down (five in a row).
pub fn heartbeat_failure_step(consecutive: u32) -> (r: (u32, bool))
    ensures
        r.0 as int == (if consecutive < u32::MAX {
            consecutive + 1
        } else {
            u32::MAX as int
        }),
        r.1 == (r.0 >= 5),
{
    let next: u32 = if consecutive < u32::MAX {
        consecutive + 1
    } else {
        u32::MAX
    };
    (next, next >= 5)
}

/// The declared sizes of a packet sequence, summed.
pub open spec fn sum_of_sizes(v: Seq<(Packet, Vec<u8>)>) -> int
    decreases v.len(),
{
    if v.len() == 0 {
        0
    } else {
        sum_of_sizes(v.drop_last()) + v.last().0.size
    }
}

/// When every declared size equals its payload's length, the sizes sum to
/// the reassembled block's length: the total bytes moved equal the sum of
/// the per-packet sizes.
pub proof fn lemma_sizes_sum_to_length(v: Seq<(Packet, Vec<u8>)>)
    requires
        forall|i: int| 0 <= i < v.len() ==> (#[trigger] v[i]).0.size == v[i].1@.len(),
    ensures
        sum_of_sizes(v) == payloads_of(v).flatten().len(),
    decreases v.len(),
{
    if v.len() == 0 {
        assert(payloads_of(v) =~= Seq::<Seq<u8>>::empty());
        lemma_flatten_empty();
    } else {
        let front = v.drop_last();
        assert forall|i: int| 0 <= i < front.len() implies (#[trigger] front[i]).0.size
            == front[i].1@.len() by {
            assert(front[i] == v[i]);
        }
        lemma_sizes_sum_to_length(front);
        assert(payloads_of(v).drop_last() =~= payloads_of(front));
        payloads_of(v).lemma_flatten_and_flatten_alt_are_equivalent();
        payloads_of(front).lemma_flatten_and_flatten_alt_are_equivalent();
        assert(payloads_of(v).flatten_alt() == payloads_of(front).flatten_alt() + payloads_of(
            v,
        ).last());
        assert(payloads_of(v).last() == v.last().1@);
    }
}

/// The tail reply of a chain write: success exactly when the local write and
/// the downstream reply both succeeded.
pub fn write_reply(local_ok: bool, downstream_ok: bool) -> (r: WriteBlockResponse)
    ensures
        r.success == (local_ok && downstream_ok),
{
    WriteBlockResponse { success: local_ok && downstream_ok }
}

/// The targets a replica forwards to: everyone after itself, the head of the
/// list.
pub fn next_hop_targets(targets: &Vec<String>) -> (r: Vec<String>)
    ensures
        targets@.len() == 0 ==> r.deep_view() == Seq::<Seq<char>>::empty(),
        targets@.len() > 0 ==> r.deep_view() == targets.deep_view().drop_first(),
{
    let mut r: Vec<String> = Vec::new();
    if targets.len() == 0 {
        proof {
            assert(r.deep_view() =~= Seq::<Seq<char>>::empty());
        }
        return r;
    }
    let mut i: usize = 1;
    while i < targets.len()
        invariant
            1 <= i <= targets@.len(),
            r@.len() == i - 1,
            forall|j: int| 0 <= j < i - 1 ==> #[trigger] r@[j]@ == targets@[j + 1]@,
        decreases targets@.len() - i,
    {
        r.push(targets[i].clone());
        i = i + 1;
    }
    proof {
        assert(r.deep_view() =~= targets.deep_view().drop_first());
    }
    r
}

/// What a streaming reader must do next, decided from its positions.
pub enum ReadStep {
    Finished,
    NeedBlock,
    NeedPacket,
    CopyFromBuffer,
}

/// The reader's next move: done at end of file, fetch the next block at a
/// block boundary, fetch the next packet at a packet boundary, otherwise
/// serve bytes from the current packet's buffer.
pub fn reader_step(
    file_pos: u64,
    total_size: u64,
    block_pos: u64,
    block_size: u64,
    packet_pos: u64,
    packet_size: u64,
) -> (r: ReadStep)
    ensures
        r is Finished <==> file_pos == total_size,
        !(r is Finished) ==> ((r is NeedBlock <==> block_pos == block_size) && (r is NeedPacket
            <==> (block_pos != block_size && packet_pos == packet_size)) && (r
            is CopyFromBuffer <==> (block_pos != block_size && packet_pos != packet_size))),
{
    if file_pos == total_size {
        ReadStep::Finished
    } else if block_pos == block_size {
        ReadStep::NeedBlock
    } else if packet_pos == packet_size {
        ReadStep::NeedPacket
    } else {
        ReadStep::CopyFromBuffer
    }
}

} // verus!
