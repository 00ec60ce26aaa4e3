//! The layout of the payload of one HTTP/3 datagram: a context identifier, then
//! either a whole UDP payload (context 0) or one fragment of a larger one
//! (context 1), which carries a packet id, its own index and the number of
//! fragments before its bytes.
use crate::varint::{encode_varint, parse_varint, varint_len, varint_size, varint_value, be_value, pow256};
use vstd::prelude::*;

verus! {

/// Context identifier of a datagram that carries a whole UDP payload.
pub const HTTP_MASQUE_DATAGRAM_CONTEXT_ID: u64 = 0;

/// Context identifier of a datagram that carries one fragment of a UDP payload.
pub const HTTP_MASQUE_FRAGMENTED_DATAGRAM_CONTEXT_ID: u64 = 1;

/// Length of the fragment header: packet id (2 bytes), index, count.
pub const FRAGMENT_HEADER_SIZE: usize = 4;

/// A payload that would need more than 255 fragments. Holds its length.
#[derive(Debug, Clone, Copy, PartialEq, Eq, Structural)]
pub struct PacketTooLarge(pub usize);

/// A datagram that carries `payload` whole.
pub open spec fn whole_datagram(payload: Seq<u8>) -> Seq<u8> {
    seq![0u8] + payload
}

/// The fragment header: the packet id in big-endian order, the index, the count.
pub open spec fn fragment_header(packet_id: u16, index: u8, total: u8) -> Seq<u8> {
    seq![(packet_id / 256) as u8, (packet_id % 256) as u8, index, total]
}

/// A datagram that carries one fragment.
pub open spec fn fragment_datagram(packet_id: u16, index: u8, total: u8, chunk: Seq<u8>) -> Seq<
    u8,
> {
    seq![1u8] + fragment_header(packet_id, index, total) + chunk
}

/// Number of chunks of at most `max` bytes that `len` bytes make.
pub open spec fn fragment_count(len: nat, max: nat) -> nat
    recommends
        max > 0,
{
    if len % max == 0 {
        len / max
    } else {
        len / max + 1
    }
}

/// Chunk `i` of `payload`: bytes `i * max` up to `(i + 1) * max`, or to the end.
pub open spec fn chunk_of(payload: Seq<u8>, max: nat, i: nat) -> Seq<u8> {
    let start = i * max;
    let end = if start + max < payload.len() {
        start + max
    } else {
        payload.len() as nat
    };
    payload.subrange(start as int, end as int)
}

/// The datagrams that carry `payload` in fragments of at most `max` bytes.
pub open spec fn fragments_of(payload: Seq<u8>, max: nat, packet_id: u16) -> Seq<Seq<u8>> {
    let n = fragment_count(payload.len(), max);
    Seq::new(n, |i: int| fragment_datagram(packet_id, i as u8, n as u8, chunk_of(payload, max, i as nat)))
}

/// A chunk index is below the count exactly when the chunk starts inside the payload.
pub proof fn lemma_fragment_count(len: nat, max: nat, i: nat)
    requires
        max > 0,
    ensures
        i < fragment_count(len, max) <==> i * max < len,
{
    let q = len / max;
    let r = len % max;
    vstd::arithmetic::div_mod::lemma_fundamental_div_mod(len as int, max as int);
    assert(len == q * max + r);
    if i < fragment_count(len, max) {
        if r == 0 {
            assert(i * max < len) by (nonlinear_arith)
                requires
                    i < q,
                    len == q * max,
                    max > 0,
            ;
        } else {
            assert(i * max < len) by (nonlinear_arith)
                requires
                    i <= q,
                    len == q * max + r,
                    r > 0,
                    max > 0,
            ;
        }
    } else {
        assert(i * max >= len) by (nonlinear_arith)
            requires
                i >= q + (if r == 0 { 0nat } else { 1nat }),
                len == q * max + r,
                r < max,
                max > 0,
        ;
    }
}

/// Appends the bytes of `src` to `out`.
pub(crate) fn push_bytes(out: &mut Vec<u8>, src: &[u8])
    ensures
        final(out)@ == old(out)@ + src@,
{
    let mut i: usize = 0;
    while i < src.len()
        invariant
            i <= src@.len(),
            out@ == old(out)@ + src@.subrange(0, i as int),
        decreases src@.len() - i,
    {
        out.push(src[i]);
        i = i + 1;
        assert(src@.subrange(0, i as int) == src@.subrange(0, i - 1).push(src@[i - 1]));
    }
    assert(src@.subrange(0, i as int) =~= src@);
}

/// A single-byte encoding holds exactly its value.
proof fn lemma_small_varint(s: Seq<u8>, v: nat)
    requires
        v < 64,
        s.len() == varint_len(v),
        parse_varint(s) == Some((v, varint_len(v))),
    ensures
        s =~= seq![v as u8],
{
    assert(varint_size(s[0]) == 1);
    assert(s.subrange(1, 1) =~= Seq::<u8>::empty());
    assert(be_value(s.subrange(1, 1)) == 0);
    assert(pow256(0) == 1);
    let h = (s[0] % 64) as nat;
    assert(h * pow256(0) == h) by (nonlinear_arith)
        requires
            pow256(0) == 1,
    ;
    assert(varint_value(s) == (s[0] % 64) as nat);
}

/// A payload sent whole reads back unchanged: the datagram starts with
/// context 0 in one byte, and the payload follows it.
pub proof fn lemma_whole_datagram_round_trip(payload: Seq<u8>)
    ensures
        parse_varint(whole_datagram(payload)) == Some((HTTP_MASQUE_DATAGRAM_CONTEXT_ID as nat, 1nat)),
        whole_datagram(payload).subrange(1, whole_datagram(payload).len() as int) == payload,
{
    let d = whole_datagram(payload);
    assert(varint_size(d[0]) == 1);
    assert(d.subrange(1, 1) =~= Seq::<u8>::empty());
    assert(be_value(d.subrange(1, 1)) == 0);
    assert(pow256(0) == 1);
    assert(0nat * pow256(0) == 0);
    assert(d.subrange(1, d.len() as int) =~= payload);
}

/// Frames `payload` whole, under context 0.
pub fn encode_datagram(payload: &[u8]) -> (r: Vec<u8>)
    ensures
        r@ == whole_datagram(payload@),
{
    let mut out = encode_varint(HTTP_MASQUE_DATAGRAM_CONTEXT_ID);
    proof {
        lemma_small_varint(out@, 0);
    }
    push_bytes(&mut out, payload);
    out
}

/// Frames one fragment, under context 1.
pub fn encode_fragment(packet_id: u16, index: u8, total: u8, chunk: &[u8]) -> (r: Vec<u8>)
    ensures
        r@ == fragment_datagram(packet_id, index, total, chunk@),
{
    let mut out = encode_varint(HTTP_MASQUE_FRAGMENTED_DATAGRAM_CONTEXT_ID);
    proof {
        lemma_small_varint(out@, 1);
    }
    out.push((packet_id / 256) as u8);
    out.push((packet_id % 256) as u8);
    out.push(index);
    out.push(total);
    push_bytes(&mut out, chunk);
    assert(out@ =~= fragment_datagram(packet_id, index, total, chunk@));
    out
}

/// Splits `payload` into chunks of at most `maximum_packet_size` bytes and
/// frames each as a fragment of packet `packet_id`. Fails, producing nothing,
/// when that would take more than 255 fragments.
pub fn fragment_outgoing_packet(maximum_packet_size: u16, payload: &[u8], packet_id: u16) -> (r:
    Result<Vec<Vec<u8>>, PacketTooLarge>)
    requires
        maximum_packet_size > 0,
    ensures
        r is Ok <==> fragment_count(payload@.len(), maximum_packet_size as nat) <= 255,
        r matches Ok(frags) ==> {
            let want = fragments_of(payload@, maximum_packet_size as nat, packet_id);
            &&& frags@.len() == want.len()
            &&& forall|k: int| 0 <= k < want.len() ==> (#[trigger] frags@[k])@ == want[k]
        },
        r matches Err(e) ==> e.0 == payload@.len(),
{
    let max = maximum_packet_size as usize;
    let len = payload.len();
    let count: usize = if len % max == 0 {
        len / max
    } else {
        proof {
            vstd::arithmetic::div_mod::lemma_div_is_ordered_by_denominator(len as int, 2, max as int);
        }
        len / max + 1
    };
    if count > 255 {
        return Err(PacketTooLarge(len));
    }
    let ghost target = fragments_of(payload@, max as nat, packet_id);
    let mut frags: Vec<Vec<u8>> = Vec::new();
    let mut start: usize = 0;
    let mut i: usize = 0;
    proof {
        lemma_fragment_count(len as nat, max as nat, 0);
    }
    while start < len
        invariant
            max == maximum_packet_size as usize,
            max > 0,
            len == payload@.len(),
            count == fragment_count(len as nat, max as nat),
            count <= 255,
            target == fragments_of(payload@, max as nat, packet_id),
            i <= count,
            start == if i * max < len { i * max } else { len as int },
            i < count <==> i * max < len,
            frags@.len() == i,
            forall|k: int| 0 <= k < i ==> (#[trigger] frags@[k])@ == target[k],
        decreases len - start,
    {
        proof {
            lemma_fragment_count(len as nat, max as nat, (i + 1) as nat);
        }
        let end: usize = if len - start > max {
            start + max
        } else {
            len
        };
        let chunk = &payload[start..end];
        assert(chunk@ == chunk_of(payload@, max as nat, i as nat));
        let frag = encode_fragment(packet_id, i as u8, count as u8, chunk);
        frags.push(frag);
        proof {
            assert((i + 1) * max == i * max + max) by (nonlinear_arith);
        }
        start = end;
        i = i + 1;
    }
    assert(i == count);
    Ok(frags)
}

} // verus!
