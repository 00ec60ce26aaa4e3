//! The decisions of a client's forwarding loop: what to send to the proxy for
//! a datagram from the local socket, and what to write to the local socket for
//! a datagram from the proxy.
use crate::fragment::{feed, insert_spec, lemma_fragments_reassemble, opt_bytes, purge_spec, FragmentTable, Fragments};
use crate::framing::{
    encode_datagram, fragment_count, fragment_outgoing_packet, fragments_of, whole_datagram,
    PacketTooLarge, FRAGMENT_HEADER_SIZE, HTTP_MASQUE_DATAGRAM_CONTEXT_ID,
    HTTP_MASQUE_FRAGMENTED_DATAGRAM_CONTEXT_ID,
};
use crate::target::{IpAddress, SocketAddress};
use crate::varint::{be_value, decode_varint, parse_varint, pow256, varint_size, varint_value};
use vstd::prelude::*;

verus! {

/// The state of one client tunnel between negotiation and shutdown.
pub struct ClientSession {
    stream_id: u64,
    maximum_packet_size: u16,
    fragments: Fragments,
    fragment_id: u16,
    return_addr: SocketAddress,
}

/// What the client writes to the local socket for a datagram that arrived on
/// stream `stream_id` of the tunnel, and its fragment table afterwards.
/// Datagrams of other streams, unreadable ones and unknown contexts are
/// dropped; context 0 carries a whole payload; context 1 a fragment.
pub open spec fn remote_spec(
    own_stream: u64,
    table: FragmentTable,
    stream_id: u64,
    datagram: Seq<u8>,
    now: u64,
) -> (FragmentTable, Option<Seq<u8>>) {
    if stream_id != own_stream {
        (table, None)
    } else {
        match parse_varint(datagram) {
            Some((ctx, n)) => {
                let body = datagram.subrange(n as int, datagram.len() as int);
                if ctx == HTTP_MASQUE_DATAGRAM_CONTEXT_ID {
                    (table, Some(body))
                } else if ctx == HTTP_MASQUE_FRAGMENTED_DATAGRAM_CONTEXT_ID && body.len()
                    >= FRAGMENT_HEADER_SIZE {
                    insert_spec(table, body, now)
                } else {
                    (table, None)
                }
            },
            None => (table, None),
        }
    }
}

/// The view of a list of datagrams.
pub open spec fn datagrams_view(v: Vec<Vec<u8>>) -> Seq<Seq<u8>> {
    v@.map_values(|d: Vec<u8>| d@)
}

/// The packet id that follows `id`, wrapping after 65535.
pub open spec fn next_packet_id(id: u16) -> u16 {
    if id == 65535 {
        0
    } else {
        (id + 1) as u16
    }
}

/// The address of a client before any datagram has arrived: 0.0.0.0:0.
pub open spec fn unset_addr() -> SocketAddress {
    SocketAddress { ip: IpAddress::V4(0), port: 0 }
}

/// Reads a datagram that arrived on stream `stream_id` for the tunnel on
/// stream `own_stream`: returns the payload it carries whole, or the packet
/// that it completes, and keeps its fragment in `fragments` otherwise.
pub fn receive_datagram(fragments: &mut Fragments, own_stream: u64, stream_id: u64, datagram: &[u8], now: u64) -> (r: Option<Vec<u8>>)
    requires
        old(fragments).wf(),
    ensures
        final(fragments).wf(),
        (final(fragments)@, opt_bytes(r)) == remote_spec(own_stream, old(fragments)@, stream_id, datagram@, now),
{
    if stream_id != own_stream {
        return None;
    }
    let (ctx, n) = match decode_varint(datagram) {
        Some(p) => p,
        None => return None,
    };
    let body = &datagram[n..datagram.len()];
    if ctx == HTTP_MASQUE_DATAGRAM_CONTEXT_ID {
        return Some(vstd::slice::slice_to_vec(body));
    }
    if ctx == HTTP_MASQUE_FRAGMENTED_DATAGRAM_CONTEXT_ID {
        match fragments.insert(body, now) {
            Ok(out) => out,
            Err(_) => None,
        }
    } else {
        None
    }
}

/// The proxy answered a tunnel request with this status instead of 200.
#[derive(Debug, Clone, Copy, PartialEq, Eq, Structural)]
pub struct UnexpectedStatus(pub u16);

/// Accepts the proxy's answer to a tunnel request only when it is 200.
pub fn handle_response(status: u16) -> (r: Result<(), UnexpectedStatus>)
    ensures
        r is Ok <==> status == crate::server::STATUS_OK,
        r matches Err(e) ==> e.0 == status,
{
    if status != crate::server::STATUS_OK {
        return Err(UnexpectedStatus(status));
    }
    Ok(())
}

impl ClientSession {
    /// The stream whose datagrams belong to this tunnel.
    pub closed spec fn spec_stream_id(&self) -> u64 {
        self.stream_id
    }

    /// The largest payload sent whole.
    pub closed spec fn spec_maximum_packet_size(&self) -> u16 {
        self.maximum_packet_size
    }

    /// The fragments received from the proxy and not yet complete.
    pub closed spec fn spec_fragments(&self) -> FragmentTable {
        self.fragments@
    }

    /// The packet id that the next fragmented payload gets.
    pub closed spec fn spec_fragment_id(&self) -> u16 {
        self.fragment_id
    }

    /// Where payloads from the proxy go: the sender of the last local datagram.
    pub closed spec fn spec_return_addr(&self) -> SocketAddress {
        self.return_addr
    }

    /// The invariant.
    pub closed spec fn wf(&self) -> bool {
        self.fragments.wf() && self.maximum_packet_size > 0
    }

    /// A session on stream `stream_id` that sends payloads of up to
    /// `maximum_packet_size` bytes whole.
    pub fn new(stream_id: u64, maximum_packet_size: u16) -> (r: ClientSession)
        requires
            maximum_packet_size > 0,
        ensures
            r.wf(),
            r.spec_stream_id() == stream_id,
            r.spec_maximum_packet_size() == maximum_packet_size,
            r.spec_fragments() == FragmentTable::empty(),
            r.spec_fragment_id() == 1,
            r.spec_return_addr() == unset_addr(),
    {
        ClientSession {
            stream_id,
            maximum_packet_size,
            fragments: Fragments::new(),
            fragment_id: 1,
            return_addr: SocketAddress { ip: IpAddress::V4(0), port: 0 },
        }
    }

    /// The stream whose datagrams belong to this tunnel.
    pub fn stream_id(&self) -> (r: u64)
        ensures
            r == self.spec_stream_id(),
    {
        self.stream_id
    }

    /// Where payloads from the proxy go.
    pub fn return_addr(&self) -> (r: SocketAddress)
        ensures
            r == self.spec_return_addr(),
    {
        self.return_addr
    }

    /// The datagrams to send to the proxy for `payload`, read from the local
    /// socket from `from`: one whole datagram when the payload fits in the
    /// maximum size, else its fragments under a fresh packet id. `from`
    /// becomes the return address. Fails, sending nothing, when the payload
    /// would take more than 255 fragments.
    pub fn handle_local_datagram(&mut self, from: SocketAddress, payload: &[u8]) -> (r: Result<
        Vec<Vec<u8>>,
        PacketTooLarge,
    >)
        requires
            old(self).wf(),
        ensures
            final(self).wf(),
            final(self).spec_return_addr() == from,
            final(self).spec_stream_id() == old(self).spec_stream_id(),
            final(self).spec_maximum_packet_size() == old(self).spec_maximum_packet_size(),
            final(self).spec_fragments() == old(self).spec_fragments(),
            ({
                let max = old(self).spec_maximum_packet_size();
                let id = old(self).spec_fragment_id();
                if payload@.len() <= max {
                    &&& r matches Ok(ds) && datagrams_view(ds) == seq![whole_datagram(payload@)]
                    &&& final(self).spec_fragment_id() == id
                } else if fragment_count(payload@.len(), max as nat) <= 255 {
                    &&& r matches Ok(ds) && datagrams_view(ds) == fragments_of(payload@, max as nat, id)
                    &&& final(self).spec_fragment_id() == next_packet_id(id)
                } else {
                    &&& r == Err::<Vec<Vec<u8>>, PacketTooLarge>(PacketTooLarge(payload@.len() as usize))
                    &&& final(self).spec_fragment_id() == id
                }
            }),
    {
        self.return_addr = from;
        if payload.len() <= self.maximum_packet_size as usize {
            let d = encode_datagram(payload);
            let mut out: Vec<Vec<u8>> = Vec::new();
            out.push(d);
            assert(datagrams_view(out) =~= seq![whole_datagram(payload@)]);
            return Ok(out);
        }
        match fragment_outgoing_packet(self.maximum_packet_size, payload, self.fragment_id) {
            Ok(frags) => {
                assert(datagrams_view(frags) =~= fragments_of(
                    payload@,
                    self.maximum_packet_size as nat,
                    self.fragment_id,
                ));
                self.fragment_id = self.fragment_id.wrapping_add(1);
                Ok(frags)
            },
            Err(e) => Err(e),
        }
    }

    /// What to write to the local socket (at the return address) for a
    /// datagram that arrived on stream `stream_id` of the tunnel at time `now`.
    pub fn handle_remote_datagram(&mut self, stream_id: u64, datagram: &[u8], now: u64) -> (r:
        Option<Vec<u8>>)
        requires
            old(self).wf(),
        ensures
            final(self).wf(),
            final(self).spec_return_addr() == old(self).spec_return_addr(),
            final(self).spec_stream_id() == old(self).spec_stream_id(),
            final(self).spec_maximum_packet_size() == old(self).spec_maximum_packet_size(),
            final(self).spec_fragment_id() == old(self).spec_fragment_id(),
            (final(self).spec_fragments(), opt_bytes(r)) == remote_spec(
                old(self).spec_stream_id(),
                old(self).spec_fragments(),
                stream_id,
                datagram@,
                now,
            ),
    {
        receive_datagram(&mut self.fragments, self.stream_id, stream_id, datagram, now)
    }

    /// Forgets the fragments of every packet that all arrived more than
    /// `max_age` before `now`.
    pub fn clear_old_fragments(&mut self, max_age: u64, now: u64)
        requires
            old(self).wf(),
        ensures
            final(self).wf(),
            final(self).spec_return_addr() == old(self).spec_return_addr(),
            final(self).spec_stream_id() == old(self).spec_stream_id(),
            final(self).spec_maximum_packet_size() == old(self).spec_maximum_packet_size(),
            final(self).spec_fragment_id() == old(self).spec_fragment_id(),
            final(self).spec_fragments() == purge_spec(old(self).spec_fragments(), max_age, now),
    {
        self.fragments.clear_old_fragments(max_age, now);
    }
}

/// The fragment table of the tunnel on `stream_id` after it has read each of
/// `datagrams` in turn, and what the last of them yielded.
pub open spec fn receive_all(stream_id: u64, table: FragmentTable, datagrams: Seq<Seq<u8>>, now: u64) -> (
    FragmentTable,
    Option<Seq<u8>>,
)
    decreases datagrams.len(),
{
    if datagrams.len() == 0 {
        (table, None)
    } else {
        remote_spec(stream_id, receive_all(stream_id, table, datagrams.drop_last(), now).0, stream_id, datagrams.last(), now)
    }
}

/// Whether `d` is a fragment datagram: context 1 in one byte, then at least a header.
spec fn is_fragment_datagram(d: Seq<u8>) -> bool {
    d.len() >= 1 + FRAGMENT_HEADER_SIZE && d[0] == 1
}

proof fn lemma_receive_fragments(stream_id: u64, table: FragmentTable, ds: Seq<Seq<u8>>, now: u64)
    requires
        forall|i: int| 0 <= i < ds.len() ==> is_fragment_datagram(#[trigger] ds[i]),
    ensures
        receive_all(stream_id, table, ds, now) == feed(table, ds, now),
    decreases ds.len(),
{
    if ds.len() > 0 {
        let d = ds.last();
        assert(is_fragment_datagram(ds[ds.len() - 1]));
        assert forall|i: int| 0 <= i < ds.drop_last().len() implies is_fragment_datagram(#[trigger] ds.drop_last()[i]) by {
            assert(ds.drop_last()[i] == ds[i]);
        }
        lemma_receive_fragments(stream_id, table, ds.drop_last(), now);
        assert(varint_size(d[0]) == 1);
        assert(d.subrange(1, 1) =~= Seq::<u8>::empty());
        assert(be_value(d.subrange(1, 1)) == 0);
        assert(pow256(0) == 1);
        assert(1nat * pow256(0) == 1);
        assert(varint_value(d) == 1);
        assert(parse_varint(d) == Some((1nat, 1nat)));
    }
}

/// A payload larger than `max`, fragmented under `packet_id` by one end of
/// a tunnel and read in order by the other, whose table holds nothing for
/// that packet id: every fragment but the last yields nothing, the last
/// yields exactly the payload, and the table is left as it was.
pub proof fn lemma_fragmented_payload_round_trip(
    stream_id: u64,
    table: FragmentTable,
    payload: Seq<u8>,
    max: nat,
    packet_id: u16,
    now: u64,
)
    requires
        max > 0,
        payload.len() > max,
        fragment_count(payload.len(), max) <= 255,
        !table.contains_key(packet_id),
    ensures
        receive_all(stream_id, table, fragments_of(payload, max, packet_id), now) == (table, Some(payload)),
        forall|j: int|
            0 <= j < fragments_of(payload, max, packet_id).len() ==> (#[trigger] receive_all(
                stream_id,
                table,
                fragments_of(payload, max, packet_id).take(j),
                now,
            )).1 is None,
{
    let frags = fragments_of(payload, max, packet_id);
    lemma_fragments_reassemble(table, payload, max, packet_id, now);
    assert forall|i: int| 0 <= i < frags.len() implies is_fragment_datagram(#[trigger] frags[i]) by {
        assert(frags[i][0] == 1);
    }
    lemma_receive_fragments(stream_id, table, frags, now);
    assert forall|j: int| 0 <= j < frags.len() implies (#[trigger] receive_all(stream_id, table, frags.take(j), now)).1 is None by {
        assert forall|i: int| 0 <= i < frags.take(j).len() implies is_fragment_datagram(#[trigger] frags.take(j)[i]) by {
            assert(frags.take(j)[i] == frags[i]);
        }
        lemma_receive_fragments(stream_id, table, frags.take(j), now);
        assert(feed(table, frags.take(j), now).1 is None);
    }
}

} // verus!
