//! The decisions of a proxy server: how it answers a tunnel request, and what
//! its forwarding loop passes between a client and the target.
use crate::fragment::{opt_bytes, purge_spec, FragmentTable, Fragments};
use crate::framing::{encode_datagram, whole_datagram};
use crate::session::{receive_datagram, remote_spec};
use crate::target::{get_target_socketaddr, target_of_path, AllowedIps, SocketAddress};
use vstd::prelude::*;

verus! {

/// The response that completes a tunnel negotiation.
pub const STATUS_OK: u16 = 200;

/// The response to a request for a target that the server does not allow.
pub const STATUS_BAD_REQUEST: u16 = 400;

/// The response when the server cannot open a socket towards the target.
pub const STATUS_BAD_GATEWAY: u16 = 502;

/// How a server meets a tunnel request.
#[derive(Debug, Clone, Copy, PartialEq, Eq, Structural)]
pub enum RequestDecision {
    /// The path names no target: drop the stream without an answer.
    Ignore,
    /// Answer with this status and stop.
    Reject(u16),
    /// Open a socket towards this target.
    Proceed(SocketAddress),
}

/// How a server meets a request with path `path`.
pub open spec fn request_decision(path: Seq<char>, allowed: Seq<crate::target::IpAddress>) -> RequestDecision {
    match target_of_path(path) {
        None => RequestDecision::Ignore,
        Some(t) => if allowed.len() == 0 || allowed.contains(t.ip) {
            RequestDecision::Proceed(t)
        } else {
            RequestDecision::Reject(STATUS_BAD_REQUEST)
        },
    }
}

/// Parses the request path and checks the target against the allowed set.
pub fn authorize_request(request_path: &str, allowed_hosts: &AllowedIps) -> (r: RequestDecision)
    ensures
        r == request_decision(request_path@, allowed_hosts.hosts@),
{
    match get_target_socketaddr(request_path) {
        None => RequestDecision::Ignore,
        Some(target) => {
            if allowed_hosts.ip_allowed(target.ip) {
                RequestDecision::Proceed(target)
            } else {
                RequestDecision::Reject(STATUS_BAD_REQUEST)
            }
        },
    }
}

/// The status that answers a permitted request: success once the socket
/// towards the target is bound, a gateway failure otherwise.
pub fn negotiation_status(socket_bound: bool) -> (r: u16)
    ensures
        r == if socket_bound {
            STATUS_OK
        } else {
            STATUS_BAD_GATEWAY
        },
{
    if socket_bound {
        STATUS_OK
    } else {
        STATUS_BAD_GATEWAY
    }
}

/// The state of one proxied connection: the request's stream, the target,
/// and the fragments of client payloads not yet complete.
pub struct ServerTunnel {
    request_stream: u64,
    target: SocketAddress,
    fragments: Fragments,
}

impl ServerTunnel {
    /// The stream of the request that opened the tunnel.
    pub closed spec fn spec_request_stream(&self) -> u64 {
        self.request_stream
    }

    /// The target that the client asked for.
    pub closed spec fn spec_target(&self) -> SocketAddress {
        self.target
    }

    /// The fragments received from the client and not yet complete.
    pub closed spec fn spec_fragments(&self) -> FragmentTable {
        self.fragments@
    }

    /// The invariant.
    pub closed spec fn wf(&self) -> bool {
        self.fragments.wf()
    }

    /// A tunnel for the request on `request_stream` towards `target`.
    pub fn new(request_stream: u64, target: SocketAddress) -> (r: ServerTunnel)
        ensures
            r.wf(),
            r.spec_request_stream() == request_stream,
            r.spec_target() == target,
            r.spec_fragments() == FragmentTable::empty(),
    {
        ServerTunnel { request_stream, target, fragments: Fragments::new() }
    }

    /// What to send to the target for a datagram that arrived from the
    /// client on stream `stream_id` at time `now`: a whole payload, or the
    /// packet that a fragment completes, read as the client reads datagrams.
    pub fn handle_client_datagram(&mut self, stream_id: u64, datagram: &[u8], now: u64) -> (r: Option<Vec<u8>>)
        requires
            old(self).wf(),
        ensures
            final(self).wf(),
            final(self).spec_request_stream() == old(self).spec_request_stream(),
            final(self).spec_target() == old(self).spec_target(),
            (final(self).spec_fragments(), opt_bytes(r)) == remote_spec(
                old(self).spec_request_stream(),
                old(self).spec_fragments(),
                stream_id,
                datagram@,
                now,
            ),
    {
        receive_datagram(&mut self.fragments, self.request_stream, stream_id, datagram, now)
    }

    /// The datagram to send to the client for a payload that arrived from
    /// `sender`: the payload whole, if it came from the target, else nothing.
    pub fn handle_target_datagram(&self, sender: SocketAddress, payload: &[u8]) -> (r: Option<Vec<u8>>)
        ensures
            opt_bytes(r) == if sender == self.spec_target() {
                Some(whole_datagram(payload@))
            } else {
                None
            },
    {
        if sender == self.target {
            Some(encode_datagram(payload))
        } else {
            None
        }
    }

    /// Forgets the fragments of every packet that all arrived more than
    /// `max_age` before `now`.
    pub fn clear_old_fragments(&mut self, max_age: u64, now: u64)
        requires
            old(self).wf(),
        ensures
            final(self).wf(),
            final(self).spec_request_stream() == old(self).spec_request_stream(),
            final(self).spec_target() == old(self).spec_target(),
            final(self).spec_fragments() == purge_spec(old(self).spec_fragments(), max_age, now),
    {
        self.fragments.clear_old_fragments(max_age, now);
    }
}

/// A payload sent whole arrives unchanged, with its fragment table untouched,
/// whichever end reads it: the datagram that either end sends for it reads
/// back as exactly the payload on the tunnel's stream.
pub proof fn lemma_whole_payload_round_trip(payload: Seq<u8>, stream_id: u64, table: FragmentTable, now: u64)
    ensures
        remote_spec(stream_id, table, stream_id, whole_datagram(payload), now) == (table, Some(payload)),
{
    crate::framing::lemma_whole_datagram_round_trip(payload);
}

} // verus!
