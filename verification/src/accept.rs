//! Admission of inbound connections: a bound on handshakes in flight before any
//! identity is known, on open connections, and on connections per peer, and only
//! the sync protocol is served.
use vstd::prelude::*;
use crate::ids::PeerId;
use crate::idmap::IdMap;
use crate::transport::{sync_alpn, sync_alpn_bytes, same_bytes};

verus! {

/// Connections the accept loop serves at once.
pub const MAX_ACCEPT_CONNECTIONS: usize = 128;
/// Connections one peer may hold open at once.
pub const MAX_ACCEPT_CONNECTIONS_PER_PEER: usize = 4;
/// Handshakes the accept loop carries at once, before any identity is known.
pub const MAX_PENDING_HANDSHAKES: usize = 32;

/// What becomes of a connection whose handshake finished.
#[derive(Clone, Copy, Debug, PartialEq, Eq, Structural)]
pub enum Admission {
    /// The connection is served.
    Admit,
    /// The connection speaks another protocol and is closed.
    WrongProtocol,
    /// The peer holds as many connections as it may; this one is dropped.
    PeerSaturated,
}

/// The accept loop's counts: handshakes in flight, connections served, and the
/// connections of each peer that holds any.
#[derive(Debug)]
pub struct ConnectionCounts {
    handshakes: usize,
    connections: usize,
    per_peer: IdMap<usize>,
}

/// Whether each peer listed holds between one and [`MAX_ACCEPT_CONNECTIONS_PER_PEER`]
/// connections.
pub open spec fn per_peer_bounded(m: Map<PeerId, usize>) -> bool {
    forall|p: PeerId| #[trigger] m.contains_key(p) ==> 1 <= m[p] && m[p] <= MAX_ACCEPT_CONNECTIONS_PER_PEER
}

impl ConnectionCounts {
    /// Handshakes in flight.
    pub closed spec fn spec_handshakes(&self) -> nat {
        self.handshakes as nat
    }

    /// Connections served.
    pub closed spec fn spec_connections(&self) -> nat {
        self.connections as nat
    }

    /// The connections of each peer that holds any.
    pub closed spec fn spec_per_peer(&self) -> Map<PeerId, usize> {
        self.per_peer@
    }

    /// The bounds the loop keeps: at most [`MAX_PENDING_HANDSHAKES`] handshakes, at
    /// most [`MAX_ACCEPT_CONNECTIONS`] connections, and between one and
    /// [`MAX_ACCEPT_CONNECTIONS_PER_PEER`] connections for each peer listed.
    pub open spec fn wf(&self) -> bool {
        &&& self.spec_handshakes() <= MAX_PENDING_HANDSHAKES
        &&& self.spec_connections() <= MAX_ACCEPT_CONNECTIONS
        &&& per_peer_bounded(self.spec_per_peer())
    }

    /// No handshake, no connection.
    pub fn new() -> (r: ConnectionCounts)
        ensures
            r.wf(),
            r.spec_handshakes() == 0,
            r.spec_connections() == 0,
            r.spec_per_peer() == Map::<PeerId, usize>::empty(),
    {
        ConnectionCounts { handshakes: 0, connections: 0, per_peer: IdMap::new() }
    }

    /// Whether the loop may take another event: it waits while every connection
    /// slot is taken.
    pub fn has_room(&self) -> (r: bool)
        ensures r == (self.spec_connections() < MAX_ACCEPT_CONNECTIONS),
    {
        self.connections < MAX_ACCEPT_CONNECTIONS
    }

    /// An inbound connection arrived: its handshake starts unless as many are in
    /// flight as allowed, in which case it is refused (`false`).
    pub fn on_incoming(&mut self) -> (r: bool)
        requires old(self).wf(),
        ensures
            final(self).wf(),
            r == (old(self).spec_handshakes() < MAX_PENDING_HANDSHAKES),
            final(self).spec_handshakes() == old(self).spec_handshakes() + (if r { 1nat } else { 0nat }),
            final(self).spec_connections() == old(self).spec_connections(),
            final(self).spec_per_peer() == old(self).spec_per_peer(),
    {
        if self.handshakes >= MAX_PENDING_HANDSHAKES {
            return false;
        }
        self.handshakes = self.handshakes + 1;
        true
    }

    /// A handshake failed or timed out.
    pub fn on_handshake_failed(&mut self)
        requires old(self).wf(), old(self).spec_handshakes() > 0,
        ensures
            final(self).wf(),
            final(self).spec_handshakes() == old(self).spec_handshakes() - 1,
            final(self).spec_connections() == old(self).spec_connections(),
            final(self).spec_per_peer() == old(self).spec_per_peer(),
    {
        self.handshakes = self.handshakes - 1;
    }

    /// A handshake with `peer` finished on the protocol `alpn`: the connection is
    /// served if it speaks the sync protocol and the peer holds fewer connections
    /// than it may; only then is it counted.
    pub fn admit_connection(&mut self, peer: PeerId, alpn: &Vec<u8>) -> (r: Admission)
        requires
            old(self).wf(),
            old(self).spec_handshakes() > 0,
            old(self).spec_connections() < MAX_ACCEPT_CONNECTIONS,
        ensures
            final(self).wf(),
            final(self).spec_handshakes() == old(self).spec_handshakes() - 1,
            alpn@ != sync_alpn_bytes() ==> r == Admission::WrongProtocol,
            alpn@ == sync_alpn_bytes() && old(self).spec_per_peer().contains_key(peer)
                && old(self).spec_per_peer()[peer] >= MAX_ACCEPT_CONNECTIONS_PER_PEER ==> r == Admission::PeerSaturated,
            r != Admission::Admit ==> final(self).spec_connections() == old(self).spec_connections()
                && final(self).spec_per_peer() == old(self).spec_per_peer(),
            r == Admission::Admit ==> {
                &&& alpn@ == sync_alpn_bytes()
                &&& final(self).spec_connections() == old(self).spec_connections() + 1
                &&& final(self).spec_per_peer() == old(self).spec_per_peer().insert(peer,
                    (if old(self).spec_per_peer().contains_key(peer) { old(self).spec_per_peer()[peer] + 1 } else { 1 }) as usize)
            },
    {
        self.handshakes = self.handshakes - 1;
        let sync = sync_alpn();
        if !same_bytes(alpn, &sync) {
            return Admission::WrongProtocol;
        }
        let count: usize = match self.per_peer.get(&peer) {
            Some(c) => *c,
            None => 0,
        };
        if count >= MAX_ACCEPT_CONNECTIONS_PER_PEER {
            return Admission::PeerSaturated;
        }
        self.per_peer.insert(peer, count + 1);
        self.connections = self.connections + 1;
        Admission::Admit
    }

    /// A served connection of `peer` ended.
    pub fn on_connection_closed(&mut self, peer: PeerId)
        requires old(self).wf(), old(self).spec_connections() > 0,
        ensures
            final(self).wf(),
            final(self).spec_handshakes() == old(self).spec_handshakes(),
            final(self).spec_connections() == old(self).spec_connections() - 1,
            !old(self).spec_per_peer().contains_key(peer) ==> final(self).spec_per_peer() == old(self).spec_per_peer(),
            old(self).spec_per_peer().contains_key(peer) && old(self).spec_per_peer()[peer] == 1
                ==> final(self).spec_per_peer() == old(self).spec_per_peer().remove(peer),
            old(self).spec_per_peer().contains_key(peer) && old(self).spec_per_peer()[peer] > 1
                ==> final(self).spec_per_peer() == old(self).spec_per_peer().insert(peer, (old(self).spec_per_peer()[peer] - 1) as usize),
    {
        self.connections = self.connections - 1;
        let count: usize = match self.per_peer.get(&peer) {
            Some(c) => *c,
            None => return,
        };
        if count <= 1 {
            let _ = self.per_peer.remove(&peer);
        } else {
            self.per_peer.insert(peer, count - 1);
        }
    }
}

} // verus!
