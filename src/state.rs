use vstd::prelude::*;

use crate::addr::{Addr, RemoteAddress};
use crate::known::{AddrKnown, DEFAULT_MAX_KNOWN};
use crate::message::{
    DiscoveryMessage, Node, Nodes, Payload, ANNOUNCE_THRESHOLD, nodes_of, one_addr_each,
};

verus! {

/// A peer that asks with at least this protocol version listens on the port
/// it connected from.
pub const REUSE_PORT_VERSION: u32 = 1;

/// Seconds between two self-announcements of one peer's address.
pub const ANNOUNCE_INTERVAL: u64 = 86400;

/// Whether a self-announcement last made at `last` is due again at `now`.
pub open spec fn announce_due(last: Option<u64>, now: u64, interval: u64) -> bool {
    match last {
        None => true,
        Some(t) => now >= t && now - t >= interval,
    }
}

/// What the protocol keeps for one open session.
#[derive(Debug)]
pub struct SessionState {
    pub id: usize,
    pub received_get_nodes: bool,
    pub received_nodes: bool,
    pub remote_addr: RemoteAddress,
    pub addr_known: AddrKnown,
    pub announce_multiaddrs: Vec<Addr>,
    pub last_announce: Option<u64>,
}

impl SessionState {
    pub open spec fn wf(&self) -> bool {
        &&& self.addr_known.wf()
        &&& self.addr_known.max_known == DEFAULT_MAX_KNOWN
        &&& self.announce_multiaddrs@.len() <= ANNOUNCE_THRESHOLD
    }

    /// The state of a session just opened from the observed address `addr`.
    pub fn new(id: usize, addr: Addr) -> (r: SessionState)
        ensures
            r.wf(),
            r.id == id,
            !r.received_get_nodes,
            !r.received_nodes,
            r.remote_addr == RemoteAddress::Init(addr),
            r.addr_known@ == Seq::<Addr>::empty(),
            r.addr_known.max_known == DEFAULT_MAX_KNOWN,
            r.announce_multiaddrs@ == Seq::<Addr>::empty(),
            r.last_announce.is_none(),
    {
        SessionState {
            id,
            received_get_nodes: false,
            received_nodes: false,
            remote_addr: RemoteAddress::Init(addr),
            addr_known: AddrKnown::new(DEFAULT_MAX_KNOWN),
            announce_multiaddrs: Vec::new(),
            last_announce: None,
        }
    }

    /// When a self-announcement is due, records `now` as its time and returns
    /// the peer's address if the peer is known to listen on it.
    pub fn check_timer(&mut self, now: u64, interval: u64) -> (r: Option<Addr>)
        ensures
            final(self).id == old(self).id,
            final(self).received_get_nodes == old(self).received_get_nodes,
            final(self).received_nodes == old(self).received_nodes,
            final(self).remote_addr == old(self).remote_addr,
            final(self).addr_known == old(self).addr_known,
            final(self).announce_multiaddrs == old(self).announce_multiaddrs,
            final(self).last_announce == if announce_due(old(self).last_announce, now, interval) {
                Some(now)
            } else {
                old(self).last_announce
            },
            r == if announce_due(old(self).last_announce, now, interval) {
                match old(self).remote_addr {
                    RemoteAddress::Listen(a) => Some(a),
                    RemoteAddress::Init(_) => None,
                }
            } else {
                None
            },
    {
        let due = match self.last_announce {
            None => true,
            Some(t) => now >= t && now - t >= interval,
        };
        if !due {
            return None;
        }
        self.last_announce = Some(now);
        match self.remote_addr {
            RemoteAddress::Listen(a) => Some(a),
            RemoteAddress::Init(_) => None,
        }
    }

    /// Takes the queued announcements out as one announce batch, if any.
    pub fn send_messages(&mut self) -> (r: Option<DiscoveryMessage>)
        ensures
            final(self).id == old(self).id,
            final(self).received_get_nodes == old(self).received_get_nodes,
            final(self).received_nodes == old(self).received_nodes,
            final(self).remote_addr == old(self).remote_addr,
            final(self).addr_known == old(self).addr_known,
            final(self).last_announce == old(self).last_announce,
            final(self).announce_multiaddrs@ == Seq::<Addr>::empty(),
            old(self).announce_multiaddrs@.len() == 0 ==> r.is_none(),
            old(self).announce_multiaddrs@.len() > 0 ==> announces(r, old(self).announce_multiaddrs@),
    {
        if self.announce_multiaddrs.len() == 0 {
            return None;
        }
        let items = nodes_of(&self.announce_multiaddrs);
        self.announce_multiaddrs = Vec::new();
        Some(DiscoveryMessage { payload: Some(Payload::Nodes(Nodes { announce: true, items })) })
    }
}

/// `m` is an announce batch of `addrs`, one address per item.
pub open spec fn announces(m: Option<DiscoveryMessage>, addrs: Seq<Addr>) -> bool {
    match m {
        Some(DiscoveryMessage { payload: Some(Payload::Nodes(n)) }) => n.announce && one_addr_each(n.items@, addrs),
        _ => false,
    }
}

} // verus!
