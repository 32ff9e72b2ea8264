use vstd::prelude::*;

use crate::addr::{Addr, RemoteAddress};
use crate::known::{known_insert, lemma_insert, near, DEFAULT_MAX_KNOWN};
use crate::manager::{DiscoveryAddressManager, drawn_from, sample_indices, stored_after, valid_addr, valid_in};
use crate::message::{
    ANNOUNCE_THRESHOLD, MAX_ADDR_TO_SEND, DiscoveryMessage, GetNodes, Misbehavior, Node, Nodes,
    Payload, nodes_of, nodes_verdict, one_addr_each, verify_nodes_message,
};
use crate::state::{ANNOUNCE_INTERVAL, REUSE_PORT_VERSION, SessionState, announce_due, announces};

verus! {

/// Seconds between two timer notifications unless configured otherwise.
pub const ANNOUNCE_CHECK_INTERVAL: u64 = 60;

/// How many sessions each gossiped address is offered to per round.
pub const FANOUT: usize = 3;

/// What the host must do on the protocol's behalf.
#[derive(Debug)]
pub enum Action {
    Send { session: usize, msg: DiscoveryMessage },
    Disconnect { session: usize },
}

/// The discovery protocol: one state per open session, and the address manager.
#[derive(Debug)]
pub struct DiscoveryProtocol {
    pub sessions: Vec<SessionState>,
    pub announce_check_interval: Option<u64>,
    pub addr_mgr: DiscoveryAddressManager,
}

/// No two sessions share an identifier.
pub open spec fn ids_unique(s: Seq<SessionState>) -> bool {
    forall|i: int, j: int| 0 <= i < s.len() && 0 <= j < s.len() && i != j ==> s[i].id != s[j].id
}

/// Every session is well formed and identifiers are unique.
pub open spec fn sessions_wf(s: Seq<SessionState>) -> bool {
    &&& forall|i: int| 0 <= i < s.len() ==> (#[trigger] s[i]).wf()
    &&& ids_unique(s)
}

/// `b` is `a` with possibly another announce queue and known-cache.
pub open spec fn same_but_gossip(a: SessionState, b: SessionState) -> bool {
    &&& b.id == a.id
    &&& b.received_get_nodes == a.received_get_nodes
    &&& b.received_nodes == a.received_nodes
    &&& b.remote_addr == a.remote_addr
    &&& b.last_announce == a.last_announce
    &&& b.addr_known.max_known == a.addr_known.max_known
}

/// Whether offering `addr` to session `a` enqueues it: the queue has room
/// and the peer does not know the address yet.
pub open spec fn takes(a: SessionState, addr: Addr) -> bool {
    a.announce_multiaddrs@.len() < ANNOUNCE_THRESHOLD && !a.addr_known@.contains(addr)
}

/// Session `b` is session `a` after `addr` was offered to it, if `offered`.
pub open spec fn offered_to(a: SessionState, b: SessionState, addr: Addr, offered: bool) -> bool {
    &&& same_but_gossip(a, b)
    &&& if offered && takes(a, addr) {
        &&& b.announce_multiaddrs@ == a.announce_multiaddrs@.push(addr)
        &&& b.addr_known@ == known_insert(a.addr_known@, a.addr_known.max_known as nat, addr)
    } else {
        &&& b.announce_multiaddrs@ == a.announce_multiaddrs@
        &&& b.addr_known@ == a.addr_known@
    }
}

/// Position `j` is among `picks`.
pub open spec fn picked(picks: Seq<usize>, j: int) -> bool {
    exists|q: int| 0 <= q < picks.len() && picks[q] as int == j
}

/// `new` is `old` after `addr` was offered to the sessions at `picks`.
pub open spec fn fanned_out(old: Seq<SessionState>, new: Seq<SessionState>, addr: Addr, picks: Seq<usize>) -> bool {
    &&& new.len() == old.len()
    &&& forall|j: int| 0 <= j < old.len() ==> offered_to(#[trigger] old[j], new[j], addr, picked(picks, j))
}

/// The request for addresses sent on a session this side dialed.
pub open spec fn get_nodes_request(listen_port: Option<u16>) -> DiscoveryMessage {
    DiscoveryMessage {
        payload: Some(Payload::GetNodes(GetNodes { listen_port, count: MAX_ADDR_TO_SEND as u32, version: 0 })),
    }
}

/// The position of a session is the one whose identifier it is.
proof fn lemma_session_index(s: Seq<SessionState>, id: usize, i: int)
    requires
        ids_unique(s),
        0 <= i < s.len(),
        s[i].id == id,
    ensures
        has_session(s, id),
        session_index(s, id) == i,
{
    assert(s[i].id == id);
    let k = session_index(s, id);
    assert(s[k].id == id);
}

/// Every session's announce queue stays within `ANNOUNCE_THRESHOLD`.
pub proof fn lemma_announce_queue_bounded(p: DiscoveryProtocol)
    requires
        p.wf(),
    ensures
        forall|j: int| 0 <= j < p.sessions@.len() ==> (#[trigger] p.sessions@[j]).announce_multiaddrs@.len() <= ANNOUNCE_THRESHOLD,
{
    assert forall|j: int| 0 <= j < p.sessions@.len() implies (#[trigger] p.sessions@[j]).announce_multiaddrs@.len() <= ANNOUNCE_THRESHOLD by {
        assert(p.sessions@[j].wf());
    }
}

/// A session's first request for addresses is answered; a second one from
/// the same session is reported as a duplicate and closes it, changing nothing.
pub proof fn lemma_second_get_nodes_rejected(
    start: DiscoveryProtocol,
    once: DiscoveryProtocol,
    twice: DiscoveryProtocol,
    id: usize,
    g1: GetNodes,
    g2: GetNodes,
    r1: Seq<Action>,
    r2: Seq<Action>,
)
    requires
        start.wf(),
        once.wf(),
        has_session(start.sessions@, id),
        start.addr_mgr.disconnect_on_misbehavior,
        !start.sessions@[session_index(start.sessions@, id)].received_get_nodes,
        get_nodes_done(start, once, id, g1, r1),
        get_nodes_done(once, twice, id, g2, r2),
    ensures
        r1.len() == 1,
        r1[0] is Send,
        r2 == seq![Action::Disconnect { session: id }],
        twice == once,
{
    let i = session_index(start.sessions@, id);
    assert(start.sessions@[i].id == id);
    lemma_session_index(once.sessions@, id, i);
}

/// Once a session's answer (a non-announce batch) has been accepted, another
/// non-announce batch from it is reported as a duplicate and closes it.
pub proof fn lemma_second_first_nodes_rejected(
    start: DiscoveryProtocol,
    once: DiscoveryProtocol,
    twice: DiscoveryProtocol,
    id: usize,
    n1: Nodes,
    n2: Nodes,
    r1: Seq<Action>,
    r2: Seq<Action>,
)
    requires
        start.wf(),
        once.wf(),
        has_session(start.sessions@, id),
        start.addr_mgr.disconnect_on_misbehavior,
        !n1.announce,
        nodes_verdict(n1).is_none(),
        !start.sessions@[session_index(start.sessions@, id)].received_nodes,
        nodes_done(start, once, id, n1, r1),
        !n2.announce,
        nodes_done(once, twice, id, n2, r2),
    ensures
        r1.len() == 0,
        r2 == seq![Action::Disconnect { session: id }],
        twice == once,
{
    let i = session_index(start.sessions@, id);
    assert(start.sessions@[i].id == id);
    lemma_session_index(once.sessions@, id, i);
}

/// A well-formed announce batch is never taken for a duplicate answer: from
/// an open session it is accepted, whatever came before.
pub proof fn lemma_announce_never_duplicate(start: DiscoveryProtocol, once: DiscoveryProtocol, id: usize, n: Nodes, r: Seq<Action>)
    requires
        has_session(start.sessions@, id),
        n.announce,
        nodes_verdict(n).is_none(),
        nodes_done(start, once, id, n, r),
    ensures
        r.len() == 0,
{
}

/// One round of gossip reaches only sessions it picked: the sessions that
/// newly queue `addr` number at most as many as the picks, and a session
/// that already knows `addr` is left as it was.
pub proof fn lemma_fanout_bounded(old: Seq<SessionState>, new: Seq<SessionState>, addr: Addr, picks: Seq<usize>)
    requires
        fanned_out(old, new, addr, picks),
    ensures
        Set::new(|j: int| 0 <= j < old.len() && new[j].announce_multiaddrs@ != old[j].announce_multiaddrs@).len() <= picks.len(),
        forall|j: int| 0 <= j < old.len() && (#[trigger] old[j]).addr_known@.contains(addr) ==> {
            &&& new[j].announce_multiaddrs@ == old[j].announce_multiaddrs@
            &&& new[j].addr_known@ == old[j].addr_known@
        },
{
    let changed = Set::new(|j: int| 0 <= j < old.len() && new[j].announce_multiaddrs@ != old[j].announce_multiaddrs@);
    let targets = picks.map_values(|p: usize| p as int).to_set();
    assert forall|j: int| changed.contains(j) implies targets.contains(j) by {
        assert(offered_to(old[j], new[j], addr, picked(picks, j)));
        let k = choose|k: int| 0 <= k < picks.len() && picks[k] as int == j;
        assert(picks.map_values(|p: usize| p as int)[k] == j);
    }
    picks.map_values(|p: usize| p as int).lemma_cardinality_of_set();
    vstd::set_lib::lemma_len_subset(changed, targets);
}

/// Most addresses fetched from the manager to answer one request.
pub const CANDIDATE_LIMIT: usize = 2500;

pub open spec fn has_session(s: Seq<SessionState>, id: usize) -> bool {
    exists|i: int| 0 <= i < s.len() && s[i].id == id
}

/// The position of the session `id`, where there is one.
pub open spec fn session_index(s: Seq<SessionState>, id: usize) -> int {
    choose|i: int| 0 <= i < s.len() && s[i].id == id
}

/// The state of a session just opened from `addr`.
pub open spec fn fresh(s: SessionState, id: usize, addr: Addr) -> bool {
    &&& s.wf()
    &&& s.id == id
    &&& !s.received_get_nodes
    &&& !s.received_nodes
    &&& s.remote_addr == RemoteAddress::Init(addr)
    &&& s.addr_known@ == Seq::<Addr>::empty()
    &&& s.addr_known.max_known == DEFAULT_MAX_KNOWN
    &&& s.announce_multiaddrs@ == Seq::<Addr>::empty()
    &&& s.last_announce.is_none()
}

/// The peer's address after a request that reports `listen_port` and `version`.
pub open spec fn remote_after_get_nodes(ra: RemoteAddress, listen_port: Option<u16>, version: u32) -> RemoteAddress {
    let r = match listen_port {
        Some(p) => ra.port_updated(p),
        None => ra,
    };
    if version >= REUSE_PORT_VERSION {
        RemoteAddress::Listen(r.addr())
    } else {
        r
    }
}

/// All addresses of all items, in order.
pub open spec fn flat_addrs(items: Seq<Node>) -> Seq<Addr>
    decreases items.len(),
{
    if items.len() == 0 {
        Seq::empty()
    } else {
        flat_addrs(items.drop_last()) + items.last().addrs@
    }
}

/// The first address of each item.
pub open spec fn first_addrs(items: Seq<Node>) -> Seq<Addr> {
    Seq::new(items.len(), |k: int| items[k].addrs@[0])
}

/// How many addresses a request for `count` is answered with at most.
pub open spec fn answer_limit(count: u32) -> nat {
    if (count as nat) < MAX_ADDR_TO_SEND as nat {
        count as nat
    } else {
        MAX_ADDR_TO_SEND as nat
    }
}

pub open spec fn min_nat(a: nat, b: nat) -> nat {
    if a < b {
        a
    } else {
        b
    }
}

/// `resp` is a fitting answer, drawn from the manager `m`, to a request for `count`:
/// valid stored addresses, no more than asked for or allowed; where every stored
/// address was a candidate, as many valid ones as that allows.
pub open spec fn fitting_answer(m: DiscoveryAddressManager, count: u32, resp: Seq<Addr>) -> bool {
    let local = m.discovery_local_address;
    let all = valid_in(local, m.peer_store@);
    &&& resp.len() <= answer_limit(count)
    &&& resp.no_duplicates()
    &&& forall|k: int| 0 <= k < resp.len() ==> m.peer_store@.contains(#[trigger] resp[k]) && valid_addr(local, resp[k])
    &&& m.peer_store@.len() <= CANDIDATE_LIMIT ==> resp.len() == min_nat(answer_limit(count), all.len())
    &&& m.peer_store@.len() <= CANDIDATE_LIMIT && all.len() <= answer_limit(count) ==> resp == all
}

/// `resp` answers with the candidates `cands` as they are when they fit in
/// `limit`, else with `limit` distinct ones of them.
pub open spec fn answer_from(cands: Seq<Addr>, limit: nat, resp: Seq<Addr>) -> bool {
    if cands.len() <= limit {
        resp == cands
    } else {
        &&& resp.len() == limit
        &&& resp.no_duplicates()
        &&& forall|k: int| 0 <= k < resp.len() ==> cands.contains(#[trigger] resp[k])
    }
}

/// `resp` answers a request for `count` from some draw of `CANDIDATE_LIMIT`
/// stored addresses of `m`, of which the valid ones are the candidates.
pub open spec fn answered_from(m: DiscoveryAddressManager, count: u32, resp: Seq<Addr>) -> bool {
    exists|picked: Seq<Addr>| drawn_from(m.peer_store@, CANDIDATE_LIMIT as nat, picked)
        && answer_from(valid_in(m.discovery_local_address, picked), answer_limit(count), resp)
}

/// `msg` answers a request with the addresses `resp`, one per item.
pub open spec fn answers_with(msg: DiscoveryMessage, resp: Seq<Addr>) -> bool {
    match msg.payload {
        Some(Payload::Nodes(n)) => !n.announce && one_addr_each(n.items@, resp),
        _ => false,
    }
}

/// The addresses a message carries when it answers a request.
pub open spec fn answer_addrs(msg: DiscoveryMessage) -> Seq<Addr> {
    match msg.payload {
        Some(Payload::Nodes(n)) => first_addrs(n.items@),
        _ => Seq::empty(),
    }
}

/// Everything but the sessions' states is as it was, and every session
/// but the one at `i` too.
pub open spec fn only_session_changed(old: DiscoveryProtocol, new: DiscoveryProtocol, i: int) -> bool {
    &&& new.sessions@.len() == old.sessions@.len()
    &&& new.announce_check_interval == old.announce_check_interval
    &&& new.addr_mgr.discovery_local_address == old.addr_mgr.discovery_local_address
    &&& new.addr_mgr.open_sessions == old.addr_mgr.open_sessions
    &&& new.addr_mgr.consensus_peers == old.addr_mgr.consensus_peers
    &&& new.addr_mgr.disconnect_on_misbehavior == old.addr_mgr.disconnect_on_misbehavior
    &&& forall|j: int| 0 <= j < old.sessions@.len() && j != i ==> new.sessions@[j] == old.sessions@[j]
}

/// The outcome of answering a request for addresses from session `id` with
/// the candidates `cands`.
pub open spec fn served_with(
    old: DiscoveryProtocol,
    new: DiscoveryProtocol,
    id: usize,
    g: GetNodes,
    cands: Seq<Addr>,
    r: Seq<Action>,
) -> bool {
    let i = session_index(old.sessions@, id);
    let st = old.sessions@[i];
    let nst = new.sessions@[i];
    &&& only_session_changed(old, new, i)
    &&& nst.id == id
    &&& nst.received_get_nodes
    &&& nst.received_nodes == st.received_nodes
    &&& nst.remote_addr == remote_after_get_nodes(st.remote_addr, g.listen_port, g.version)
    &&& nst.announce_multiaddrs == st.announce_multiaddrs
    &&& nst.last_announce == st.last_announce
    &&& nst.addr_known.max_known == st.addr_known.max_known
    &&& match g.listen_port {
        Some(p) => stored_after(old.addr_mgr.peer_store@, seq![st.remote_addr.port_updated(p).addr()],
            old.addr_mgr.discovery_local_address, new.addr_mgr.peer_store@),
        None => new.addr_mgr.peer_store == old.addr_mgr.peer_store,
    }
    &&& r.len() == 1
    &&& match r[0] {
        Action::Send { session, msg } => {
            &&& session == id
            &&& answers_with(msg, answer_addrs(msg))
            &&& answer_from(cands, answer_limit(g.count), answer_addrs(msg))
            &&& forall|k: int| 0 <= k < answer_addrs(msg).len() ==> nst.addr_known@.contains(#[trigger] answer_addrs(msg)[k])
        },
        _ => false,
    }
    &&& match g.listen_port {
        Some(p) => nst.addr_known@.contains(st.remote_addr.port_updated(p).addr()),
        None => true,
    }
}

/// The outcome of a request for addresses from session `id`.
pub open spec fn get_nodes_done(old: DiscoveryProtocol, new: DiscoveryProtocol, id: usize, g: GetNodes, r: Seq<Action>) -> bool {
    if !has_session(old.sessions@, id) {
        new == old && r.len() == 0
    } else {
        let i = session_index(old.sessions@, id);
        let st = old.sessions@[i];
        let nst = new.sessions@[i];
        if st.received_get_nodes && old.addr_mgr.disconnect_on_misbehavior {
            new == old && r == seq![Action::Disconnect { session: id }]
        } else {
            &&& only_session_changed(old, new, i)
            &&& nst.id == id
            &&& nst.received_get_nodes
            &&& nst.received_nodes == st.received_nodes
            &&& nst.remote_addr == remote_after_get_nodes(st.remote_addr, g.listen_port, g.version)
            &&& nst.announce_multiaddrs == st.announce_multiaddrs
            &&& nst.last_announce == st.last_announce
            &&& nst.addr_known.max_known == st.addr_known.max_known
            &&& match g.listen_port {
                Some(p) => stored_after(old.addr_mgr.peer_store@, seq![st.remote_addr.port_updated(p).addr()],
                    old.addr_mgr.discovery_local_address, new.addr_mgr.peer_store@),
                None => new.addr_mgr.peer_store == old.addr_mgr.peer_store,
            }
            &&& r.len() == 1
            &&& match r[0] {
                Action::Send { session, msg } => {
                    &&& session == id
                    &&& answers_with(msg, answer_addrs(msg))
                    &&& fitting_answer(old.addr_mgr, g.count, answer_addrs(msg))
                    &&& answered_from(old.addr_mgr, g.count, answer_addrs(msg))
                    &&& forall|k: int| 0 <= k < answer_addrs(msg).len() ==> nst.addr_known@.contains(#[trigger] answer_addrs(msg)[k])
                },
                _ => false,
            }
            &&& match g.listen_port {
                Some(p) => nst.addr_known@.contains(st.remote_addr.port_updated(p).addr()),
                None => true,
            }
        }
    }
}

/// The outcome of a batch of addresses from session `id`.
pub open spec fn nodes_done(old: DiscoveryProtocol, new: DiscoveryProtocol, id: usize, nodes: Nodes, r: Seq<Action>) -> bool {
    if nodes_verdict(nodes).is_some() && old.addr_mgr.disconnect_on_misbehavior {
        new == old && r == seq![Action::Disconnect { session: id }]
    } else if !has_session(old.sessions@, id) {
        new == old && r.len() == 0
    } else {
        let i = session_index(old.sessions@, id);
        let st = old.sessions@[i];
        let nst = new.sessions@[i];
        let flat = flat_addrs(nodes.items@);
        if !nodes.announce && st.received_nodes {
            &&& new == old
            &&& r == if old.addr_mgr.disconnect_on_misbehavior {
                seq![Action::Disconnect { session: id }]
            } else {
                Seq::empty()
            }
        } else {
            &&& r.len() == 0
            &&& only_session_changed(old, new, i)
            &&& nst.id == id
            &&& nst.received_get_nodes == st.received_get_nodes
            &&& nst.received_nodes == (st.received_nodes || !nodes.announce)
            &&& nst.remote_addr == st.remote_addr
            &&& nst.announce_multiaddrs == st.announce_multiaddrs
            &&& nst.last_announce == st.last_announce
            &&& nst.addr_known.max_known == st.addr_known.max_known
            &&& forall|a: Addr| #[trigger] nst.addr_known@.contains(a) ==> st.addr_known@.contains(a) || flat.contains(a)
            &&& flat.len() <= st.addr_known.max_known ==> forall|k: int| 0 <= k < flat.len()
                ==> nst.addr_known@.contains(#[trigger] flat[k])
            &&& st.addr_known@.len() + flat.len() <= st.addr_known.max_known ==>
                forall|a: Addr| st.addr_known@.contains(a) ==> #[trigger] nst.addr_known@.contains(a)
            &&& stored_after(old.addr_mgr.peer_store@, flat, old.addr_mgr.discovery_local_address, new.addr_mgr.peer_store@)
        }
    }
}

/// All addresses of all items, in order.
pub fn flatten_nodes(items: &Vec<Node>) -> (r: Vec<Addr>)
    ensures
        r@ == flat_addrs(items@),
{
    let mut r: Vec<Addr> = Vec::new();
    let mut i: usize = 0;
    while i < items.len()
        invariant
            0 <= i <= items@.len(),
            r@ == flat_addrs(items@.subrange(0, i as int)),
        decreases items@.len() - i,
    {
        let ghost pre = r@;
        let addrs = &items[i].addrs;
        let mut k: usize = 0;
        while k < addrs.len()
            invariant
                0 <= k <= addrs@.len(),
                r@ == pre + addrs@.subrange(0, k as int),
            decreases addrs@.len() - k,
        {
            r.push(addrs[k]);
            k = k + 1;
            proof {
                assert(r@ =~= pre + addrs@.subrange(0, k as int));
            }
        }
        proof {
            let sub = items@.subrange(0, i + 1);
            assert(sub.drop_last() == items@.subrange(0, i as int));
            assert(addrs@.subrange(0, addrs@.len() as int) == addrs@);
        }
        i = i + 1;
    }
    proof {
        assert(items@.subrange(0, items@.len() as int) == items@);
    }
    r
}

/// `a` sends the queued announcements of session `st` to it.
pub open spec fn sends_batch(a: Action, st: SessionState) -> bool {
    match a {
        Action::Send { session, msg } => session == st.id && st.announce_multiaddrs@.len() > 0
            && announces(Some(msg), st.announce_multiaddrs@),
        _ => false,
    }
}

/// `a` sends the queued announcements of one of the sessions `s`.
pub open spec fn sent_for_some(a: Action, s: Seq<SessionState>) -> bool {
    exists|j: int| 0 <= j < s.len() && sends_batch(a, s[j])
}

/// One of `r` sends the queued announcements of `st`.
pub open spec fn batch_sent(r: Seq<Action>, st: SessionState) -> bool {
    exists|k: int| 0 <= k < r.len() && sends_batch(r[k], st)
}

/// `r` sends each non-empty queue of `s` to its session, and nothing else.
pub open spec fn flushed(s: Seq<SessionState>, r: Seq<Action>) -> bool {
    &&& forall|k: int| 0 <= k < r.len() ==> sent_for_some(#[trigger] r[k], s)
    &&& forall|j: int| 0 <= j < s.len() && (#[trigger] s[j]).announce_multiaddrs@.len() > 0 ==> batch_sent(r, s[j])
}

/// `a` is the listen address of a session of `s` whose self-announcement is
/// due at `now`, and the manager `m` takes it for valid.
pub open spec fn self_announced(s: Seq<SessionState>, now: u64, m: DiscoveryAddressManager, a: Addr) -> bool {
    exists|i: int| 0 <= i < s.len() && announce_due(s[i].last_announce, now, ANNOUNCE_INTERVAL)
        && s[i].remote_addr == RemoteAddress::Listen(a) && valid_addr(m.discovery_local_address, a)
}

/// An address that a timer tick at `now` may gossip.
pub open spec fn gossip_candidate(s: Seq<SessionState>, now: u64, m: DiscoveryAddressManager, a: Addr) -> bool {
    self_announced(s, now, m, a) || (m.consensus_peers@.contains(a) && valid_addr(m.discovery_local_address, a))
}

/// The own address a session offers at a tick at `now`: its listen address,
/// when its self-announcement is due and the manager `m` takes it for valid.
pub open spec fn own_offer(st: SessionState, now: u64, m: DiscoveryAddressManager) -> Seq<Addr> {
    match st.remote_addr {
        RemoteAddress::Listen(a) => if announce_due(st.last_announce, now, ANNOUNCE_INTERVAL)
            && valid_addr(m.discovery_local_address, a) {
            seq![a]
        } else {
            Seq::empty()
        },
        RemoteAddress::Init(_) => Seq::empty(),
    }
}

/// The own addresses the sessions `s` offer at a tick, in session order.
pub open spec fn own_offers(s: Seq<SessionState>, now: u64, m: DiscoveryAddressManager) -> Seq<Addr>
    decreases s.len(),
{
    if s.len() == 0 {
        Seq::empty()
    } else {
        own_offers(s.drop_last(), now, m) + own_offer(s.last(), now, m)
    }
}

/// The addresses a tick at `now` gossips, in order: the sessions' own
/// offers, then the valid consensus peers.
pub open spec fn gossip_list(s: Seq<SessionState>, now: u64, m: DiscoveryAddressManager) -> Seq<Addr> {
    own_offers(s, now, m) + valid_in(m.discovery_local_address, m.consensus_peers@)
}

/// `p` holds `min(FANOUT, n)` distinct positions below `n`.
pub open spec fn fanout_picks(p: Seq<usize>, n: nat) -> bool {
    &&& p.len() == min_nat(FANOUT as nat, n)
    &&& forall|i: int| 0 <= i < p.len() ==> (#[trigger] p[i]) < n
    &&& forall|i: int, j: int| 0 <= i < j < p.len() ==> p[i] != p[j]
}

/// Session `b` is session `a` with its queue sent and its timer checked at
/// `now`; its known-cache is untouched.
pub open spec fn flushed_and_ticked(a: SessionState, b: SessionState, now: u64) -> bool {
    &&& ticked(a, b, now)
    &&& b.announce_multiaddrs@.len() == 0
    &&& b.addr_known == a.addr_known
}

/// The gossip of one tick: from `old`, every session flushed and ticked
/// (`steps[0]`), then each address of `list` offered in turn to the sessions
/// at `picks[k]`, ending in `new`.
pub open spec fn gossip_run(
    old: Seq<SessionState>,
    new: Seq<SessionState>,
    now: u64,
    list: Seq<Addr>,
    steps: Seq<Seq<SessionState>>,
    picks: Seq<Seq<usize>>,
) -> bool {
    &&& steps.len() == list.len() + 1
    &&& picks.len() == list.len()
    &&& steps[0].len() == old.len()
    &&& forall|j: int| 0 <= j < old.len() ==> flushed_and_ticked(#[trigger] old[j], steps[0][j], now)
    &&& steps.last() == new
    &&& forall|m: int| 0 <= m < steps.len() ==> sessions_wf(#[trigger] steps[m])
    &&& forall|k: int| 0 <= k < list.len() ==> fanout_picks(#[trigger] picks[k], old.len())
        && fanned_out(steps[k], steps[k + 1], list[k], picks[k])
}

/// Session `b` is session `a` after a timer tick at `now`, but for gossip.
pub open spec fn ticked(a: SessionState, b: SessionState, now: u64) -> bool {
    &&& b.id == a.id
    &&& b.received_get_nodes == a.received_get_nodes
    &&& b.received_nodes == a.received_nodes
    &&& b.remote_addr == a.remote_addr
    &&& b.addr_known.max_known == a.addr_known.max_known
    &&& b.last_announce == if announce_due(a.last_announce, now, ANNOUNCE_INTERVAL) {
        Some(now)
    } else {
        a.last_announce
    }
}

/// The single action of closing session `id`.
fn disconnect(id: usize) -> (r: Vec<Action>)
    ensures
        r@ == seq![Action::Disconnect { session: id }],
{
    let r = vec![Action::Disconnect { session: id }];
    proof {
        assert(r@ =~= seq![Action::Disconnect { session: id }]);
    }
    r
}

/// The entries of `v` at the positions `idx`.
fn pick(v: &Vec<Addr>, idx: &Vec<usize>) -> (r: Vec<Addr>)
    requires
        forall|k: int| 0 <= k < idx@.len() ==> #[trigger] idx@[k] < v@.len(),
    ensures
        r@.len() == idx@.len(),
        forall|k: int| 0 <= k < idx@.len() ==> r@[k] == v@[#[trigger] idx@[k] as int],
{
    let mut r: Vec<Addr> = Vec::new();
    let mut i: usize = 0;
    while i < idx.len()
        invariant
            0 <= i <= idx@.len(),
            forall|k: int| 0 <= k < idx@.len() ==> #[trigger] idx@[k] < v@.len(),
            r@.len() == i,
            forall|k: int| 0 <= k < i ==> r@[k] == v@[#[trigger] idx@[k] as int],
        decreases idx@.len() - i,
    {
        r.push(v[idx[i]]);
        i = i + 1;
    }
    r
}

/// An address that no session knows and every queue has room for reaches
/// exactly the picked sessions: `min(FANOUT, n)` of them when the picks come
/// from a tick, each queueing it once, and no other session.
pub proof fn lemma_fresh_address_fanout(old: Seq<SessionState>, new: Seq<SessionState>, addr: Addr, picks: Seq<usize>)
    requires
        fanned_out(old, new, addr, picks),
        fanout_picks(picks, old.len()),
        forall|j: int| 0 <= j < old.len() ==> takes(#[trigger] old[j], addr),
    ensures
        Set::new(|j: int| 0 <= j < old.len() && new[j].announce_multiaddrs@ != old[j].announce_multiaddrs@).len()
            == min_nat(FANOUT as nat, old.len()),
        forall|j: int| 0 <= j < old.len() && picked(picks, j)
            ==> (#[trigger] new[j]).announce_multiaddrs@ == old[j].announce_multiaddrs@.push(addr),
        forall|j: int| 0 <= j < old.len() && !picked(picks, j)
            ==> (#[trigger] new[j]).announce_multiaddrs@ == old[j].announce_multiaddrs@,
{
    let changed = Set::new(|j: int| 0 <= j < old.len() && new[j].announce_multiaddrs@ != old[j].announce_multiaddrs@);
    let m = picks.map_values(|p: usize| p as int);
    assert forall|j: int| 0 <= j < old.len() implies offered_to(#[trigger] old[j], new[j], addr, picked(picks, j)) by {}
    assert forall|j: int| changed.contains(j) <==> m.to_set().contains(j) by {
        if changed.contains(j) {
            assert(offered_to(old[j], new[j], addr, picked(picks, j)));
            let k = choose|k: int| 0 <= k < picks.len() && picks[k] as int == j;
            assert(m[k] == j);
        }
        if m.to_set().contains(j) {
            let k = choose|k: int| 0 <= k < m.len() && m[k] == j;
            assert(picks[k] < old.len());
            assert(picked(picks, j));
            assert(offered_to(old[j], new[j], addr, true));
            assert(new[j].announce_multiaddrs@.len() == old[j].announce_multiaddrs@.len() + 1);
        }
    }
    assert(changed =~= m.to_set());
    assert(m.no_duplicates()) by {
        assert forall|a: int, b: int| 0 <= a < m.len() && 0 <= b < m.len() && a != b implies m[a] != m[b] by {
            if a < b {
                assert(picks[a] != picks[b]);
            } else {
                assert(picks[b] != picks[a]);
            }
        }
    }
    m.unique_seq_to_set();
}

proof fn lemma_run_queues(
    old: Seq<SessionState>,
    new: Seq<SessionState>,
    now: u64,
    list: Seq<Addr>,
    steps: Seq<Seq<SessionState>>,
    picks: Seq<Seq<usize>>,
    a: Addr,
    k: int,
    m: int,
)
    requires
        gossip_run(old, new, now, list, steps, picks),
        0 <= k < list.len(),
        list[k] == a,
        forall|i: int| 0 <= i < list.len() && i != k ==> list[i] != a,
        0 <= m <= list.len(),
    ensures
        steps[m].len() == old.len(),
        forall|j: int| 0 <= j < old.len() && #[trigger] steps[m][j].announce_multiaddrs@.contains(a)
            ==> picked(picks[k], j),
    decreases m,
{
    if m == 0 {
        assert forall|j: int| 0 <= j < old.len() && #[trigger] steps[m][j].announce_multiaddrs@.contains(a)
            implies picked(picks[k], j) by {
            assert(flushed_and_ticked(old[j], steps[0][j], now));
        }
    } else {
        lemma_run_queues(old, new, now, list, steps, picks, a, k, m - 1);
        assert(fanout_picks(picks[m - 1], old.len()) && fanned_out(steps[m - 1], steps[m], list[m - 1], picks[m - 1]));
        assert forall|j: int| 0 <= j < old.len() && #[trigger] steps[m][j].announce_multiaddrs@.contains(a)
            implies picked(picks[k], j) by {
            let prev = steps[m - 1][j];
            assert(offered_to(prev, steps[m][j], list[m - 1], picked(picks[m - 1], j)));
            if !prev.announce_multiaddrs@.contains(a) {
                let q = steps[m][j].announce_multiaddrs@;
                let w = choose|w: int| 0 <= w < q.len() && q[w] == a;
                if q == prev.announce_multiaddrs@.push(list[m - 1]) && w < prev.announce_multiaddrs@.len() {
                    assert(prev.announce_multiaddrs@[w] == a);
                }
                assert(m - 1 == k);
            }
        }
    }
}

proof fn lemma_run_keeps_known(
    old: Seq<SessionState>,
    new: Seq<SessionState>,
    now: u64,
    list: Seq<Addr>,
    steps: Seq<Seq<SessionState>>,
    picks: Seq<Seq<usize>>,
    j: int,
    a: Addr,
    d: int,
    m: int,
)
    requires
        gossip_run(old, new, now, list, steps, picks),
        0 <= j < old.len(),
        0 < d <= DEFAULT_MAX_KNOWN - ANNOUNCE_THRESHOLD,
        near(old[j].addr_known@, a, d),
        0 <= m <= list.len(),
    ensures
        steps[m].len() == old.len(),
        near(steps[m][j].addr_known@, a, d + steps[m][j].announce_multiaddrs@.len()),
        !steps[m][j].announce_multiaddrs@.contains(a),
    decreases m,
{
    if m == 0 {
        assert(flushed_and_ticked(old[j], steps[0][j], now));
    } else {
        lemma_run_keeps_known(old, new, now, list, steps, picks, j, a, d, m - 1);
        assert(fanned_out(steps[m - 1], steps[m], list[m - 1], picks[m - 1]));
        let prev = steps[m - 1][j];
        let cur = steps[m][j];
        let x = list[m - 1];
        assert(sessions_wf(steps[m - 1]));
        assert(prev.wf());
        assert(offered_to(prev, cur, x, picked(picks[m - 1], j)));
        if picked(picks[m - 1], j) && takes(prev, x) {
            let k = prev.addr_known@;
            let dq = d + prev.announce_multiaddrs@.len();
            let p = choose|p: int| 0 <= p < k.len() && k[p] == a && k.len() - p <= dq;
            assert(k.contains(a));
            assert(x != a);
            lemma_insert(k, prev.addr_known.max_known as nat, x);
            assert(near(cur.addr_known@, k[p], k.len() - p + 1));
            assert(!cur.announce_multiaddrs@.contains(a)) by {
                if cur.announce_multiaddrs@.contains(a) {
                    let w = choose|w: int| 0 <= w < cur.announce_multiaddrs@.len() && cur.announce_multiaddrs@[w] == a;
                    if w < prev.announce_multiaddrs@.len() {
                        assert(prev.announce_multiaddrs@[w] == a);
                    }
                }
            }
        }
    }
}

/// Over a tick, a session that knows an address among its most recent
/// `DEFAULT_MAX_KNOWN - ANNOUNCE_THRESHOLD` entries never queues it: at most
/// `ANNOUNCE_THRESHOLD` addresses enter its cache during the tick, so it is
/// still known whenever it is offered.
pub proof fn lemma_gossip_run_skips_known(
    old: Seq<SessionState>,
    new: Seq<SessionState>,
    now: u64,
    list: Seq<Addr>,
    steps: Seq<Seq<SessionState>>,
    picks: Seq<Seq<usize>>,
    j: int,
    a: Addr,
)
    requires
        gossip_run(old, new, now, list, steps, picks),
        0 <= j < old.len(),
        near(old[j].addr_known@, a, DEFAULT_MAX_KNOWN - ANNOUNCE_THRESHOLD),
    ensures
        !new[j].announce_multiaddrs@.contains(a),
        new[j].addr_known@.contains(a),
{
    lemma_run_keeps_known(old, new, now, list, steps, picks, j, a, DEFAULT_MAX_KNOWN - ANNOUNCE_THRESHOLD,
        list.len() as int);
    assert(steps[list.len() as int] == new);
}

/// Over a whole tick, an address that appears once among the tick's gossip
/// ends up queued in at most `FANOUT` sessions: only those picked for it.
pub proof fn lemma_gossip_run_bounded(
    old: Seq<SessionState>,
    new: Seq<SessionState>,
    now: u64,
    list: Seq<Addr>,
    steps: Seq<Seq<SessionState>>,
    picks: Seq<Seq<usize>>,
    k: int,
)
    requires
        gossip_run(old, new, now, list, steps, picks),
        0 <= k < list.len(),
        forall|i: int| 0 <= i < list.len() && i != k ==> list[i] != list[k],
    ensures
        forall|j: int| 0 <= j < new.len() && #[trigger] new[j].announce_multiaddrs@.contains(list[k])
            ==> picked(picks[k], j),
        Set::new(|j: int| 0 <= j < new.len() && new[j].announce_multiaddrs@.contains(list[k])).len() <= FANOUT,
{
    let a = list[k];
    lemma_run_queues(old, new, now, list, steps, picks, a, k, list.len() as int);
    assert(steps[list.len() as int] == new);
    let holding = Set::new(|j: int| 0 <= j < new.len() && new[j].announce_multiaddrs@.contains(a));
    let m = picks[k].map_values(|p: usize| p as int);
    assert forall|j: int| holding.contains(j) implies m.to_set().contains(j) by {
        let q = choose|q: int| 0 <= q < picks[k].len() && picks[k][q] as int == j;
        assert(m[q] == j);
    }
    m.lemma_cardinality_of_set();
    vstd::set_lib::lemma_len_subset(holding, m.to_set());
    assert(fanout_picks(picks[k], old.len()));
}

/// A session's queue holds no address twice, and each queued address is
/// among the most recent entries of its known-cache, closer the later it was
/// queued.
pub open spec fn queue_known(st: SessionState) -> bool {
    let q = st.announce_multiaddrs@;
    &&& q.no_duplicates()
    &&& forall|m: int| 0 <= m < q.len() ==> near(st.addr_known@, #[trigger] q[m], q.len() - m)
}

/// Offering an address keeps a session's queue free of repeats and known.
proof fn lemma_offer_keeps_queue_known(a: SessionState, b: SessionState, addr: Addr, offered: bool)
    requires
        a.wf(),
        queue_known(a),
        offered_to(a, b, addr, offered),
    ensures
        queue_known(b),
{
    if offered && takes(a, addr) {
        let q = a.announce_multiaddrs@;
        let k = a.addr_known@;
        lemma_insert(k, a.addr_known.max_known as nat, addr);
        let q2 = b.announce_multiaddrs@;
        assert(!q.contains(addr)) by {
            if q.contains(addr) {
                let m = choose|m: int| 0 <= m < q.len() && q[m] == addr;
                assert(near(k, q[m], q.len() - m));
            }
        }
        assert forall|m: int| 0 <= m < q2.len() implies near(b.addr_known@, #[trigger] q2[m], q2.len() - m) by {
            if m < q.len() {
                assert(q2[m] == q[m]);
                assert(near(k, q[m], q.len() - m));
                let p = choose|p: int| 0 <= p < k.len() && k[p] == q[m] && k.len() - p <= q.len() - m;
                assert(near(b.addr_known@, k[p], k.len() - p + 1));
            } else {
                assert(q2[m] == addr);
            }
        }
        assert forall|x: int, y: int| 0 <= x < q2.len() && 0 <= y < q2.len() && x != y implies q2[x] != q2[y] by {
            if x == q.len() {
                assert(q.contains(q2[y]));
            } else if y == q.len() {
                assert(q.contains(q2[x]));
            } else {
                assert(q2[x] == q[x] && q2[y] == q[y]);
            }
        }
    }
}

/// In a tick's gossip, offering the `k`-th address changes the queues of at
/// most `FANOUT` sessions, and leaves alone every session that already knows
/// that address.
pub proof fn lemma_gossip_step_bounded(
    old: Seq<SessionState>,
    new: Seq<SessionState>,
    now: u64,
    list: Seq<Addr>,
    steps: Seq<Seq<SessionState>>,
    picks: Seq<Seq<usize>>,
    k: int,
)
    requires
        gossip_run(old, new, now, list, steps, picks),
        0 <= k < list.len(),
    ensures
        Set::new(|j: int| 0 <= j < steps[k].len() && steps[k + 1][j].announce_multiaddrs@ != steps[k][j].announce_multiaddrs@).len() <= FANOUT,
        forall|j: int| 0 <= j < steps[k].len() && (#[trigger] steps[k][j]).addr_known@.contains(list[k]) ==> {
            &&& steps[k + 1][j].announce_multiaddrs@ == steps[k][j].announce_multiaddrs@
            &&& steps[k + 1][j].addr_known@ == steps[k][j].addr_known@
        },
{
    assert(fanout_picks(picks[k], old.len()));
    lemma_fanout_bounded(steps[k], steps[k + 1], list[k], picks[k]);
}

impl DiscoveryProtocol {
    pub open spec fn wf(&self) -> bool {
        &&& sessions_wf(self.sessions@)
        &&& self.addr_mgr.wf()
    }

    pub fn new(addr_mgr: DiscoveryAddressManager, announce_check_interval: Option<u64>) -> (r: DiscoveryProtocol)
        requires
            addr_mgr.wf(),
        ensures
            r.wf(),
            r.sessions@.len() == 0,
            r.addr_mgr == addr_mgr,
            r.announce_check_interval == announce_check_interval,
    {
        DiscoveryProtocol { sessions: Vec::new(), announce_check_interval, addr_mgr }
    }

    /// Seconds between timer notifications.
    pub fn check_interval(&self) -> (r: u64)
        ensures
            r == match self.announce_check_interval {
                Some(t) => t,
                None => ANNOUNCE_CHECK_INTERVAL,
            },
    {
        match self.announce_check_interval {
            Some(t) => t,
            None => ANNOUNCE_CHECK_INTERVAL,
        }
    }

    /// The position of the session with identifier `id`.
    pub fn find(&self, id: usize) -> (r: Option<usize>)
        ensures
            match r {
                Some(i) => i < self.sessions@.len() && self.sessions@[i as int].id == id,
                None => forall|i: int| 0 <= i < self.sessions@.len() ==> self.sessions@[i].id != id,
            },
    {
        let mut i: usize = 0;
        while i < self.sessions.len()
            invariant
                0 <= i <= self.sessions@.len(),
                forall|k: int| 0 <= k < i ==> self.sessions@[k].id != id,
            decreases self.sessions@.len() - i,
        {
            if self.sessions[i].id == id {
                return Some(i);
            }
            i = i + 1;
        }
        None
    }

    /// Offers `addr` to the sessions at `picks`: each picked session with room
    /// in its queue that does not know `addr` yet queues it and marks it known.
    pub fn fanout(&mut self, addr: Addr, picks: &Vec<usize>)
        requires
            old(self).wf(),
        ensures
            final(self).wf(),
            final(self).announce_check_interval == old(self).announce_check_interval,
            final(self).addr_mgr == old(self).addr_mgr,
            fanned_out(old(self).sessions@, final(self).sessions@, addr, picks@),
    {
        let ghost start = self.sessions@;
        let mut k: usize = 0;
        while k < picks.len()
            invariant
                0 <= k <= picks@.len(),
                self.wf(),
                start == old(self).sessions@,
                sessions_wf(start),
                self.announce_check_interval == old(self).announce_check_interval,
                self.addr_mgr == old(self).addr_mgr,
                fanned_out(start, self.sessions@, addr, picks@.subrange(0, k as int)),
            decreases picks@.len() - k,
        {
            let p = picks[k];
            let ghost before = self.sessions@;
            let ghost sub = picks@.subrange(0, k as int);
            let ghost sub1 = picks@.subrange(0, k + 1);
            proof {
                assert(sub1 == sub.push(p));
                assert(sub1[k as int] == p);
                assert forall|j: int| 0 <= j < start.len() && j != p as int implies (#[trigger] picked(sub1, j) <==> picked(sub, j)) by {
                    if picked(sub1, j) {
                        let q = choose|q: int| 0 <= q < sub1.len() && sub1[q] as int == j;
                        assert(q < sub.len());
                        assert(sub[q] as int == j);
                    }
                    if picked(sub, j) {
                        let q = choose|q: int| 0 <= q < sub.len() && sub[q] as int == j;
                        assert(sub1[q] as int == j);
                    }
                }
            }
            if p < self.sessions.len() {
                let st = &mut self.sessions[p];
                if st.announce_multiaddrs.len() < ANNOUNCE_THRESHOLD && !st.addr_known.contains(&addr) {
                    st.announce_multiaddrs.push(addr);
                    st.addr_known.insert(&addr);
                }
                proof {
                    let j = p as int;
                    assert(sub1[k as int] as int == j);
                    assert(picked(sub1, j));
                    if picked(sub, j) {
                        assert(offered_to(start[j], before[j], addr, true));
                        assert(start[j].wf());
                        crate::known::lemma_insert_contains(start[j].addr_known@, start[j].addr_known.max_known as nat, addr);
                        assert(before[j].addr_known@.contains(addr) || !takes(start[j], addr));
                    }
                    assert(offered_to(start[j], self.sessions@[j], addr, true));
                }
            }
            proof {
                assert forall|j: int| 0 <= j < start.len() implies offered_to(#[trigger] start[j], self.sessions@[j], addr, picked(sub1, j)) by {
                    if j != p as int {
                        assert(offered_to(start[j], before[j], addr, picked(sub, j)));
                    } else if p >= before.len() {
                        assert(false);
                    }
                }
                assert(ids_unique(self.sessions@));
            }
            k = k + 1;
        }
        proof {
            assert(picks@.subrange(0, picks@.len() as int) == picks@);
        }
    }

    /// A session opened: discovery is marked open for it and it starts afresh.
    /// On a session this side dialed, the peer is asked for addresses, with the
    /// port this side listens on, if any.
    pub fn connected(&mut self, id: usize, addr: Addr, outbound: bool, listen_port: Option<u16>) -> (r: Vec<Action>)
        requires
            old(self).wf(),
        ensures
            final(self).wf(),
            outbound ==> r@ == seq![Action::Send { session: id, msg: get_nodes_request(listen_port) }],
            !outbound ==> r@.len() == 0,
            final(self).announce_check_interval == old(self).announce_check_interval,
            final(self).addr_mgr.peer_store == old(self).addr_mgr.peer_store,
            final(self).addr_mgr.consensus_peers == old(self).addr_mgr.consensus_peers,
            final(self).addr_mgr.open_sessions@.contains(id),
            has_session(old(self).sessions@, id) ==> final(self).sessions@.len() == old(self).sessions@.len(),
            !has_session(old(self).sessions@, id) ==> final(self).sessions@.len() == old(self).sessions@.len() + 1,
            forall|j: int| 0 <= j < old(self).sessions@.len() && old(self).sessions@[j].id != id
                ==> final(self).sessions@[j] == old(self).sessions@[j],
            has_session(final(self).sessions@, id),
            forall|j: int| 0 <= j < final(self).sessions@.len() && final(self).sessions@[j].id == id
                ==> fresh(#[trigger] final(self).sessions@[j], id, addr),
    {
        self.addr_mgr.register(id);
        proof {
            if !old(self).addr_mgr.open_sessions@.contains(id) {
                let s = old(self).addr_mgr.open_sessions@;
                assert(s.push(id)[s.len() as int] == id);
            }
        }
        let st = SessionState::new(id, addr);
        match self.find(id) {
            Some(i) => {
                self.sessions[i] = st;
                proof {
                    assert(self.sessions@[i as int].id == id);
                }
            },
            None => {
                self.sessions.push(st);
                proof {
                    assert(self.sessions@[self.sessions@.len() - 1].id == id);
                }
            },
        }
        if outbound {
            let msg = DiscoveryMessage {
                payload: Some(Payload::GetNodes(GetNodes { listen_port, count: MAX_ADDR_TO_SEND as u32, version: 0 })),
            };
            let r = vec![Action::Send { session: id, msg }];
            proof {
                assert(r@ =~= seq![Action::Send { session: id, msg: get_nodes_request(listen_port) }]);
            }
            r
        } else {
            Vec::new()
        }
    }

    /// A session closed: its state is dropped and discovery is marked closed.
    pub fn disconnected(&mut self, id: usize)
        requires
            old(self).wf(),
        ensures
            final(self).wf(),
            final(self).announce_check_interval == old(self).announce_check_interval,
            final(self).addr_mgr.peer_store == old(self).addr_mgr.peer_store,
            final(self).addr_mgr.consensus_peers == old(self).addr_mgr.consensus_peers,
            final(self).addr_mgr.open_sessions@ == old(self).addr_mgr.open_sessions@.filter(|s: usize| s != id),
            !has_session(old(self).sessions@, id) ==> final(self).sessions@ == old(self).sessions@,
            has_session(old(self).sessions@, id) ==> final(self).sessions@
                == old(self).sessions@.remove(session_index(old(self).sessions@, id)),
            !has_session(final(self).sessions@, id),
    {
        match self.find(id) {
            Some(i) => {
                self.sessions.remove(i);
                proof {
                    let s = old(self).sessions@;
                    assert(s[session_index(s, id)].id == id);
                    assert(session_index(s, id) == i as int);
                    assert forall|a: int, b: int| 0 <= a < self.sessions@.len() && 0 <= b < self.sessions@.len() && a != b
                        implies self.sessions@[a].id != self.sessions@[b].id by {
                        let a2 = if a < i { a } else { a + 1 };
                        let b2 = if b < i { b } else { b + 1 };
                        assert(self.sessions@[a] == s[a2]);
                        assert(self.sessions@[b] == s[b2]);
                    }
                    assert forall|k: int| 0 <= k < self.sessions@.len() implies (#[trigger] self.sessions@[k]).wf() by {
                        let k2 = if k < i { k } else { k + 1 };
                        assert(self.sessions@[k] == s[k2]);
                    }
                    if has_session(self.sessions@, id) {
                        let k = choose|k: int| 0 <= k < self.sessions@.len() && self.sessions@[k].id == id;
                        let k2 = if k < i { k } else { k + 1 };
                        assert(self.sessions@[k] == s[k2]);
                    }
                }
            },
            None => {},
        }
        self.addr_mgr.unregister(id);
    }

    /// Handles a request for addresses from session `id`.
    pub fn on_get_nodes(&mut self, id: usize, g: GetNodes) -> (r: Vec<Action>)
        requires
            old(self).wf(),
        ensures
            final(self).wf(),
            get_nodes_done(*old(self), *final(self), id, g, r@),
    {
        let i = match self.find(id) {
            Some(i) => i,
            None => {
                return Vec::new();
            },
        };
        proof {
            assert(self.sessions@[session_index(self.sessions@, id)].id == id);
        }
        if self.sessions[i].received_get_nodes {
            if self.addr_mgr.misbehave(id, Misbehavior::DuplicateGetNodes).is_disconnect() {
                return disconnect(id);
            }
        }
        // Fetched before the peer's own address can be stored, so that it is
        // not handed straight back.
        let candidates = self.addr_mgr.get_random(CANDIDATE_LIMIT);
        let ghost drawn = choose|picked: Seq<Addr>| drawn_from(self.addr_mgr.peer_store@, CANDIDATE_LIMIT as nat, picked)
            && candidates@ == valid_in(self.addr_mgr.discovery_local_address, picked);
        let r = self.answer_get_nodes(id, g, candidates);
        proof {
            let o = *old(self);
            let m = o.addr_mgr;
            let local = m.discovery_local_address;
            match r@[0] {
                Action::Send { session, msg } => {
                    let resp = answer_addrs(msg);
                    assert(answer_from(candidates@, answer_limit(g.count), resp));
                    assert forall|k: int| 0 <= k < resp.len() implies m.peer_store@.contains(#[trigger] resp[k])
                        && valid_addr(local, resp[k]) by {
                        if candidates@.len() <= answer_limit(g.count) {
                            assert(candidates@.contains(candidates@[k]));
                        } else {
                            assert(candidates@.contains(resp[k]));
                        }
                    }
                    if m.peer_store@.len() <= CANDIDATE_LIMIT {
                        assert(candidates@ == valid_in(local, m.peer_store@));
                    }
                    assert(answered_from(m, g.count, resp));
                    assert(fitting_answer(m, g.count, resp));
                },
                _ => {},
            }
        }
        r
    }

    /// Answers a request for addresses from session `id` with the candidate
    /// addresses `candidates`: at most `min(count, MAX_ADDR_TO_SEND)` of them,
    /// all when they fit, else as many distinct ones drawn at random.
    pub fn answer_get_nodes(&mut self, id: usize, g: GetNodes, candidates: Vec<Addr>) -> (r: Vec<Action>)
        requires
            old(self).wf(),
            has_session(old(self).sessions@, id),
            candidates@.no_duplicates(),
        ensures
            final(self).wf(),
            served_with(*old(self), *final(self), id, g, candidates@, r@),
    {
        let i = match self.find(id) {
            Some(i) => i,
            None => {
                proof {
                    let k = choose|k: int| 0 <= k < self.sessions@.len() && self.sessions@[k].id == id;
                    assert(self.sessions@[k].id == id);
                }
                return Vec::new();
            },
        };
        proof {
            assert(self.sessions@[session_index(self.sessions@, id)].id == id);
        }
        let max: usize = if (g.count as usize) < MAX_ADDR_TO_SEND { g.count as usize } else { MAX_ADDR_TO_SEND };
        let items = if candidates.len() > max {
            let idx = sample_indices(candidates.len(), max);
            let p = pick(&candidates, &idx);
            proof {
                assert forall|x: int| 0 <= x < p@.len() implies candidates@.contains(#[trigger] p@[x]) by {
                    assert(p@[x] == candidates@[idx@[x] as int]);
                }
                assert(max as nat == answer_limit(g.count));
                assert forall|x: int, y: int| 0 <= x < p@.len() && 0 <= y < p@.len() && x != y implies p@[x] != p@[y] by {
                    assert(p@[x] == candidates@[idx@[x] as int]);
                    assert(p@[y] == candidates@[idx@[y] as int]);
                }
            }
            p
        } else {
            candidates
        };
        let ghost st0 = self.sessions@[i as int];
        let mut listen: Option<Addr> = None;
        let st = &mut self.sessions[i];
        st.received_get_nodes = true;
        if let Some(port) = g.listen_port {
            st.remote_addr.update_port(port);
            let ra = st.remote_addr.to_inner();
            proof {
                crate::known::lemma_insert(st.addr_known@, st.addr_known.max_known as nat, ra);
            }
            st.addr_known.insert(&ra);
            if let RemoteAddress::Listen(a) = st.remote_addr {
                listen = Some(a);
            }
        }
        if g.version >= REUSE_PORT_VERSION {
            st.remote_addr.change_to_listen();
        }
        let ghost known_mid = st.addr_known@;
        proof {
            if let Some(port) = g.listen_port {
                let ra = st0.remote_addr.port_updated(port).addr();
                assert(crate::known::near(known_mid, ra, 1));
            }
        }
        st.addr_known.extend(&items);
        proof {
            if let Some(port) = g.listen_port {
                let ra = st0.remote_addr.port_updated(port).addr();
                let q = choose|q: int| 0 <= q < known_mid.len() && known_mid[q] == ra && known_mid.len() - q <= 1;
                assert(st.addr_known@.contains(known_mid[q]));
            }
            assert(known_mid.len() <= st0.addr_known@.len() + 1);
            assert(answer_from(candidates@, answer_limit(g.count), items@));
        }
        if let Some(a) = listen {
            self.addr_mgr.add_new_addr(id, a);
        }
        let nodes = nodes_of(&items);
        proof {
            assert(first_addrs(nodes@) =~= items@);
            assert(ids_unique(self.sessions@));
        }
        let msg = DiscoveryMessage { payload: Some(Payload::Nodes(Nodes { announce: false, items: nodes })) };
        vec![Action::Send { session: id, msg }]
    }

    /// Handles a batch of addresses from session `id`.
    pub fn on_nodes(&mut self, id: usize, nodes: Nodes) -> (r: Vec<Action>)
        requires
            old(self).wf(),
        ensures
            final(self).wf(),
            nodes_done(*old(self), *final(self), id, nodes, r@),
    {
        if let Some(m) = verify_nodes_message(&nodes) {
            if self.addr_mgr.misbehave(id, m).is_disconnect() {
                return disconnect(id);
            }
        }
        let i = match self.find(id) {
            Some(i) => i,
            None => {
                return Vec::new();
            },
        };
        proof {
            assert(self.sessions@[session_index(self.sessions@, id)].id == id);
        }
        if !nodes.announce && self.sessions[i].received_nodes {
            if self.addr_mgr.misbehave(id, Misbehavior::DuplicateFirstNodes).is_disconnect() {
                return disconnect(id);
            }
            return Vec::new();
        }
        let addrs = flatten_nodes(&nodes.items);
        let st = &mut self.sessions[i];
        st.addr_known.extend(&addrs);
        // A non-announce batch is the peer's answer and comes once; announce
        // batches may arrive before it.
        if !nodes.announce {
            st.received_nodes = true;
        }
        self.addr_mgr.add_new_addrs(id, addrs);
        proof {
            assert(ids_unique(self.sessions@));
        }
        Vec::new()
    }

    /// Handles data from session `id`: `None` when it did not decode.
    pub fn received(&mut self, id: usize, msg: Option<DiscoveryMessage>) -> (r: Vec<Action>)
        requires
            old(self).wf(),
        ensures
            final(self).wf(),
            match msg {
                None => *final(self) == *old(self) && r@ == if old(self).addr_mgr.disconnect_on_misbehavior {
                    seq![Action::Disconnect { session: id }]
                } else {
                    Seq::empty()
                },
                Some(DiscoveryMessage { payload: None }) => *final(self) == *old(self) && r@.len() == 0,
                Some(DiscoveryMessage { payload: Some(Payload::GetNodes(g)) }) => get_nodes_done(*old(self), *final(self), id, g, r@),
                Some(DiscoveryMessage { payload: Some(Payload::Nodes(n)) }) => nodes_done(*old(self), *final(self), id, n, r@),
            },
    {
        match msg {
            None => {
                if self.addr_mgr.misbehave(id, Misbehavior::InvalidData).is_disconnect() {
                    return disconnect(id);
                }
                Vec::new()
            },
            Some(DiscoveryMessage { payload: None }) => Vec::new(),
            Some(DiscoveryMessage { payload: Some(Payload::GetNodes(g)) }) => self.on_get_nodes(id, g),
            Some(DiscoveryMessage { payload: Some(Payload::Nodes(n)) }) => self.on_nodes(id, n),
        }
    }

    /// The timer fired at `now` (in seconds): each session's queued
    /// announcements go out, then the peers' own addresses that are due and
    /// valid, and the consensus peers' addresses, are each offered to up to
    /// `FANOUT` sessions drawn at random.
    pub fn notify(&mut self, now: u64) -> (r: Vec<Action>)
        requires
            old(self).wf(),
        ensures
            final(self).wf(),
            final(self).announce_check_interval == old(self).announce_check_interval,
            final(self).addr_mgr == old(self).addr_mgr,
            final(self).sessions@.len() == old(self).sessions@.len(),
            forall|j: int| 0 <= j < old(self).sessions@.len()
                ==> ticked(#[trigger] old(self).sessions@[j], final(self).sessions@[j], now),
            flushed(old(self).sessions@, r@),
            forall|j: int, a: Addr| 0 <= j < final(self).sessions@.len()
                && #[trigger] final(self).sessions@[j].announce_multiaddrs@.contains(a)
                ==> gossip_candidate(old(self).sessions@, now, old(self).addr_mgr, a),
            forall|j: int| 0 <= j < final(self).sessions@.len() ==> queue_known(#[trigger] final(self).sessions@[j]),
            forall|j: int, a: Addr| 0 <= j < final(self).sessions@.len()
                && #[trigger] final(self).sessions@[j].announce_multiaddrs@.contains(a)
                ==> final(self).sessions@[j].addr_known@.contains(a),
            exists|steps: Seq<Seq<SessionState>>, picks: Seq<Seq<usize>>| gossip_run(old(self).sessions@,
                final(self).sessions@, now, gossip_list(old(self).sessions@, now, old(self).addr_mgr), steps, picks),
    {
        let ghost start = self.sessions@;
        let mut actions: Vec<Action> = Vec::new();
        let mut announce_list: Vec<Addr> = Vec::new();
        let mut i: usize = 0;
        while i < self.sessions.len()
            invariant
                0 <= i <= self.sessions@.len(),
                self.wf(),
                start == old(self).sessions@,
                self.sessions@.len() == start.len(),
                self.announce_check_interval == old(self).announce_check_interval,
                self.addr_mgr == old(self).addr_mgr,
                forall|j: int| 0 <= j < i ==> ticked(#[trigger] start[j], self.sessions@[j], now),
                forall|j: int| i <= j < start.len() ==> self.sessions@[j] == start[j],
                forall|j: int| 0 <= j < i ==> flushed_and_ticked(#[trigger] start[j], self.sessions@[j], now),
                announce_list@ == own_offers(start.subrange(0, i as int), now, old(self).addr_mgr),
                forall|k: int| 0 <= k < announce_list@.len()
                    ==> gossip_candidate(start, now, old(self).addr_mgr, #[trigger] announce_list@[k]),
                forall|k: int| 0 <= k < actions@.len() ==> sent_for_some(#[trigger] actions@[k], start),
                forall|j: int| 0 <= j < i && (#[trigger] start[j]).announce_multiaddrs@.len() > 0 ==> batch_sent(actions@, start[j]),
            decreases start.len() - i,
        {
            let id = self.sessions[i].id;
            let ghost list0 = announce_list@;
            proof {
                let sub = start.subrange(0, i + 1);
                assert(sub.drop_last() == start.subrange(0, i as int));
                assert(sub.last() == start[i as int]);
            }
            let st = &mut self.sessions[i];
            let sent = st.send_messages();
            let due = st.check_timer(now, ANNOUNCE_INTERVAL);
            let ghost pre = actions@;
            if let Some(msg) = sent {
                actions.push(Action::Send { session: id, msg });
                proof {
                    assert(sends_batch(actions@[pre.len() as int], start[i as int]));
                }
            }
            proof {
                assert forall|k: int| 0 <= k < actions@.len() implies sent_for_some(#[trigger] actions@[k], start) by {
                    if k < pre.len() {
                        assert(actions@[k] == pre[k]);
                    } else {
                        assert(sends_batch(actions@[k], start[i as int]));
                    }
                }
                assert forall|j: int| 0 <= j <= i && (#[trigger] start[j]).announce_multiaddrs@.len() > 0
                    implies batch_sent(actions@, start[j]) by {
                    if j < i {
                        let k = choose|k: int| 0 <= k < pre.len() && sends_batch(pre[k], start[j]);
                        assert(actions@[k] == pre[k]);
                    } else {
                        assert(sends_batch(actions@[pre.len() as int], start[j]));
                    }
                }
                assert(ids_unique(self.sessions@));
            }
            if let Some(a) = due {
                if self.addr_mgr.is_valid_addr(&a) {
                    let ghost pre_list = announce_list@;
                    announce_list.push(a);
                    proof {
                        assert(self_announced(start, now, old(self).addr_mgr, a));
                        assert forall|k: int| 0 <= k < announce_list@.len()
                            implies gossip_candidate(start, now, old(self).addr_mgr, #[trigger] announce_list@[k]) by {
                            if k < pre_list.len() {
                                assert(announce_list@[k] == pre_list[k]);
                            }
                        }
                    }
                }
            }
            proof {
                assert(announce_list@ =~= list0 + own_offer(start[i as int], now, old(self).addr_mgr));
            }
            i = i + 1;
        }
        proof {
            assert(i == start.len());
            assert(flushed(start, actions@));
            assert(start.subrange(0, start.len() as int) == start);
        }
        let ghost own = announce_list@;
        let consensus = self.addr_mgr.consensus_list();
        let mut c: usize = 0;
        while c < consensus.len()
            invariant
                0 <= c <= consensus@.len(),
                consensus@ == old(self).addr_mgr.consensus_peers@,
                self.addr_mgr == old(self).addr_mgr,
                own == own_offers(start, now, old(self).addr_mgr),
                announce_list@ == own + valid_in(self.addr_mgr.discovery_local_address, consensus@.subrange(0, c as int)),
                forall|k: int| 0 <= k < announce_list@.len()
                    ==> gossip_candidate(start, now, old(self).addr_mgr, #[trigger] announce_list@[k]),
            decreases consensus@.len() - c,
        {
            let ghost pre_list = announce_list@;
            proof {
                let sub = consensus@.subrange(0, c + 1);
                assert(sub.drop_last() == consensus@.subrange(0, c as int));
                assert(sub.last() == consensus@[c as int]);
            }
            if self.addr_mgr.is_valid_addr(&consensus[c]) {
                announce_list.push(consensus[c]);
            }
            proof {
                assert(consensus@.contains(consensus@[c as int]));
                assert forall|k: int| 0 <= k < announce_list@.len()
                    implies gossip_candidate(start, now, old(self).addr_mgr, #[trigger] announce_list@[k]) by {
                    if k < pre_list.len() {
                        assert(announce_list@[k] == pre_list[k]);
                    }
                }
            }
            c = c + 1;
        }
        proof {
            assert(consensus@.subrange(0, consensus@.len() as int) == consensus@);
        }
        let n = self.sessions.len();
        {
            let amount: usize = if n < FANOUT { n } else { FANOUT };
            let ghost mid = self.sessions@;
            proof {
                assert forall|j: int, a: Addr| 0 <= j < n && #[trigger] self.sessions@[j].announce_multiaddrs@.contains(a)
                    implies gossip_candidate(start, now, old(self).addr_mgr, a) by {
                    assert(flushed_and_ticked(start[j], self.sessions@[j], now));
                }
                assert forall|j: int| 0 <= j < n implies queue_known(#[trigger] self.sessions@[j]) by {
                    assert(flushed_and_ticked(start[j], self.sessions@[j], now));
                }
            }
            let ghost mut steps: Seq<Seq<SessionState>> = seq![mid];
            let ghost mut all_picks: Seq<Seq<usize>> = Seq::empty();
            let mut k: usize = 0;
            while k < announce_list.len()
                invariant
                    0 <= k <= announce_list@.len(),
                    announce_list@ == gossip_list(start, now, old(self).addr_mgr),
                    n == start.len(),
                    amount as nat == min_nat(FANOUT as nat, n as nat),
                    steps.len() == k + 1,
                    all_picks.len() == k,
                    steps[0] == mid,
                    steps.last() == self.sessions@,
                    forall|j: int| 0 <= j < n ==> queue_known(#[trigger] self.sessions@[j]),
                    forall|m: int| 0 <= m < steps.len() ==> sessions_wf(#[trigger] steps[m]),
                    forall|k2: int| 0 <= k2 < k ==> fanout_picks(#[trigger] all_picks[k2], n as nat)
                        && fanned_out(steps[k2], steps[k2 + 1], announce_list@[k2], all_picks[k2]),
                    self.wf(),
                    n == self.sessions@.len(),
                    amount <= n,
                    mid.len() == n,
                    self.announce_check_interval == old(self).announce_check_interval,
                    self.addr_mgr == old(self).addr_mgr,
                    forall|j: int| 0 <= j < n ==> same_but_gossip(#[trigger] mid[j], self.sessions@[j]),
                    forall|k2: int| 0 <= k2 < announce_list@.len()
                        ==> gossip_candidate(start, now, old(self).addr_mgr, #[trigger] announce_list@[k2]),
                    forall|j: int, a: Addr| 0 <= j < n && #[trigger] self.sessions@[j].announce_multiaddrs@.contains(a)
                        ==> gossip_candidate(start, now, old(self).addr_mgr, a),
                decreases announce_list@.len() - k,
            {
                let picks = sample_indices(n, amount);
                let ghost before = self.sessions@;
                self.fanout(announce_list[k], &picks);
                proof {
                    let x = announce_list@[k as int];
                    assert forall|j: int| 0 <= j < n implies queue_known(#[trigger] self.sessions@[j]) by {
                        assert(before[j].wf());
                        assert(queue_known(before[j]));
                        lemma_offer_keeps_queue_known(before[j], self.sessions@[j], x, picked(picks@, j));
                    }
                    let old_steps = steps;
                    let old_picks = all_picks;
                    steps = steps.push(self.sessions@);
                    all_picks = all_picks.push(picks@);
                    assert forall|m: int| 0 <= m < steps.len() implies sessions_wf(#[trigger] steps[m]) by {
                        if m < old_steps.len() {
                            assert(steps[m] == old_steps[m]);
                        }
                    }
                    assert forall|k2: int| 0 <= k2 < k + 1 implies fanout_picks(#[trigger] all_picks[k2], n as nat)
                        && fanned_out(steps[k2], steps[k2 + 1], announce_list@[k2], all_picks[k2]) by {
                        if k2 < k {
                            assert(all_picks[k2] == old_picks[k2]);
                            assert(steps[k2] == old_steps[k2]);
                            assert(steps[k2 + 1] == old_steps[k2 + 1]);
                        } else {
                            assert(steps[k2] == before);
                        }
                    }
                    assert forall|j: int| 0 <= j < n implies same_but_gossip(#[trigger] mid[j], self.sessions@[j]) by {
                        assert(same_but_gossip(mid[j], before[j]));
                        assert(offered_to(before[j], self.sessions@[j], x, picked(picks@, j)));
                    }
                    assert forall|j: int, a: Addr| 0 <= j < n && #[trigger] self.sessions@[j].announce_multiaddrs@.contains(a)
                        implies gossip_candidate(start, now, old(self).addr_mgr, a) by {
                        assert(offered_to(before[j], self.sessions@[j], x, picked(picks@, j)));
                        let q = before[j].announce_multiaddrs@;
                        if a != x {
                            let w = choose|w: int| 0 <= w < self.sessions@[j].announce_multiaddrs@.len()
                                && self.sessions@[j].announce_multiaddrs@[w] == a;
                            if self.sessions@[j].announce_multiaddrs@ == q.push(x) {
                                assert(q[w] == a);
                            }
                            assert(q.contains(a));
                        }
                    }
                }
                k = k + 1;
            }
            proof {
                assert forall|j: int| 0 <= j < start.len() implies ticked(#[trigger] start[j], self.sessions@[j], now) by {
                    assert(flushed_and_ticked(start[j], mid[j], now));
                    assert(same_but_gossip(mid[j], self.sessions@[j]));
                }
                assert forall|j: int, a: Addr| 0 <= j < start.len()
                    && #[trigger] self.sessions@[j].announce_multiaddrs@.contains(a)
                    implies self.sessions@[j].addr_known@.contains(a) by {
                    let q = self.sessions@[j].announce_multiaddrs@;
                    assert(queue_known(self.sessions@[j]));
                    let m = choose|m: int| 0 <= m < q.len() && q[m] == a;
                    assert(near(self.sessions@[j].addr_known@, q[m], q.len() - m));
                }
                assert(gossip_run(start, self.sessions@, now, gossip_list(start, now, old(self).addr_mgr), steps, all_picks));
            }
        }
        actions
    }
}

} // verus!
