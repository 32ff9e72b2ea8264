use vstd::prelude::*;

use crate::addr::{Addr, ip_is_reachable, reachable};
use crate::message::{MisbehaveResult, Misbehavior};

verus! {

/// Relies on rand::seq::index::sample (with the thread-local generator):
/// exactly `amount` distinct indices, each below `length`, in random order;
/// it panics when `amount > length`.
#[verifier::external_body]
pub(crate) fn sample_indices(length: usize, amount: usize) -> (r: Vec<usize>)
    requires
        amount <= length,
    ensures
        r@.len() == amount,
        forall|i: int| 0 <= i < r@.len() ==> #[trigger] r@[i] < length,
        forall|i: int, j: int| 0 <= i < j < r@.len() ==> r@[i] != r@[j],
{
    rand::seq::index::sample(&mut rand::thread_rng(), length, amount).into_vec()
}

/// Whether an address may be gossiped: a reachable one always, any one when
/// local addresses are allowed.
pub open spec fn valid_addr(local: bool, a: Addr) -> bool {
    local || reachable(a.ip)
}

/// The valid addresses of `s`, in their order.
pub open spec fn valid_in(local: bool, s: Seq<Addr>) -> Seq<Addr>
    decreases s.len(),
{
    if s.len() == 0 {
        Seq::empty()
    } else if valid_addr(local, s.last()) {
        valid_in(local, s.drop_last()).push(s.last())
    } else {
        valid_in(local, s.drop_last())
    }
}

proof fn lemma_valid_in_members(local: bool, s: Seq<Addr>)
    ensures
        forall|a: Addr| #[trigger] valid_in(local, s).contains(a) ==> s.contains(a) && valid_addr(local, a),
        valid_in(local, s).len() <= s.len(),
    decreases s.len(),
{
    if s.len() > 0 {
        lemma_valid_in_members(local, s.drop_last());
        let v = valid_in(local, s.drop_last());
        assert forall|a: Addr| #[trigger] valid_in(local, s).contains(a) implies s.contains(a) && valid_addr(local, a) by {
            if valid_addr(local, s.last()) && a == s.last() {
                assert(s[s.len() - 1] == a);
            } else {
                if valid_addr(local, s.last()) {
                    let j = choose|j: int| 0 <= j < v.push(s.last()).len() && v.push(s.last())[j] == a;
                    assert(v[j] == a);
                }
                assert(v.contains(a));
                let k = choose|k: int| 0 <= k < s.drop_last().len() && s.drop_last()[k] == a;
                assert(s[k] == a);
            }
        }
    }
}

proof fn lemma_valid_in_no_duplicates(local: bool, s: Seq<Addr>)
    requires
        s.no_duplicates(),
    ensures
        valid_in(local, s).no_duplicates(),
    decreases s.len(),
{
    if s.len() > 0 {
        let t = s.drop_last();
        assert(t.no_duplicates()) by {
            assert forall|i: int, j: int| 0 <= i < t.len() && 0 <= j < t.len() && i != j implies t[i] != t[j] by {
                assert(t[i] == s[i] && t[j] == s[j]);
            }
        }
        lemma_valid_in_no_duplicates(local, t);
        lemma_valid_in_members(local, t);
        if valid_addr(local, s.last()) {
            let v = valid_in(local, t);
            assert(!t.contains(s.last())) by {
                if t.contains(s.last()) {
                    let k = choose|k: int| 0 <= k < t.len() && t[k] == s.last();
                    assert(s[k] == s[s.len() - 1]);
                }
            }
            assert forall|i: int, j: int| 0 <= i < v.push(s.last()).len() && 0 <= j < v.push(s.last()).len() && i != j
                implies v.push(s.last())[i] != v.push(s.last())[j] by {
                if i == v.len() {
                    assert(v.contains(v[j]));
                } else if j == v.len() {
                    assert(v.contains(v[i]));
                }
            }
        }
    }
}

/// `picked` is what a random draw of `n` from `store` may give: the whole
/// store when it holds no more than `n`, else `n` distinct stored addresses.
pub open spec fn drawn_from(store: Seq<Addr>, n: nat, picked: Seq<Addr>) -> bool {
    if store.len() <= n {
        picked == store
    } else {
        &&& picked.len() == n
        &&& picked.no_duplicates()
        &&& forall|k: int| 0 <= k < picked.len() ==> store.contains(#[trigger] picked[k])
    }
}

/// What storing `addrs` one by one appends to `store`: each valid address
/// not stored yet nor appended before, in the order of `addrs`.
pub open spec fn appended(store: Seq<Addr>, local: bool, addrs: Seq<Addr>) -> Seq<Addr>
    decreases addrs.len(),
{
    if addrs.len() == 0 {
        Seq::empty()
    } else {
        let prev = appended(store, local, addrs.drop_last());
        let a = addrs.last();
        if valid_addr(local, a) && !(store + prev).contains(a) {
            prev.push(a)
        } else {
            prev
        }
    }
}

/// `after` is `before` followed by valid addresses of `addrs`, and holds
/// every valid address of `addrs`.
pub open spec fn stored_after(before: Seq<Addr>, addrs: Seq<Addr>, local: bool, after: Seq<Addr>) -> bool {
    &&& before.len() <= after.len()
    &&& forall|k: int| 0 <= k < before.len() ==> after[k] == before[k]
    &&& forall|k: int| 0 <= k < addrs.len() && valid_addr(local, addrs[k]) ==> after.contains(#[trigger] addrs[k])
    &&& forall|j: int| before.len() <= j < after.len() ==> valid_addr(local, #[trigger] after[j]) && addrs.contains(after[j])
}

/// The address repository the protocol talks to, kept in memory: the known
/// addresses, the sessions with discovery open, and the consensus peers.
#[derive(Debug)]
pub struct DiscoveryAddressManager {
    pub discovery_local_address: bool,
    /// Whether every misbehavior closes the session, or none does.
    pub disconnect_on_misbehavior: bool,
    pub peer_store: Vec<Addr>,
    pub open_sessions: Vec<usize>,
    pub consensus_peers: Vec<Addr>,
}

impl DiscoveryAddressManager {
    /// No address is stored twice.
    pub open spec fn wf(&self) -> bool {
        self.peer_store@.no_duplicates()
    }

    /// An empty repository that gossips reachable addresses only and closes
    /// every misbehaving session.
    pub fn new() -> (r: DiscoveryAddressManager)
        ensures
            r.wf(),
            !r.discovery_local_address,
            r.disconnect_on_misbehavior,
            r.peer_store@ == Seq::<Addr>::empty(),
            r.open_sessions@ == Seq::<usize>::empty(),
            r.consensus_peers@ == Seq::<Addr>::empty(),
    {
        DiscoveryAddressManager {
            discovery_local_address: false,
            disconnect_on_misbehavior: true,
            peer_store: Vec::new(),
            open_sessions: Vec::new(),
            consensus_peers: Vec::new(),
        }
    }

    /// Marks discovery as open on `session`.
    pub fn register(&mut self, session: usize)
        ensures
            final(self).discovery_local_address == old(self).discovery_local_address,
            final(self).peer_store == old(self).peer_store,
            final(self).consensus_peers == old(self).consensus_peers,
            final(self).disconnect_on_misbehavior == old(self).disconnect_on_misbehavior,
            final(self).open_sessions@ == if old(self).open_sessions@.contains(session) {
                old(self).open_sessions@
            } else {
                old(self).open_sessions@.push(session)
            },
    {
        let mut i: usize = 0;
        while i < self.open_sessions.len()
            invariant
                0 <= i <= self.open_sessions@.len(),
                self.open_sessions == old(self).open_sessions,
                self.peer_store == old(self).peer_store,
                self.consensus_peers == old(self).consensus_peers,
                self.disconnect_on_misbehavior == old(self).disconnect_on_misbehavior,
                self.discovery_local_address == old(self).discovery_local_address,
                forall|k: int| 0 <= k < i ==> self.open_sessions@[k] != session,
            decreases self.open_sessions@.len() - i,
        {
            if self.open_sessions[i] == session {
                return;
            }
            i = i + 1;
        }
        self.open_sessions.push(session);
    }

    /// Marks discovery as closed on `session`.
    pub fn unregister(&mut self, session: usize)
        ensures
            final(self).discovery_local_address == old(self).discovery_local_address,
            final(self).peer_store == old(self).peer_store,
            final(self).consensus_peers == old(self).consensus_peers,
            final(self).disconnect_on_misbehavior == old(self).disconnect_on_misbehavior,
            final(self).open_sessions@ == old(self).open_sessions@.filter(|s: usize| s != session),
    {
        let ghost pred = |s: usize| s != session;
        let mut kept: Vec<usize> = Vec::new();
        let mut i: usize = 0;
        while i < self.open_sessions.len()
            invariant
                0 <= i <= self.open_sessions@.len(),
                self.open_sessions == old(self).open_sessions,
                pred == (|s: usize| s != session),
                kept@ == self.open_sessions@.subrange(0, i as int).filter(pred),
            decreases self.open_sessions@.len() - i,
        {
            let s = self.open_sessions[i];
            proof {
                assert(self.open_sessions@.subrange(0, i + 1) == self.open_sessions@.subrange(0, i as int).push(s));
                self.open_sessions@.subrange(0, i as int).lemma_filter_push(s, pred);
            }
            if s != session {
                kept.push(s);
            }
            i = i + 1;
        }
        proof {
            assert(self.open_sessions@.subrange(0, self.open_sessions@.len() as int) == self.open_sessions@);
        }
        self.open_sessions = kept;
    }

    pub fn is_valid_addr(&self, addr: &Addr) -> (r: bool)
        ensures
            r == valid_addr(self.discovery_local_address, *addr),
    {
        self.discovery_local_address || ip_is_reachable(addr.ip)
    }

    pub fn add_new_addr(&mut self, session: usize, addr: Addr)
        requires
            old(self).wf(),
        ensures
            final(self).wf(),
            final(self).discovery_local_address == old(self).discovery_local_address,
            final(self).open_sessions == old(self).open_sessions,
            final(self).consensus_peers == old(self).consensus_peers,
            final(self).disconnect_on_misbehavior == old(self).disconnect_on_misbehavior,
            stored_after(old(self).peer_store@, seq![addr], old(self).discovery_local_address, final(self).peer_store@),
    {
        let v = vec![addr];
        proof {
            assert(v@ =~= seq![addr]);
        }
        self.add_new_addrs(session, v);
    }

    /// Stores the valid ones of `addrs` that are not stored yet.
    pub fn add_new_addrs(&mut self, _session: usize, addrs: Vec<Addr>)
        requires
            old(self).wf(),
        ensures
            final(self).wf(),
            final(self).discovery_local_address == old(self).discovery_local_address,
            final(self).open_sessions == old(self).open_sessions,
            final(self).consensus_peers == old(self).consensus_peers,
            final(self).disconnect_on_misbehavior == old(self).disconnect_on_misbehavior,
            stored_after(old(self).peer_store@, addrs@, old(self).discovery_local_address, final(self).peer_store@),
            final(self).peer_store@ == old(self).peer_store@ + appended(old(self).peer_store@,
                old(self).discovery_local_address, addrs@),
    {
        let local = self.discovery_local_address;
        let mut i: usize = 0;
        while i < addrs.len()
            invariant
                0 <= i <= addrs@.len(),
                local == old(self).discovery_local_address,
                self.wf(),
                self.peer_store@ == old(self).peer_store@ + appended(old(self).peer_store@, local, addrs@.subrange(0, i as int)),
                self.discovery_local_address == old(self).discovery_local_address,
                self.open_sessions == old(self).open_sessions,
                self.consensus_peers == old(self).consensus_peers,
                self.disconnect_on_misbehavior == old(self).disconnect_on_misbehavior,
                old(self).peer_store@.len() <= self.peer_store@.len(),
                forall|k: int| 0 <= k < old(self).peer_store@.len() ==> self.peer_store@[k] == old(self).peer_store@[k],
                forall|k: int| 0 <= k < i && valid_addr(local, addrs@[k]) ==> self.peer_store@.contains(#[trigger] addrs@[k]),
                forall|j: int| old(self).peer_store@.len() <= j < self.peer_store@.len()
                    ==> valid_addr(local, #[trigger] self.peer_store@[j]) && addrs@.contains(self.peer_store@[j]),
            decreases addrs@.len() - i,
        {
            let a = addrs[i];
            let ghost pre = self.peer_store@;
            proof {
                let sub = addrs@.subrange(0, i + 1);
                assert(sub.drop_last() == addrs@.subrange(0, i as int));
                assert(sub.last() == a);
            }
            if self.is_valid_addr(&a) && !self.stores(&a) {
                self.peer_store.push(a);
                proof {
                    assert(self.peer_store@[pre.len() as int] == a);
                    assert(addrs@[i as int] == a);
                    assert forall|x: int, y: int| 0 <= x < self.peer_store@.len() && 0 <= y < self.peer_store@.len() && x != y
                        implies self.peer_store@[x] != self.peer_store@[y] by {
                        if x == pre.len() {
                            assert(pre.contains(pre[y]));
                        } else if y == pre.len() {
                            assert(pre.contains(pre[x]));
                        }
                    }
                }
            }
            proof {
                assert forall|k: int| 0 <= k <= i && valid_addr(local, addrs@[k]) implies self.peer_store@.contains(#[trigger] addrs@[k]) by {
                    if k < i {
                        let j = choose|j: int| 0 <= j < pre.len() && pre[j] == addrs@[k];
                        assert(self.peer_store@[j] == addrs@[k]);
                    }
                }
            }
            proof {
                let prev = appended(old(self).peer_store@, local, addrs@.subrange(0, i as int));
                assert(pre == old(self).peer_store@ + prev);
                if valid_addr(local, a) && !pre.contains(a) {
                    assert(self.peer_store@ =~= old(self).peer_store@ + prev.push(a));
                }
            }
            i = i + 1;
        }
        proof {
            assert(addrs@.subrange(0, addrs@.len() as int) == addrs@);
        }
    }

    /// Whether `addr` is stored.
    pub fn stores(&self, addr: &Addr) -> (r: bool)
        ensures
            r == self.peer_store@.contains(*addr),
    {
        let mut i: usize = 0;
        while i < self.peer_store.len()
            invariant
                0 <= i <= self.peer_store@.len(),
                forall|k: int| 0 <= k < i ==> self.peer_store@[k] != *addr,
            decreases self.peer_store@.len() - i,
        {
            if self.peer_store[i] == *addr {
                return true;
            }
            i = i + 1;
        }
        false
    }

    /// The verdict on a misbehaving session, by the configured policy.
    pub fn misbehave(&mut self, _session: usize, _kind: Misbehavior) -> (r: MisbehaveResult)
        ensures
            r == if old(self).disconnect_on_misbehavior {
                MisbehaveResult::Disconnect
            } else {
                MisbehaveResult::Continue
            },
            *final(self) == *old(self),
    {
        if self.disconnect_on_misbehavior {
            MisbehaveResult::Disconnect
        } else {
            MisbehaveResult::Continue
        }
    }

    /// Up to `n` stored addresses, drawn at random, that are valid. When at
    /// most `n` are stored, all valid ones come back, in store order.
    pub fn get_random(&mut self, n: usize) -> (r: Vec<Addr>)
        requires
            old(self).wf(),
        ensures
            *final(self) == *old(self),
            r@.len() <= n,
            r@.no_duplicates(),
            forall|a: Addr| #[trigger] r@.contains(a) ==> old(self).peer_store@.contains(a)
                && valid_addr(old(self).discovery_local_address, a),
            old(self).peer_store@.len() <= n ==> r@ == valid_in(old(self).discovery_local_address, old(self).peer_store@),
            exists|picked: Seq<Addr>| drawn_from(old(self).peer_store@, n as nat, picked)
                && r@ == valid_in(old(self).discovery_local_address, picked),
    {
        let len = self.peer_store.len();
        let local = self.discovery_local_address;
        let picked: Vec<Addr> = if len <= n {
            self.copy_store()
        } else {
            let idx = sample_indices(len, n);
            let mut p: Vec<Addr> = Vec::new();
            let mut i: usize = 0;
            while i < idx.len()
                invariant
                    0 <= i <= idx@.len(),
                    idx@.len() == n,
                    len == self.peer_store@.len(),
                    forall|k: int| 0 <= k < idx@.len() ==> #[trigger] idx@[k] < len,
                    p@.len() == i,
                    forall|k: int| 0 <= k < i ==> #[trigger] self.peer_store@.contains(p@[k]),
                    forall|k: int| 0 <= k < i ==> p@[k] == self.peer_store@[#[trigger] idx@[k] as int],
                decreases idx@.len() - i,
            {
                let a = self.peer_store[idx[i]];
                proof {
                    assert(self.peer_store@[idx@[i as int] as int] == a);
                }
                p.push(a);
                i = i + 1;
            }
            proof {
                assert forall|x: int, y: int| 0 <= x < p@.len() && 0 <= y < p@.len() && x != y implies p@[x] != p@[y] by {
                    assert(p@[x] == self.peer_store@[idx@[x] as int]);
                    assert(p@[y] == self.peer_store@[idx@[y] as int]);
                }
            }
            p
        };
        let mut r: Vec<Addr> = Vec::new();
        let mut i: usize = 0;
        while i < picked.len()
            invariant
                0 <= i <= picked@.len(),
                picked@.len() <= n,
                picked@.no_duplicates(),
                len <= n ==> picked@ == self.peer_store@,
                forall|k: int| 0 <= k < picked@.len() ==> #[trigger] self.peer_store@.contains(picked@[k]),
                local == self.discovery_local_address,
                r@ == valid_in(local, picked@.subrange(0, i as int)),
            decreases picked@.len() - i,
        {
            let a = picked[i];
            proof {
                assert(picked@.subrange(0, i + 1).drop_last() == picked@.subrange(0, i as int));
                assert(picked@.subrange(0, i + 1).last() == a);
            }
            if self.is_valid_addr(&a) {
                r.push(a);
            }
            i = i + 1;
        }
        proof {
            assert(picked@.subrange(0, picked@.len() as int) == picked@);
            lemma_valid_in_members(local, picked@);
            lemma_valid_in_no_duplicates(local, picked@);
            assert(drawn_from(self.peer_store@, n as nat, picked@));
            assert forall|a: Addr| #[trigger] r@.contains(a) implies self.peer_store@.contains(a) by {
                let k = choose|k: int| 0 <= k < picked@.len() && picked@[k] == a;
                assert(self.peer_store@.contains(picked@[k]));
            }
        }
        r
    }

    fn copy_store(&self) -> (r: Vec<Addr>)
        ensures
            r@ == self.peer_store@,
    {
        copy_addrs(&self.peer_store)
    }

    /// The addresses of the connected consensus peers.
    pub fn consensus_list(&self) -> (r: Vec<Addr>)
        ensures
            r@ == self.consensus_peers@,
    {
        copy_addrs(&self.consensus_peers)
    }
}

/// A copy of `v`.
pub fn copy_addrs(v: &Vec<Addr>) -> (r: Vec<Addr>)
    ensures
        r@ == v@,
{
    let mut r: Vec<Addr> = Vec::new();
    let mut i: usize = 0;
    while i < v.len()
        invariant
            0 <= i <= v@.len(),
            r@ == v@.subrange(0, i as int),
        decreases v@.len() - i,
    {
        r.push(v[i]);
        i = i + 1;
        proof {
            assert(r@ == v@.subrange(0, i as int));
        }
    }
    proof {
        assert(v@.subrange(0, v@.len() as int) == v@);
    }
    r
}

} // verus!
