use vstd::prelude::*;

use crate::addr::Addr;

verus! {

/// Most addresses in one announce batch, and most queued for one peer.
pub const ANNOUNCE_THRESHOLD: usize = 10;

/// Most items in a non-announce batch, and most addresses served for one request.
pub const MAX_ADDR_TO_SEND: usize = 1000;

/// Most addresses that one node item may carry.
pub const MAX_ADDRS: usize = 3;

/// One peer, reachable at any of a few addresses.
#[derive(Debug)]
pub struct Node {
    pub addrs: Vec<Addr>,
    /// How many addresses the item carried on the wire, including any that
    /// could not be read as an `Addr`.
    pub raw_len: usize,
}

impl Node {
    pub fn with_addrs(addrs: Vec<Addr>) -> (r: Node)
        ensures
            r.addrs@ == addrs@,
            r.raw_len == addrs.len(),
    {
        let raw_len = addrs.len();
        Node { addrs, raw_len }
    }
}

/// Each item carries exactly one address, the one at its position in `addrs`.
pub open spec fn one_addr_each(items: Seq<Node>, addrs: Seq<Addr>) -> bool {
    &&& items.len() == addrs.len()
    &&& forall|i: int| 0 <= i < items.len() ==> #[trigger] items[i].addrs@ == seq![addrs[i]]
}

/// One item per address.
pub fn nodes_of(addrs: &Vec<Addr>) -> (r: Vec<Node>)
    ensures
        one_addr_each(r@, addrs@),
{
    let mut r: Vec<Node> = Vec::new();
    let mut i: usize = 0;
    while i < addrs.len()
        invariant
            0 <= i <= addrs@.len(),
            one_addr_each(r@, addrs@.subrange(0, i as int)),
        decreases addrs@.len() - i,
    {
        r.push(Node::with_addrs(vec![addrs[i]]));
        i = i + 1;
        proof {
            assert(r@[i - 1].addrs@ =~= seq![addrs@[i - 1]]);
        }
    }
    proof {
        assert(addrs@.subrange(0, addrs@.len() as int) =~= addrs@);
    }
    r
}

/// A request for addresses.
#[derive(Debug)]
pub struct GetNodes {
    pub listen_port: Option<u16>,
    pub count: u32,
    pub version: u32,
}

/// A batch of addresses: solicited (`announce == false`) or gossiped.
#[derive(Debug)]
pub struct Nodes {
    pub announce: bool,
    pub items: Vec<Node>,
}

#[derive(Debug)]
pub enum Payload {
    GetNodes(GetNodes),
    Nodes(Nodes),
}

/// A decoded discovery message; the payload may be absent.
#[derive(Debug)]
pub struct DiscoveryMessage {
    pub payload: Option<Payload>,
}

/// A protocol violation by a remote peer.
#[derive(Clone, Copy, Debug, PartialEq, Eq, Structural)]
pub enum Misbehavior {
    DuplicateGetNodes,
    DuplicateFirstNodes,
    TooManyItems { announce: bool, length: usize },
    TooManyAddresses(usize),
    InvalidData,
}

/// What the address manager decides on a misbehaving session.
#[derive(Clone, Copy, Debug, PartialEq, Eq, Structural)]
pub enum MisbehaveResult {
    Continue,
    Disconnect,
}

impl MisbehaveResult {
    pub fn is_disconnect(&self) -> (r: bool)
        ensures
            r == (*self == MisbehaveResult::Disconnect),
    {
        matches!(self, MisbehaveResult::Disconnect)
    }
}

/// The most items a batch of this kind may hold.
pub open spec fn item_limit(announce: bool) -> nat {
    if announce {
        ANNOUNCE_THRESHOLD as nat
    } else {
        MAX_ADDR_TO_SEND as nat
    }
}

/// Whether item `j` is the first one with too many addresses.
pub open spec fn first_overlong(nodes: Nodes, j: int) -> bool {
    &&& 0 <= j < nodes.items@.len()
    &&& nodes.items@[j].raw_len > MAX_ADDRS
    &&& forall|i: int| 0 <= i < j ==> nodes.items@[i].raw_len <= MAX_ADDRS
}

/// The verdict on a batch, by its shape alone: too many items first, then
/// the first item with too many addresses.
pub open spec fn nodes_verdict(nodes: Nodes) -> Option<Misbehavior> {
    if nodes.items@.len() > item_limit(nodes.announce) {
        Some(Misbehavior::TooManyItems { announce: nodes.announce, length: nodes.items.len() })
    } else if exists|j: int| first_overlong(nodes, j) {
        let j = choose|j: int| first_overlong(nodes, j);
        Some(Misbehavior::TooManyAddresses(nodes.items@[j].raw_len))
    } else {
        None
    }
}

proof fn lemma_first_overlong_unique(nodes: Nodes, j: int, k: int)
    requires
        first_overlong(nodes, j),
        first_overlong(nodes, k),
    ensures
        j == k,
{
}

proof fn lemma_first_overlong_exists(nodes: Nodes, j: int)
    requires
        0 <= j < nodes.items@.len(),
        nodes.items@[j].raw_len > MAX_ADDRS,
    ensures
        exists|k: int| first_overlong(nodes, k),
    decreases j,
{
    if forall|i: int| 0 <= i < j ==> nodes.items@[i].raw_len <= MAX_ADDRS {
        assert(first_overlong(nodes, j));
    } else {
        let i = choose|i: int| 0 <= i < j && !(nodes.items@[i].raw_len <= MAX_ADDRS);
        lemma_first_overlong_exists(nodes, i);
    }
}

/// The size limits of a batch: one with more items than its kind allows (ten
/// for an announcement, a thousand for an answer) is refused for its size,
/// and one within that size is never; within it, a batch is refused for too
/// many addresses exactly when some item carries more than three, and
/// otherwise accepted.
pub proof fn lemma_nodes_verdict_limits(nodes: Nodes)
    ensures
        nodes.announce && nodes.items@.len() > ANNOUNCE_THRESHOLD ==> nodes_verdict(nodes)
            == Some(Misbehavior::TooManyItems { announce: true, length: nodes.items.len() }),
        !nodes.announce && nodes.items@.len() > MAX_ADDR_TO_SEND ==> nodes_verdict(nodes)
            == Some(Misbehavior::TooManyItems { announce: false, length: nodes.items.len() }),
        nodes.items@.len() <= item_limit(nodes.announce) ==> match nodes_verdict(nodes) {
            Some(Misbehavior::TooManyAddresses(n)) => n > MAX_ADDRS
                && exists|j: int| 0 <= j < nodes.items@.len() && nodes.items@[j].raw_len > MAX_ADDRS,
            None => forall|j: int| 0 <= j < nodes.items@.len() ==> nodes.items@[j].raw_len <= MAX_ADDRS,
            _ => false,
        },
{
    if nodes.items@.len() <= item_limit(nodes.announce) {
        if exists|j: int| 0 <= j < nodes.items@.len() && nodes.items@[j].raw_len > MAX_ADDRS {
            let j = choose|j: int| 0 <= j < nodes.items@.len() && nodes.items@[j].raw_len > MAX_ADDRS;
            lemma_first_overlong_exists(nodes, j);
            let k = choose|k: int| first_overlong(nodes, k);
            assert(first_overlong(nodes, k));
        }
    }
}

/// Checks the shape of a batch of addresses.
pub fn verify_nodes_message(nodes: &Nodes) -> (r: Option<Misbehavior>)
    ensures
        r == nodes_verdict(*nodes),
{
    let len = nodes.items.len();
    if (nodes.announce && len > ANNOUNCE_THRESHOLD) || (!nodes.announce && len > MAX_ADDR_TO_SEND) {
        return Some(Misbehavior::TooManyItems { announce: nodes.announce, length: len });
    }
    let mut i: usize = 0;
    while i < len
        invariant
            len == nodes.items@.len(),
            len <= item_limit(nodes.announce),
            0 <= i <= len,
            forall|k: int| 0 <= k < i ==> nodes.items@[k].raw_len <= MAX_ADDRS,
        decreases len - i,
    {
        let n = nodes.items[i].raw_len;
        if n > MAX_ADDRS {
            proof {
                assert(first_overlong(*nodes, i as int));
                let j = choose|j: int| first_overlong(*nodes, j);
                lemma_first_overlong_unique(*nodes, i as int, j);
            }
            return Some(Misbehavior::TooManyAddresses(n));
        }
        i = i + 1;
    }
    proof {
        assert(!exists|j: int| first_overlong(*nodes, j));
    }
    None
}

} // verus!
