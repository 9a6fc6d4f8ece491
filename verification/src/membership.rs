//! Membership records and the peer-set filter.
//!
//! Each decision cycle begins with a fresh snapshot of the cluster's node
//! listing. Only records with role `manager`, state `ready`, and an address
//! in canonical `host:port` form take part; everything else is discarded
//! silently. The snapshot is never kept across cycles.

use crate::addr::{parse_addr, parse_addr_spec, PeerAddr};
use crate::bytes::bytes_equal;
use vstd::prelude::*;

verus! {

/// A membership record: the fields the decision logic reads, textual ones
/// as UTF-8 bytes.
pub struct Node {
    /// Opaque identifier of the record.
    pub id: Vec<u8>,
    /// Readiness state; only `ready` takes part.
    pub state: Vec<u8>,
    /// Network address text; must be canonical `host:port` to take part.
    pub addr: Vec<u8>,
    /// Cluster role; only `manager` takes part.
    pub role: Vec<u8>,
}

/// The bytes of `manager`.
pub open spec fn manager_role() -> Seq<u8> {
    seq![109u8, 97u8, 110u8, 97u8, 103u8, 101u8, 114u8]
}

/// The bytes of `ready`.
pub open spec fn ready_state() -> Seq<u8> {
    seq![114u8, 101u8, 97u8, 100u8, 121u8]
}

/// A record takes part in a decision cycle exactly when its role is
/// `manager`, its state is `ready`, and its address parses.
pub open spec fn eligible(n: Node) -> bool {
    n.role@ == manager_role() && n.state@ == ready_state() && parse_addr_spec(n.addr@) is Some
}

/// The peer set of a node listing: the parsed addresses of its eligible
/// records, in listing order.
pub open spec fn peers_of(nodes: Seq<Node>) -> Seq<PeerAddr>
    decreases nodes.len(),
{
    if nodes.len() == 0 {
        Seq::empty()
    } else {
        peers_of(nodes.drop_last()) + (if eligible(nodes.last()) {
            seq![parse_addr_spec(nodes.last().addr@)->Some_0]
        } else {
            Seq::<PeerAddr>::empty()
        })
    }
}

/// The bytes of `manager`, as a vector.
fn make_manager_role() -> (v: Vec<u8>)
    ensures
        v@ == manager_role(),
{
    let mut v: Vec<u8> = Vec::new();
    v.push(109);
    v.push(97);
    v.push(110);
    v.push(97);
    v.push(103);
    v.push(101);
    v.push(114);
    proof {
        assert(v@ =~= manager_role());
    }
    v
}

/// The bytes of `ready`, as a vector.
fn make_ready_state() -> (v: Vec<u8>)
    ensures
        v@ == ready_state(),
{
    let mut v: Vec<u8> = Vec::new();
    v.push(114);
    v.push(101);
    v.push(97);
    v.push(100);
    v.push(121);
    proof {
        assert(v@ =~= ready_state());
    }
    v
}

/// Filter a node listing to its peer set: ready managers with a parseable
/// address, every other record excluded.
pub fn manager_addresses(nodes: &Vec<Node>) -> (peers: Vec<PeerAddr>)
    ensures
        peers@ == peers_of(nodes@),
{
    let manager = make_manager_role();
    let ready = make_ready_state();
    let mut peers: Vec<PeerAddr> = Vec::new();
    let mut i: usize = 0;
    proof {
        assert(nodes@.take(0) =~= Seq::<Node>::empty());
    }
    while i < nodes.len()
        invariant
            i <= nodes@.len(),
            manager@ == manager_role(),
            ready@ == ready_state(),
            peers@ == peers_of(nodes@.take(i as int)),
        decreases nodes@.len() - i,
    {
        let n = &nodes[i];
        proof {
            assert(nodes@.take(i as int + 1).drop_last() =~= nodes@.take(i as int));
            assert(nodes@.take(i as int + 1).last() == nodes@[i as int]);
        }
        if bytes_equal(&n.role, &manager) && bytes_equal(&n.state, &ready) {
            match parse_addr(&n.addr) {
                Some(a) => {
                    peers.push(a);
                },
                None => {},
            }
        }
        i = i + 1;
    }
    proof {
        assert(nodes@.take(nodes@.len() as int) =~= nodes@);
    }
    peers
}

} // verus!
