//! The per-cycle quorum decision state machine.
//!
//! One decision cycle runs discover, propose, collect, decide: fetch the
//! node listing, filter it to the peer set, send a `Proposal` to every peer
//! but oneself, then count `Confirmation` messages, starting from one for
//! the proposer's own agreement, until the strict-majority threshold is
//! reached; then a `ScaleComplete` goes to every peer in the set. All
//! decisions are here; the surrounding binary only moves datagrams and
//! sleeps between cycles. Cycles are independent: nothing of this state
//! survives into the next one.

use crate::addr::PeerAddr;
use crate::membership::{manager_addresses, peers_of, Node};
use crate::message::Message;
use vstd::prelude::*;

verus! {

/// The number of confirmations (the proposer's own included) that a peer
/// set of size `n` needs before the scaling action may proceed: a strict
/// majority.
pub fn quorum_threshold(n: usize) -> (t: usize)
    ensures
        t == n / 2 + 1,
{
    n / 2 + 1
}

/// Meeting the threshold is a strict majority: the confirmations outnumber
/// the rest of the peer set.
pub proof fn lemma_threshold_is_majority(n: nat)
    ensures
        2 * (n / 2 + 1) > n,
{
}

/// What a coordinator does at the start of a cycle, once the membership
/// fetch has come back.
pub enum CyclePlan {
    /// The fetch failed: the cycle is abandoned and nothing is sent.
    FetchFailed,
    /// Fewer than two eligible peers: no proposal is meaningful, the cycle
    /// ends at once.
    TooFew { peers: Vec<PeerAddr> },
    /// Send `Proposal` to every target, then collect confirmations against
    /// the threshold.
    Propose { peers: Vec<PeerAddr>, targets: Vec<PeerAddr>, threshold: usize },
}

/// The peers other than `local`, in peer-set order: where the proposals go.
pub open spec fn targets_of(peers: Seq<PeerAddr>, local: PeerAddr) -> Seq<PeerAddr>
    decreases peers.len(),
{
    if peers.len() == 0 {
        Seq::empty()
    } else {
        targets_of(peers.drop_last(), local) + (if peers.last() == local {
            Seq::<PeerAddr>::empty()
        } else {
            seq![peers.last()]
        })
    }
}

/// What a correct plan says of a fetched node listing.
pub open spec fn plan_matches(plan: CyclePlan, local: PeerAddr, nodes: Seq<Node>) -> bool {
    let ps = peers_of(nodes);
    match plan {
        CyclePlan::FetchFailed => false,
        CyclePlan::TooFew { peers } => ps.len() < 2 && peers@ == ps,
        CyclePlan::Propose { peers, targets, threshold } => {
            &&& ps.len() >= 2
            &&& peers@ == ps
            &&& threshold == ps.len() / 2 + 1
            &&& targets@ == targets_of(ps, local)
        },
    }
}

/// Open a cycle: turn the membership fetch's outcome (`None` for a failed
/// fetch) into the cycle's plan. No proposal is planned on a failed fetch
/// or on a peer set smaller than two.
pub fn plan_cycle(local: &PeerAddr, membership: Option<Vec<Node>>) -> (plan: CyclePlan)
    ensures
        membership is None <==> plan is FetchFailed,
        membership matches Some(nodes) ==> plan_matches(plan, *local, nodes@),
{
    match membership {
        None => CyclePlan::FetchFailed,
        Some(nodes) => {
            let peers = manager_addresses(&nodes);
            if peers.len() < 2 {
                CyclePlan::TooFew { peers }
            } else {
                let threshold = quorum_threshold(peers.len());
                let mut targets: Vec<PeerAddr> = Vec::new();
                let mut i: usize = 0;
                proof {
                    assert(peers@.take(0) =~= Seq::<PeerAddr>::empty());
                }
                while i < peers.len()
                    invariant
                        i <= peers@.len(),
                        targets@ == targets_of(peers@.take(i as int), *local),
                    decreases peers@.len() - i,
                {
                    proof {
                        assert(peers@.take(i as int + 1).drop_last() =~= peers@.take(i as int));
                        assert(peers@.take(i as int + 1).last() == peers@[i as int]);
                    }
                    let p = peers[i];
                    if !(p == *local) {
                        targets.push(p);
                    }
                    i = i + 1;
                }
                proof {
                    assert(peers@.take(peers@.len() as int) =~= peers@);
                }
                CyclePlan::Propose { peers, targets, threshold }
            }
        },
    }
}

/// Does this message add to the tally? Every `Confirmation` does,
/// whoever sent it and however often; nothing else does.
pub open spec fn msg_confirms(m: Option<Message>) -> bool {
    match m {
        Some(Message::Confirmation { .. }) => true,
        _ => false,
    }
}

/// The collecting state of one cycle: the peer set captured at its start,
/// the threshold computed once from that set's size, and the running tally.
pub struct Collecting {
    /// The peer set of this cycle; `ScaleComplete` goes to all of it.
    pub peers: Vec<PeerAddr>,
    /// `floor(|peers| / 2) + 1`, fixed at cycle start.
    pub threshold: usize,
    /// Confirmations so far, the proposer's own included.
    pub tally: usize,
}

impl Collecting {
    /// What always holds of a collecting state: the threshold belongs to
    /// the captured peer set, and the tally runs from one (self) to at most
    /// the threshold, where collection stops.
    pub open spec fn wf(self) -> bool {
        &&& self.peers@.len() >= 2
        &&& self.threshold == self.peers@.len() / 2 + 1
        &&& 1 <= self.tally <= self.threshold
    }

    /// Open the collection window. The tally starts at one: the proposer
    /// counts itself as pre-confirmed without sending itself a message.
    pub fn start(peers: Vec<PeerAddr>) -> (c: Collecting)
        requires
            peers@.len() >= 2,
        ensures
            c.wf(),
            c.peers == peers,
            c.threshold == peers@.len() / 2 + 1,
            c.tally == 1,
    {
        let threshold = quorum_threshold(peers.len());
        Collecting { peers, threshold, tally: 1 }
    }

    /// Take one received datagram's outcome (`None` for a receive or
    /// decode failure). A `Confirmation` raises the tally by one,
    /// irrespective of its sender — a peer confirming twice counts twice;
    /// everything else leaves the state unchanged.
    pub fn absorb(&mut self, msg: &Option<Message>)
        requires
            old(self).wf(),
            old(self).tally < old(self).threshold,
        ensures
            final(self).wf(),
            final(self).peers == old(self).peers,
            final(self).threshold == old(self).threshold,
            final(self).tally == old(self).tally + (if msg_confirms(*msg) {
                1int
            } else {
                0int
            }),
    {
        match msg {
            Some(Message::Confirmation { .. }) => {
                self.tally = self.tally + 1;
            },
            _ => {},
        }
    }

    /// Has the threshold been met? Success is reported exactly when the
    /// tally has reached it.
    pub fn decided(&self) -> (r: bool)
        ensures
            r == (self.tally >= self.threshold),
    {
        self.tally >= self.threshold
    }
}

/// A coordinator never reports success with a tally short of the majority
/// threshold for the peer-set size captured at cycle start.
pub proof fn lemma_success_needs_majority(c: Collecting)
    requires
        c.wf(),
        c.tally >= c.threshold,
    ensures
        c.tally >= c.peers@.len() / 2 + 1,
{
}

} // verus!
