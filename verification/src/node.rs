//! The propagation layer's state machine. Discovery events maintain the set
//! of known peers; inbound gossip is decoded and handed back to the caller,
//! who currently only reports it — received blocks and transactions are not
//! merged into the local ledger, a documented no-op kept for behavioural
//! parity. Malformed gossip changes nothing and faults nothing.

use vstd::prelude::*;
use crate::types::{Block, Transaction, str_eq};
use crate::wire::{WireMessage, MessageView, dec_message, enc_message, message_fits,
    spec_topic_for, encode_message, topic_for};

verus! {

/// One event the node's event loop multiplexes over.
pub enum NetworkEvent {
    /// Discovery reports a peer as reachable.
    PeerDiscovered { peer: String },
    /// Discovery reports a peer record as expired; `still_reachable` says
    /// whether discovery nevertheless still sees the peer.
    PeerExpired { peer: String, still_reachable: bool },
    /// A payload arrived on a gossip topic.
    GossipReceived { data: Vec<u8> },
}

/// The peer-tracking state of one node: which peers gossip currently
/// fans out to.
pub struct NodeState {
    known_peers: Vec<String>,
}

impl View for NodeState {
    type V = Seq<Seq<char>>;

    closed spec fn view(&self) -> Seq<Seq<char>> {
        self.known_peers@.map_values(|p: String| p@)
    }
}

impl NodeState {
    /// No peer is listed twice.
    pub open spec fn wf(&self) -> bool {
        self@.no_duplicates()
    }

    pub fn new() -> (r: NodeState)
        ensures
            r@ == Seq::<Seq<char>>::empty(),
            r.wf(),
    {
        let r = NodeState { known_peers: Vec::new() };
        proof {
            assert(r@ =~= Seq::<Seq<char>>::empty());
        }
        r
    }

    fn contains_peer(&self, peer: &str) -> (r: bool)
        ensures
            r == self@.contains(peer@),
    {
        let mut i: usize = 0;
        while i < self.known_peers.len()
            invariant
                i <= self@.len(),
                forall|j: int| 0 <= j < i ==> self@[j] != peer@,
        decreases self@.len() - i,
        {
            if str_eq(self.known_peers[i].as_str(), peer) {
                proof {
                    assert(self@[i as int] == peer@);
                }
                return true;
            }
            i = i + 1;
        }
        false
    }

    /// The peers the node currently gossips to, as a fresh list.
    pub fn peers(&self) -> (r: Vec<String>)
        ensures
            r@.len() == self@.len(),
            forall|i: int| 0 <= i < r@.len() ==> r@[i]@ == self@[i],
    {
        let mut out: Vec<String> = Vec::new();
        let mut i: usize = 0;
        while i < self.known_peers.len()
            invariant
                i <= self@.len(),
                out@.len() == i,
                forall|j: int| 0 <= j < i ==> out@[j]@ == self@[j],
            decreases self@.len() - i,
        {
            out.push(self.known_peers[i].clone());
            i = i + 1;
        }
        out
    }

    /// A discovered peer joins the set; one already present stays listed
    /// once (last write wins, no reference counting).
    pub fn apply_discovered(&mut self, peer: String)
        requires
            old(self).wf(),
        ensures
            final(self).wf(),
            final(self)@.contains(peer@),
            forall|q: Seq<char>|
                q != peer@ ==> (final(self)@.contains(q) <==> old(self)@.contains(q)),
    {
        if !self.contains_peer(peer.as_str()) {
            proof {
                let oldv = self@;
                assert(oldv.push(peer@).drop_last() =~= oldv);
            }
            self.known_peers.push(peer);
            proof {
                assert(self@ =~= old(self)@.push(self.known_peers@.last()@));
                assert(self@.drop_last() =~= old(self)@);
                assert(self@.contains(self@.last()));
                assert forall|q: Seq<char>|
                    q != self@.last() implies (self@.contains(q) <==> old(self)@.contains(
                    q,
                )) by {
                    if old(self)@.contains(q) {
                        let k = choose|k: int| 0 <= k < old(self)@.len() && old(self)@[k] == q;
                        assert(self@[k] == q);
                    }
                    if self@.contains(q) {
                        let k = choose|k: int| 0 <= k < self@.len() && self@[k] == q;
                        assert(k < old(self)@.len());
                        assert(old(self)@[k] == q);
                    }
                }
            }
        }
    }

    /// An expired peer leaves the set, unless discovery still sees it.
    pub fn apply_expired(&mut self, peer: &str, still_reachable: bool)
        requires
            old(self).wf(),
        ensures
            final(self).wf(),
            still_reachable ==> final(self)@ == old(self)@,
            !still_reachable ==> !final(self)@.contains(peer@) && (forall|q: Seq<char>|
                q != peer@ ==> (final(self)@.contains(q) <==> old(self)@.contains(q))),
    {
        if still_reachable {
            return;
        }
        let mut out: Vec<String> = Vec::new();
        let mut i: usize = 0;
        while i < self.known_peers.len()
            invariant
                i <= self@.len(),
                self@ == old(self)@,
                old(self).wf(),
                !out@.map_values(|p: String| p@).contains(peer@),
                forall|q: Seq<char>|
                    q != peer@ ==> (out@.map_values(|p: String| p@).contains(q) <==> self@.take(
                        i as int,
                    ).contains(q)),
                out@.map_values(|p: String| p@).no_duplicates(),
            decreases self@.len() - i,
        {
            let ghost prev = out@.map_values(|p: String| p@);
            if !str_eq(self.known_peers[i].as_str(), peer) {
                proof {
                    assert(self@[i as int] == self.known_peers@[i as int]@);
                    if prev.contains(self@[i as int]) {
                        assert(self@.take(i as int).contains(self@[i as int]));
                        let tk0 = self@.take(i as int);
                        let kk = choose|kk: int| 0 <= kk < tk0.len() && tk0[kk] == self@[i as int];
                        assert(tk0[kk] == self@[kk]);
                        assert(false);
                    }
                    assert(prev.push(self@[i as int]).drop_last() =~= prev);
                }
                out.push(self.known_peers[i].clone());
                proof {
                    assert(out@.map_values(|p: String| p@) =~= prev.push(self@[i as int]));
                }
            }
            i = i + 1;
            proof {
                let cur = out@.map_values(|p: String| p@);
                let tk = self@.take(i as int);
                let tkp = self@.take(i - 1);
                assert(self@[i - 1] == self.known_peers@[i - 1]@);
                assert forall|q: Seq<char>| q != peer@ implies (cur.contains(q) <==> tk.contains(
                    q,
                )) by {
                    if cur.contains(q) {
                        let k = choose|k: int| 0 <= k < cur.len() && cur[k] == q;
                        if k < prev.len() {
                            assert(prev[k] == q);
                            assert(prev.contains(q));
                            assert(tkp.contains(q));
                            let m = choose|m: int| 0 <= m < tkp.len() && tkp[m] == q;
                            assert(tkp[m] == self@[m]);
                            assert(tk[m] == q);
                            assert(tk.contains(q));
                        } else {
                            assert(cur[k] == self@[i - 1]);
                            assert(tk[i - 1] == q);
                            assert(tk.contains(q));
                        }
                    }
                    if tk.contains(q) {
                        let m = choose|m: int| 0 <= m < tk.len() && tk[m] == q;
                        if m < i - 1 {
                            assert(tk[m] == self@[m]);
                            assert(tkp[m] == q);
                            assert(tkp.contains(q));
                            assert(prev.contains(q));
                            let k = choose|k: int| 0 <= k < prev.len() && prev[k] == q;
                            assert(cur[k] == q);
                            assert(cur.contains(q));
                        } else {
                            assert(q == self@[i - 1]);
                            assert(cur[cur.len() - 1] == q);
                            assert(cur.contains(q));
                        }
                    }
                }
            }
        }
        self.known_peers = out;
        proof {
            assert(old(self)@.take(old(self)@.len() as int) =~= old(self)@);
        }
    }

    /// The topic and payload that announce a newly mined block.
    pub fn broadcast_block(&self, block: Block) -> (r: (&'static str, Vec<u8>))
        ensures
            r.0@ == spec_topic_for(MessageView::NewBlock(block@)),
            r.1@ == enc_message(MessageView::NewBlock(block@)),
            message_fits(MessageView::NewBlock(block@)),
    {
        let message = WireMessage::NewBlock(block);
        (topic_for(&message), encode_message(&message))
    }

    /// The topic and payload that announce a new pending transaction.
    pub fn broadcast_transaction(&self, transaction: Transaction) -> (r: (&'static str, Vec<u8>))
        ensures
            r.0@ == spec_topic_for(MessageView::NewTransaction(transaction@)),
            r.1@ == enc_message(MessageView::NewTransaction(transaction@)),
            message_fits(MessageView::NewTransaction(transaction@)),
    {
        let message = WireMessage::NewTransaction(transaction);
        (topic_for(&message), encode_message(&message))
    }

    /// The topic and payload that ask peers for their chain.
    pub fn request_blockchain(&self) -> (r: (&'static str, Vec<u8>))
        ensures
            r.0@ == spec_topic_for(MessageView::ChainRequest),
            r.1@ == enc_message(MessageView::ChainRequest),
            message_fits(MessageView::ChainRequest),
    {
        let message = WireMessage::ChainRequest;
        (topic_for(&message), encode_message(&message))
    }

    /// The single transition the node's event loop takes per event. A
    /// decoded gossip message is handed back for reporting; it never alters
    /// the peer set, and malformed gossip yields nothing at all.
    pub fn handle_event(&mut self, event: NetworkEvent) -> (r: Option<WireMessage>)
        requires
            old(self).wf(),
        ensures
            final(self).wf(),
            match event {
                NetworkEvent::PeerDiscovered { peer } => {
                    &&& r is None
                    &&& final(self)@.contains(peer@)
                    &&& forall|q: Seq<char>|
                        q != peer@ ==> (final(self)@.contains(q) <==> old(self)@.contains(q))
                },
                NetworkEvent::PeerExpired { peer, still_reachable } => {
                    &&& r is None
                    &&& (still_reachable ==> final(self)@ == old(self)@)
                    &&& (!still_reachable ==> !final(self)@.contains(peer@) && (forall|q: Seq<char>|
                        q != peer@ ==> (final(self)@.contains(q) <==> old(self)@.contains(q))))
                },
                NetworkEvent::GossipReceived { data } => {
                    &&& final(self)@ == old(self)@
                    &&& match r {
                        Some(m) => dec_message(data@) == Some(m@),
                        None => dec_message(data@) is None,
                    }
                },
            },
    {
        match event {
            NetworkEvent::PeerDiscovered { peer } => {
                self.apply_discovered(peer);
                None
            },
            NetworkEvent::PeerExpired { peer, still_reachable } => {
                self.apply_expired(peer.as_str(), still_reachable);
                None
            },
            NetworkEvent::GossipReceived { data } => crate::wire::decode_message(&data),
        }
    }
}

} // verus!
