//! The chat shell's decisions: one peer's lifecycle, and the routing map.
//!
//! The shell accepts sockets, runs the ceremony, and pumps bytes; none of
//! that is here. What is decided here is when a peer is announced to the
//! room and when its departure is: `connected` exactly once, on a
//! successful ceremony, and `disconnected` exactly once, when a connected
//! peer's transport ends. The routing map holds exactly the announced
//! peers' identifiers.

use vstd::prelude::*;

use crate::room::{EventV, RoomEvent};

verus! {

/// Where one peer stands with the shell.
#[derive(Debug, Clone, PartialEq, Eq)]
pub enum PeerPhase {
    Joining,
    Joined,
    Departed,
}

/// What the shell observes about one peer.
#[derive(Debug, Clone, PartialEq, Eq)]
pub enum SessionEvent {
    Staged(Vec<u8>),
    ConnectionClosed,
}

/// The mathematical reading of a session event.
pub enum SessionEventV {
    Staged(Seq<u8>),
    ConnectionClosed,
}

impl View for SessionEvent {
    type V = SessionEventV;

    open spec fn view(&self) -> SessionEventV {
        match self {
            SessionEvent::Staged(name) => SessionEventV::Staged(name@),
            SessionEvent::ConnectionClosed => SessionEventV::ConnectionClosed,
        }
    }
}

/// How one session event moves the phase and what it announces.
pub open spec fn session_step(peer: u64, phase: PeerPhase, e: SessionEventV) -> (
    PeerPhase,
    Option<EventV>,
) {
    match (phase, e) {
        (PeerPhase::Joining, SessionEventV::Staged(name)) => (
            PeerPhase::Joined,
            Some(EventV::Connected(peer, name)),
        ),
        (PeerPhase::Joining, SessionEventV::ConnectionClosed) => (PeerPhase::Departed, None),
        (PeerPhase::Joined, SessionEventV::ConnectionClosed) => (
            PeerPhase::Departed,
            Some(EventV::Disconnected(peer)),
        ),
        (PeerPhase::Joined, SessionEventV::Staged(_)) => (PeerPhase::Joined, None),
        (PeerPhase::Departed, _) => (PeerPhase::Departed, None),
    }
}

/// The phase reached and the announcements made over a whole run of
/// session events, in order.
pub open spec fn session_run(peer: u64, es: Seq<SessionEventV>) -> (PeerPhase, Seq<EventV>)
    decreases es.len(),
{
    if es.len() == 0 {
        (PeerPhase::Joining, Seq::empty())
    } else {
        let (phase, out) = session_run(peer, es.drop_last());
        let (phase2, announce) = session_step(peer, phase, es.last());
        match announce {
            Some(a) => (phase2, out.push(a)),
            None => (phase2, out),
        }
    }
}

/// Law of the peer lifecycle: over any run, the shell announces at most a
/// `connected` followed by a `disconnected`, both for this peer. It never
/// announces `disconnected` first, never repeats either, and once a
/// connected peer's transport ends, the `disconnected` has been announced;
/// a peer may otherwise still be connected only while its session runs on.
pub proof fn lemma_session_announcements(peer: u64, es: Seq<SessionEventV>)
    ensures
        ({
            let (phase, out) = session_run(peer, es);
            &&& out.len() <= 2
            &&& out.len() >= 1 ==> (out[0] matches EventV::Connected(p, _) && p == peer)
            &&& out.len() == 2 ==> out[1] == EventV::Disconnected(peer)
            &&& (out.len() == 1 <==> phase == PeerPhase::Joined)
            &&& (phase == PeerPhase::Departed && out.len() > 0 ==> out.len() == 2)
            &&& (phase == PeerPhase::Joining ==> out.len() == 0)
        }),
    decreases es.len(),
{
    if es.len() > 0 {
        lemma_session_announcements(peer, es.drop_last());
    }
}

/// One peer's lifecycle, driven by the shell.
#[derive(Debug)]
pub struct PeerSession {
    pub peer: u64,
    pub phase: PeerPhase,
}

impl PeerSession {
    /// A session for one freshly accepted peer.
    pub fn new(peer: u64) -> (s: Self)
        ensures
            s.peer == peer,
            s.phase == PeerPhase::Joining,
    {
        PeerSession { peer, phase: PeerPhase::Joining }
    }

    /// Take one observation and hand back what to tell the room, if
    /// anything: exactly what `session_step` decides.
    pub fn handle(&mut self, event: SessionEvent) -> (announce: Option<RoomEvent>)
        ensures
            final(self).peer == old(self).peer,
            ({
                let (phase2, a) = session_step(old(self).peer, old(self).phase, event@);
                &&& final(self).phase == phase2
                &&& (match announce {
                    Some(ev) => a == Some(ev@),
                    None => a is None,
                })
            }),
    {
        match event {
            SessionEvent::Staged(name) => {
                match self.phase {
                    PeerPhase::Joining => {
                        self.phase = PeerPhase::Joined;
                        Some(RoomEvent::Connected(self.peer, name))
                    },
                    _ => None,
                }
            },
            SessionEvent::ConnectionClosed => {
                match self.phase {
                    PeerPhase::Joining => {
                        self.phase = PeerPhase::Departed;
                        None
                    },
                    PeerPhase::Joined => {
                        self.phase = PeerPhase::Departed;
                        Some(RoomEvent::Disconnected(self.peer))
                    },
                    PeerPhase::Departed => None,
                }
            },
        }
    }
}

/// The shell's routing map, reduced to what can be decided here: the set
/// of peer identifiers with a registered outbound sender. A peer is in it
/// exactly between its `connected` and `disconnected` announcements.
#[derive(Debug)]
pub struct RoutingTable {
    peers: Vec<u64>,
}

impl RoutingTable {
    /// The registered identifiers, in registration order.
    pub closed spec fn peers(&self) -> Seq<u64> {
        self.peers@
    }

    /// No identifier twice.
    pub open spec fn wf(&self) -> bool {
        forall|i: int, j: int|
            0 <= i < j < self.peers().len() ==> self.peers()[i] != self.peers()[j]
    }

    /// An empty table.
    pub fn new() -> (t: Self)
        ensures
            t.peers() == Seq::<u64>::empty(),
            t.wf(),
    {
        RoutingTable { peers: Vec::new() }
    }

    /// Whether a peer is registered.
    pub fn contains(&self, peer: u64) -> (r: bool)
        ensures
            r == self.peers().contains(peer),
    {
        let n = self.peers.len();
        let mut i: usize = 0;
        while i < n
            invariant
                i <= n,
                n == self.peers().len(),
                forall|j: int| 0 <= j < i ==> self.peers()[j] != peer,
            decreases n - i,
        {
            if self.peers[i] == peer {
                return true;
            }
            i = i + 1;
        }
        false
    }

    /// Register a peer; one already present is left as it is.
    pub fn register(&mut self, peer: u64)
        requires
            old(self).wf(),
        ensures
            final(self).wf(),
            final(self).peers() == if old(self).peers().contains(peer) {
                old(self).peers()
            } else {
                old(self).peers().push(peer)
            },
    {
        if !self.contains(peer) {
            self.peers.push(peer);
            proof {
                assert(forall|j: int|
                    0 <= j < old(self).peers().len() ==> self.peers()[j] == old(
                        self,
                    ).peers()[j]);
            }
        }
    }

    /// Remove a peer; an absent one is ignored.
    pub fn deregister(&mut self, peer: u64)
        requires
            old(self).wf(),
        ensures
            final(self).wf(),
            !final(self).peers().contains(peer),
            forall|x: u64|
                x != peer ==> (final(self).peers().contains(x) == old(self).peers().contains(
                    x,
                )),
    {
        let n = self.peers.len();
        let mut kept: Vec<u64> = Vec::new();
        let mut k: usize = 0;
        while k < n
            invariant
                k <= n,
                n == self.peers().len(),
                self.wf(),
                forall|j: int| 0 <= j < kept@.len() ==> kept@[j] != peer,
                forall|j: int| 0 <= j < kept@.len() ==> self.peers().contains(#[trigger] kept@[j]),
                forall|i: int, j: int| 0 <= i < j < kept@.len() ==> kept@[i] != kept@[j],
                forall|x: u64|
                    x != peer && self.peers().take(k as int).contains(x) ==> kept@.contains(x),
            decreases n - k,
        {
            let p = self.peers[k];
            let ghost kb = kept@;
            if p != peer {
                if !contains_in(&kept, p) {
                    kept.push(p);
                    proof {
                        lemma_contains_push(kb, p, p);
                        assert(forall|j: int| 0 <= j < kb.len() ==> kept@[j] == kb[j]);
                        assert(self.peers()[k as int] == p);
                        assert(self.peers().contains(p));
                    }
                }
            }
            proof {
                assert(kept@ == kb || kept@ == kb.push(p));
                assert forall|x: u64|
                    x != peer && self.peers().take(k + 1).contains(x) implies kept@.contains(
                    x,
                ) by {
                    let t1 = self.peers().take(k + 1);
                    let j0 = choose|j0: int| 0 <= j0 < t1.len() && t1[j0] == x;
                    if j0 < k as int {
                        assert(self.peers().take(k as int)[j0] == x);
                        assert(self.peers().take(k as int).contains(x));
                        assert(kb.contains(x));
                        if kept@ == kb.push(p) {
                            lemma_contains_push(kb, p, x);
                        }
                    } else {
                        assert(t1[j0] == self.peers()[k as int]);
                        assert(x == p);
                        assert(kept@.contains(p));
                    }
                }
            }
            k = k + 1;
        }
        proof {
            assert(self.peers().take(n as int) == self.peers());
        }
        self.peers = kept;
        proof {
            if final(self).peers().contains(peer) {
                let j0 = choose|j0: int|
                    0 <= j0 < final(self).peers().len() && final(self).peers()[j0] == peer;
            }
            assert forall|x: u64|
                x != peer && final(self).peers().contains(x) implies old(self).peers().contains(
                x,
            ) by {
                let j0 = choose|j0: int|
                    0 <= j0 < final(self).peers().len() && final(self).peers()[j0] == x;
            }
        }
    }

}

/// Whether a list holds an identifier.
fn contains_in(list: &Vec<u64>, peer: u64) -> (r: bool)
    ensures
        r == list@.contains(peer),
{
    let n = list.len();
    let mut i: usize = 0;
    while i < n
        invariant
            i <= n,
            n == list@.len(),
            forall|j: int| 0 <= j < i ==> list@[j] != peer,
        decreases n - i,
    {
        if list[i] == peer {
            return true;
        }
        i = i + 1;
    }
    false
}

/// Pushing keeps old elements and adds the new one.
proof fn lemma_contains_push(s: Seq<u64>, x: u64, y: u64)
    requires
        s.contains(y) || x == y,
    ensures
        s.push(x).contains(y),
{
    if s.contains(y) {
        let i = choose|i: int| 0 <= i < s.len() && s[i] == y;
        assert(s.push(x)[i] == y);
    } else {
        assert(s.push(x)[s.len() as int] == y);
    }
}

} // verus!
