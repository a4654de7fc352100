//! PerConnection: one peer socket's fan-out bookkeeping, as decisions.
//!
//! The socket, the queues and the select loop live with the shell; what is
//! decided here is exactly what the loop does with each occurrence: which
//! bytes an outbound record becomes, which subscribers an inbound record
//! goes to, and which subscribers are pruned and signalled when a sink
//! closes or the peer goes away.

use vstd::prelude::*;

verus! {

/// Subscribers that survive a pruning: those whose token is not listed.
pub open spec fn retained(subs: Seq<u64>, closed: Seq<u64>) -> Seq<u64>
    decreases subs.len(),
{
    if subs.len() == 0 {
        subs
    } else if closed.contains(subs[0]) {
        retained(subs.skip(1), closed)
    } else {
        seq![subs[0]] + retained(subs.skip(1), closed)
    }
}

/// One more subscriber extends the survivors unless its token is listed.
proof fn lemma_retained_push(subs: Seq<u64>, closed: Seq<u64>, x: u64)
    ensures
        retained(subs.push(x), closed) == if closed.contains(x) {
            retained(subs, closed)
        } else {
            retained(subs, closed).push(x)
        },
    decreases subs.len(),
{
    if subs.len() == 0 {
        assert(subs.push(x)[0] == x);
        assert(subs.push(x).skip(1) =~= Seq::<u64>::empty());
        assert(retained(Seq::<u64>::empty(), closed) == Seq::<u64>::empty());
        if closed.contains(x) {
            assert(retained(subs.push(x), closed) =~= retained(subs, closed));
        } else {
            assert(retained(subs.push(x), closed) =~= retained(subs, closed).push(x));
        }
    } else {
        assert(subs.push(x).skip(1) =~= subs.skip(1).push(x));
        lemma_retained_push(subs.skip(1), closed, x);
        if closed.contains(x) {
            assert(retained(subs.push(x), closed) =~= retained(subs, closed));
        } else {
            assert(retained(subs.push(x), closed) =~= retained(subs, closed).push(x));
        }
    }
}

/// Whether a token is listed.
fn token_listed(tokens: &Vec<u64>, x: u64) -> (r: bool)
    ensures
        r == tokens@.contains(x),
{
    let n = tokens.len();
    let mut i: usize = 0;
    while i < n
        invariant
            i <= n,
            n == tokens@.len(),
            forall|j: int| 0 <= j < i ==> tokens@[j] != x,
        decreases n - i,
    {
        if tokens[i] == x {
            return true;
        }
        i = i + 1;
    }
    false
}

/// One peer connection's fan-out state: its address token and the
/// subscribers of its inbound records, each under a token the subscriber
/// keeps. Tokens are handed out in order and never reused.
#[derive(Debug)]
pub struct Connection {
    pub remote_address: u64,
    subscribers: Vec<u64>,
    next_token: u64,
}

impl Connection {
    /// The peer's address token.
    pub closed spec fn addr(&self) -> u64 {
        self.remote_address
    }

    /// The current subscribers, in subscription order.
    pub closed spec fn subs(&self) -> Seq<u64> {
        self.subscribers@
    }

    /// How many subscriber tokens have ever been handed out.
    pub closed spec fn tokens_issued(&self) -> u64 {
        self.next_token
    }

    /// Tokens already handed out stay below the next one.
    pub closed spec fn wf(&self) -> bool {
        forall|j: int| 0 <= j < self.subs().len() ==> self.subs()[j] < self.next_token
    }

    /// A connection for one peer, with no subscribers yet.
    pub fn new(remote_address: u64) -> (c: Self)
        ensures
            c.addr() == remote_address,
            c.subs() == Seq::<u64>::empty(),
            c.wf(),
    {
        Connection { remote_address, subscribers: Vec::new(), next_token: 0 }
    }

    /// Register one consumer of this connection's inbound records. The
    /// token returned is fresh: every later fan-out includes it until it
    /// is pruned.
    pub fn subscribe(&mut self) -> (token: u64)
        requires
            old(self).wf(),
            old(self).tokens_issued() < 0xffff_ffff_ffff_ffff,
        ensures
            final(self).wf(),
            final(self).subs() == old(self).subs().push(token),
            !old(self).subs().contains(token),
            final(self).addr() == old(self).addr(),
            final(self).tokens_issued() == old(self).tokens_issued() + 1,
    {
        let token = self.next_token;
        self.next_token = self.next_token + 1;
        self.subscribers.push(token);
        proof {
            if old(self).subs().contains(token) {
                let j = choose|j: int|
                    0 <= j < old(self).subs().len() && old(self).subs()[j] == token;
                assert(old(self).subs()[j] < token);
            }
        }
        token
    }

    /// The bytes one outbound record becomes on the socket: the record and
    /// exactly one terminating LF, written as one unit.
    pub fn outbound_bytes(&self, record: &Vec<u8>) -> (out: Vec<u8>)
        requires
            forall|j: int| 0 <= j < record@.len() ==> record@[j] != 10u8,
        ensures
            out@ == record@ + seq![10u8],
    {
        let codec = crate::linecodec::LineCodec::new();
        let mut out: Vec<u8> = Vec::new();
        codec.encode(record, &mut out);
        proof {
            assert(out@ =~= record@ + seq![10u8]);
        }
        out
    }

    /// One inbound record's deliveries: a copy to every current
    /// subscriber, in subscription order.
    pub fn broadcast(&self, record: &Vec<u8>) -> (outs: Vec<(u64, Vec<u8>)>)
        ensures
            crate::room::outs_view(outs@) == self.subs().map_values(
                |t: u64| (t, record@),
            ),
    {
        let ghost target = self.subs().map_values(|t: u64| (t, record@));
        let n = self.subscribers.len();
        let mut outs: Vec<(u64, Vec<u8>)> = Vec::new();
        let mut k: usize = 0;
        while k < n
            invariant
                k <= n,
                n == self.subs().len(),
                target == self.subs().map_values(|t: u64| (t, record@)),
                crate::room::outs_view(outs@) == target.take(k as int),
            decreases n - k,
        {
            outs.push((self.subscribers[k], record.clone()));
            proof {
                assert(target.take(k + 1) == target.take(k as int).push(target[k as int]));
                assert(target[k as int] == (self.subs()[k as int], record@));
                assert(crate::room::outs_view(outs@) =~= target.take(k + 1));
            }
            k = k + 1;
        }
        proof {
            assert(target.take(n as int) == target);
        }
        outs
    }

    /// Prune the subscribers whose sinks reported closed: they are
    /// dropped, in place, and it is exactly their disconnect signals the
    /// shell must fire. The others are kept, in order.
    pub fn prune_closed(&mut self, closed: &Vec<u64>)
        requires
            old(self).wf(),
        ensures
            final(self).wf(),
            final(self).subs() == retained(old(self).subs(), closed@),
            final(self).addr() == old(self).addr(),
    {
        let n = self.subscribers.len();
        let mut kept: Vec<u64> = Vec::new();
        let mut k: usize = 0;
        while k < n
            invariant
                k <= n,
                n == self.subs().len(),
                self.wf(),
                kept@ == retained(self.subs().take(k as int), closed@),
                forall|j: int| 0 <= j < kept@.len() ==> kept@[j] < self.next_token,
            decreases n - k,
        {
            proof {
                lemma_retained_push(self.subs().take(k as int), closed@, self.subs()[k as int]);
                assert(self.subs().take(k + 1) == self.subs().take(k as int).push(
                    self.subs()[k as int],
                ));
            }
            if !token_listed(closed, self.subscribers[k]) {
                kept.push(self.subscribers[k]);
            }
            k = k + 1;
        }
        proof {
            assert(self.subs().take(n as int) == self.subs());
        }
        self.subscribers = kept;
    }

    /// The peer is gone: every subscriber is dropped, and every one of
    /// them is owed a disconnect signal. Returns them in order.
    pub fn close_all(&mut self) -> (signalled: Vec<u64>)
        requires
            old(self).wf(),
        ensures
            final(self).wf(),
            final(self).subs() == Seq::<u64>::empty(),
            signalled@ == old(self).subs(),
            final(self).addr() == old(self).addr(),
    {
        let mut signalled: Vec<u64> = Vec::new();
        core::mem::swap(&mut signalled, &mut self.subscribers);
        signalled
    }
}

} // verus!
