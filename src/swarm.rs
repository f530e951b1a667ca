use vstd::prelude::*;

verus! {

/// Most peer sessions that run at once.
pub const CONN_LIMIT: usize = 50;

/// An IPv4 address and port.
pub type Peer = (u32, u16);

/// The peers waiting to be dialled, first come first served, and those with a session.
#[derive(Debug)]
pub struct Swarm {
    pub queue: Vec<Peer>,
    pub active: Vec<Peer>,
}

impl Swarm {
    /// No peer is active twice, and at most `CONN_LIMIT` are active.
    pub open spec fn wf(&self) -> bool {
        self.active@.no_duplicates() && self.active@.len() <= CONN_LIMIT
    }

    pub fn new() -> (r: Swarm)
        ensures
            r.wf(),
            r.queue@.len() == 0,
            r.active@.len() == 0,
    {
        Swarm { queue: Vec::new(), active: Vec::new() }
    }

    /// Queues the peers that a tracker gave, in order.
    pub fn add_peers(&mut self, peers: &Vec<Peer>)
        ensures
            final(self).queue@ == old(self).queue@ + peers@,
            final(self).active@ == old(self).active@,
    {
        let ghost q0 = self.queue@;
        let mut i: usize = 0;
        while i < peers.len()
            invariant
                i <= peers@.len(),
                self.queue@ == q0 + peers@.subrange(0, i as int),
                self.active@ == old(self).active@,
            decreases peers@.len() - i,
        {
            self.queue.push(peers[i]);
            i = i + 1;
            assert(self.queue@ =~= q0 + peers@.subrange(0, i as int));
        }
        assert(peers@.subrange(0, i as int) =~= peers@);
    }

    /// Whether `p` has a session.
    pub fn is_active(&self, p: Peer) -> (r: bool)
        ensures
            r == self.active@.contains(p),
    {
        let mut i: usize = 0;
        while i < self.active.len()
            invariant
                i <= self.active@.len(),
                forall|k: int| 0 <= k < i ==> self.active@[k] != p,
            decreases self.active@.len() - i,
        {
            if self.active[i].0 == p.0 && self.active[i].1 == p.1 {
                return true;
            }
            i = i + 1;
        }
        false
    }

    /// Takes the first queued peer without a session; those before it, which have one, are
    /// dropped. `None` once the queue holds none, and `None` with nothing changed while
    /// `CONN_LIMIT` sessions are active.
    pub fn try_claim_peer(&mut self) -> (r: Option<Peer>)
        requires
            old(self).wf(),
        ensures
            final(self).wf(),
            final(self).active@ == old(self).active@,
            old(self).active@.len() >= CONN_LIMIT ==> r is None && final(self).queue@ == old(
                self,
            ).queue@,
            r is None && old(self).active@.len() < CONN_LIMIT ==> final(self).queue@.len() == 0 && forall|k: int|
                0 <= k < old(self).queue@.len() ==> old(self).active@.contains(
                    #[trigger] old(self).queue@[k],
                ),
            r matches Some(p) ==> exists|j: int|
                0 <= j < old(self).queue@.len() && #[trigger] old(self).queue@[j] == p
                    && !old(self).active@.contains(p) && final(self).queue@ == old(
                    self,
                ).queue@.subrange(j + 1, old(self).queue@.len() as int) && forall|k: int|
                    0 <= k < j ==> old(self).active@.contains(#[trigger] old(self).queue@[k]),
    {
        if self.active.len() >= CONN_LIMIT {
            return None;
        }
        let ghost q0 = self.queue@;
        let mut j: usize = 0;
        while j < self.queue.len()
            invariant
                self.wf(),
                self.queue@ == q0,
                q0 == old(self).queue@,
                self.active@ == old(self).active@,
                old(self).active@.len() < CONN_LIMIT,
                j <= q0.len(),
                forall|k: int| 0 <= k < j ==> self.active@.contains(#[trigger] q0[k]),
            decreases q0.len() - j,
        {
            let p = self.queue[j];
            if !self.is_active(p) {
                let rest = tail_from(&self.queue, j + 1);
                self.queue = rest;
                assert(old(self).queue@[j as int] == p);
                return Some(p);
            }
            j = j + 1;
        }
        self.queue = Vec::new();
        None
    }

    /// Records a session with `p`; gives `false`, changing nothing, when it already has one
    /// or when `CONN_LIMIT` sessions are active.
    pub fn register_connection(&mut self, p: Peer) -> (r: bool)
        requires
            old(self).wf(),
        ensures
            final(self).wf(),
            final(self).queue@ == old(self).queue@,
            r == (!old(self).active@.contains(p) && old(self).active@.len() < CONN_LIMIT),
            r ==> final(self).active@ == old(self).active@.push(p),
            !r ==> final(self).active@ == old(self).active@,
    {
        if self.active.len() >= CONN_LIMIT || self.is_active(p) {
            return false;
        }
        self.active.push(p);
        true
    }

    /// Forgets the session with `p`.
    pub fn unregister_connection(&mut self, p: Peer)
        requires
            old(self).wf(),
        ensures
            final(self).wf(),
            final(self).queue@ == old(self).queue@,
            !final(self).active@.contains(p),
            forall|q: Peer| q != p ==> (final(self).active@.contains(q) <==> old(self).active@.contains(q)),
    {
        let mut i: usize = 0;
        while i < self.active.len()
            invariant
                i <= self.active@.len(),
                self.active@ == old(self).active@,
                self.queue@ == old(self).queue@,
                self.wf(),
                forall|k: int| 0 <= k < i ==> self.active@[k] != p,
            decreases self.active@.len() - i,
        {
            if self.active[i].0 == p.0 && self.active[i].1 == p.1 {
                let ghost a = self.active@;
                self.active.remove(i);
                proof {
                    assert(self.active@ =~= a.remove(i as int));
                    assert forall|x: int, y: int| 0 <= x < y < self.active@.len() implies self.active@[x] != self.active@[y] by {
                        let xx = if x < i { x } else { x + 1 };
                        let yy = if y < i { y } else { y + 1 };
                        assert(self.active@[x] == a[xx]);
                        assert(self.active@[y] == a[yy]);
                    }
                    assert forall|k: int| 0 <= k < self.active@.len() implies self.active@[k] != p by {
                        let kk = if k < i { k } else { k + 1 };
                        assert(self.active@[k] == a[kk]);
                    }
                    assert forall|q: Peer| q != p implies (self.active@.contains(q) <==> a.contains(q)) by {
                        if a.contains(q) {
                            let w = choose|w: int| 0 <= w < a.len() && a[w] == q;
                            assert(w != i);
                            let ww = if w < i { w } else { w - 1 };
                            assert(self.active@[ww] == q);
                        }
                    }
                }
                return;
            }
            i = i + 1;
        }
    }

    /// The orchestrator waits while the cap is reached or nobody is queued.
    pub fn must_wait_to_dial(&self) -> (r: bool)
        ensures
            r == (self.active@.len() >= CONN_LIMIT || self.queue@.len() == 0),
    {
        self.active.len() >= CONN_LIMIT || self.queue.len() == 0
    }

    /// The tracker driver waits while the cap is reached or peers are still queued.
    pub fn must_wait_to_announce(&self) -> (r: bool)
        ensures
            r == (self.active@.len() >= CONN_LIMIT || self.queue@.len() > 0),
    {
        self.active.len() >= CONN_LIMIT || self.queue.len() > 0
    }
}

/// The elements of `v` from `from` on.
fn tail_from(v: &Vec<Peer>, from: usize) -> (r: Vec<Peer>)
    requires
        from <= v@.len(),
    ensures
        r@ == v@.subrange(from as int, v@.len() as int),
{
    let mut out: Vec<Peer> = Vec::new();
    let mut i = from;
    while i < v.len()
        invariant
            from <= i <= v@.len(),
            out@ == v@.subrange(from as int, i as int),
        decreases v@.len() - i,
    {
        out.push(v[i]);
        i = i + 1;
        assert(out@ =~= v@.subrange(from as int, i as int));
    }
    out
}

} // verus!
