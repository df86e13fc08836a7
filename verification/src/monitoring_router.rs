//! The liveness table: client address -> liveness-signal channel.
//!
//! The keep-alive listener forwards each received ping to the client's
//! streamer through the channel stored here. A later subscription from the
//! same address replaces the earlier channel (last subscription wins); a
//! client whose streamer has gone away is evicted on the first failed
//! forward.

use vstd::prelude::*;
use crate::messages::ClientAddress;

verus! {

/// One client's liveness-signal channel.
struct MonitorEntry {
    client: ClientAddress,
    tx: crossbeam_channel::Sender<()>,
}

/// The liveness table; forwards ping signals to per-client streamers.
pub struct MonitoringRouter {
    entries: Vec<MonitorEntry>,
}

impl MonitoringRouter {
    /// True when client `c` has a liveness route.
    pub closed spec fn has_route(self, c: ClientAddress) -> bool {
        exists|i: int| 0 <= i < self.entries@.len() && self.entries@[i].client == c
    }

    /// Well-formedness: one entry per client.
    pub closed spec fn wf(self) -> bool {
        forall|i: int, j: int|
            0 <= i < j < self.entries@.len() ==> self.entries@[i].client
                != self.entries@[j].client
    }

    /// A fresh, empty table.
    pub fn new() -> (r: MonitoringRouter)
        ensures
            r.wf(),
            forall|c: ClientAddress| !r.has_route(c),
    {
        MonitoringRouter { entries: Vec::new() }
    }

    /// Finds the entry index of a client, if present.
    fn find(&self, c: &ClientAddress) -> (r: Option<usize>)
        ensures
            match r {
                Some(i) => i < self.entries@.len() && self.entries@[i as int].client == *c,
                None => !self.has_route(*c),
            },
    {
        let mut i: usize = 0;
        while i < self.entries.len()
            invariant
                i <= self.entries@.len(),
                forall|k: int| 0 <= k < i ==> self.entries@[k].client != *c,
            decreases self.entries@.len() - i,
        {
            if self.entries[i].client == *c {
                return Some(i);
            }
            i += 1;
        }
        None
    }

    /// Removes the entry at `i`, which must be the only one for its client.
    #[verifier::loop_isolation(false)]
    fn remove_at(&mut self, i: usize)
        requires
            old(self).wf(),
            i < old(self).entries@.len(),
        ensures
            final(self).wf(),
            !final(self).has_route(old(self).entries@[i as int].client),
            forall|c: ClientAddress|
                c != old(self).entries@[i as int].client ==> final(self).has_route(c) == old(
                    self,
                ).has_route(c),
    {
        let ghost r0 = *self;
        let ghost gone = old(self).entries@[i as int].client;
        self.entries.swap_remove(i);
        proof {
            let pre = r0.entries@;
            let post = self.entries@;
            assert(post == pre.update(i as int, pre[pre.len() - 1]).drop_last());
            assert forall|j1: int, j2: int|
                0 <= j1 < j2 < post.len() implies post[j1].client != post[j2].client by {
                let a1: int = if j1 == i as int && pre.len() - 1 != i as int {
                    pre.len() - 1
                } else {
                    j1
                };
                let a2: int = if j2 == i as int && pre.len() - 1 != i as int {
                    pre.len() - 1
                } else {
                    j2
                };
                assert(post[j1] == pre[a1]);
                assert(post[j2] == pre[a2]);
            }
            assert forall|k: int| 0 <= k < post.len() implies post[k].client != gone by {
                if k == i as int {
                    if pre.len() - 1 != i as int {
                        assert(post[k] == pre[pre.len() - 1]);
                    }
                } else {
                    assert(post[k] == pre[k]);
                }
            }
            assert forall|c: ClientAddress| c != gone implies self.has_route(c) == r0.has_route(
                c,
            ) by {
                if r0.has_route(c) {
                    let k = choose|k: int| 0 <= k < pre.len() && pre[k].client == c;
                    if k == pre.len() - 1 {
                        assert(k != i as int);
                        assert(post[i as int] == pre[k]);
                    } else {
                        assert(post[k] == pre[k]);
                    }
                    assert(self.has_route(c));
                }
                if self.has_route(c) {
                    let k = choose|k: int| 0 <= k < post.len() && post[k].client == c;
                    if k == i as int && pre.len() - 1 != i as int {
                        assert(post[k] == pre[pre.len() - 1]);
                    } else {
                        assert(post[k] == pre[k]);
                    }
                    assert(r0.has_route(c));
                }
            }
        }
    }

    /// Registers a client's liveness channel; a prior entry for the same
    /// address is replaced (last subscription wins).
    pub fn add_route(&mut self, address: ClientAddress, monitoring_tx: crossbeam_channel::Sender<
        (),
    >)
        requires
            old(self).wf(),
        ensures
            final(self).wf(),
            final(self).has_route(address),
            forall|c: ClientAddress|
                c != address ==> final(self).has_route(c) == old(self).has_route(c),
    {
        let ghost r0 = *self;
        match self.find(&address) {
            Some(i) => {
                self.remove_at(i);
            }
            None => {
            }
        }
        let ghost r1 = *self;
        self.entries.push(MonitorEntry { client: address, tx: monitoring_tx });
        proof {
            let post = self.entries@;
            assert(post == r1.entries@.push(post[post.len() - 1]));
            assert(post[post.len() - 1].client == address);
            assert forall|j1: int, j2: int|
                0 <= j1 < j2 < post.len() implies post[j1].client != post[j2].client by {
                if j2 == post.len() - 1 {
                    assert(post[j1] == r1.entries@[j1]);
                    assert(r1.has_route(post[j1].client));
                } else {
                    assert(post[j1] == r1.entries@[j1]);
                    assert(post[j2] == r1.entries@[j2]);
                }
            }
            assert forall|c: ClientAddress| c != address implies self.has_route(c)
                == r1.has_route(c) by {
                if r1.has_route(c) {
                    let k = choose|k: int|
                        0 <= k < r1.entries@.len() && r1.entries@[k].client == c;
                    assert(post[k].client == c);
                }
                if self.has_route(c) {
                    let k = choose|k: int| 0 <= k < post.len() && post[k].client == c;
                    assert(k < r1.entries@.len());
                    assert(r1.entries@[k].client == c);
                }
            }
        }
    }

    /// Forwards one liveness signal to the client's streamer. A missing
    /// entry is a silent no-op; an entry whose receiver has gone away is
    /// evicted within the same call. Whether the forward succeeds depends
    /// on the receiving thread, so the contract allows both outcomes.
    pub fn send_ping(&mut self, address: &ClientAddress)
        requires
            old(self).wf(),
        ensures
            final(self).wf(),
            forall|c: ClientAddress|
                c != *address ==> final(self).has_route(c) == old(self).has_route(c),
            final(self).has_route(*address) ==> old(self).has_route(*address),
            !old(self).has_route(*address) ==> final(self).has_route(*address) == old(
                self,
            ).has_route(*address),
    {
        match self.find(address) {
            None => {
            }
            Some(i) => {
                let alive = {
                    let e = &self.entries[i];
                    crate::channels::channel_send(&e.tx, ()).is_ok()
                };
                if !alive {
                    proof {
                        assert(self.entries@[i as int].client == *address);
                    }
                    self.remove_at(i);
                }
            }
        }
    }

    /// Drops the client's liveness route, if it has one.
    pub fn delete(&mut self, address: &ClientAddress)
        requires
            old(self).wf(),
        ensures
            final(self).wf(),
            !final(self).has_route(*address),
            forall|c: ClientAddress|
                c != *address ==> final(self).has_route(c) == old(self).has_route(c),
    {
        match self.find(address) {
            None => {
            }
            Some(i) => {
                proof {
                    assert(self.entries@[i as int].client == *address);
                }
                self.remove_at(i);
            }
        }
    }
}

} // verus!
