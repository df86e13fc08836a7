//! The subscription table: ticker -> subscribers, with a reverse index.
//!
//! The router keeps two tables that must stay consistent: `routes` maps each
//! ticker to the clients subscribed to it (each with its delivery channel),
//! and `client_tickers` maps each client back to the tickers it subscribed
//! to. Every operation preserves well-formedness, whose heart is the
//! consistency law: a client sits in a ticker's bucket exactly when that
//! ticker sits in the client's reverse entry.
//!
//! The binaries share one router behind a reader/writer lock of their own;
//! this crate verifies the single-owner table the lock protects.

use vstd::prelude::*;
use crate::messages::{ClientAddress, StockQuote};

verus! {

/// One subscriber of one ticker, with its delivery channel.
struct Subscriber {
    client: ClientAddress,
    tx: crossbeam_channel::Sender<StockQuote>,
}

/// One ticker's subscriber table.
struct TickerBucket {
    ticker: String,
    subs: Vec<Subscriber>,
}

/// One client's subscribed tickers, in subscription order, duplicates kept.
struct ClientEntry {
    client: ClientAddress,
    tickers: Vec<String>,
}

/// The subscription table; fan-out of one quote to its subscribers;
/// subscriber removal.
pub struct TickersRouter {
    routes: Vec<TickerBucket>,
    client_tickers: Vec<ClientEntry>,
}

/// The set of clients in one bucket's subscriber list.
spec fn bucket_clients(subs: Seq<Subscriber>) -> Set<ClientAddress> {
    Set::new(|c: ClientAddress| exists|j: int| 0 <= j < subs.len() && subs[j].client == c)
}

/// The set of clients in a reverse-index table.
spec fn entry_clients(entries: Seq<ClientEntry>) -> Set<ClientAddress> {
    Set::new(|c: ClientAddress| exists|m: int| 0 <= m < entries.len() && entries[m].client == c)
}

/// The (client, subscribed tickers) pairs of a reverse-index table.
spec fn entry_pairs(entries: Seq<ClientEntry>) -> Set<(ClientAddress, Seq<Seq<char>>)> {
    Set::new(
        |p: (ClientAddress, Seq<Seq<char>>)|
            exists|m: int|
                0 <= m < entries.len() && entries[m].client == p.0 && entries[
                    m
                ].tickers.deep_view() == p.1,
    )
}

impl TickersRouter {
    /// True when some bucket carries ticker `t`.
    pub closed spec fn has_ticker(self, t: Seq<char>) -> bool {
        exists|i: int| 0 <= i < self.routes@.len() && self.routes@[i].ticker@ == t
    }

    /// The index of ticker `t`'s bucket (meaningful under `wf`).
    spec fn route_idx(self, t: Seq<char>) -> int {
        choose|i: int| 0 <= i < self.routes@.len() && self.routes@[i].ticker@ == t
    }

    /// The set of clients subscribed to ticker `t`.
    pub closed spec fn subscribers(self, t: Seq<char>) -> Set<ClientAddress> {
        if self.has_ticker(t) {
            bucket_clients(self.routes@[self.route_idx(t)].subs@)
        } else {
            Set::empty()
        }
    }

    /// True when client `c` has a reverse-index entry.
    pub closed spec fn has_client(self, c: ClientAddress) -> bool {
        exists|i: int|
            0 <= i < self.client_tickers@.len() && self.client_tickers@[i].client == c
    }

    /// The index of client `c`'s reverse entry (meaningful under `wf`).
    spec fn client_idx(self, c: ClientAddress) -> int {
        choose|i: int|
            0 <= i < self.client_tickers@.len() && self.client_tickers@[i].client == c
    }

    /// The tickers client `c` subscribed to, in order, duplicates kept.
    pub closed spec fn client_tickers_of(self, c: ClientAddress) -> Seq<Seq<char>> {
        if self.has_client(c) {
            self.client_tickers@[self.client_idx(c)].tickers.deep_view()
        } else {
            Seq::empty()
        }
    }

    /// No two buckets carry the same ticker.
    spec fn route_keys_unique(self) -> bool {
        forall|i: int, j: int|
            0 <= i < j < self.routes@.len() ==> self.routes@[i].ticker@ != self.routes@[j].ticker@
    }

    /// No two reverse entries carry the same client.
    spec fn client_keys_unique(self) -> bool {
        forall|i: int, j: int|
            0 <= i < j < self.client_tickers@.len() ==> self.client_tickers@[i].client
                != self.client_tickers@[j].client
    }

    /// No bucket lists the same client twice.
    spec fn buckets_unique(self) -> bool {
        forall|i: int, j1: int, j2: int|
            0 <= i < self.routes@.len() && 0 <= j1 < j2 < self.routes@[i].subs@.len()
                ==> self.routes@[i].subs@[j1].client != self.routes@[i].subs@[j2].client
    }

    /// Every bucket member's reverse entry lists the bucket's ticker.
    spec fn forward_consistent(self) -> bool {
        forall|i: int, j: int|
            0 <= i < self.routes@.len() && 0 <= j < self.routes@[i].subs@.len()
                ==> self.client_tickers_of(
                (#[trigger] self.routes@[i].subs@[j]).client,
            ).contains(self.routes@[i].ticker@)
    }

    /// Every ticker in a reverse entry has a bucket holding that client.
    spec fn reverse_consistent(self) -> bool {
        forall|i: int, j: int|
            0 <= i < self.client_tickers@.len() && 0 <= j
                < self.client_tickers@[i].tickers@.len() ==> {
                let t = (#[trigger] self.client_tickers@[i].tickers@[j])@;
                self.has_ticker(t) && self.subscribers(t).contains(
                    self.client_tickers@[i].client,
                )
            }
    }

    /// Well-formedness: unique keys and a consistent pair of tables.
    pub closed spec fn wf(self) -> bool {
        &&& self.route_keys_unique()
        &&& self.client_keys_unique()
        &&& self.buckets_unique()
        &&& self.forward_consistent()
        &&& self.reverse_consistent()
    }

    /// Under unique keys, the bucket found for a ticker is the only one.
    proof fn lemma_route_idx_of(self, i: int)
        requires
            self.route_keys_unique(),
            0 <= i < self.routes@.len(),
        ensures
            self.has_ticker(self.routes@[i].ticker@),
            self.route_idx(self.routes@[i].ticker@) == i,
    {
        let t = self.routes@[i].ticker@;
        assert(self.has_ticker(t));
        let k = self.route_idx(t);
        assert(0 <= k < self.routes@.len() && self.routes@[k].ticker@ == t);
        if k < i {
            assert(self.routes@[k].ticker@ != self.routes@[i].ticker@);
        } else if i < k {
            assert(self.routes@[i].ticker@ != self.routes@[k].ticker@);
        }
    }

    /// Under unique keys, the reverse entry found for a client is the only
    /// one.
    proof fn lemma_client_idx_of(self, i: int)
        requires
            self.client_keys_unique(),
            0 <= i < self.client_tickers@.len(),
        ensures
            self.has_client(self.client_tickers@[i].client),
            self.client_idx(self.client_tickers@[i].client) == i,
    {
        let c = self.client_tickers@[i].client;
        assert(self.has_client(c));
        let k = self.client_idx(c);
        assert(0 <= k < self.client_tickers@.len() && self.client_tickers@[k].client == c);
        if k < i {
            assert(self.client_tickers@[k].client != self.client_tickers@[i].client);
        } else if i < k {
            assert(self.client_tickers@[i].client != self.client_tickers@[k].client);
        }
    }

    /// A fresh, empty router.
    pub fn new() -> (r: TickersRouter)
        ensures
            r.wf(),
            forall|t: Seq<char>| r.subscribers(t) == Set::<ClientAddress>::empty(),
            forall|t: Seq<char>| !r.has_ticker(t),
            forall|c: ClientAddress| !r.has_client(c),
            forall|c: ClientAddress| r.client_tickers_of(c) == Seq::<Seq<char>>::empty(),
    {
        TickersRouter { routes: Vec::new(), client_tickers: Vec::new() }
    }
}

/// Law: route consistency. In every well-formed router state — and every
/// state reachable by the router's operations is well-formed — a client is
/// in a ticker's subscriber set exactly when that ticker is in the client's
/// reverse entry.
pub proof fn lemma_route_consistency(r: TickersRouter, t: Seq<char>, c: ClientAddress)
    requires
        r.wf(),
    ensures
        r.subscribers(t).contains(c) <==> r.client_tickers_of(c).contains(t),
{
    if r.subscribers(t).contains(c) {
        let i = r.route_idx(t);
        let j = choose|j: int| 0 <= j < r.routes@[i].subs@.len() && r.routes@[i].subs@[j].client
            == c;
        assert(r.client_tickers_of(r.routes@[i].subs@[j].client).contains(r.routes@[i].ticker@));
    }
    if r.client_tickers_of(c).contains(t) {
        assert(r.has_client(c));
        let i = r.client_idx(c);
        let dv = r.client_tickers@[i].tickers.deep_view();
        let j = choose|j: int| 0 <= j < dv.len() && dv[j] == t;
        assert(dv[j] == r.client_tickers@[i].tickers@[j]@);
        assert(r.subscribers(r.client_tickers@[i].tickers@[j]@).contains(
            r.client_tickers@[i].client,
        ));
    }
}

/// A client without a reverse entry has no recorded tickers.
pub proof fn lemma_no_client_no_tickers(r: TickersRouter, c: ClientAddress)
    requires
        !r.has_client(c),
    ensures
        r.client_tickers_of(c) == Seq::<Seq<char>>::empty(),
{
}

/// Law: no leak. A client that is in no reverse entry — as every client a
/// streamer returned is, once the supervisor has evicted it — is in no
/// ticker's subscriber set, so quote fan-out (which enqueues only to the
/// quote's ticker's subscribers) never enqueues to it.
pub proof fn lemma_no_leak(r: TickersRouter, t: Seq<char>, c: ClientAddress)
    requires
        r.wf(),
        !r.has_client(c),
    ensures
        !r.subscribers(t).contains(c),
{
    lemma_route_consistency(r, t, c);
}

impl TickersRouter {
    /// Finds the bucket index of a ticker, if present.
    fn find_route(&self, t: &String) -> (r: Option<usize>)
        ensures
            match r {
                Some(i) => i < self.routes@.len() && self.routes@[i as int].ticker@ == t@,
                None => !self.has_ticker(t@),
            },
    {
        let mut i: usize = 0;
        while i < self.routes.len()
            invariant
                i <= self.routes@.len(),
                forall|k: int| 0 <= k < i ==> self.routes@[k].ticker@ != t@,
            decreases self.routes@.len() - i,
        {
            if self.routes[i].ticker == *t {
                return Some(i);
            }
            i += 1;
        }
        None
    }

    /// Finds the reverse-entry index of a client, if present.
    fn find_client(&self, c: &ClientAddress) -> (r: Option<usize>)
        ensures
            match r {
                Some(i) => i < self.client_tickers@.len() && self.client_tickers@[i as int].client
                    == *c,
                None => !self.has_client(*c),
            },
    {
        let mut i: usize = 0;
        while i < self.client_tickers.len()
            invariant
                i <= self.client_tickers@.len(),
                forall|k: int| 0 <= k < i ==> self.client_tickers@[k].client != *c,
            decreases self.client_tickers@.len() - i,
        {
            if self.client_tickers[i].client == *c {
                return Some(i);
            }
            i += 1;
        }
        None
    }

    /// Registers one (ticker, client) route: puts the client (with a clone
    /// of `tx`) into the ticker's bucket, creating the bucket if need be,
    /// and appends the ticker to the client's reverse entry.
    #[verifier::rlimit(100)]
    fn add_one_route(
        &mut self,
        t: &String,
        tx: &crossbeam_channel::Sender<StockQuote>,
        client_address: ClientAddress,
    )
        requires
            old(self).wf(),
        ensures
            final(self).wf(),
            forall|u: Seq<char>|
                final(self).subscribers(u) == (if u == t@ {
                    old(self).subscribers(u).insert(client_address)
                } else {
                    old(self).subscribers(u)
                }),
            final(self).client_tickers_of(client_address) == old(self).client_tickers_of(
                client_address,
            ).push(t@),
            forall|c: ClientAddress|
                c != client_address ==> final(self).client_tickers_of(c) == old(
                    self,
                ).client_tickers_of(c) && final(self).has_client(c) == old(self).has_client(c),
            final(self).has_client(client_address),
            forall|u: Seq<char>|
                final(self).has_ticker(u) == (old(self).has_ticker(u) || u == t@),
    {
        let ghost r0 = *self;
        // Phase 1: make sure the ticker's bucket exists.
        let bi = match self.find_route(t) {
            Some(i) => i,
            None => {
                let i = self.routes.len();
                self.routes.push(TickerBucket { ticker: t.clone(), subs: Vec::new() });
                i
            }
        };
        let ghost r1 = *self;
        proof {
            // The bucket list either stayed or grew by one fresh, empty
            // bucket; key uniqueness carries over.
            assert(r1.routes@[bi as int].ticker@ == t@);
            assert(r1.client_tickers@ == r0.client_tickers@);
            assert forall|i: int, j: int| 0 <= i < j < r1.routes@.len() implies r1.routes@[
                i
            ].ticker@ != r1.routes@[j].ticker@ by {
                if j < r0.routes@.len() {
                } else {
                    assert(r1.routes@[i] == r0.routes@[i]);
                }
            }
            r1.lemma_route_idx_of(bi as int);
            assert(r1.route_idx(t@) == bi as int);
            // Subscriber sets are untouched: old buckets kept their spot,
            // and a fresh bucket is empty.
            assert forall|u: Seq<char>| r1.subscribers(u) == r0.subscribers(u) by {
                if r0.has_ticker(u) {
                    let i = r0.route_idx(u);
                    assert(r0.routes@[i].ticker@ == u);
                    assert(r1.routes@[i] == r0.routes@[i]);
                    r1.lemma_route_idx_of(i);
                    r0.lemma_route_idx_of(i);
                } else if r1.has_ticker(u) {
                    let i = r1.route_idx(u);
                    assert(0 <= i < r1.routes@.len() && r1.routes@[i].ticker@ == u);
                    assert(i == r0.routes@.len());
                    assert(r1.routes@[i].subs@.len() == 0);
                    assert(bucket_clients(r1.routes@[i].subs@) =~= Set::<ClientAddress>::empty());
                }
            }
            assert forall|u: Seq<char>| r1.has_ticker(u) == (r0.has_ticker(u) || u == t@) by {
                if r1.has_ticker(u) {
                    let i = r1.route_idx(u);
                    if i < r0.routes@.len() {
                        assert(r0.has_ticker(u));
                    }
                }
                if r0.has_ticker(u) {
                    let i = r0.route_idx(u);
                    assert(r1.routes@[i] == r0.routes@[i]);
                    assert(r1.has_ticker(u));
                }
            }
        }
        // Phase 2: put the client into the bucket, replacing any old entry.
        let bucket = &mut self.routes[bi];
        let ghost subs0 = bucket.subs@;
        let mut j: usize = 0;
        let mut found: bool = false;
        while j < bucket.subs.len() && !found
            invariant
                j <= bucket.subs@.len(),
                bucket.subs@ == subs0,
                found ==> j < bucket.subs@.len() && bucket.subs@[j as int].client
                    == client_address,
                !found ==> forall|k: int| 0 <= k < j ==> bucket.subs@[k].client
                    != client_address,
            decreases bucket.subs@.len() - j, (if found { 0int } else { 1int }),
        {
            if bucket.subs[j].client == client_address {
                found = true;
            } else {
                j += 1;
            }
        }
        let ghost subs_had_client = found;
        let ghost jg = j as int;
        if found {
            bucket.subs.swap_remove(j);
        }
        let ghost subs1 = bucket.subs@;
        bucket.subs.push(Subscriber { client: client_address, tx: crate::channels::clone_sender(tx) });
        let ghost r2 = *self;
        proof {
            // After the upsert the bucket's client set gained exactly
            // `client_address`, and per-bucket uniqueness still holds.
            assert(r2.routes@ == r1.routes@.update(bi as int, r2.routes@[bi as int]));
            assert(r2.routes@[bi as int].ticker@ == t@);
            assert(r2.routes@.len() == r1.routes@.len());
            assert forall|i: int| 0 <= i < r1.routes@.len() && i != bi as int implies r2.routes@[
                i
            ] == r1.routes@[i] by {}
            let bsubs = r2.routes@[bi as int].subs@;
            // Per-bucket uniqueness inside the changed bucket.
            assert(r1.buckets_unique()) by {
                assert forall|i: int, j1: int, j2: int|
                    0 <= i < r1.routes@.len() && 0 <= j1 < j2 < r1.routes@[i].subs@.len() implies
                    r1.routes@[i].subs@[j1].client != r1.routes@[i].subs@[j2].client by {
                    if i < r0.routes@.len() {
                        assert(r1.routes@[i] == r0.routes@[i]);
                    }
                }
            }
            if subs_had_client {
                // One occurrence removed, so the client is gone from subs1.
                assert(subs1 == subs0.update(jg, subs0[subs0.len() - 1]).drop_last());
                assert forall|k: int| 0 <= k < subs1.len() implies subs1[k].client
                    != client_address by {
                    if k == jg {
                        if subs0.len() - 1 != jg {
                            assert(subs1[k] == subs0[subs0.len() - 1]);
                            assert(subs0[jg].client == client_address);
                        }
                    } else {
                        assert(subs1[k] == subs0[k]);
                        assert(subs0[jg].client == client_address);
                    }
                }
                // Removal kept every other client.
                assert forall|c: ClientAddress| c != client_address implies (
                    bucket_clients(subs1).contains(c) == bucket_clients(subs0).contains(c)) by {
                    if bucket_clients(subs0).contains(c) {
                        let k = choose|k: int| 0 <= k < subs0.len() && subs0[k].client == c;
                        if k == subs0.len() - 1 {
                            assert(k != jg);
                            assert(subs1[jg] == subs0[subs0.len() - 1]);
                        } else {
                            assert(subs1[k] == subs0.update(jg, subs0[subs0.len() - 1])[k]);
                        }
                        assert(bucket_clients(subs1).contains(c));
                    }
                    if bucket_clients(subs1).contains(c) {
                        let k = choose|k: int| 0 <= k < subs1.len() && subs1[k].client == c;
                        if k == jg {
                            assert(subs1[k] == subs0[subs0.len() - 1]);
                        } else {
                            assert(subs1[k] == subs0[k]);
                        }
                        assert(bucket_clients(subs0).contains(c));
                    }
                }
            } else {
                assert(subs1 == subs0);
                assert forall|k: int| 0 <= k < subs1.len() implies subs1[k].client
                    != client_address by {}
            }
            // The push puts the client in; everyone else is as before.
            assert(bsubs == subs1.push(
                Subscriber { client: client_address, tx: r2.routes@[bi as int].subs@[
                    bsubs.len() - 1
                ].tx },
            ));
            assert(bucket_clients(bsubs) =~= bucket_clients(subs0).insert(client_address)) by {
                assert forall|c: ClientAddress| bucket_clients(bsubs).contains(c) implies
                    bucket_clients(subs0).insert(client_address).contains(c) by {
                    let k = choose|k: int| 0 <= k < bsubs.len() && bsubs[k].client == c;
                    if k < subs1.len() {
                        assert(bsubs[k] == subs1[k]);
                        assert(bucket_clients(subs1).contains(c));
                        if c != client_address {
                            assert(bucket_clients(subs0).contains(c));
                        }
                    }
                }
                assert forall|c: ClientAddress|
                    bucket_clients(subs0).insert(client_address).contains(c) implies
                    bucket_clients(bsubs).contains(c) by {
                    if c == client_address {
                        assert(bsubs[bsubs.len() - 1].client == c);
                    } else {
                        assert(bucket_clients(subs0).contains(c));
                        assert(bucket_clients(subs1).contains(c));
                        let k = choose|k: int| 0 <= k < subs1.len() && subs1[k].client == c;
                        assert(bsubs[k] == subs1[k]);
                    }
                }
            }
            // Bucket uniqueness in the changed bucket: the client was absent
            // from subs1, and subs1 itself was duplicate-free.
            assert forall|j1: int, j2: int| 0 <= j1 < j2 < bsubs.len() implies bsubs[j1].client
                != bsubs[j2].client by {
                if j2 == bsubs.len() - 1 {
                    assert(bsubs[j1] == subs1[j1]);
                } else {
                    assert(bsubs[j1] == subs1[j1]);
                    assert(bsubs[j2] == subs1[j2]);
                    if subs_had_client {
                        lemma_swap_remove_pairwise(subs0, subs1, jg, j1, j2);
                    }
                }
            }
            // Subscriber sets pointwise: only t@ gained the client.
            r2.lemma_route_idx_of(bi as int);
            assert forall|u: Seq<char>|
                r2.subscribers(u) == (if u == t@ {
                    r1.subscribers(u).insert(client_address)
                } else {
                    r1.subscribers(u)
                }) by {
                if u == t@ {
                    assert(r2.subscribers(u) == bucket_clients(bsubs));
                    assert(r1.subscribers(u) == bucket_clients(subs0));
                } else {
                    if r1.has_ticker(u) {
                        let i = r1.route_idx(u);
                        assert(i != bi as int);
                        assert(r2.routes@[i] == r1.routes@[i]);
                        r2.lemma_route_idx_of(i);
                        r1.lemma_route_idx_of(i);
                    } else {
                        assert(!r2.has_ticker(u)) by {
                            if r2.has_ticker(u) {
                                let i = r2.route_idx(u);
                                assert(r1.routes@[i].ticker@ == u);
                            }
                        }
                    }
                }
            }
            assert forall|u: Seq<char>| r2.has_ticker(u) == r1.has_ticker(u) by {
                if r1.has_ticker(u) {
                    let i = r1.route_idx(u);
                    assert(r2.routes@[i].ticker@ == u);
                }
                if r2.has_ticker(u) {
                    let i = r2.route_idx(u);
                    assert(r1.routes@[i].ticker@ == u);
                }
            }
            assert(r2.client_tickers@ == r0.client_tickers@);
        }
        // Phase 3: append the ticker to the client's reverse entry.
        let ci = match self.find_client(&client_address) {
            Some(i) => i,
            None => {
                let i = self.client_tickers.len();
                self.client_tickers.push(
                    ClientEntry { client: client_address, tickers: Vec::new() },
                );
                i
            }
        };
        let ghost r3 = *self;
        proof {
            assert(r3.routes@ == r2.routes@);
            assert(r3.client_tickers@[ci as int].client == client_address);
            assert forall|i: int, j: int| 0 <= i < j < r3.client_tickers@.len() implies
                r3.client_tickers@[i].client != r3.client_tickers@[j].client by {
                if j < r0.client_tickers@.len() {
                } else {
                    assert(r3.client_tickers@[i] == r0.client_tickers@[i]);
                }
            }
            r3.lemma_client_idx_of(ci as int);
        }
        let entry = &mut self.client_tickers[ci];
        let ghost ticks0 = entry.tickers@;
        entry.tickers.push(t.clone());
        let ghost r4 = *self;
        proof {
            assert(r4.client_tickers@ == r3.client_tickers@.update(
                ci as int,
                r4.client_tickers@[ci as int],
            ));
            assert(r4.routes@ == r2.routes@);
            assert(r4.client_tickers@[ci as int].client == client_address);
            assert(r4.client_tickers@[ci as int].tickers@ == ticks0.push(
                r4.client_tickers@[ci as int].tickers@[ticks0.len() as int],
            ));
            assert(r4.client_tickers@[ci as int].tickers@[ticks0.len() as int]@ == t@);
            assert forall|i: int, j: int| 0 <= i < j < r4.client_tickers@.len() implies
                r4.client_tickers@[i].client != r4.client_tickers@[j].client by {
                assert(r4.client_tickers@[i].client == r3.client_tickers@[i].client);
                assert(r4.client_tickers@[j].client == r3.client_tickers@[j].client);
            }
            r4.lemma_client_idx_of(ci as int);
            // The reverse entry of the client is the old one plus t@; other
            // clients' entries are untouched.
            let newdv = r4.client_tickers@[ci as int].tickers.deep_view();
            assert(newdv =~= old(self).client_tickers_of(client_address).push(t@)) by {
                if r0.has_client(client_address) {
                    r0.lemma_client_idx_of(ci as int);
                    assert(r3.client_tickers@[ci as int] == r0.client_tickers@[ci as int]);
                    assert(ticks0 == r0.client_tickers@[ci as int].tickers@);
                } else {
                    assert(ticks0 =~= Seq::<String>::empty());
                }
            }
            assert(r4.client_tickers_of(client_address) == newdv);
            assert forall|c: ClientAddress| c != client_address implies r4.client_tickers_of(c)
                == r0.client_tickers_of(c) && r4.has_client(c) == r0.has_client(c) by {
                if r0.has_client(c) {
                    let i = r0.client_idx(c);
                    assert(r0.client_tickers@[i].client == c);
                    assert(i != ci as int);
                    assert(r4.client_tickers@[i] == r0.client_tickers@[i]);
                    r4.lemma_client_idx_of(i);
                    r0.lemma_client_idx_of(i);
                } else {
                    assert(!r4.has_client(c)) by {
                        if r4.has_client(c) {
                            let i = r4.client_idx(c);
                            assert(i != ci as int);
                            assert(r0.client_tickers@[i].client == c);
                        }
                    }
                }
            }
            // Subscribers are as phase 2 left them.
            assert forall|u: Seq<char>| r4.subscribers(u) == r2.subscribers(u) && r4.has_ticker(
                u,
            ) == r2.has_ticker(u) by {
                if r2.has_ticker(u) {
                    let i = r2.route_idx(u);
                    r4.lemma_route_idx_of(i);
                    r2.lemma_route_idx_of(i);
                } else {
                    assert(!r4.has_ticker(u)) by {
                        if r4.has_ticker(u) {
                            let i = r4.route_idx(u);
                            assert(r2.routes@[i].ticker@ == u);
                        }
                    }
                }
            }
            // Re-establish well-formedness of the final state.
            assert(r4.route_keys_unique()) by {
                assert forall|i: int, j: int| 0 <= i < j < r4.routes@.len() implies r4.routes@[
                    i
                ].ticker@ != r4.routes@[j].ticker@ by {
                    assert(r4.routes@[i].ticker@ == r1.routes@[i].ticker@);
                    assert(r4.routes@[j].ticker@ == r1.routes@[j].ticker@);
                }
            }
            assert(r4.buckets_unique()) by {
                assert forall|i: int, j1: int, j2: int|
                    0 <= i < r4.routes@.len() && 0 <= j1 < j2 < r4.routes@[i].subs@.len() implies
                    r4.routes@[i].subs@[j1].client != r4.routes@[i].subs@[j2].client by {
                    if i != bi as int {
                        assert(r4.routes@[i] == r1.routes@[i]);
                        assert(r1.buckets_unique());
                    }
                }
            }
            assert(r4.forward_consistent()) by {
                assert forall|i: int, j: int|
                    0 <= i < r4.routes@.len() && 0 <= j < r4.routes@[i].subs@.len() implies
                    r4.client_tickers_of(
                        (#[trigger] r4.routes@[i].subs@[j]).client,
                    ).contains(r4.routes@[i].ticker@) by {
                    let c = r4.routes@[i].subs@[j].client;
                    let u = r4.routes@[i].ticker@;
                    if i == bi as int && j == r4.routes@[i].subs@.len() - 1 {
                        // the entry just pushed
                        assert(c == client_address && u == t@);
                        assert(r4.client_tickers_of(client_address)[
                            r4.client_tickers_of(client_address).len() - 1
                        ] == t@);
                    } else {
                        // an entry already present before the upsert
                        let oj: int = if i == bi as int && subs_had_client && j == jg
                            && subs0.len() - 1 != jg {
                            subs0.len() - 1
                        } else {
                            j
                        };
                        if i == bi as int {
                            assert(r4.routes@[i].subs@[j] == subs1[j]);
                            if subs_had_client {
                                if j == jg && subs0.len() - 1 != jg {
                                    assert(subs1[j] == subs0[oj]);
                                } else {
                                    assert(subs1[j] == subs0[j]);
                                }
                            } else {
                                assert(subs1[j] == subs0[j]);
                            }
                            assert(r1.routes@[i].subs@[oj] == r4.routes@[i].subs@[j]);
                        } else {
                            assert(r4.routes@[i] == r1.routes@[i]);
                        }
                        assert(r1.routes@[i].subs@[oj].client == c);
                        assert(r1.routes@[i].ticker@ == u);
                        // r1's buckets came from r0 unchanged
                        if i < r0.routes@.len() {
                            assert(r1.routes@[i] == r0.routes@[i]);
                            assert(r0.client_tickers_of(c).contains(u));
                            if c == client_address {
                                assert(r4.client_tickers_of(c) == r0.client_tickers_of(c).push(
                                    t@,
                                ));
                                let k = choose|k: int|
                                    0 <= k < r0.client_tickers_of(c).len() && r0.client_tickers_of(
                                        c,
                                    )[k] == u;
                                assert(r4.client_tickers_of(c)[k] == u);
                            } else {
                                assert(r4.client_tickers_of(c) == r0.client_tickers_of(c));
                            }
                        } else {
                            assert(r1.routes@[i].subs@.len() == 0);
                        }
                    }
                }
            }
            assert(r4.reverse_consistent()) by {
                assert forall|i: int, j: int|
                    0 <= i < r4.client_tickers@.len() && 0 <= j
                        < r4.client_tickers@[i].tickers@.len() implies {
                        let u = (#[trigger] r4.client_tickers@[i].tickers@[j])@;
                        r4.has_ticker(u) && r4.subscribers(u).contains(
                            r4.client_tickers@[i].client,
                        )
                    } by {
                    let u = (r4.client_tickers@[i].tickers@[j])@;
                    let c = r4.client_tickers@[i].client;
                    if i == ci as int && j == r4.client_tickers@[i].tickers@.len() - 1 {
                        assert(u == t@ && c == client_address);
                        assert(r4.subscribers(t@).contains(client_address));
                    } else {
                        // an entry already present in r0
                        assert(i < r0.client_tickers@.len() || i == ci as int);
                        if i == ci as int {
                            assert(r4.client_tickers@[i].tickers@[j] == ticks0[j]);
                            assert(r0.has_client(client_address));
                            r0.lemma_client_idx_of(ci as int);
                            assert(ticks0 == r0.client_tickers@[ci as int].tickers@);
                        } else {
                            assert(r4.client_tickers@[i] == r0.client_tickers@[i]);
                        }
                        assert(r0.client_tickers@[i].client == c);
                        assert(r0.client_tickers@[i].tickers@[j]@ == u);
                        assert(r0.has_ticker(u) && r0.subscribers(u).contains(c));
                        assert(r4.has_ticker(u));
                        assert(r4.subscribers(u).contains(c)) by {
                            if u == t@ {
                                assert(r4.subscribers(u) == r0.subscribers(u).insert(
                                    client_address,
                                ));
                            } else {
                                assert(r4.subscribers(u) == r0.subscribers(u));
                            }
                        }
                    }
                }
            }
        }
    }

}

/// After a `swap_remove` at `j`, any two surviving positions other than `j`
/// carry the clients they carried before.
proof fn lemma_swap_remove_pairwise(
    subs0: Seq<Subscriber>,
    subs1: Seq<Subscriber>,
    jg: int,
    j1: int,
    j2: int,
)
    requires
        0 <= jg < subs0.len(),
        subs1 == subs0.update(jg, subs0[subs0.len() - 1]).drop_last(),
        0 <= j1 < subs1.len(),
        0 <= j2 < subs1.len(),
    ensures
        j1 != jg ==> subs1[j1] == subs0[j1],
        j2 != jg ==> subs1[j2] == subs0[j2],
        j1 == jg ==> subs1[j1] == subs0[subs0.len() - 1],
{
}

impl TickersRouter {
    /// Registers a subscription: for every ticker in the list, the client
    /// (with a clone of `tx`) joins that ticker's bucket, and every listed
    /// ticker — duplicates included — is appended to the client's reverse
    /// entry. The delivery channel of an already-subscribed (ticker, client)
    /// pair is replaced.
    #[verifier::loop_isolation(false)]
    pub fn add_routes(
        &mut self,
        ticker: &Vec<String>,
        tx: &crossbeam_channel::Sender<StockQuote>,
        client_address: ClientAddress,
    )
        requires
            old(self).wf(),
        ensures
            final(self).wf(),
            forall|u: Seq<char>|
                final(self).subscribers(u) == (if ticker.deep_view().contains(u) {
                    old(self).subscribers(u).insert(client_address)
                } else {
                    old(self).subscribers(u)
                }),
            final(self).client_tickers_of(client_address) == old(self).client_tickers_of(
                client_address,
            ) + ticker.deep_view(),
            forall|c: ClientAddress|
                c != client_address ==> final(self).client_tickers_of(c) == old(
                    self,
                ).client_tickers_of(c) && final(self).has_client(c) == old(self).has_client(c),
            final(self).has_client(client_address) == (old(self).has_client(client_address)
                || ticker@.len() > 0),
            forall|u: Seq<char>|
                final(self).has_ticker(u) == (old(self).has_ticker(u)
                    || ticker.deep_view().contains(u)),
    {
        let ghost r0 = *self;
        let ghost dv = ticker.deep_view();
        let mut k: usize = 0;
        while k < ticker.len()
            invariant
                k <= ticker@.len(),
                dv == ticker.deep_view(),
                dv.len() == ticker@.len(),
                self.wf(),
                forall|u: Seq<char>|
                    self.subscribers(u) == (if dv.take(k as int).contains(u) {
                        r0.subscribers(u).insert(client_address)
                    } else {
                        r0.subscribers(u)
                    }),
                self.client_tickers_of(client_address) == r0.client_tickers_of(client_address)
                    + dv.take(k as int),
                forall|c: ClientAddress|
                    c != client_address ==> self.client_tickers_of(c) == r0.client_tickers_of(c)
                        && self.has_client(c) == r0.has_client(c),
                self.has_client(client_address) == (r0.has_client(client_address) || k > 0),
                forall|u: Seq<char>|
                    #![trigger self.has_ticker(u)]
                    self.has_ticker(u) == (r0.has_ticker(u) || dv.take(k as int).contains(u)),
            decreases ticker@.len() - k,
        {
            let ghost pre = *self;
            self.add_one_route(&ticker[k], tx, client_address);
            proof {
                assert(dv[k as int] == ticker@[k as int]@);
                assert(dv.take(k as int + 1) =~= dv.take(k as int).push(dv[k as int]));
                assert forall|u: Seq<char>|
                    self.subscribers(u) == (if dv.take(k as int + 1).contains(u) {
                        r0.subscribers(u).insert(client_address)
                    } else {
                        r0.subscribers(u)
                    }) by {
                    if u == dv[k as int] {
                        assert(dv.take(k as int + 1).contains(u)) by {
                            assert(dv.take(k as int + 1)[k as int] == u);
                        }
                        if dv.take(k as int).contains(u) {
                            assert(r0.subscribers(u).insert(client_address).insert(client_address)
                                =~= r0.subscribers(u).insert(client_address));
                        }
                    } else {
                        assert(dv.take(k as int + 1).contains(u) == dv.take(k as int).contains(u))
                            by {
                            if dv.take(k as int + 1).contains(u) {
                                let m = choose|m: int|
                                    0 <= m < k as int + 1 && #[trigger] dv.take(k as int + 1)[m] == u;
                                assert(m < k as int);
                                assert(dv.take(k as int)[m] == u);
                            }
                            if dv.take(k as int).contains(u) {
                                let m = choose|m: int| 0 <= m < k as int && #[trigger] dv.take(k as int)[m]
                                    == u;
                                assert(dv.take(k as int + 1)[m] == u);
                            }
                        }
                    }
                }
                assert(self.client_tickers_of(client_address) == r0.client_tickers_of(
                    client_address,
                ) + dv.take(k as int + 1)) by {
                    assert(self.client_tickers_of(client_address) == (r0.client_tickers_of(
                        client_address,
                    ) + dv.take(k as int)).push(dv[k as int]));
                    assert((r0.client_tickers_of(client_address) + dv.take(k as int)).push(
                        dv[k as int],
                    ) =~= r0.client_tickers_of(client_address) + dv.take(k as int + 1));
                }
                assert forall|u: Seq<char>|
                    #![trigger self.has_ticker(u)]
                    self.has_ticker(u) == (r0.has_ticker(u) || dv.take(k as int + 1).contains(u))
                    by {
                    assert(pre.has_ticker(u) == (r0.has_ticker(u) || dv.take(k as int).contains(
                        u,
                    )));
                    assert(self.has_ticker(u) == (pre.has_ticker(u) || u == dv[k as int]));
                    if u == dv[k as int] {
                        assert(dv.take(k as int + 1)[k as int] == u);
                    } else {
                        assert(dv.take(k as int + 1).contains(u) == dv.take(k as int).contains(u))
                            by {
                            if dv.take(k as int + 1).contains(u) {
                                let m = choose|m: int|
                                    0 <= m < k as int + 1 && #[trigger] dv.take(k as int + 1)[m] == u;
                                assert(m < k as int);
                                assert(dv.take(k as int)[m] == u);
                            }
                            if dv.take(k as int).contains(u) {
                                let m = choose|m: int| 0 <= m < k as int && #[trigger] dv.take(k as int)[m]
                                    == u;
                                assert(dv.take(k as int + 1)[m] == u);
                            }
                        }
                    }
                }
            }
            k += 1;
        }
        proof {
            assert(dv.take(ticker@.len() as int) =~= dv);
        }
    }
}

/// True when the address list holds `c`.
fn contains_client(v: &Vec<ClientAddress>, c: &ClientAddress) -> (r: bool)
    ensures
        r == v@.contains(*c),
{
    let mut i: usize = 0;
    while i < v.len()
        invariant
            i <= v@.len(),
            forall|k: int| 0 <= k < i ==> v@[k] != *c,
        decreases v@.len() - i,
    {
        if v[i] == *c {
            return true;
        }
        i += 1;
    }
    false
}

/// A fresh vector of strings with the same contents.
fn clone_strings(v: &Vec<String>) -> (r: Vec<String>)
    ensures
        r.deep_view() == v.deep_view(),
{
    let mut r: Vec<String> = Vec::new();
    let mut i: usize = 0;
    while i < v.len()
        invariant
            i <= v@.len(),
            r@.len() == i,
            forall|k: int| 0 <= k < i ==> r@[k]@ == v@[k]@,
        decreases v@.len() - i,
    {
        r.push(v[i].clone());
        i += 1;
    }
    proof {
        assert(r.deep_view() =~= v.deep_view());
    }
    r
}

impl TickersRouter {
    /// First pass of subscription teardown: the named clients leave every
    /// bucket; the reverse index is untouched.
    #[verifier::loop_isolation(false)]
    #[verifier::rlimit(100)]
    fn remove_from_buckets(&mut self, clients: &Vec<ClientAddress>)
        requires
            old(self).route_keys_unique(),
            old(self).buckets_unique(),
        ensures
            final(self).route_keys_unique(),
            final(self).buckets_unique(),
            final(self).client_tickers@ == old(self).client_tickers@,
            final(self).routes@.len() == old(self).routes@.len(),
            forall|k: int|
                0 <= k < final(self).routes@.len() ==> (#[trigger] final(self).routes@[k]).ticker@
                    == old(self).routes@[k].ticker@,
            forall|k: int, c: ClientAddress|
                0 <= k < final(self).routes@.len() ==> #[trigger] bucket_clients(
                    final(self).routes@[k].subs@,
                ).contains(c) == (bucket_clients(old(self).routes@[k].subs@).contains(c)
                    && !clients@.contains(c)),
    {
        let ghost r0 = *self;
        let mut i: usize = 0;
        while i < self.routes.len()
            invariant
                i <= self.routes@.len(),
                self.routes@.len() == r0.routes@.len(),
                self.client_tickers@ == r0.client_tickers@,
                forall|k: int| i <= k < r0.routes@.len() ==> self.routes@[k] == r0.routes@[k],
                forall|k: int|
                    0 <= k < i ==> (#[trigger] self.routes@[k]).ticker@ == r0.routes@[k].ticker@,
                forall|k: int, c: ClientAddress|
                    0 <= k < i ==> #[trigger] bucket_clients(self.routes@[k].subs@).contains(c)
                        == (bucket_clients(r0.routes@[k].subs@).contains(c)
                        && !clients@.contains(c)),
                forall|k: int, j1: int, j2: int|
                    0 <= k < i && 0 <= j1 < j2 < self.routes@[k].subs@.len()
                        ==> #[trigger] self.routes@[k].subs@[j1].client != #[trigger] self.routes@[
                        k
                    ].subs@[j2].client,
            decreases self.routes@.len() - i,
        {
            proof {
                assert forall|j1: int, j2: int|
                    0 <= j1 < j2 < self.routes@[i as int].subs@.len() implies self.routes@[
                    i as int
                ].subs@[j1].client != self.routes@[i as int].subs@[j2].client by {
                    assert(self.routes@[i as int] == r0.routes@[i as int]);
                    assert(r0.routes@[i as int].subs@[j1].client != r0.routes@[i as int].subs@[
                        j2
                    ].client);
                }
            }
            let ghost pre_iter = *self;
            let bucket = &mut self.routes[i];
            let ghost subs_pre = bucket.subs@;
            let kept = filter_bucket(&bucket.subs, clients);
            let ghost kept_view = kept@;
            proof {
                assert forall|c: ClientAddress|
                    bucket_clients(kept_view).contains(c) == (bucket_clients(subs_pre).contains(
                        c,
                    ) && !clients@.contains(c)) by {
                    assert(bucket_clients(kept@).contains(c) == (bucket_clients(
                        bucket.subs@,
                    ).contains(c) && !clients@.contains(c)));
                }
            }
            bucket.subs = kept;
            proof {
                assert(self.routes@ == pre_iter.routes@.update(i as int, self.routes@[i as int]));
                assert(self.routes@[i as int].ticker@ == r0.routes@[i as int].ticker@);
                assert forall|k: int, c: ClientAddress|
                    0 <= k < i as int + 1 implies #[trigger] bucket_clients(
                        self.routes@[k].subs@,
                    ).contains(c) == (bucket_clients(r0.routes@[k].subs@).contains(c)
                        && !clients@.contains(c)) by {
                    if k < i as int {
                        assert(self.routes@[k] == pre_iter.routes@[k]);
                        assert(bucket_clients(pre_iter.routes@[k].subs@).contains(c)
                            == (bucket_clients(r0.routes@[k].subs@).contains(c)
                            && !clients@.contains(c)));
                    } else {
                        assert(self.routes@[k].subs@ == kept_view);
                        assert(subs_pre == pre_iter.routes@[k].subs@);
                        assert(pre_iter.routes@[k] == r0.routes@[k]);
                        assert(bucket_clients(kept_view).contains(c) == (bucket_clients(
                            subs_pre,
                        ).contains(c) && !clients@.contains(c)));
                    }
                }
            }
            i += 1;
        }
        proof {
            assert forall|a: int, b: int|
                0 <= a < b < self.routes@.len() implies self.routes@[a].ticker@ != self.routes@[
                b
            ].ticker@ by {
                assert(self.routes@[a].ticker@ == r0.routes@[a].ticker@);
                assert(self.routes@[b].ticker@ == r0.routes@[b].ticker@);
            }
        }
    }

    /// Second pass of subscription teardown: the named clients' reverse
    /// entries are dropped; the buckets are untouched.
    #[verifier::loop_isolation(false)]
    #[verifier::rlimit(100)]
    fn remove_client_entries(&mut self, clients: &Vec<ClientAddress>)
        requires
            old(self).client_keys_unique(),
        ensures
            final(self).client_keys_unique(),
            final(self).routes@ == old(self).routes@,
            forall|c: ClientAddress|
                final(self).has_client(c) == (old(self).has_client(c) && !clients@.contains(c)),
            forall|c: ClientAddress|
                final(self).has_client(c) ==> final(self).client_tickers_of(c) == old(
                    self,
                ).client_tickers_of(c),
    {
        let ghost r1 = *self;
        let kept_entries = filter_client_entries(&self.client_tickers, clients);
        let ghost kv = kept_entries@;
        self.client_tickers = kept_entries;
        let ghost r2 = *self;
        proof {
            assert(r2.client_tickers@ == kv);
            assert forall|c: ClientAddress|
                r2.has_client(c) == (r1.has_client(c) && !clients@.contains(c)) by {
                if r2.has_client(c) {
                    let k = r2.client_idx(c);
                    assert(kv[k].client == c);
                    assert(entry_clients(kv).contains(c));
                    assert(entry_clients(r1.client_tickers@).contains(c));
                    let m = choose|m: int|
                        0 <= m < r1.client_tickers@.len() && (#[trigger] r1.client_tickers@[m]).client == c;
                    assert(r1.has_client(c));
                }
                if r1.has_client(c) && !clients@.contains(c) {
                    let m = r1.client_idx(c);
                    assert(r1.client_tickers@[m].client == c);
                    assert(entry_clients(r1.client_tickers@).contains(c));
                    assert(entry_clients(kv).contains(c));
                    let k = choose|k: int| 0 <= k < kv.len() && (#[trigger] kv[k]).client == c;
                    assert(r2.client_tickers@[k].client == c);
                    assert(r2.has_client(c));
                }
            }
            assert forall|c: ClientAddress|
                r2.has_client(c) implies r2.client_tickers_of(c) == r1.client_tickers_of(c) by {
                let k = r2.client_idx(c);
                r2.lemma_client_idx_of(k);
                let p = (c, kv[k].tickers.deep_view());
                assert(entry_pairs(kv).contains(p));
                assert(entry_pairs(r1.client_tickers@).contains(p));
                let m = choose|m: int|
                    0 <= m < r1.client_tickers@.len() && (#[trigger] r1.client_tickers@[m]).client == p.0
                        && r1.client_tickers@[m].tickers.deep_view() == p.1;
                r1.lemma_client_idx_of(m);
            }
        }
    }

    /// Tears down the named clients' subscriptions: every listed client
    /// leaves every bucket, and its reverse entry is dropped. Other clients,
    /// and the set of tickers (buckets may stay empty), are untouched.
    pub fn delete_clients(&mut self, clients: &Vec<ClientAddress>)
        requires
            old(self).wf(),
        ensures
            final(self).wf(),
            forall|u: Seq<char>, c: ClientAddress|
                final(self).subscribers(u).contains(c) == (old(self).subscribers(u).contains(c)
                    && !clients@.contains(c)),
            forall|u: Seq<char>| final(self).has_ticker(u) == old(self).has_ticker(u),
            forall|c: ClientAddress|
                final(self).has_client(c) == (old(self).has_client(c) && !clients@.contains(c)),
            forall|c: ClientAddress|
                final(self).has_client(c) ==> final(self).client_tickers_of(c) == old(
                    self,
                ).client_tickers_of(c),
    {
        let ghost r0 = *self;
        self.remove_from_buckets(clients);
        let ghost r1 = *self;
        proof {
            // Pass 1 left the ticker set alone and filtered every bucket.
            assert forall|u: Seq<char>| r1.has_ticker(u) == r0.has_ticker(u) by {
                if r0.has_ticker(u) {
                    let k = r0.route_idx(u);
                    assert(r1.routes@[k].ticker@ == u);
                }
                if r1.has_ticker(u) {
                    let k = r1.route_idx(u);
                    assert(r0.routes@[k].ticker@ == u);
                }
            }
            assert forall|u: Seq<char>, c: ClientAddress|
                r1.subscribers(u).contains(c) == (r0.subscribers(u).contains(c)
                    && !clients@.contains(c)) by {
                if r0.has_ticker(u) {
                    let k = r0.route_idx(u);
                    r0.lemma_route_idx_of(k);
                    assert(r1.routes@[k].ticker@ == u);
                    r1.lemma_route_idx_of(k);
                } else {
                    assert(!r1.has_ticker(u));
                }
            }
        }
        self.remove_client_entries(clients);
        let ghost r2 = *self;
        proof {
            assert(r2.routes@ == r1.routes@);
            // has_ticker and subscribers carry over from pass 1 untouched.
            assert forall|u: Seq<char>| r2.has_ticker(u) == r1.has_ticker(u) by {
                if r1.has_ticker(u) {
                    let k = r1.route_idx(u);
                    assert(r2.routes@[k].ticker@ == u);
                }
                if r2.has_ticker(u) {
                    let k = r2.route_idx(u);
                    assert(r1.routes@[k].ticker@ == u);
                }
            }
            assert forall|u: Seq<char>, c: ClientAddress|
                r2.subscribers(u).contains(c) == (r1.subscribers(u).contains(c)) by {
                if r1.has_ticker(u) {
                    let k = r1.route_idx(u);
                    r1.lemma_route_idx_of(k);
                    assert(r2.routes@[k].ticker@ == u);
                    r2.lemma_route_idx_of(k);
                } else {
                    assert(!r2.has_ticker(u));
                }
            }
            // Well-formedness of the final state.
            assert(r2.route_keys_unique()) by {
                assert forall|a: int, b: int| 0 <= a < b < r2.routes@.len() implies r2.routes@[
                    a
                ].ticker@ != r2.routes@[b].ticker@ by {
                    assert(r2.routes@[a].ticker@ == r1.routes@[a].ticker@);
                    assert(r2.routes@[b].ticker@ == r1.routes@[b].ticker@);
                }
            }
            assert(r2.buckets_unique());
            assert(r2.forward_consistent()) by {
                assert forall|a: int, b: int|
                    0 <= a < r2.routes@.len() && 0 <= b < r2.routes@[a].subs@.len() implies
                    r2.client_tickers_of(
                        (#[trigger] r2.routes@[a].subs@[b]).client,
                    ).contains(r2.routes@[a].ticker@) by {
                    let c = r2.routes@[a].subs@[b].client;
                    let u = r2.routes@[a].ticker@;
                    assert(bucket_clients(r2.routes@[a].subs@).contains(c));
                    r2.lemma_route_idx_of(a);
                    assert(r2.subscribers(u).contains(c));
                    assert(r0.subscribers(u).contains(c) && !clients@.contains(c));
                    assert(r0.client_tickers_of(c).contains(u)) by {
                        lemma_route_consistency(r0, u, c);
                    }
                    assert(r0.has_client(c));
                    assert(r2.client_tickers_of(c) == r0.client_tickers_of(c));
                }
            }
            assert(r2.reverse_consistent()) by {
                assert forall|a: int, b: int|
                    0 <= a < r2.client_tickers@.len() && 0 <= b
                        < r2.client_tickers@[a].tickers@.len() implies {
                        let u = (#[trigger] r2.client_tickers@[a].tickers@[b])@;
                        r2.has_ticker(u) && r2.subscribers(u).contains(
                            r2.client_tickers@[a].client,
                        )
                    } by {
                    let u = (r2.client_tickers@[a].tickers@[b])@;
                    let c = r2.client_tickers@[a].client;
                    r2.lemma_client_idx_of(a);
                    assert(r2.has_client(c));
                    assert(r2.client_tickers_of(c) == r0.client_tickers_of(c));
                    assert(r2.client_tickers_of(c)[b] == u);
                    assert(r0.client_tickers_of(c).contains(u));
                    lemma_route_consistency(r0, u, c);
                    assert(r0.subscribers(u).contains(c));
                    assert(!clients@.contains(c));
                }
            }
        }
    }
}

/// The subscribers of one bucket with the named clients taken out.
#[verifier::loop_isolation(false)]
fn filter_bucket(subs: &Vec<Subscriber>, clients: &Vec<ClientAddress>) -> (kept: Vec<Subscriber>)
    requires
        forall|j1: int, j2: int|
            0 <= j1 < j2 < subs@.len() ==> subs@[j1].client != subs@[j2].client,
    ensures
        forall|c: ClientAddress|
            #![trigger bucket_clients(kept@).contains(c)]
            bucket_clients(kept@).contains(c) == (bucket_clients(subs@).contains(c)
                && !clients@.contains(c)),
        forall|k1: int, k2: int|
            0 <= k1 < k2 < kept@.len() ==> kept@[k1].client != kept@[k2].client,
{
    let ghost orig = subs@;
    let mut kept: Vec<Subscriber> = Vec::new();
    let mut j: usize = 0;
    while j < subs.len()
        invariant
            j <= orig.len(),
            forall|c: ClientAddress|
                #![trigger bucket_clients(kept@).contains(c)]
                bucket_clients(kept@).contains(c) == (bucket_clients(orig.take(j as int)).contains(
                    c,
                ) && !clients@.contains(c)),
            forall|k1: int, k2: int|
                0 <= k1 < k2 < kept@.len() ==> kept@[k1].client != kept@[k2].client,
            forall|k1: int|
                0 <= k1 < kept@.len() ==> bucket_clients(orig).contains(
                    (#[trigger] kept@[k1]).client,
                ),
        decreases orig.len() - j,
    {
        let e = &subs[j];
        let ghost kept0 = kept@;
        if !contains_client(clients, &e.client) {
            kept.push(Subscriber { client: e.client, tx: crate::channels::clone_sender(&e.tx) });
        }
        proof {
            assert(orig.take(j as int + 1) =~= orig.take(j as int).push(orig[j as int]));
            assert forall|c: ClientAddress|
                #![trigger bucket_clients(kept@).contains(c)]
                bucket_clients(kept@).contains(c) == (bucket_clients(
                    orig.take(j as int + 1),
                ).contains(c) && !clients@.contains(c)) by {
                if bucket_clients(kept@).contains(c) {
                    let k1 = choose|k1: int|
                        0 <= k1 < kept@.len() && #[trigger] kept@[k1].client == c;
                    if k1 < kept0.len() {
                        assert(bucket_clients(kept0).contains(c));
                        assert(bucket_clients(orig.take(j as int)).contains(c));
                        let m = choose|m: int|
                            0 <= m < j as int && #[trigger] orig.take(j as int)[m].client == c;
                        assert(orig.take(j as int + 1)[m].client == c);
                        assert(bucket_clients(orig.take(j as int + 1)).contains(c));
                    } else {
                        assert(kept@[k1].client == orig[j as int].client);
                        assert(orig.take(j as int + 1)[j as int].client == c);
                        assert(bucket_clients(orig.take(j as int + 1)).contains(c));
                    }
                }
                if bucket_clients(orig.take(j as int + 1)).contains(c) && !clients@.contains(c) {
                    let m = choose|m: int|
                        0 <= m < j as int + 1 && #[trigger] orig.take(j as int + 1)[m].client
                            == c;
                    if m < j as int {
                        assert(orig.take(j as int)[m].client == c);
                        assert(bucket_clients(orig.take(j as int)).contains(c));
                        assert(bucket_clients(kept0).contains(c));
                        let k1 = choose|k1: int|
                            0 <= k1 < kept0.len() && #[trigger] kept0[k1].client == c;
                        assert(kept@[k1].client == c);
                        assert(bucket_clients(kept@).contains(c));
                    } else {
                        assert(orig[j as int].client == c);
                        assert(kept@[kept@.len() - 1].client == c);
                        assert(bucket_clients(kept@).contains(c));
                    }
                }
            }
            // Uniqueness of the kept list: a pushed client cannot already be
            // there, else the bucket held it twice.
            assert forall|k1: int, k2: int|
                0 <= k1 < k2 < kept@.len() implies kept@[k1].client != kept@[k2].client by {
                if k2 == kept@.len() - 1 && kept@.len() > kept0.len() {
                    if kept@[k1].client == kept@[k2].client {
                        assert(bucket_clients(kept0).contains(orig[j as int].client));
                        assert(bucket_clients(orig.take(j as int)).contains(
                            orig[j as int].client,
                        ));
                        let m = choose|m: int|
                            0 <= m < j as int && #[trigger] orig.take(j as int)[m].client
                                == orig[j as int].client;
                        assert(orig[m].client == orig[j as int].client);
                    }
                } else {
                    assert(kept@[k1] == kept0[k1]);
                    assert(kept@[k2] == kept0[k2]);
                }
            }
            assert forall|k1: int|
                0 <= k1 < kept@.len() implies bucket_clients(orig).contains(
                    (#[trigger] kept@[k1]).client,
                ) by {
                if k1 == kept@.len() - 1 && kept@.len() > kept0.len() {
                    assert(kept@[k1].client == orig[j as int].client);
                    assert(bucket_clients(orig).contains(orig[j as int].client));
                } else {
                    assert(kept@[k1] == kept0[k1]);
                }
            }
        }
        j += 1;
    }
    proof {
        assert(orig.take(orig.len() as int) =~= orig);
    }
    kept
}

/// The reverse-index entries with the named clients' entries taken out.
#[verifier::loop_isolation(false)]
#[verifier::rlimit(100)]
fn filter_client_entries(entries: &Vec<ClientEntry>, clients: &Vec<ClientAddress>) -> (kept: Vec<
    ClientEntry,
>)
    requires
        forall|i: int, j: int|
            0 <= i < j < entries@.len() ==> entries@[i].client != entries@[j].client,
    ensures
        forall|k1: int, k2: int|
            0 <= k1 < k2 < kept@.len() ==> kept@[k1].client != kept@[k2].client,
        forall|c: ClientAddress|
            #![trigger entry_clients(kept@).contains(c)]
            entry_clients(kept@).contains(c) == (entry_clients(entries@).contains(c)
                && !clients@.contains(c)),
        forall|p: (ClientAddress, Seq<Seq<char>>)|
            #![trigger entry_pairs(kept@).contains(p)]
            entry_pairs(kept@).contains(p) == (entry_pairs(entries@).contains(p)
                && !clients@.contains(p.0)),
{
    let ghost orig = entries@;
    let mut kept: Vec<ClientEntry> = Vec::new();
    let mut i: usize = 0;
    while i < entries.len()
        invariant
            i <= orig.len(),
            forall|c: ClientAddress|
                #![trigger entry_clients(kept@).contains(c)]
                entry_clients(kept@).contains(c) == (entry_clients(orig.take(i as int)).contains(
                    c,
                ) && !clients@.contains(c)),
            forall|p: (ClientAddress, Seq<Seq<char>>)|
                #![trigger entry_pairs(kept@).contains(p)]
                entry_pairs(kept@).contains(p) == (entry_pairs(orig.take(i as int)).contains(p)
                    && !clients@.contains(p.0)),
            forall|k1: int, k2: int|
                0 <= k1 < k2 < kept@.len() ==> kept@[k1].client != kept@[k2].client,
            forall|k1: int|
                0 <= k1 < kept@.len() ==> entry_clients(orig).contains(
                    (#[trigger] kept@[k1]).client,
                ),
        decreases orig.len() - i,
    {
        let e = &entries[i];
        let ghost kept0 = kept@;
        if !contains_client(clients, &e.client) {
            kept.push(ClientEntry { client: e.client, tickers: clone_strings(&e.tickers) });
        }
        proof {
            assert(orig.take(i as int + 1) =~= orig.take(i as int).push(orig[i as int]));
            if kept@.len() > kept0.len() {
                assert(kept@[kept@.len() - 1].client == orig[i as int].client);
                assert(kept@[kept@.len() - 1].tickers.deep_view() == orig[
                    i as int
                ].tickers.deep_view());
            }
            assert forall|c: ClientAddress|
                #![trigger entry_clients(kept@).contains(c)]
                entry_clients(kept@).contains(c) == (entry_clients(
                    orig.take(i as int + 1),
                ).contains(c) && !clients@.contains(c)) by {
                if entry_clients(kept@).contains(c) {
                    let k1 = choose|k1: int| 0 <= k1 < kept@.len() && (#[trigger] kept@[k1]).client == c;
                    if k1 < kept0.len() {
                        assert(kept0[k1].client == c);
                        assert(entry_clients(kept0).contains(c));
                        assert(entry_clients(orig.take(i as int)).contains(c));
                        let m = choose|m: int|
                            0 <= m < i as int && (#[trigger] orig.take(i as int)[m]).client == c;
                        assert(orig.take(i as int + 1)[m].client == c);
                        assert(entry_clients(orig.take(i as int + 1)).contains(c));
                    } else {
                        assert(kept@[k1].client == orig[i as int].client);
                        assert(orig.take(i as int + 1)[i as int].client == c);
                        assert(entry_clients(orig.take(i as int + 1)).contains(c));
                    }
                }
                if entry_clients(orig.take(i as int + 1)).contains(c) && !clients@.contains(c) {
                    let m = choose|m: int|
                        0 <= m < i as int + 1 && (#[trigger] orig.take(i as int + 1)[m]).client == c;
                    if m < i as int {
                        assert(orig.take(i as int)[m].client == c);
                        assert(entry_clients(orig.take(i as int)).contains(c));
                        assert(entry_clients(kept0).contains(c));
                        let k1 = choose|k1: int| 0 <= k1 < kept0.len() && (#[trigger] kept0[k1]).client == c;
                        assert(kept@[k1].client == c);
                        assert(entry_clients(kept@).contains(c));
                    } else {
                        assert(orig[i as int].client == c);
                        assert(kept@[kept@.len() - 1].client == c);
                        assert(entry_clients(kept@).contains(c));
                    }
                }
            }
            assert forall|p: (ClientAddress, Seq<Seq<char>>)|
                #![trigger entry_pairs(kept@).contains(p)]
                entry_pairs(kept@).contains(p) == (entry_pairs(orig.take(i as int + 1)).contains(
                    p,
                ) && !clients@.contains(p.0)) by {
                if entry_pairs(kept@).contains(p) {
                    let k1 = choose|k1: int|
                        0 <= k1 < kept@.len() && (#[trigger] kept@[k1]).client == p.0 && kept@[
                            k1
                        ].tickers.deep_view() == p.1;
                    if k1 < kept0.len() {
                        assert(entry_pairs(kept0).contains(p));
                        assert(entry_pairs(orig.take(i as int)).contains(p));
                        let m = choose|m: int|
                            0 <= m < i as int && (#[trigger] orig.take(i as int)[m]).client == p.0
                                && orig.take(i as int)[m].tickers.deep_view() == p.1;
                        assert(orig.take(i as int + 1)[m].client == p.0);
                        assert(orig.take(i as int + 1)[m].tickers.deep_view() == p.1);
                        assert(entry_pairs(orig.take(i as int + 1)).contains(p));
                    } else {
                        assert(orig.take(i as int + 1)[i as int].client == p.0);
                        assert(orig.take(i as int + 1)[i as int].tickers.deep_view() == p.1);
                        assert(entry_pairs(orig.take(i as int + 1)).contains(p));
                    }
                }
                if entry_pairs(orig.take(i as int + 1)).contains(p) && !clients@.contains(p.0) {
                    let m = choose|m: int|
                        0 <= m < i as int + 1 && (#[trigger] orig.take(i as int + 1)[m]).client == p.0
                            && orig.take(i as int + 1)[m].tickers.deep_view() == p.1;
                    if m < i as int {
                        assert(orig.take(i as int)[m].client == p.0);
                        assert(orig.take(i as int)[m].tickers.deep_view() == p.1);
                        assert(entry_pairs(orig.take(i as int)).contains(p));
                        assert(entry_pairs(kept0).contains(p));
                        let k1 = choose|k1: int|
                            0 <= k1 < kept0.len() && (#[trigger] kept0[k1]).client == p.0 && kept0[
                                k1
                            ].tickers.deep_view() == p.1;
                        assert(kept@[k1].client == p.0 && kept@[k1].tickers.deep_view() == p.1);
                        assert(entry_pairs(kept@).contains(p));
                    } else {
                        assert(orig[i as int].client == p.0);
                        assert(orig[i as int].tickers.deep_view() == p.1);
                        assert(kept@.len() > kept0.len());
                        assert(kept@[kept@.len() - 1].client == p.0);
                        assert(kept@[kept@.len() - 1].tickers.deep_view() == p.1);
                        assert(entry_pairs(kept@).contains(p));
                    }
                }
            }
            // uniqueness: a pushed client cannot already be in the kept list
            assert forall|k1: int, k2: int|
                0 <= k1 < k2 < kept@.len() implies kept@[k1].client != kept@[k2].client by {
                if k2 == kept@.len() - 1 && kept@.len() > kept0.len() {
                    if kept@[k1].client == kept@[k2].client {
                        assert(kept0[k1].client == orig[i as int].client);
                        assert(entry_clients(kept0).contains(orig[i as int].client));
                        assert(entry_clients(orig.take(i as int)).contains(
                            orig[i as int].client,
                        ));
                        let m = choose|m: int|
                            0 <= m < i as int && (#[trigger] orig.take(i as int)[m]).client == orig[
                                i as int
                            ].client;
                        assert(orig[m].client == orig[i as int].client);
                    }
                } else {
                    assert(kept@[k1] == kept0[k1]);
                    assert(kept@[k2] == kept0[k2]);
                }
            }
            assert forall|k1: int|
                0 <= k1 < kept@.len() implies entry_clients(orig).contains(
                    (#[trigger] kept@[k1]).client,
                ) by {
                if k1 == kept@.len() - 1 && kept@.len() > kept0.len() {
                    assert(kept@[k1].client == orig[i as int].client);
                    assert(entry_clients(orig).contains(orig[i as int].client));
                } else {
                    assert(kept@[k1] == kept0[k1]);
                }
            }
        }
        i += 1;
    }
    proof {
        assert(orig.take(orig.len() as int) =~= orig);
    }
    kept
}

/// Describes an eviction step: `post` is `pre` with exactly the clients of
/// `dead` removed — a subset of `pre`'s subscribers of ticker `t` — while
/// every surviving client keeps all its routes.
pub open spec fn evicted_by(
    pre: TickersRouter,
    post: TickersRouter,
    dead: Seq<ClientAddress>,
    t: Seq<char>,
) -> bool {
    &&& forall|c: ClientAddress|
        #[trigger] dead.contains(c) ==> pre.subscribers(t).contains(c)
    &&& forall|u: Seq<char>, c: ClientAddress|
        #[trigger] post.subscribers(u).contains(c) == (pre.subscribers(u).contains(c)
            && !dead.contains(c))
    &&& forall|c: ClientAddress|
        #[trigger] post.has_client(c) == (pre.has_client(c) && !dead.contains(c))
    &&& forall|c: ClientAddress|
        #[trigger] post.has_client(c) ==> post.client_tickers_of(c) == pre.client_tickers_of(c)
}

impl TickersRouter {
    /// Fans one quote out to every subscriber of its ticker: each gets a
    /// copy of the quote on its delivery channel. A subscriber whose channel
    /// send fails has gone away; it is evicted from both tables before the
    /// call returns. Whether a given send fails depends on the receiving
    /// thread, so the eviction set is existential: some set of current
    /// subscribers of this ticker leaves, everyone else is untouched.
    #[verifier::loop_isolation(false)]
    pub fn send_quote(&mut self, quote: &StockQuote)
        requires
            old(self).wf(),
        ensures
            final(self).wf(),
            exists|dead: Seq<ClientAddress>|
                #[trigger] evicted_by(*old(self), *final(self), dead, quote@.ticker),
            forall|u: Seq<char>| final(self).has_ticker(u) == old(self).has_ticker(u),
    {
        let ghost r0 = *self;
        let mut dead: Vec<ClientAddress> = Vec::new();
        let found = self.find_route(&quote.ticker);
        match found {
            None => {
            }
            Some(i) => {
                proof {
                    self.lemma_route_idx_of(i as int);
                }
                let bucket = &self.routes[i];
                let mut j: usize = 0;
                while j < bucket.subs.len()
                    invariant
                        j <= bucket.subs@.len(),
                        forall|k: int|
                            0 <= k < dead@.len() ==> bucket_clients(bucket.subs@).contains(
                                (#[trigger] dead@[k]),
                            ),
                    decreases bucket.subs@.len() - j,
                {
                    let e = &bucket.subs[j];
                    let copy = StockQuote {
                        ticker: quote.ticker.clone(),
                        price: quote.price,
                        volume: quote.volume,
                        timestamp: quote.timestamp,
                    };
                    let sent = crate::channels::channel_send(&e.tx, copy);
                    if sent.is_err() {
                        dead.push(e.client);
                    }
                    j += 1;
                }
            }
        }
        proof {
            assert forall|k: int|
                0 <= k < dead@.len() implies r0.subscribers(quote@.ticker).contains(
                    #[trigger] dead@[k],
                ) by {}
        }
        self.delete_clients(&dead);
        proof {
            assert forall|c: ClientAddress| #[trigger]
                dead@.contains(c) implies r0.subscribers(quote@.ticker).contains(c) by {
                let k = choose|k: int| 0 <= k < dead@.len() && dead@[k] == c;
            }
            assert(evicted_by(r0, *self, dead@, quote@.ticker));
        }
    }

    /// The tickers that currently have at least one subscriber.
    #[verifier::loop_isolation(false)]
    pub fn get_tickers_with_subscribers(&self) -> (r: Vec<String>)
        requires
            self.wf(),
        ensures
            forall|k: int|
                0 <= k < r@.len() ==> self.has_ticker((#[trigger] r@[k])@) && self.subscribers(
                    r@[k]@,
                ) != Set::<ClientAddress>::empty(),
            forall|u: Seq<char>|
                self.has_ticker(u) && self.subscribers(u) != Set::<ClientAddress>::empty()
                    ==> r.deep_view().contains(u),
    {
        let mut r: Vec<String> = Vec::new();
        let mut i: usize = 0;
        while i < self.routes.len()
            invariant
                i <= self.routes@.len(),
                forall|k: int|
                    0 <= k < r@.len() ==> self.has_ticker((#[trigger] r@[k])@)
                        && self.subscribers(r@[k]@) != Set::<ClientAddress>::empty(),
                forall|m: int|
                    0 <= m < i && (#[trigger] self.routes@[m]).subs@.len() > 0 ==> r.deep_view(
                    ).contains(self.routes@[m].ticker@),
            decreases self.routes@.len() - i,
        {
            let ghost r_pre = r@;
            if self.routes[i].subs.len() > 0 {
                r.push(self.routes[i].ticker.clone());
                proof {
                    self.lemma_route_idx_of(i as int);
                    let u = self.routes@[i as int].ticker@;
                    assert(bucket_clients(self.routes@[i as int].subs@).contains(
                        self.routes@[i as int].subs@[0].client,
                    ));
                    assert(self.subscribers(u).contains(self.routes@[i as int].subs@[0].client));
                    assert(self.subscribers(u) != Set::<ClientAddress>::empty()) by {
                        assert(!Set::<ClientAddress>::empty().contains(
                            self.routes@[i as int].subs@[0].client,
                        ));
                    }
                }
            }
            proof {
                assert forall|m: int|
                    0 <= m < i as int + 1 && (#[trigger] self.routes@[m]).subs@.len() > 0 implies
                    r.deep_view().contains(self.routes@[m].ticker@) by {
                    if m < i as int {
                        let k = choose|k: int|
                            0 <= k < r_pre.len() && (#[trigger] r_pre[k])@ == self.routes@[
                                m
                            ].ticker@;
                        assert(r.deep_view()[k] == self.routes@[m].ticker@);
                    } else {
                        assert(r.deep_view()[r@.len() - 1] == self.routes@[m].ticker@);
                    }
                }
            }
            i += 1;
        }
        proof {
            assert forall|u: Seq<char>|
                self.has_ticker(u) && self.subscribers(u) != Set::<ClientAddress>::empty()
                    implies r.deep_view().contains(u) by {
                let m = self.route_idx(u);
                assert(0 <= m < self.routes@.len() && self.routes@[m].ticker@ == u);
                if self.routes@[m].subs@.len() == 0 {
                    assert(bucket_clients(self.routes@[m].subs@) =~= Set::<
                        ClientAddress,
                    >::empty());
                }
            }
        }
        r
    }
}

} // verus!
