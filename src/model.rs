use vstd::prelude::*;

verus! {

/// A peer as the directory sees it: an address and two timestamps (seconds).
pub struct PeerRecord {
    pub address: Seq<char>,
    pub date_added: u64,
    pub last_seen: u64,
}

/// A peer-hash link: the peer's address and the hash's bytes.
pub type LinkRecord = (Seq<char>, Seq<u8>);

/// The three tables of the directory, each in storage order.
pub struct DirectoryState {
    pub peers: Seq<PeerRecord>,
    pub hashes: Seq<Seq<u8>>,
    pub links: Seq<LinkRecord>,
}

pub open spec fn link_on_hash(h: Seq<u8>) -> spec_fn(LinkRecord) -> bool {
    |l: LinkRecord| l.1 == h
}

pub open spec fn link_not_of(a: Seq<char>) -> spec_fn(LinkRecord) -> bool {
    |l: LinkRecord| l.0 != a
}

pub open spec fn peer_not_at(a: Seq<char>) -> spec_fn(PeerRecord) -> bool {
    |p: PeerRecord| p.address != a
}

pub open spec fn peer_fresh(cutoff: u64) -> spec_fn(PeerRecord) -> bool {
    |p: PeerRecord| p.last_seen >= cutoff
}

impl DirectoryState {
    pub open spec fn empty() -> DirectoryState {
        DirectoryState { peers: Seq::empty(), hashes: Seq::empty(), links: Seq::empty() }
    }

    pub open spec fn has_peer(self, a: Seq<char>) -> bool {
        exists|i: int| 0 <= i < self.peers.len() && (#[trigger] self.peers[i]).address == a
    }

    pub open spec fn peer_index(self, a: Seq<char>) -> int {
        choose|i: int| 0 <= i < self.peers.len() && (#[trigger] self.peers[i]).address == a
    }

    /// The stored record of the peer with address `a` (meaningful when `has_peer(a)`).
    pub open spec fn record_of(self, a: Seq<char>) -> PeerRecord {
        self.peers[self.peer_index(a)]
    }

    /// Addresses, hashes and links are unique, and every link names a stored peer
    /// and a stored hash.
    pub open spec fn well_formed(self) -> bool {
        &&& forall|i: int, j: int|
            0 <= i < self.peers.len() && 0 <= j < self.peers.len() && i != j
                ==> (#[trigger] self.peers[i]).address != (#[trigger] self.peers[j]).address
        &&& self.hashes.no_duplicates()
        &&& self.links.no_duplicates()
        &&& forall|k: int|
            0 <= k < self.links.len() ==> self.has_peer((#[trigger] self.links[k]).0)
                && self.hashes.contains(self.links[k].1)
    }

    pub proof fn lemma_index_of_stored(self, i: int)
        requires
            self.well_formed(),
            0 <= i < self.peers.len(),
        ensures
            self.has_peer(self.peers[i].address),
            self.peer_index(self.peers[i].address) == i,
            self.record_of(self.peers[i].address) == self.peers[i],
    {
        let a = self.peers[i].address;
        assert(self.has_peer(a));
        let j = self.peer_index(a);
        if j != i {
            assert(self.peers[i].address != self.peers[j].address);
        }
    }

    pub proof fn lemma_upsert_stores(self, p: PeerRecord)
        ensures
            self.upsert(p).has_peer(p.address),
            self.upsert(p).hashes == self.hashes,
            self.upsert(p).links == self.links,
    {
        let t = self.upsert(p);
        if self.has_peer(p.address) {
            let i = self.peer_index(p.address);
            assert(t.peers[i].address == p.address);
        } else {
            assert(t.peers[self.peers.len() as int] == p);
        }
    }

    pub proof fn lemma_announce_hashes_keeps_peers(self, a: Seq<char>, hs: Seq<Seq<u8>>)
        ensures
            self.announce_hashes(a, hs).peers == self.peers,
        decreases hs.len(),
    {
        if hs.len() > 0 {
            self.lemma_announce_hashes_keeps_peers(a, hs.drop_last());
        }
    }

    /// Inserts a peer seen for the first time, or moves the `last_seen` of a known
    /// one, keeping its `date_added`.
    pub open spec fn upsert(self, p: PeerRecord) -> DirectoryState {
        if self.has_peer(p.address) {
            let i = self.peer_index(p.address);
            DirectoryState {
                peers: self.peers.update(i, PeerRecord { last_seen: p.last_seen, ..self.peers[i] }),
                ..self
            }
        } else {
            DirectoryState { peers: self.peers.push(p), ..self }
        }
    }

    pub open spec fn add_hash(self, h: Seq<u8>) -> DirectoryState {
        if self.hashes.contains(h) {
            self
        } else {
            DirectoryState { hashes: self.hashes.push(h), ..self }
        }
    }

    pub open spec fn add_link(self, a: Seq<char>, h: Seq<u8>) -> DirectoryState {
        if self.links.contains((a, h)) {
            self
        } else {
            DirectoryState { links: self.links.push((a, h)), ..self }
        }
    }

    /// Stores each hash of `hs` in turn, with a link from the peer at `a`.
    pub open spec fn announce_hashes(self, a: Seq<char>, hs: Seq<Seq<u8>>) -> DirectoryState
        decreases hs.len(),
    {
        if hs.len() == 0 {
            self
        } else {
            self.announce_hashes(a, hs.drop_last()).add_hash(hs.last()).add_link(a, hs.last())
        }
    }

    /// The effect of one announce: the peer is upserted, then its hashes are linked.
    pub open spec fn announce(self, p: PeerRecord, hs: Seq<Seq<u8>>) -> DirectoryState {
        self.upsert(p).announce_hashes(p.address, hs)
    }

    pub open spec fn links_to(self, h: Seq<u8>) -> Seq<LinkRecord> {
        self.links.filter(link_on_hash(h))
    }

    pub open spec fn link_count(self, h: Seq<u8>) -> nat {
        self.links_to(h).len()
    }

    /// The records of the peers that the links name, in link order.
    pub open spec fn records_of(self, ls: Seq<LinkRecord>) -> Seq<PeerRecord> {
        ls.map_values(|l: LinkRecord| self.record_of(l.0))
    }

    /// The records of the peers linked to `h`, in link order.
    pub open spec fn peers_for_hash(self, h: Seq<u8>) -> Seq<PeerRecord> {
        self.records_of(self.links_to(h))
    }

    pub open spec fn is_linked(self) -> spec_fn(Seq<u8>) -> bool {
        |h: Seq<u8>| self.link_count(h) > 0
    }

    /// Each hash of `hs` with its number of links.
    pub open spec fn with_counts(self, hs: Seq<Seq<u8>>) -> Seq<(Seq<u8>, nat)> {
        hs.map_values(|h: Seq<u8>| (h, self.link_count(h)))
    }

    /// Every hash with at least one link, with its number of links.
    pub open spec fn hash_counts(self) -> Seq<(Seq<u8>, nat)> {
        self.with_counts(self.hashes.filter(self.is_linked()))
    }

    /// The peer at `a` and its links are gone; hashes stay.
    pub open spec fn remove(self, a: Seq<char>) -> DirectoryState {
        DirectoryState {
            peers: self.peers.filter(peer_not_at(a)),
            hashes: self.hashes,
            links: self.links.filter(link_not_of(a)),
        }
    }

    pub open spec fn is_stale(self, a: Seq<char>, cutoff: u64) -> bool {
        self.has_peer(a) && self.record_of(a).last_seen < cutoff
    }

    pub open spec fn link_kept(self, cutoff: u64) -> spec_fn(LinkRecord) -> bool {
        |l: LinkRecord| !self.is_stale(l.0, cutoff)
    }

    /// Every peer last seen before `cutoff` is gone, with its links.
    pub open spec fn cleanup_peers(self, cutoff: u64) -> DirectoryState {
        DirectoryState {
            peers: self.peers.filter(peer_fresh(cutoff)),
            hashes: self.hashes,
            links: self.links.filter(self.link_kept(cutoff)),
        }
    }

    /// Every hash without a link is gone.
    pub open spec fn cleanup_hashes(self) -> DirectoryState {
        DirectoryState { hashes: self.hashes.filter(self.is_linked()), ..self }
    }
}

pub proof fn lemma_push_no_duplicates<A>(s: Seq<A>, x: A)
    requires
        s.no_duplicates(),
        !s.contains(x),
    ensures
        s.push(x).no_duplicates(),
{
    assert forall|i: int, j: int|
        0 <= i < s.len() + 1 && 0 <= j < s.len() + 1 && i != j implies s.push(x)[i] != s.push(
        x,
    )[j] by {
        if i < s.len() && j < s.len() {
            assert(s[i] != s[j]);
        } else if i < s.len() {
            assert(s.contains(s[i]));
        } else {
            assert(s.contains(s[j]));
        }
    }
}

pub proof fn lemma_filter_all<A>(s: Seq<A>, pred: spec_fn(A) -> bool)
    requires
        forall|i: int| 0 <= i < s.len() ==> pred(#[trigger] s[i]),
    ensures
        s.filter(pred) == s,
    decreases s.len(),
{
    reveal(Seq::filter);
    if s.len() > 0 {
        lemma_filter_all(s.drop_last(), pred);
        assert(s.drop_last().push(s.last()) =~= s);
    }
}

pub proof fn lemma_filter_no_duplicates<A>(s: Seq<A>, pred: spec_fn(A) -> bool)
    requires
        s.no_duplicates(),
    ensures
        s.filter(pred).no_duplicates(),
    decreases s.len(),
{
    reveal(Seq::filter);
    if s.len() > 0 {
        let d = s.drop_last();
        lemma_filter_no_duplicates(d, pred);
        if pred(s.last()) {
            let f = d.filter(pred);
            assert forall|i: int| 0 <= i < f.len() implies f[i] != s.last() by {
                assert(f.contains(f[i]));
                d.lemma_filter_contains_rev(pred, f[i]);
                let j = choose|j: int| 0 <= j < d.len() && d[j] == f[i];
                assert(s[j] == d[j]);
            }
            assert forall|i: int, j: int|
                0 <= i < f.len() + 1 && 0 <= j < f.len() + 1 && i != j implies f.push(s.last())[i]
                != f.push(s.last())[j] by {
                if i < f.len() && j < f.len() {
                    assert(f[i] != f[j]);
                }
            }
        }
    }
}

pub proof fn lemma_filter_distinct_addresses(s: Seq<PeerRecord>, pred: spec_fn(PeerRecord) -> bool)
    requires
        forall|i: int, j: int|
            0 <= i < s.len() && 0 <= j < s.len() && i != j ==> (#[trigger] s[i]).address
                != (#[trigger] s[j]).address,
    ensures
        forall|i: int, j: int|
            0 <= i < s.filter(pred).len() && 0 <= j < s.filter(pred).len() && i != j
                ==> (#[trigger] s.filter(pred)[i]).address != (#[trigger] s.filter(pred)[j]).address,
    decreases s.len(),
{
    reveal(Seq::filter);
    if s.len() > 0 {
        let d = s.drop_last();
        assert forall|i: int, j: int|
            0 <= i < d.len() && 0 <= j < d.len() && i != j implies (#[trigger] d[i]).address
                != (#[trigger] d[j]).address by {
            assert(s[i] == d[i] && s[j] == d[j]);
        }
        lemma_filter_distinct_addresses(d, pred);
        if pred(s.last()) {
            let f = d.filter(pred);
            assert forall|i: int| 0 <= i < f.len() implies (#[trigger] f[i]).address
                != s.last().address by {
                assert(f.contains(f[i]));
                d.lemma_filter_contains_rev(pred, f[i]);
                let j = choose|j: int| 0 <= j < d.len() && d[j] == f[i];
                assert(s[j] == d[j]);
                assert(s[j].address != s[s.len() - 1].address);
            }
            assert forall|i: int, j: int|
                0 <= i < f.len() + 1 && 0 <= j < f.len() + 1 && i != j implies (
                #[trigger] f.push(s.last())[i]).address != (#[trigger] f.push(s.last())[j]).address by {
                if i < f.len() && j < f.len() {
                    assert(f[i].address != f[j].address);
                } else if i < f.len() {
                    assert(f[i].address != s.last().address);
                } else {
                    assert(f[j].address != s.last().address);
                }
            }
        }
    }
}

} // verus!
