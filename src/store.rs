use vstd::prelude::*;

use crate::model::{
    lemma_filter_all, lemma_filter_distinct_addresses, lemma_filter_no_duplicates,
    lemma_push_no_duplicates, link_not_of, link_on_hash, peer_fresh, peer_not_at, DirectoryState,
    LinkRecord, PeerRecord,
};

verus! {

broadcast use vstd::seq_lib::group_filter_ensures, Seq::lemma_filter_push;

/// A network endpoint that serves content, with the times (seconds since the
/// Unix epoch) it was first and last seen.
#[derive(Debug, Clone, PartialEq, Eq)]
pub struct Peer {
    pub address: String,
    pub date_added: u64,
    pub last_seen: u64,
}

impl View for Peer {
    type V = PeerRecord;

    open spec fn view(&self) -> PeerRecord {
        PeerRecord { address: self.address@, date_added: self.date_added, last_seen: self.last_seen }
    }
}

/// An opaque content identifier, compared byte for byte.
#[derive(Debug, Clone, PartialEq, Eq)]
pub struct Hash(pub Vec<u8>);

impl View for Hash {
    type V = Seq<u8>;

    open spec fn view(&self) -> Seq<u8> {
        self.0@
    }
}

pub open spec fn hash_views(hs: Seq<Hash>) -> Seq<Seq<u8>> {
    hs.map_values(|h: Hash| h@)
}

pub open spec fn peer_views(ps: Seq<Peer>) -> Seq<PeerRecord> {
    ps.map_values(|p: Peer| p@)
}

pub open spec fn count_views(cs: Seq<(Hash, usize)>) -> Seq<(Seq<u8>, nat)> {
    cs.map_values(|c: (Hash, usize)| (c.0@, c.1 as nat))
}

/// A row of the association between peers and the hashes they serve.
struct PeerHashLink {
    address: String,
    hash: Hash,
}

impl View for PeerHashLink {
    type V = LinkRecord;

    closed spec fn view(&self) -> LinkRecord {
        (self.address@, self.hash@)
    }
}

spec fn link_views(ls: Seq<PeerHashLink>) -> Seq<LinkRecord> {
    ls.map_values(|l: PeerHashLink| l@)
}

/// What a store operation can refuse.
#[derive(Debug, PartialEq, Eq, Structural)]
pub enum Error {
    /// A link named an address that no stored peer has.
    UnknownPeer,
    /// A link named a hash that is not stored.
    UnknownHash,
}

/// The in-memory peer directory: peers, hashes and the links between them.
pub struct PeerDB {
    peers: Vec<Peer>,
    hashes: Vec<Hash>,
    links: Vec<PeerHashLink>,
}

impl View for PeerDB {
    type V = DirectoryState;

    closed spec fn view(&self) -> DirectoryState {
        DirectoryState {
            peers: peer_views(self.peers@),
            hashes: hash_views(self.hashes@),
            links: link_views(self.links@),
        }
    }
}

fn same_bytes(a: &Vec<u8>, b: &Vec<u8>) -> (r: bool)
    ensures
        r == (a@ == b@),
{
    if a.len() != b.len() {
        return false;
    }
    let mut i: usize = 0;
    while i < a.len()
        invariant
            a@.len() == b@.len(),
            0 <= i <= a@.len(),
            forall|k: int| 0 <= k < i ==> a@[k] == b@[k],
        decreases a@.len() - i,
    {
        if a[i] != b[i] {
            return false;
        }
        i = i + 1;
    }
    assert(a@ =~= b@);
    true
}

fn copy_hash(h: &Hash) -> (r: Hash)
    ensures
        r@ == h@,
{
    let mut bytes: Vec<u8> = Vec::new();
    let mut i: usize = 0;
    while i < h.0.len()
        invariant
            0 <= i <= h.0@.len(),
            bytes@ == h.0@.subrange(0, i as int),
        decreases h.0@.len() - i,
    {
        bytes.push(h.0[i]);
        i = i + 1;
        assert(bytes@ =~= h.0@.subrange(0, i as int));
    }
    assert(bytes@ =~= h.0@);
    Hash(bytes)
}

fn copy_peer(p: &Peer) -> (r: Peer)
    ensures
        r@ == p@,
{
    Peer { address: p.address.clone(), date_added: p.date_added, last_seen: p.last_seen }
}

impl PeerDB {
    /// Creates an empty directory.
    pub fn new() -> (r: Result<PeerDB, Error>)
        ensures
            r matches Ok(db) && db@ == DirectoryState::empty(),
    {
        let db = PeerDB { peers: Vec::new(), hashes: Vec::new(), links: Vec::new() };
        assert(db@.peers =~= Seq::empty());
        assert(db@.hashes =~= Seq::empty());
        assert(db@.links =~= Seq::empty());
        Ok(db)
    }

    fn find_peer(&self, address: &String) -> (r: Option<usize>)
        requires
            self@.well_formed(),
        ensures
            r matches Some(i) ==> i < self@.peers.len() && self@.peers[i as int].address
                == address@ && self@.peer_index(address@) == i && self@.has_peer(address@),
            r is None ==> !self@.has_peer(address@),
    {
        let mut i: usize = 0;
        while i < self.peers.len()
            invariant
                0 <= i <= self@.peers.len(),
                self@.well_formed(),
                self@.peers.len() == self.peers@.len(),
                forall|k: int| 0 <= k < i ==> (#[trigger] self@.peers[k]).address != address@,
            decreases self.peers@.len() - i,
        {
            if self.peers[i].address == *address {
                assert(self@.peers[i as int].address == address@);
                proof { self@.lemma_index_of_stored(i as int); }
                return Some(i);
            }
            i = i + 1;
        }
        None
    }

    fn find_hash(&self, hash: &Hash) -> (r: Option<usize>)
        ensures
            r matches Some(i) ==> i < self@.hashes.len() && self@.hashes[i as int] == hash@,
            r is None ==> !self@.hashes.contains(hash@),
    {
        let mut i: usize = 0;
        while i < self.hashes.len()
            invariant
                0 <= i <= self@.hashes.len(),
                self@.hashes.len() == self.hashes@.len(),
                forall|k: int| 0 <= k < i ==> self@.hashes[k] != hash@,
            decreases self.hashes@.len() - i,
        {
            if same_bytes(&self.hashes[i].0, &hash.0) {
                return Some(i);
            }
            i = i + 1;
        }
        None
    }

    fn has_link(&self, address: &String, hash: &Hash) -> (r: bool)
        ensures
            r == self@.links.contains((address@, hash@)),
    {
        let mut i: usize = 0;
        while i < self.links.len()
            invariant
                0 <= i <= self@.links.len(),
                self@.links.len() == self.links@.len(),
                forall|k: int| 0 <= k < i ==> self@.links[k] != (address@, hash@),
            decreases self.links@.len() - i,
        {
            if self.links[i].address == *address && same_bytes(&self.links[i].hash.0, &hash.0) {
                assert(self@.links[i as int] == (address@, hash@));
                return true;
            }
            i = i + 1;
        }
        false
    }

    /// Inserts the peer if its address is new, else sets its `last_seen` and keeps
    /// its `date_added`. Returns whether the address was already known.
    pub fn upsert_peer(&mut self, peer: &Peer) -> (r: Result<bool, Error>)
        requires
            old(self)@.well_formed(),
        ensures
            final(self)@.well_formed(),
            final(self)@ == old(self)@.upsert(peer@),
            r == Ok::<bool, Error>(old(self)@.has_peer(peer.address@)),
    {
        match self.find_peer(&peer.address) {
            Some(i) => {
                let ghost before = self@;
                self.peers.set(i, Peer {
                    address: self.peers[i].address.clone(),
                    date_added: self.peers[i].date_added,
                    last_seen: peer.last_seen,
                });
                assert(self@.peers =~= before.upsert(peer@).peers);
                assert(self@ == before.upsert(peer@));
                assert forall|k: int| 0 <= k < self@.links.len() implies self@.has_peer(
                    (#[trigger] self@.links[k]).0,
                ) by {
                    let j = choose|j: int|
                        0 <= j < before.peers.len() && (#[trigger] before.peers[j]).address
                            == before.links[k].0;
                    assert(self@.peers[j].address == before.peers[j].address);
                }
                Ok(true)
            },
            None => {
                let ghost before = self@;
                self.peers.push(copy_peer(peer));
                assert(self@.peers =~= before.peers.push(peer@));
                assert(self@ == before.upsert(peer@));
                assert forall|k: int| 0 <= k < self@.links.len() implies self@.has_peer(
                    (#[trigger] self@.links[k]).0,
                ) by {
                    let j = choose|j: int|
                        0 <= j < before.peers.len() && (#[trigger] before.peers[j]).address
                            == before.links[k].0;
                    assert(self@.peers[j] == before.peers[j]);
                }
                Ok(false)
            },
        }
    }

    /// Stores the hash unless it is stored already.
    pub fn insert_hash(&mut self, hash: &Hash) -> (r: Result<(), Error>)
        requires
            old(self)@.well_formed(),
        ensures
            final(self)@.well_formed(),
            final(self)@ == old(self)@.add_hash(hash@),
            r == Ok::<(), Error>(()),
    {
        if self.find_hash(hash).is_none() {
            let ghost before = self@;
            self.hashes.push(copy_hash(hash));
            assert(self@.hashes =~= before.hashes.push(hash@));
            assert(self@.links == before.links);
            assert(self@.peers == before.peers);
            proof { lemma_push_no_duplicates(before.hashes, hash@); }
            assert forall|k: int| 0 <= k < self@.links.len() implies self@.hashes.contains(
                (#[trigger] self@.links[k]).1,
            ) by {
                assert(before.hashes.contains(before.links[k].1));
                let j = choose|j: int|
                    0 <= j < before.hashes.len() && before.hashes[j] == before.links[k].1;
                assert(self@.hashes[j] == before.hashes[j]);
            }
        }
        Ok(())
    }

    /// Records that the peer at `peer_address` serves `hash`, unless it is recorded
    /// already. Both must be stored.
    pub fn link(&mut self, hash: &Hash, peer_address: &String) -> (r: Result<(), Error>)
        requires
            old(self)@.well_formed(),
        ensures
            final(self)@.well_formed(),
            !old(self)@.has_peer(peer_address@) ==> r == Err::<(), Error>(Error::UnknownPeer)
                && final(self)@ == old(self)@,
            old(self)@.has_peer(peer_address@) && !old(self)@.hashes.contains(hash@) ==> r
                == Err::<(), Error>(Error::UnknownHash) && final(self)@ == old(self)@,
            old(self)@.has_peer(peer_address@) && old(self)@.hashes.contains(hash@) ==> r == Ok::<
                (),
                Error,
            >(()) && final(self)@ == old(self)@.add_link(peer_address@, hash@),
    {
        if self.find_peer(peer_address).is_none() {
            return Err(Error::UnknownPeer);
        }
        if self.find_hash(hash).is_none() {
            return Err(Error::UnknownHash);
        }
        if !self.has_link(peer_address, hash) {
            let ghost before = self@;
            self.links.push(PeerHashLink { address: peer_address.clone(), hash: copy_hash(hash) });
            assert(self@.links =~= before.links.push((peer_address@, hash@)));
            assert(self@.peers == before.peers);
            assert(self@.hashes == before.hashes);
            proof { lemma_push_no_duplicates(before.links, (peer_address@, hash@)); }
            assert forall|k: int| 0 <= k < self@.links.len() implies self@.has_peer(
                (#[trigger] self@.links[k]).0,
            ) && self@.hashes.contains(self@.links[k].1) by {
                if k < before.links.len() {
                    assert(self@.links[k] == before.links[k]);
                }
            }
        }
        Ok(())
    }

    /// One announce: upserts the peer, then stores each hash that is new and links
    /// it to the peer. Returns whether the peer's address was known before.
    pub fn update_peer(&mut self, peer: Peer, hashes: Vec<Hash>) -> (r: Result<bool, Error>)
        requires
            old(self)@.well_formed(),
        ensures
            final(self)@.well_formed(),
            final(self)@ == old(self)@.announce(peer@, hash_views(hashes@)),
            r == Ok::<bool, Error>(old(self)@.has_peer(peer.address@)),
    {
        let known = match self.upsert_peer(&peer) {
            Ok(k) => k,
            Err(e) => return Err(e),
        };
        let ghost start = self@;
        let ghost hv = hash_views(hashes@);
        proof {
            old(self)@.lemma_upsert_stores(peer@);
            assert(hv.subrange(0, 0) =~= Seq::<Seq<u8>>::empty());
        }
        let mut i: usize = 0;
        while i < hashes.len()
            invariant
                0 <= i <= hashes@.len(),
                hv == hash_views(hashes@),
                self@.well_formed(),
                start.has_peer(peer.address@),
                self@ == start.announce_hashes(peer.address@, hv.subrange(0, i as int)),
            decreases hashes@.len() - i,
        {
            proof {
                start.lemma_announce_hashes_keeps_peers(peer.address@, hv.subrange(0, i as int));
            }
            let ghost prev = self@;
            let _ = self.insert_hash(&hashes[i]);
            proof {
                let h = hashes@[i as int]@;
                if !prev.hashes.contains(h) {
                    assert(self@.hashes[prev.hashes.len() as int] == h);
                }
                assert(self@.hashes.contains(h));
                assert(self@.peers == start.peers);
            }
            let _ = self.link(&hashes[i], &peer.address);
            proof {
                let next = hv.subrange(0, i + 1);
                assert(next.drop_last() =~= hv.subrange(0, i as int));
                assert(next.last() == hashes@[i as int]@);
                assert(self@ == prev.add_hash(next.last()).add_link(peer.address@, next.last()));
            }
            i = i + 1;
        }
        assert(hv.subrange(0, hashes@.len() as int) =~= hv);
        Ok(known)
    }

    /// Deletes the peer's links, then the peer; hashes stay. Returns the removed
    /// record, or nothing when the address is unknown.
    pub fn remove_peer(&mut self, peer_address: &String) -> (r: Result<Option<Peer>, Error>)
        requires
            old(self)@.well_formed(),
        ensures
            final(self)@.well_formed(),
            final(self)@ == old(self)@.remove(peer_address@),
            !old(self)@.has_peer(peer_address@) ==> r == Ok::<Option<Peer>, Error>(None)
                && final(self)@ == old(self)@,
            old(self)@.has_peer(peer_address@) ==> (r matches Ok(Some(p)) && p@ == old(
                self,
            )@.record_of(peer_address@)),
    {
        let ghost a = peer_address@;
        let ghost before = self@;
        let i = match self.find_peer(peer_address) {
            Some(i) => i,
            None => {
                proof {
                    assert forall|k: int| 0 <= k < before.peers.len() implies (peer_not_at(a))(
                        #[trigger] before.peers[k],
                    ) by {}
                    lemma_filter_all(before.peers, peer_not_at(a));
                    assert forall|k: int| 0 <= k < before.links.len() implies (link_not_of(a))(
                        #[trigger] before.links[k],
                    ) by {}
                    lemma_filter_all(before.links, link_not_of(a));
                }
                return Ok(None);
            },
        };
        let removed = copy_peer(&self.peers[i]);
        let mut links: Vec<PeerHashLink> = Vec::new();
        let mut k: usize = 0;
        while k < self.links.len()
            invariant
                0 <= k <= self.links@.len(),
                self@ == before,
                a == peer_address@,
                before.links.len() == self.links@.len(),
                link_views(links@) == before.links.subrange(0, k as int).filter(
                    link_not_of(a),
                ),
            decreases self.links@.len() - k,
        {
            proof {
                assert(before.links.subrange(0, k + 1) =~= before.links.subrange(0, k as int).push(
                    before.links[k as int],
                ));
                before.links.subrange(0, k as int).lemma_filter_push(
                    before.links[k as int],
                    link_not_of(a),
                );
                assert(before.links[k as int] == self.links@[k as int]@);
            }
            if !(self.links[k].address == *peer_address) {
                let ghost old_links = links@;
                links.push(
                    PeerHashLink {
                        address: self.links[k].address.clone(),
                        hash: copy_hash(&self.links[k].hash),
                    },
                );
                assert(link_views(links@) =~= link_views(old_links).push(before.links[k as int]));
            }
            k = k + 1;
        }
        let mut peers: Vec<Peer> = Vec::new();
        let mut k: usize = 0;
        while k < self.peers.len()
            invariant
                0 <= k <= self.peers@.len(),
                self@ == before,
                a == peer_address@,
                before.peers.len() == self.peers@.len(),
                peer_views(peers@) == before.peers.subrange(0, k as int).filter(peer_not_at(a)),
            decreases self.peers@.len() - k,
        {
            proof {
                assert(before.peers.subrange(0, k + 1) =~= before.peers.subrange(0, k as int).push(
                    before.peers[k as int],
                ));
                before.peers.subrange(0, k as int).lemma_filter_push(
                    before.peers[k as int],
                    peer_not_at(a),
                );
                assert(before.peers[k as int] == self.peers@[k as int]@);
            }
            if !(self.peers[k].address == *peer_address) {
                let ghost old_peers = peers@;
                peers.push(copy_peer(&self.peers[k]));
                assert(peer_views(peers@) =~= peer_views(old_peers).push(before.peers[k as int]));
            }
            k = k + 1;
        }
        self.links = links;
        self.peers = peers;
        proof {
            assert(before.links.subrange(0, before.links.len() as int) =~= before.links);
            assert(before.peers.subrange(0, before.peers.len() as int) =~= before.peers);
            assert(self@ == before.remove(a));
            lemma_filter_no_duplicates(before.links, link_not_of(a));
            lemma_filter_distinct_addresses(before.peers, peer_not_at(a));
            let after = self@;
            assert forall|m: int| 0 <= m < after.links.len() implies after.has_peer(
                (#[trigger] after.links[m]).0,
            ) && after.hashes.contains(after.links[m].1) by {
                let l = after.links[m];
                assert(after.links.contains(l));
                assert((link_not_of(a))(l));
                before.links.lemma_filter_contains_rev(link_not_of(a), l);
                let n = choose|n: int| 0 <= n < before.links.len() && before.links[n] == l;
                assert(before.has_peer(before.links[n].0));
                assert(before.hashes.contains(before.links[n].1));
                let j = before.peer_index(l.0);
                assert(before.peers[j].address == l.0);
                assert((peer_not_at(a))(before.peers[j]));
                assert(after.peers.contains(before.peers[j]));
                let q = choose|q: int| 0 <= q < after.peers.len() && after.peers[q] == before.peers[j];
                assert(after.peers[q].address == l.0);
            }
        }
        Ok(Some(removed))
    }

    /// Looks the peer up by address.
    pub fn get_peer(&self, peer_address: &String) -> (r: Result<Option<Peer>, Error>)
        requires
            self@.well_formed(),
        ensures
            !self@.has_peer(peer_address@) ==> r == Ok::<Option<Peer>, Error>(None),
            self@.has_peer(peer_address@) ==> (r matches Ok(Some(p)) && p@ == self@.record_of(
                peer_address@,
            )),
    {
        match self.find_peer(peer_address) {
            Some(i) => Ok(Some(copy_peer(&self.peers[i]))),
            None => Ok(None),
        }
    }

    /// Every stored peer, in storage order.
    pub fn get_peers(&self) -> (r: Result<Vec<Peer>, Error>)
        ensures
            r matches Ok(v) && peer_views(v@) == self@.peers,
    {
        let mut out: Vec<Peer> = Vec::new();
        let mut k: usize = 0;
        while k < self.peers.len()
            invariant
                0 <= k <= self.peers@.len(),
                self@.peers.len() == self.peers@.len(),
                peer_views(out@) == self@.peers.subrange(0, k as int),
            decreases self.peers@.len() - k,
        {
            let ghost prev = out@;
            out.push(copy_peer(&self.peers[k]));
            assert(peer_views(out@) =~= peer_views(prev).push(self@.peers[k as int]));
            k = k + 1;
            assert(peer_views(out@) =~= self@.peers.subrange(0, k as int));
        }
        assert(self@.peers.subrange(0, k as int) =~= self@.peers);
        Ok(out)
    }

    fn count_links(&self, hash: &Hash) -> (r: usize)
        ensures
            r == self@.link_count(hash@),
    {
        let ghost ls = self@.links;
        let ghost h = hash@;
        let mut count: usize = 0;
        let mut k: usize = 0;
        while k < self.links.len()
            invariant
                0 <= k <= self.links@.len(),
                ls == self@.links,
                h == hash@,
                ls.len() == self.links@.len(),
                count == ls.subrange(0, k as int).filter(link_on_hash(h)).len(),
                count <= k,
            decreases self.links@.len() - k,
        {
            proof {
                assert(ls.subrange(0, k + 1) =~= ls.subrange(0, k as int).push(ls[k as int]));
                ls.subrange(0, k as int).lemma_filter_push(ls[k as int], link_on_hash(h));
                assert(ls[k as int] == self.links@[k as int]@);
            }
            if same_bytes(&self.links[k].hash.0, &hash.0) {
                count = count + 1;
            }
            k = k + 1;
        }
        assert(ls.subrange(0, k as int) =~= ls);
        count
    }

    /// The peers linked to the hash, in link order.
    pub fn get_peers_for_hash(&self, hash: &Hash) -> (r: Result<Vec<Peer>, Error>)
        requires
            self@.well_formed(),
        ensures
            r matches Ok(v) && peer_views(v@) == self@.peers_for_hash(hash@),
    {
        let ghost ls = self@.links;
        let ghost h = hash@;
        let mut out: Vec<Peer> = Vec::new();
        let mut k: usize = 0;
        while k < self.links.len()
            invariant
                0 <= k <= self.links@.len(),
                self@.well_formed(),
                ls == self@.links,
                h == hash@,
                ls.len() == self.links@.len(),
                peer_views(out@) == self@.records_of(ls.subrange(0, k as int).filter(link_on_hash(h))),
            decreases self.links@.len() - k,
        {
            proof {
                assert(ls.subrange(0, k + 1) =~= ls.subrange(0, k as int).push(ls[k as int]));
                ls.subrange(0, k as int).lemma_filter_push(ls[k as int], link_on_hash(h));
                assert(ls[k as int] == self.links@[k as int]@);
            }
            if same_bytes(&self.links[k].hash.0, &hash.0) {
                proof {
                    assert(self@.has_peer(ls[k as int].0));
                }
                match self.find_peer(&self.links[k].address) {
                    Some(i) => {
                        let ghost prev = out@;
                        let ghost f = ls.subrange(0, k as int).filter(link_on_hash(h));
                        out.push(copy_peer(&self.peers[i]));
                        assert(self@.records_of(f.push(ls[k as int])) =~= self@.records_of(f).push(
                            self@.record_of(ls[k as int].0),
                        ));
                        assert(peer_views(out@) =~= peer_views(prev).push(self@.peers[i as int]));
                    },
                    None => {},
                }
            }
            k = k + 1;
        }
        assert(ls.subrange(0, k as int) =~= ls);
        Ok(out)
    }

    /// Every hash with at least one link, paired with its number of links.
    pub fn get_hashes(&self) -> (r: Result<Vec<(Hash, usize)>, Error>)
        ensures
            r matches Ok(v) && count_views(v@) == self@.hash_counts(),
    {
        let ghost hs = self@.hashes;
        let mut out: Vec<(Hash, usize)> = Vec::new();
        let mut k: usize = 0;
        while k < self.hashes.len()
            invariant
                0 <= k <= self.hashes@.len(),
                hs == self@.hashes,
                hs.len() == self.hashes@.len(),
                count_views(out@) == self@.with_counts(
                    hs.subrange(0, k as int).filter(self@.is_linked()),
                ),
            decreases self.hashes@.len() - k,
        {
            proof {
                assert(hs.subrange(0, k + 1) =~= hs.subrange(0, k as int).push(hs[k as int]));
                hs.subrange(0, k as int).lemma_filter_push(hs[k as int], self@.is_linked());
                assert(hs[k as int] == self.hashes@[k as int]@);
            }
            let count = self.count_links(&self.hashes[k]);
            if count > 0 {
                let ghost prev = out@;
                let ghost f = hs.subrange(0, k as int).filter(self@.is_linked());
                out.push((copy_hash(&self.hashes[k]), count));
                assert(self@.with_counts(f.push(hs[k as int])) =~= self@.with_counts(f).push(
                    (hs[k as int], self@.link_count(hs[k as int])),
                ));
                assert(count_views(out@) =~= count_views(prev).push(
                    (hs[k as int], count as nat),
                ));
            }
            k = k + 1;
        }
        assert(hs.subrange(0, k as int) =~= hs);
        Ok(out)
    }

    /// The number of stored peers.
    pub fn get_peer_count(&self) -> (r: Result<usize, Error>)
        ensures
            r matches Ok(n) && n == self@.peers.len(),
    {
        Ok(self.peers.len())
    }

    /// The number of stored hashes.
    pub fn get_hash_count(&self) -> (r: Result<usize, Error>)
        ensures
            r matches Ok(n) && n == self@.hashes.len(),
    {
        Ok(self.hashes.len())
    }

    /// Removes every peer last seen before `cutoff`, together with its links.
    /// Returns the number of peers removed.
    pub fn cleanup_peers(&mut self, cutoff: u64) -> (r: Result<usize, Error>)
        requires
            old(self)@.well_formed(),
        ensures
            final(self)@.well_formed(),
            final(self)@ == old(self)@.cleanup_peers(cutoff),
            r matches Ok(n) && n == old(self)@.peers.len() - final(self)@.peers.len(),
    {
        let ghost before = self@;
        let mut links: Vec<PeerHashLink> = Vec::new();
        let mut k: usize = 0;
        while k < self.links.len()
            invariant
                0 <= k <= self.links@.len(),
                self@ == before,
                before.well_formed(),
                before.links.len() == self.links@.len(),
                link_views(links@) == before.links.subrange(0, k as int).filter(
                    before.link_kept(cutoff),
                ),
            decreases self.links@.len() - k,
        {
            proof {
                assert(before.links.subrange(0, k + 1) =~= before.links.subrange(0, k as int).push(
                    before.links[k as int],
                ));
                before.links.subrange(0, k as int).lemma_filter_push(
                    before.links[k as int],
                    before.link_kept(cutoff),
                );
                assert(before.links[k as int] == self.links@[k as int]@);
            }
            let keep = match self.find_peer(&self.links[k].address) {
                Some(j) => self.peers[j].last_seen >= cutoff,
                None => true,
            };
            if keep {
                let ghost old_links = links@;
                links.push(
                    PeerHashLink {
                        address: self.links[k].address.clone(),
                        hash: copy_hash(&self.links[k].hash),
                    },
                );
                assert(link_views(links@) =~= link_views(old_links).push(before.links[k as int]));
            }
            k = k + 1;
        }
        let mut peers: Vec<Peer> = Vec::new();
        let mut k: usize = 0;
        while k < self.peers.len()
            invariant
                0 <= k <= self.peers@.len(),
                self@ == before,
                before.peers.len() == self.peers@.len(),
                peer_views(peers@) == before.peers.subrange(0, k as int).filter(peer_fresh(cutoff)),
            decreases self.peers@.len() - k,
        {
            proof {
                assert(before.peers.subrange(0, k + 1) =~= before.peers.subrange(0, k as int).push(
                    before.peers[k as int],
                ));
                before.peers.subrange(0, k as int).lemma_filter_push(
                    before.peers[k as int],
                    peer_fresh(cutoff),
                );
                assert(before.peers[k as int] == self.peers@[k as int]@);
            }
            if self.peers[k].last_seen >= cutoff {
                let ghost old_peers = peers@;
                peers.push(copy_peer(&self.peers[k]));
                assert(peer_views(peers@) =~= peer_views(old_peers).push(before.peers[k as int]));
            }
            k = k + 1;
        }
        let removed = self.peers.len() - peers.len();
        self.links = links;
        self.peers = peers;
        proof {
            assert(before.links.subrange(0, before.links.len() as int) =~= before.links);
            assert(before.peers.subrange(0, before.peers.len() as int) =~= before.peers);
            assert(self@ == before.cleanup_peers(cutoff));
            lemma_filter_no_duplicates(before.links, before.link_kept(cutoff));
            lemma_filter_distinct_addresses(before.peers, peer_fresh(cutoff));
            let after = self@;
            assert forall|m: int| 0 <= m < after.links.len() implies after.has_peer(
                (#[trigger] after.links[m]).0,
            ) && after.hashes.contains(after.links[m].1) by {
                let l = after.links[m];
                assert(after.links.contains(l));
                assert((before.link_kept(cutoff))(l));
                before.links.lemma_filter_contains_rev(before.link_kept(cutoff), l);
                let n = choose|n: int| 0 <= n < before.links.len() && before.links[n] == l;
                assert(before.has_peer(before.links[n].0));
                assert(before.hashes.contains(before.links[n].1));
                let j = before.peer_index(l.0);
                assert(before.peers[j].address == l.0);
                assert((peer_fresh(cutoff))(before.peers[j]));
                assert(after.peers.contains(before.peers[j]));
                let q = choose|q: int| 0 <= q < after.peers.len() && after.peers[q] == before.peers[j];
                assert(after.peers[q].address == l.0);
            }
        }
        Ok(removed)
    }

    /// Removes every hash that no link names. Returns the number of hashes removed.
    pub fn cleanup_hashes(&mut self) -> (r: Result<usize, Error>)
        requires
            old(self)@.well_formed(),
        ensures
            final(self)@.well_formed(),
            final(self)@ == old(self)@.cleanup_hashes(),
            r matches Ok(n) && n == old(self)@.hashes.len() - final(self)@.hashes.len(),
    {
        let ghost before = self@;
        let mut hashes: Vec<Hash> = Vec::new();
        let mut k: usize = 0;
        while k < self.hashes.len()
            invariant
                0 <= k <= self.hashes@.len(),
                self@ == before,
                before.hashes.len() == self.hashes@.len(),
                hash_views(hashes@) == before.hashes.subrange(0, k as int).filter(before.is_linked()),
            decreases self.hashes@.len() - k,
        {
            proof {
                assert(before.hashes.subrange(0, k + 1) =~= before.hashes.subrange(0, k as int).push(
                    before.hashes[k as int],
                ));
                before.hashes.subrange(0, k as int).lemma_filter_push(
                    before.hashes[k as int],
                    before.is_linked(),
                );
                assert(before.hashes[k as int] == self.hashes@[k as int]@);
            }
            if self.count_links(&self.hashes[k]) > 0 {
                let ghost old_hashes = hashes@;
                hashes.push(copy_hash(&self.hashes[k]));
                assert(hash_views(hashes@) =~= hash_views(old_hashes).push(before.hashes[k as int]));
            }
            k = k + 1;
        }
        let removed = self.hashes.len() - hashes.len();
        self.hashes = hashes;
        proof {
            assert(before.hashes.subrange(0, before.hashes.len() as int) =~= before.hashes);
            assert(self@ == before.cleanup_hashes());
            lemma_filter_no_duplicates(before.hashes, before.is_linked());
            let after = self@;
            assert forall|m: int| 0 <= m < after.links.len() implies after.has_peer(
                (#[trigger] after.links[m]).0,
            ) && after.hashes.contains(after.links[m].1) by {
                let l = after.links[m];
                assert(before.links[m] == l);
                assert(before.hashes.contains(l.1));
                let j = choose|j: int| 0 <= j < before.hashes.len() && before.hashes[j] == l.1;
                assert((link_on_hash(l.1))(before.links[m]));
                assert(before.links_to(l.1).contains(l));
                assert(before.link_count(l.1) > 0);
                assert((before.is_linked())(before.hashes[j]));
                assert(after.hashes.contains(before.hashes[j]));
                assert(before.has_peer(l.0));
                assert(after.peers == before.peers);
            }
        }
        Ok(removed)
    }
}

} // verus!
