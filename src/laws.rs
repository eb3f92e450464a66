use vstd::prelude::*;

use crate::model::{
    lemma_filter_all, link_not_of, link_on_hash, peer_fresh, peer_not_at, DirectoryState,
    LinkRecord, PeerRecord,
};

verus! {

broadcast use vstd::seq_lib::group_filter_ensures, Seq::lemma_filter_push;

pub open spec fn distinct_addresses(ps: Seq<PeerRecord>) -> bool {
    forall|i: int, j: int|
        0 <= i < ps.len() && 0 <= j < ps.len() && i != j ==> (#[trigger] ps[i]).address != (
        #[trigger] ps[j]).address
}

/// Announces each peer of `xs` with its hashes, in order.
pub open spec fn announce_all(
    s: DirectoryState,
    xs: Seq<(PeerRecord, Seq<Seq<u8>>)>,
) -> DirectoryState
    decreases xs.len(),
{
    if xs.len() == 0 {
        s
    } else {
        announce_all(s, xs.drop_last()).announce(xs.last().0, xs.last().1)
    }
}

pub open spec fn stale(cutoff: u64) -> spec_fn(PeerRecord) -> bool {
    |p: PeerRecord| p.last_seen < cutoff
}

/// One announce keeps addresses unique, stores the peer, and sets its record:
/// a new peer is stored as given, a known one gets the new `last_seen` and keeps
/// its `date_added`.
pub proof fn lemma_announce_peer(s: DirectoryState, p: PeerRecord, hs: Seq<Seq<u8>>)
    requires
        distinct_addresses(s.peers),
    ensures
        distinct_addresses(s.announce(p, hs).peers),
        s.announce(p, hs).has_peer(p.address),
        s.announce(p, hs).record_of(p.address) == (if s.has_peer(p.address) {
            PeerRecord { last_seen: p.last_seen, ..s.record_of(p.address) }
        } else {
            p
        }),
        s.announce(p, hs).peers.len() == s.peers.len() + (if s.has_peer(p.address) {
            0int
        } else {
            1int
        }),
{
    let a = p.address;
    let u = s.upsert(p);
    s.upsert(p).lemma_announce_hashes_keeps_peers(a, hs);
    s.lemma_upsert_stores(p);
    let t = s.announce(p, hs);
    assert(t.peers == u.peers);
    if s.has_peer(a) {
        let i = s.peer_index(a);
        assert(distinct_addresses(u.peers)) by {
            assert forall|x: int, y: int|
                0 <= x < u.peers.len() && 0 <= y < u.peers.len() && x != y implies (
                #[trigger] u.peers[x]).address != (#[trigger] u.peers[y]).address by {
                assert(s.peers[x].address != s.peers[y].address);
            }
        }
        let j = u.peer_index(a);
        if j != i {
            assert(u.peers[j].address != u.peers[i].address);
        }
    } else {
        let n = s.peers.len() as int;
        assert(distinct_addresses(u.peers)) by {
            assert forall|x: int, y: int|
                0 <= x < u.peers.len() && 0 <= y < u.peers.len() && x != y implies (
                #[trigger] u.peers[x]).address != (#[trigger] u.peers[y]).address by {
                if x < n && y < n {
                    assert(s.peers[x].address != s.peers[y].address);
                } else if x < n {
                    assert(s.peers[x] == u.peers[x]);
                } else {
                    assert(s.peers[y] == u.peers[y]);
                }
            }
        }
        let j = u.peer_index(a);
        if j != n {
            assert(u.peers[j].address != u.peers[n].address);
        }
    }
}

/// A second announce of an address with a later `last_seen` moves `last_seen` and
/// leaves `date_added` as the first announce set it.
pub proof fn law_reannounce_keeps_date_added(
    s: DirectoryState,
    p: PeerRecord,
    hs1: Seq<Seq<u8>>,
    q: PeerRecord,
    hs2: Seq<Seq<u8>>,
)
    requires
        s.well_formed(),
        p.address == q.address,
        p.last_seen <= q.last_seen,
    ensures
        s.announce(p, hs1).announce(q, hs2).has_peer(q.address),
        s.announce(p, hs1).announce(q, hs2).record_of(q.address).date_added == s.announce(
            p,
            hs1,
        ).record_of(p.address).date_added,
        s.announce(p, hs1).announce(q, hs2).record_of(q.address).last_seen == q.last_seen,
{
    lemma_announce_peer(s, p, hs1);
    lemma_announce_peer(s.announce(p, hs1), q, hs2);
}

pub open spec fn seen_in_order(ps: Seq<PeerRecord>) -> bool {
    forall|i: int| 0 <= i < ps.len() ==> (#[trigger] ps[i]).date_added <= ps[i].last_seen
}

/// Every record keeps `date_added <= last_seen` across an announce whose own times
/// are in that order and whose `last_seen` does not go back on the stored one.
pub proof fn law_announce_keeps_seen_order(s: DirectoryState, p: PeerRecord, hs: Seq<Seq<u8>>)
    requires
        s.well_formed(),
        seen_in_order(s.peers),
        p.date_added <= p.last_seen,
        s.has_peer(p.address) ==> s.record_of(p.address).last_seen <= p.last_seen,
    ensures
        seen_in_order(s.announce(p, hs).peers),
{
    s.upsert(p).lemma_announce_hashes_keeps_peers(p.address, hs);
    let u = s.upsert(p);
    assert forall|i: int| 0 <= i < u.peers.len() implies (#[trigger] u.peers[i]).date_added
        <= u.peers[i].last_seen by {
        if i < s.peers.len() {
            assert(s.peers[i].date_added <= s.peers[i].last_seen);
        }
    }
}

/// However many times one address announces, the directory holds one peer row.
pub proof fn law_one_row_per_address(xs: Seq<(PeerRecord, Seq<Seq<u8>>)>, a: Seq<char>)
    requires
        xs.len() >= 1,
        forall|i: int| 0 <= i < xs.len() ==> (#[trigger] xs[i]).0.address == a,
    ensures
        announce_all(DirectoryState::empty(), xs).peers.len() == 1,
        announce_all(DirectoryState::empty(), xs).has_peer(a),
    decreases xs.len(),
{
    let d = xs.drop_last();
    let x = xs.last();
    assert(x == xs[xs.len() - 1]);
    assert(announce_all(DirectoryState::empty(), xs) == announce_all(
        DirectoryState::empty(),
        d,
    ).announce(x.0, x.1));
    if d.len() == 0 {
        assert(announce_all(DirectoryState::empty(), d) == DirectoryState::empty());
        lemma_announce_peer(DirectoryState::empty(), x.0, x.1);
    } else {
        assert forall|i: int| 0 <= i < d.len() implies (#[trigger] d[i]).0.address == a by {
            assert(d[i] == xs[i]);
        }
        law_one_row_per_address(d, a);
        let s = announce_all(DirectoryState::empty(), d);
        assert(distinct_addresses(s.peers));
        lemma_announce_peer(s, x.0, x.1);
    }
}

proof fn lemma_same_hash_state(xs: Seq<(PeerRecord, Seq<Seq<u8>>)>, h: Seq<u8>)
    requires
        xs.len() >= 1,
        forall|i: int| 0 <= i < xs.len() ==> (#[trigger] xs[i]).1 == seq![h],
        forall|i: int, j: int|
            0 <= i < xs.len() && 0 <= j < xs.len() && i != j ==> (#[trigger] xs[i]).0.address != (
            #[trigger] xs[j]).0.address,
    ensures
        announce_all(DirectoryState::empty(), xs).hashes == seq![h],
        announce_all(DirectoryState::empty(), xs).links.len() == xs.len(),
        forall|i: int|
            0 <= i < xs.len() ==> #[trigger] announce_all(DirectoryState::empty(), xs).links[i]
                == (xs[i].0.address, h),
        announce_all(DirectoryState::empty(), xs).peers.len() == xs.len(),
        forall|i: int|
            0 <= i < xs.len() ==> (#[trigger] announce_all(DirectoryState::empty(), xs).peers[i]).address
                == xs[i].0.address,
    decreases xs.len(),
{
    let d = xs.drop_last();
    let x = xs.last();
    let n = d.len() as int;
    assert(x == xs[n]);
    let s = announce_all(DirectoryState::empty(), d);
    let a = x.0.address;
    let one = seq![h];
    assert(one.drop_last() =~= Seq::<Seq<u8>>::empty());
    assert(one.last() == h);
    if n > 0 {
        assert forall|i: int| 0 <= i < d.len() implies (#[trigger] d[i]).1 == seq![h] by {
            assert(d[i] == xs[i]);
        }
        assert forall|i: int, j: int|
            0 <= i < d.len() && 0 <= j < d.len() && i != j implies (#[trigger] d[i]).0.address != (
            #[trigger] d[j]).0.address by {
            assert(d[i] == xs[i] && d[j] == xs[j]);
        }
        lemma_same_hash_state(d, h);
    }
    assert(!s.has_peer(a)) by {
        if s.has_peer(a) {
            let k = s.peer_index(a);
            assert(s.peers[k].address == d[k].0.address);
            assert(d[k] == xs[k]);
            assert(xs[k].0.address != xs[n].0.address);
        }
    }
    let u = s.upsert(x.0);
    assert(u.peers == s.peers.push(x.0));
    assert(!u.links.contains((a, h))) by {
        if u.links.contains((a, h)) {
            let k = choose|k: int| 0 <= k < u.links.len() && u.links[k] == (a, h);
            assert(s.links[k] == (d[k].0.address, h));
            assert(d[k] == xs[k]);
            assert(xs[k].0.address != xs[n].0.address);
        }
    }
    if n > 0 {
        assert(u.hashes[0] == h);
        assert(u.hashes.contains(h));
    } else {
        assert(u.hashes =~= Seq::<Seq<u8>>::empty());
    }
    let t = announce_all(DirectoryState::empty(), xs);
    assert(x.1 == one);
    assert(t == s.announce(x.0, one));
    assert(u.announce_hashes(a, one.drop_last()) == u);
    assert(t == u.add_hash(h).add_link(a, h));
    assert(t.hashes =~= seq![h]);
    assert forall|i: int| 0 <= i < xs.len() implies #[trigger] t.links[i] == (xs[i].0.address, h) by {
        if i < n {
            assert(d[i] == xs[i]);
        }
    }
    assert forall|i: int| 0 <= i < xs.len() implies (#[trigger] t.peers[i]).address
        == xs[i].0.address by {
        if i < n {
            assert(d[i] == xs[i]);
        }
    }
}

/// When distinct peers each announce the same hash, the directory holds one row
/// for it, and the hash listing reports as many links as peers.
pub proof fn law_one_row_per_hash(xs: Seq<(PeerRecord, Seq<Seq<u8>>)>, h: Seq<u8>)
    requires
        xs.len() >= 1,
        forall|i: int| 0 <= i < xs.len() ==> (#[trigger] xs[i]).1 == seq![h],
        forall|i: int, j: int|
            0 <= i < xs.len() && 0 <= j < xs.len() && i != j ==> (#[trigger] xs[i]).0.address != (
            #[trigger] xs[j]).0.address,
    ensures
        announce_all(DirectoryState::empty(), xs).hashes == seq![h],
        announce_all(DirectoryState::empty(), xs).link_count(h) == xs.len(),
        announce_all(DirectoryState::empty(), xs).hash_counts() == seq![(h, xs.len())],
{
    lemma_same_hash_state(xs, h);
    let t = announce_all(DirectoryState::empty(), xs);
    assert forall|i: int| 0 <= i < t.links.len() implies (link_on_hash(h))(#[trigger] t.links[i]) by {}
    lemma_filter_all(t.links, link_on_hash(h));
    let one = seq![h];
    assert(one.drop_last() =~= Seq::<Seq<u8>>::empty());
    assert(one =~= Seq::<Seq<u8>>::empty().push(h));
    Seq::<Seq<u8>>::empty().lemma_filter_push(h, t.is_linked());
    assert(Seq::<Seq<u8>>::empty().filter(t.is_linked()) =~= Seq::<Seq<u8>>::empty()) by {
        reveal(Seq::filter);
    }
    assert(t.hash_counts() =~= seq![(h, xs.len())]);
}

/// The peers listed for a hash are as many as the links that the hash listing
/// reports for it.
pub proof fn law_swarm_size_matches_count(s: DirectoryState, h: Seq<u8>)
    ensures
        s.peers_for_hash(h).len() == s.link_count(h),
        forall|j: int|
            0 <= j < s.hash_counts().len() ==> (#[trigger] s.hash_counts()[j]).1 == s.peers_for_hash(
                s.hash_counts()[j].0,
            ).len(),
        s.hashes.contains(h) && s.link_count(h) > 0 ==> s.hash_counts().contains(
            (h, s.peers_for_hash(h).len()),
        ),
{
    let f = s.hashes.filter(s.is_linked());
    if s.hashes.contains(h) && s.link_count(h) > 0 {
        let k = choose|k: int| 0 <= k < s.hashes.len() && s.hashes[k] == h;
        assert(f.contains(s.hashes[k]));
        let j = choose|j: int| 0 <= j < f.len() && f[j] == h;
        assert(s.hash_counts()[j] == (h, s.link_count(h)));
    }
}

/// A peer sweep keeps exactly the peers seen at or after the cutoff and drops
/// exactly the links of the peers it removes; it removes as many peers as were
/// last seen before the cutoff.
pub proof fn law_cleanup_peers_exact(s: DirectoryState, cutoff: u64)
    requires
        s.well_formed(),
    ensures
        forall|p: PeerRecord|
            #[trigger] s.cleanup_peers(cutoff).peers.contains(p) <==> s.peers.contains(p)
                && p.last_seen >= cutoff,
        forall|l: LinkRecord|
            #[trigger] s.cleanup_peers(cutoff).links.contains(l) <==> s.links.contains(l) && !(
            exists|i: int|
                0 <= i < s.peers.len() && (#[trigger] s.peers[i]).address == l.0
                    && s.peers[i].last_seen < cutoff),
        s.peers.len() - s.cleanup_peers(cutoff).peers.len() == s.peers.filter(stale(cutoff)).len(),
{
    let t = s.cleanup_peers(cutoff);
    assert forall|p: PeerRecord| #[trigger] t.peers.contains(p) <==> s.peers.contains(p)
        && p.last_seen >= cutoff by {
        if t.peers.contains(p) {
            s.peers.lemma_filter_contains_rev(peer_fresh(cutoff), p);
            let k = choose|k: int| 0 <= k < t.peers.len() && t.peers[k] == p;
            assert((peer_fresh(cutoff))(t.peers[k]));
        }
        if s.peers.contains(p) && p.last_seen >= cutoff {
            let k = choose|k: int| 0 <= k < s.peers.len() && s.peers[k] == p;
            assert(t.peers.contains(s.peers[k]));
        }
    }
    assert forall|l: LinkRecord| #[trigger] t.links.contains(l) <==> s.links.contains(l) && !(
    exists|i: int|
        0 <= i < s.peers.len() && (#[trigger] s.peers[i]).address == l.0 && s.peers[i].last_seen
            < cutoff) by {
        let gone = exists|i: int|
            0 <= i < s.peers.len() && (#[trigger] s.peers[i]).address == l.0 && s.peers[i].last_seen
                < cutoff;
        if gone {
            let i = choose|i: int|
                0 <= i < s.peers.len() && (#[trigger] s.peers[i]).address == l.0
                    && s.peers[i].last_seen < cutoff;
            s.lemma_index_of_stored(i);
            assert(s.is_stale(l.0, cutoff));
        } else if s.has_peer(l.0) {
            let i = s.peer_index(l.0);
            assert(!s.is_stale(l.0, cutoff));
        }
        if t.links.contains(l) {
            s.links.lemma_filter_contains_rev(s.link_kept(cutoff), l);
            let k = choose|k: int| 0 <= k < t.links.len() && t.links[k] == l;
            assert((s.link_kept(cutoff))(t.links[k]));
        }
        if s.links.contains(l) && !gone {
            let k = choose|k: int| 0 <= k < s.links.len() && s.links[k] == l;
            assert(t.links.contains(s.links[k]));
        }
    }
    lemma_filter_split(s.peers, cutoff);
}

proof fn lemma_filter_split(ps: Seq<PeerRecord>, cutoff: u64)
    ensures
        ps.filter(peer_fresh(cutoff)).len() + ps.filter(stale(cutoff)).len() == ps.len(),
    decreases ps.len(),
{
    reveal(Seq::filter);
    if ps.len() > 0 {
        lemma_filter_split(ps.drop_last(), cutoff);
    }
}

/// A hash sweep keeps exactly the hashes that still have a link: no linked hash
/// is ever removed. Peers and links stay.
pub proof fn law_cleanup_hashes_exact(s: DirectoryState)
    ensures
        forall|h: Seq<u8>|
            #[trigger] s.cleanup_hashes().hashes.contains(h) <==> s.hashes.contains(h)
                && s.link_count(h) > 0,
        s.cleanup_hashes().peers == s.peers,
        s.cleanup_hashes().links == s.links,
{
    let t = s.cleanup_hashes();
    assert forall|h: Seq<u8>| #[trigger] t.hashes.contains(h) <==> s.hashes.contains(h)
        && s.link_count(h) > 0 by {
        if t.hashes.contains(h) {
            s.hashes.lemma_filter_contains_rev(s.is_linked(), h);
            let k = choose|k: int| 0 <= k < t.hashes.len() && t.hashes[k] == h;
            assert((s.is_linked())(t.hashes[k]));
        }
        if s.hashes.contains(h) && s.link_count(h) > 0 {
            let k = choose|k: int| 0 <= k < s.hashes.len() && s.hashes[k] == h;
            assert(t.hashes.contains(s.hashes[k]));
        }
    }
}

/// Removing an unknown address changes nothing; after removing a known one, the
/// address is unknown and no link names it.
pub proof fn law_remove_peer(s: DirectoryState, a: Seq<char>)
    ensures
        !s.has_peer(a) && s.well_formed() ==> s.remove(a) == s,
        !s.remove(a).has_peer(a),
        forall|k: int| 0 <= k < s.remove(a).links.len() ==> (#[trigger] s.remove(a).links[k]).0 != a,
{
    let t = s.remove(a);
    if !s.has_peer(a) && s.well_formed() {
        assert forall|k: int| 0 <= k < s.peers.len() implies (peer_not_at(a))(
            #[trigger] s.peers[k],
        ) by {}
        lemma_filter_all(s.peers, peer_not_at(a));
        assert forall|k: int| 0 <= k < s.links.len() implies (link_not_of(a))(
            #[trigger] s.links[k],
        ) by {}
        lemma_filter_all(s.links, link_not_of(a));
    }
    assert forall|k: int| 0 <= k < t.links.len() implies (#[trigger] t.links[k]).0 != a by {
        assert((link_not_of(a))(t.links[k]));
    }
    if t.has_peer(a) {
        let k = t.peer_index(a);
        assert((peer_not_at(a))(t.peers[k]));
    }
}

} // verus!
