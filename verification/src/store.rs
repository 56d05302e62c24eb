//! The peer store: per-info-hash swarms of seeders and leechers, with the
//! membership moves that announce events drive, and peer sampling.
//!
//! Peers are keyed by peer id; within a swarm an id occurs in at most one of
//! the two sets, and at most once there.
use crate::peer::{clone_id, IpAddress, Peer, PeerData, Peerv4, Peerv6};
use vstd::prelude::*;

verus! {

/// The spec-level image of a swarm.
pub struct SwarmData {
    pub seeders: Seq<PeerData>,
    pub leechers: Seq<PeerData>,
}

/// One swarm: who seeds and who leeches.
pub struct Swarm {
    pub seeders: Vec<Peer>,
    pub leechers: Vec<Peer>,
}

pub open spec fn peers_view(v: Seq<Peer>) -> Seq<PeerData> {
    v.map_values(|p: Peer| p@)
}

impl View for Swarm {
    type V = SwarmData;

    open spec fn view(&self) -> SwarmData {
        SwarmData { seeders: peers_view(self.seeders@), leechers: peers_view(self.leechers@) }
    }
}

/// First peer with the given id, if any.
pub open spec fn find_peer(s: Seq<PeerData>, id: Seq<u8>) -> Option<PeerData>
    decreases s.len(),
{
    if s.len() == 0 {
        Option::None
    } else if s.first().peer_id == id {
        Option::Some(s.first())
    } else {
        find_peer(s.drop_first(), id)
    }
}

/// The sequence without its first peer of the given id.
pub open spec fn remove_id(s: Seq<PeerData>, id: Seq<u8>) -> Seq<PeerData>
    decreases s.len(),
{
    if s.len() == 0 {
        s
    } else if s.first().peer_id == id {
        s.drop_first()
    } else {
        seq![s.first()] + remove_id(s.drop_first(), id)
    }
}

/// Replaces the first peer sharing `p`'s id; unchanged when absent.
pub open spec fn replace_present(s: Seq<PeerData>, p: PeerData) -> Seq<PeerData>
    decreases s.len(),
{
    if s.len() == 0 {
        s
    } else if s.first().peer_id == p.peer_id {
        seq![p] + s.drop_first()
    } else {
        seq![s.first()] + replace_present(s.drop_first(), p)
    }
}

/// Replaces the first peer sharing `p`'s id, or appends `p`.
pub open spec fn replace_or_push(s: Seq<PeerData>, p: PeerData) -> Seq<PeerData>
    decreases s.len(),
{
    if s.len() == 0 {
        seq![p]
    } else if s.first().peer_id == p.peer_id {
        seq![p] + s.drop_first()
    } else {
        seq![s.first()] + replace_or_push(s.drop_first(), p)
    }
}

/// Removing an absent id changes nothing.
pub proof fn lemma_remove_id_inert(s: Seq<PeerData>, id: Seq<u8>)
    requires
        find_peer(s, id) is None,
    ensures
        remove_id(s, id) == s,
    decreases s.len(),
{
    if s.len() > 0 {
        lemma_remove_id_inert(s.drop_first(), id);
        assert(seq![s.first()] + s.drop_first() =~= s);
    }
}

pub open spec fn unique_ids(s: Seq<PeerData>) -> bool {
    forall|i: int, j: int|
        0 <= i < j < s.len() ==> (#[trigger] s[i]).peer_id != (#[trigger] s[j]).peer_id
}

/// Where an id lives in a swarm.
#[derive(Clone, Copy, PartialEq, Eq, Structural)]
pub enum Residence {
    InSeeders,
    InLeechers,
    Absent,
}

pub open spec fn residence_of(sd: SwarmData, id: Seq<u8>) -> Residence {
    if find_peer(sd.seeders, id) is Some {
        Residence::InSeeders
    } else if find_peer(sd.leechers, id) is Some {
        Residence::InLeechers
    } else {
        Residence::Absent
    }
}

/// A peer value bearing the given id; only its id matters to the lemmas
/// that take it as a witness.
pub open spec fn arbitrary_with_id(id: Seq<u8>) -> PeerData {
    PeerData {
        peer_id: id,
        addr: IpAddress::V4([0u8, 0u8, 0u8, 0u8]),
        port: 0,
        last_announced: 0,
        uploaded: 0,
        downloaded: 0,
        left: 0,
    }
}

/// Index of the first peer with the given id.
fn find_index(v: &Vec<Peer>, id: &[u8]) -> (r: Option<usize>)
    ensures
        match r {
            Option::Some(i) => i < v@.len() && peers_view(v@)[i as int].peer_id == id@ && (forall|
                k: int,
            |
                0 <= k < i ==> (#[trigger] peers_view(v@)[k]).peer_id != id@),
            Option::None => forall|k: int|
                0 <= k < v@.len() ==> (#[trigger] peers_view(v@)[k]).peer_id != id@,
        },
{
    let mut i: usize = 0;
    while i < v.len()
        invariant
            0 <= i <= v@.len(),
            forall|k: int| 0 <= k < i ==> (#[trigger] peers_view(v@)[k]).peer_id != id@,
        decreases v@.len() - i,
    {
        if crate::bittorrent::bytes_eq(v[i].peer_id.as_slice(), id) {
            proof {
                assert(peers_view(v@)[i as int] == v@[i as int]@);
            }
            return Option::Some(i);
        }
        proof {
            assert(peers_view(v@)[i as int] == v@[i as int]@);
        }
        i = i + 1;
    }
    Option::None
}

/// With `i` the first index bearing `id`, the searching spec functions all
/// act at `i`.
proof fn lemma_ops_at_index(s: Seq<PeerData>, id: Seq<u8>, i: int, p: PeerData)
    requires
        0 <= i < s.len(),
        s[i].peer_id == id,
        forall|k: int| 0 <= k < i ==> (#[trigger] s[k]).peer_id != id,
        p.peer_id == id,
    ensures
        find_peer(s, id) == Option::Some(s[i]),
        remove_id(s, id) =~= s.remove(i),
        replace_present(s, p) =~= s.update(i, p),
        replace_or_push(s, p) =~= s.update(i, p),
    decreases i,
{
    if i == 0 {
        assert(s.remove(0) =~= s.drop_first());
        assert(seq![p] + s.drop_first() =~= s.update(0, p));
    } else {
        lemma_ops_at_index(s.drop_first(), id, i - 1, p);
        assert(s.drop_first()[i - 1] == s[i]);
        assert(seq![s.first()] + s.drop_first().remove(i - 1) =~= s.remove(i));
        assert(seq![s.first()] + s.drop_first().update(i - 1, p) =~= s.update(i, p));
    }
}

/// Without a peer of the given id, the searching spec functions are inert.
proof fn lemma_ops_absent(s: Seq<PeerData>, id: Seq<u8>, p: PeerData)
    requires
        forall|k: int| 0 <= k < s.len() ==> (#[trigger] s[k]).peer_id != id,
        p.peer_id == id,
    ensures
        find_peer(s, id) is None,
        remove_id(s, id) =~= s,
        replace_present(s, p) =~= s,
        replace_or_push(s, p) =~= s.push(p),
    decreases s.len(),
{
    if s.len() > 0 {
        assert(forall|k: int|
            0 <= k < s.drop_first().len() ==> #[trigger] s.drop_first()[k] == s[k + 1]);
        lemma_ops_absent(s.drop_first(), id, p);
        assert(seq![s.first()] + s.drop_first() =~= s);
        assert(seq![s.first()] + s.drop_first().push(p) =~= s.push(p));
    }
}

/// Removes the first peer with the given id from `v`; reports whether one
/// was there.
fn vec_remove_id(v: &mut Vec<Peer>, id: &[u8]) -> (removed: bool)
    ensures
        peers_view(final(v)@) == remove_id(peers_view(old(v)@), id@),
        removed == (find_peer(peers_view(old(v)@), id@) is Some),
{
    match find_index(v, id) {
        Option::Some(i) => {
            proof {
                lemma_ops_at_index(peers_view(v@), id@, i as int, peers_view(v@)[i as int]);
            }
            let ghost before = peers_view(v@);
            v.remove(i);
            proof {
                assert(peers_view(v@) =~= before.remove(i as int));
            }
            true
        },
        Option::None => {
            proof {
                lemma_ops_absent(peers_view(v@), id@, arbitrary_with_id(id@));
            }
            false
        },
    }
}

impl Swarm {
    /// An empty swarm.
    pub fn empty() -> (r: Swarm)
        ensures
            r@.seeders.len() == 0,
            r@.leechers.len() == 0,
    {
        let r = Swarm { seeders: Vec::new(), leechers: Vec::new() };
        proof {
            assert(peers_view(r.seeders@) =~= Seq::<PeerData>::empty());
            assert(peers_view(r.leechers@) =~= Seq::<PeerData>::empty());
        }
        r
    }

    /// Inserts `p` among the leechers, removing any seeder entry of the same
    /// id first; reports where the id was beforehand.
    pub fn put_leecher(&mut self, p: Peer) -> (was: Residence)
        ensures
            final(self)@.seeders == remove_id(old(self)@.seeders, p@.peer_id),
            final(self)@.leechers == replace_or_push(old(self)@.leechers, p@),
            was == residence_of(old(self)@, p@.peer_id),
    {
        let id = clone_id(&p.peer_id);
        let in_seeders = vec_remove_id(&mut self.seeders, id.as_slice());
        let was_leecher = upsert_peer(&mut self.leechers, p);
        if in_seeders {
            Residence::InSeeders
        } else if was_leecher {
            Residence::InLeechers
        } else {
            Residence::Absent
        }
    }

    /// Inserts `p` among the seeders, removing any leecher entry of the same
    /// id first; reports where the id was beforehand.
    pub fn put_seeder(&mut self, p: Peer) -> (was: Residence)
        ensures
            final(self)@.leechers == remove_id(old(self)@.leechers, p@.peer_id),
            final(self)@.seeders == replace_or_push(old(self)@.seeders, p@),
            was == residence_of(old(self)@, p@.peer_id),
    {
        let id = clone_id(&p.peer_id);
        let in_leechers = vec_remove_id(&mut self.leechers, id.as_slice());
        let was_seeder = upsert_peer(&mut self.seeders, p);
        if was_seeder {
            Residence::InSeeders
        } else if in_leechers {
            Residence::InLeechers
        } else {
            Residence::Absent
        }
    }

    /// Moves the peer with the given id from the leechers to the seeders;
    /// inert when no such leecher exists.
    pub fn promote(&mut self, id: &[u8]) -> (moved: bool)
        ensures
            match find_peer(old(self)@.leechers, id@) {
                Option::Some(p) => moved && final(self)@.leechers == remove_id(
                    old(self)@.leechers,
                    id@,
                ) && final(self)@.seeders == old(self)@.seeders.push(p),
                Option::None => !moved && final(self)@ == old(self)@,
            },
    {
        match find_index(&self.leechers, id) {
            Option::Some(i) => {
                proof {
                    lemma_ops_at_index(peers_view(self.leechers@), id@, i as int, peers_view(self.leechers@)[i as int]);
                }
                let ghost lbefore = peers_view(self.leechers@);
                let ghost sbefore = peers_view(self.seeders@);
                let p = self.leechers.remove(i);
                self.seeders.push(p);
                proof {
                    assert(peers_view(self.leechers@) =~= lbefore.remove(i as int));
                    assert(peers_view(self.seeders@) =~= sbefore.push(lbefore[i as int]));
                }
                true
            },
            Option::None => {
                proof {
                    lemma_ops_absent(peers_view(self.leechers@), id@, arbitrary_with_id(id@));
                }
                false
            },
        }
    }

    /// Removes the seeder with the given id, if any.
    pub fn remove_seeder(&mut self, id: &[u8]) -> (removed: bool)
        ensures
            final(self)@.seeders == remove_id(old(self)@.seeders, id@),
            final(self)@.leechers == old(self)@.leechers,
            removed == (find_peer(old(self)@.seeders, id@) is Some),
    {
        vec_remove_id(&mut self.seeders, id)
    }

    /// Removes the leecher with the given id, if any.
    pub fn remove_leecher(&mut self, id: &[u8]) -> (removed: bool)
        ensures
            final(self)@.leechers == remove_id(old(self)@.leechers, id@),
            final(self)@.seeders == old(self)@.seeders,
            removed == (find_peer(old(self)@.leechers, id@) is Some),
    {
        vec_remove_id(&mut self.leechers, id)
    }

    /// Refreshes the entry of `p`'s id in whichever set holds it; inert when
    /// the id is absent.
    pub fn update_peer(&mut self, p: Peer)
        ensures
            final(self)@.seeders == replace_present(old(self)@.seeders, p@),
            final(self)@.leechers == replace_present(old(self)@.leechers, p@),
    {
        replace_in(&mut self.seeders, &p);
        replace_in(&mut self.leechers, &p);
    }
}

/// Replaces the first entry sharing `p`'s id; reports whether one was there.
fn replace_in(v: &mut Vec<Peer>, p: &Peer) -> (replaced: bool)
    ensures
        peers_view(final(v)@) == replace_present(peers_view(old(v)@), p@),
        replaced == (find_peer(peers_view(old(v)@), p@.peer_id) is Some),
{
    match find_index(v, p.peer_id.as_slice()) {
        Option::Some(i) => {
            proof {
                lemma_ops_at_index(peers_view(v@), p@.peer_id, i as int, p@);
            }
            let ghost before = peers_view(v@);
            v.set(i, p.duplicate());
            proof {
                assert(peers_view(v@) =~= before.update(i as int, p@));
            }
            true
        },
        Option::None => {
            proof {
                lemma_ops_absent(peers_view(v@), p@.peer_id, p@);
            }
            false
        },
    }
}

/// The spec-level image of a response peer built from a stored peer.
pub open spec fn entry_of(p: PeerData) -> crate::peer::PeerEntry {
    crate::peer::PeerEntry { peer_id: p.peer_id, ip: p.addr.addr_bytes(), port: p.port }
}

/// The peers a sample may draw from: everyone in the swarm except the
/// requester.
pub open spec fn eligible(sd: SwarmData, requester: Seq<u8>) -> Seq<PeerData> {
    (sd.seeders + sd.leechers).filter(|p: PeerData| p.peer_id != requester)
}

/// One draw of the sampling generator: a 64-bit mix of the seed and the
/// draw's index.
#[verifier::opaque]
pub open spec fn mix64(seed: u64, t: u64) -> u64 {
    let z0 = vstd::wrapping::u64_specs::wrapping_add(
        seed,
        vstd::wrapping::u64_specs::wrapping_mul(t, 0x9E3779B97F4A7C15u64),
    );
    let z1 = vstd::wrapping::u64_specs::wrapping_mul(z0 ^ (z0 >> 30u64), 0xBF58476D1CE4E5B9u64);
    let z2 = vstd::wrapping::u64_specs::wrapping_mul(z1 ^ (z1 >> 27u64), 0x94D049BB133111EBu64);
    z2 ^ (z2 >> 31u64)
}

/// One draw of the sampling generator.
pub fn mix64_draw(seed: u64, t: u64) -> (r: u64)
    ensures
        r == mix64(seed, t),
{
    proof {
        reveal(mix64);
    }
    let z0 = seed.wrapping_add(t.wrapping_mul(0x9E3779B97F4A7C15u64));
    let z1 = (z0 ^ (z0 >> 30u64)).wrapping_mul(0xBF58476D1CE4E5B9u64);
    let z2 = (z1 ^ (z1 >> 27u64)).wrapping_mul(0x94D049BB133111EBu64);
    z2 ^ (z2 >> 31u64)
}

/// The sequence with the peers at `a` and `b` exchanged.
pub open spec fn swap_at(s: Seq<PeerData>, a: int, b: int) -> Seq<PeerData> {
    s.update(a, s[b]).update(b, s[a])
}

/// The first `n` positions dealt by a seed-driven partial shuffle: at each
/// step `t` the peer at `t` is exchanged with a seed-chosen peer at or
/// beyond `t`.
pub open spec fn shuffle_prefix(el: Seq<PeerData>, seed: u64, n: nat) -> Seq<PeerData>
    decreases n,
{
    if n == 0 {
        el
    } else {
        let prev = shuffle_prefix(el, seed, (n - 1) as nat);
        let t = n - 1;
        if t < prev.len() {
            let j = t + (mix64(seed, (n - 1) as u64) as int) % (prev.len() - t);
            swap_at(prev, t, j)
        } else {
            prev
        }
    }
}

/// The peers a sample returns: the first `min(numwant, |pool|)` positions
/// of the seed-driven shuffle of the eligible pool, so that any subset can
/// be drawn and the seed carries the randomness.
pub open spec fn selection(el: Seq<PeerData>, numwant: int, seed: u64) -> Seq<PeerData> {
    let len = el.len() as int;
    if len == 0 || numwant <= 0 {
        Seq::empty()
    } else {
        let k = if numwant < len {
            numwant
        } else {
            len
        };
        shuffle_prefix(el, seed, k as nat).take(k)
    }
}

/// A swap keeps the length, the membership and the absence of duplicate
/// ids.
pub proof fn lemma_swap_facts(s: Seq<PeerData>, a: int, b: int)
    requires
        0 <= a < s.len(),
        0 <= b < s.len(),
    ensures
        swap_at(s, a, b).len() == s.len(),
        forall|i: int| 0 <= i < s.len() ==> s.contains(#[trigger] swap_at(s, a, b)[i]),
        unique_ids(s) ==> unique_ids(swap_at(s, a, b)),
{
    let w = swap_at(s, a, b);
    assert forall|i: int| 0 <= i < s.len() implies s.contains(#[trigger] w[i]) by {
        if i == b {
            assert(w[i] == s[a]);
        } else if i == a {
            assert(w[i] == s[b]);
        } else {
            assert(w[i] == s[i]);
        }
    }
    if unique_ids(s) {
        assert forall|i: int, j: int|
            0 <= i < j < w.len() implies (#[trigger] w[i]).peer_id != (#[trigger] w[j]).peer_id by {
            let i2: int = if i == a {
                b
            } else if i == b {
                a
            } else {
                i
            };
            let j2: int = if j == a {
                b
            } else if j == b {
                a
            } else {
                j
            };
            assert(w[i] == s[i2] && w[j] == s[j2]);
            assert(i2 != j2);
        }
    }
}

/// A partial shuffle keeps the length, the membership and the absence of
/// duplicate ids.
pub proof fn lemma_shuffle_facts(el: Seq<PeerData>, seed: u64, n: nat)
    ensures
        shuffle_prefix(el, seed, n).len() == el.len(),
        forall|i: int| 0 <= i < el.len() ==> el.contains(#[trigger] shuffle_prefix(el, seed, n)[i]),
        unique_ids(el) ==> unique_ids(shuffle_prefix(el, seed, n)),
    decreases n,
{
    if n == 0 {
        assert forall|i: int| 0 <= i < el.len() implies el.contains(
            #[trigger] shuffle_prefix(el, seed, n)[i],
        ) by {
            assert(shuffle_prefix(el, seed, n)[i] == el[i]);
        }
    } else {
        lemma_shuffle_facts(el, seed, (n - 1) as nat);
        let prev = shuffle_prefix(el, seed, (n - 1) as nat);
        let t = n - 1;
        if t < prev.len() {
            let j = t + (mix64(seed, (n - 1) as u64) as int) % (prev.len() - t);
            assert(0 <= (mix64(seed, (n - 1) as u64) as int) % (prev.len() - t) < prev.len() - t);
            lemma_swap_facts(prev, t as int, j);
            assert(shuffle_prefix(el, seed, n) == swap_at(prev, t as int, j));
            assert forall|i: int| 0 <= i < el.len() implies el.contains(
                #[trigger] shuffle_prefix(el, seed, n)[i],
            ) by {
                assert(prev.contains(swap_at(prev, t as int, j)[i]));
                let m = choose|m: int|
                    0 <= m < prev.len() && prev[m] == swap_at(prev, t as int, j)[i];
                assert(el.contains(shuffle_prefix(el, seed, (n - 1) as nat)[m]));
            }
        } else {
            assert(shuffle_prefix(el, seed, n) == prev);
            assert forall|i: int| 0 <= i < el.len() implies el.contains(
                #[trigger] shuffle_prefix(el, seed, n)[i],
            ) by {
                assert(el.contains(shuffle_prefix(el, seed, (n - 1) as nat)[i]));
            }
        }
    }
}

/// The IPv4 members of a selection, in order, as response entries.
pub open spec fn v4_entries(sel: Seq<PeerData>) -> Seq<crate::peer::PeerEntry>
    decreases sel.len(),
{
    if sel.len() == 0 {
        Seq::empty()
    } else {
        let r = v4_entries(sel.drop_last());
        if sel.last().addr is V4 {
            r.push(entry_of(sel.last()))
        } else {
            r
        }
    }
}

/// The IPv6 members of a selection, in order, as response entries.
pub open spec fn v6_entries(sel: Seq<PeerData>) -> Seq<crate::peer::PeerEntry>
    decreases sel.len(),
{
    if sel.len() == 0 {
        Seq::empty()
    } else {
        let r = v6_entries(sel.drop_last());
        if sel.last().addr is V4 {
            r
        } else {
            r.push(entry_of(sel.last()))
        }
    }
}

/// Each selected peer lands in exactly one of the two entry lists.
pub proof fn lemma_entries_split(sel: Seq<PeerData>)
    ensures
        v4_entries(sel).len() + v6_entries(sel).len() == sel.len(),
    decreases sel.len(),
{
    if sel.len() > 0 {
        lemma_entries_split(sel.drop_last());
    }
}

pub open spec fn v4_view(v: Seq<Peerv4>) -> Seq<crate::peer::PeerEntry> {
    v.map_values(|q: Peerv4| q@)
}

pub open spec fn v6_view(v: Seq<Peerv6>) -> Seq<crate::peer::PeerEntry> {
    v.map_values(|q: Peerv6| q@)
}

fn peer_to_v4(p: &Peer) -> (r: Peerv4)
    requires
        p@.addr is V4,
    ensures
        r@ == entry_of(p@),
{
    match &p.addr {
        IpAddress::V4(a) => Peerv4 { peer_id: clone_id(&p.peer_id), ip: *a, port: p.port },
        IpAddress::V6(_) => vstd::pervasive::unreached(),
    }
}

fn peer_to_v6(p: &Peer) -> (r: Peerv6)
    requires
        !(p@.addr is V4),
    ensures
        r@ == entry_of(p@),
{
    match &p.addr {
        IpAddress::V6(a) => Peerv6 { peer_id: clone_id(&p.peer_id), ip: *a, port: p.port },
        IpAddress::V4(_) => vstd::pervasive::unreached(),
    }
}

impl Swarm {
    /// Draws up to `numwant` peers, the requester excluded, by a partial
    /// shuffle of the pool; the caller supplies the randomness in `seed`.
    pub fn sample(&self, numwant: u32, requester: &[u8], seed: u64) -> (r: (
        Vec<Peerv4>,
        Vec<Peerv6>,
    ))
        ensures
            v4_view(r.0@) == v4_entries(
                selection(eligible(self@, requester@), numwant as int, seed),
            ),
            v6_view(r.1@) == v6_entries(
                selection(eligible(self@, requester@), numwant as int, seed),
            ),
            r.0@.len() + r.1@.len() == selection(
                eligible(self@, requester@),
                numwant as int,
                seed,
            ).len(),
    {
        broadcast use vstd::seq_lib::group_seq_properties;

        let ghost el = eligible(self@, requester@);
        let mut cands: Vec<Peer> = Vec::new();
        let mut i: usize = 0;
        proof {
            reveal(Seq::filter);
            assert(peers_view(self.seeders@).take(0) =~= Seq::<PeerData>::empty());
            assert(peers_view(cands@) =~= Seq::<PeerData>::empty().filter(
                |p: PeerData| p.peer_id != requester@,
            ));
        }
        while i < self.seeders.len()
            invariant
                0 <= i <= self.seeders@.len(),
                peers_view(cands@) == peers_view(self.seeders@).take(i as int).filter(
                    |p: PeerData| p.peer_id != requester@,
                ),
            decreases self.seeders@.len() - i,
        {
            let ghost pred = |p: PeerData| p.peer_id != requester@;
            let ghost pre = peers_view(self.seeders@).take(i as int);
            let ghost post = peers_view(self.seeders@).take(i + 1);
            proof {
                reveal(Seq::filter);
                assert(post.drop_last() =~= pre);
                assert(post.last() == v_at(self.seeders@, i as int));
            }
            if !crate::bittorrent::bytes_eq(self.seeders[i].peer_id.as_slice(), requester) {
                let ghost cbefore = peers_view(cands@);
                cands.push(self.seeders[i].duplicate());
                proof {
                    assert(peers_view(cands@) =~= cbefore.push(post.last()));
                }
            }
            i = i + 1;
        }
        proof {
            reveal(Seq::filter);
            assert(peers_view(self.seeders@).take(self.seeders@.len() as int) =~= peers_view(
                self.seeders@,
            ));
            assert(peers_view(self.leechers@).take(0) =~= Seq::<PeerData>::empty());
        }
        let mut j: usize = 0;
        while j < self.leechers.len()
            invariant
                0 <= j <= self.leechers@.len(),
                peers_view(cands@) == peers_view(self.seeders@).filter(
                    |p: PeerData| p.peer_id != requester@,
                ) + peers_view(self.leechers@).take(j as int).filter(
                    |p: PeerData| p.peer_id != requester@,
                ),
            decreases self.leechers@.len() - j,
        {
            let ghost pred = |p: PeerData| p.peer_id != requester@;
            let ghost pre = peers_view(self.leechers@).take(j as int);
            let ghost post = peers_view(self.leechers@).take(j + 1);
            proof {
                reveal(Seq::filter);
                assert(post.drop_last() =~= pre);
                assert(post.last() == v_at(self.leechers@, j as int));
            }
            if !crate::bittorrent::bytes_eq(self.leechers[j].peer_id.as_slice(), requester) {
                let ghost cbefore = peers_view(cands@);
                cands.push(self.leechers[j].duplicate());
                proof {
                    assert(peers_view(cands@) =~= cbefore.push(post.last()));
                }
            } else {
                proof {
                    assert(peers_view(cands@) =~= peers_view(self.seeders@).filter(pred) + peers_view(
                        self.leechers@,
                    ).take(j + 1).filter(pred));
                }
            }
            j = j + 1;
        }
        proof {
            reveal(Seq::filter);
            assert(peers_view(self.leechers@).take(self.leechers@.len() as int) =~= peers_view(
                self.leechers@,
            ));
            vstd::prelude::Seq::filter_distributes_over_add(
                peers_view(self.seeders@),
                peers_view(self.leechers@),
                |p: PeerData| p.peer_id != requester@,
            );
            assert(peers_view(cands@) == el);
        }
        let len = cands.len();
        let numw = numwant as usize;
        let k = if numw < len {
            numw
        } else {
            len
        };
        let mut outv4: Vec<Peerv4> = Vec::new();
        let mut outv6: Vec<Peerv6> = Vec::new();
        if len == 0 || k == 0 {
            proof {
                assert(selection(el, numwant as int, seed).len() == 0);
                assert(v4_view(outv4@) =~= v4_entries(selection(el, numwant as int, seed)));
                assert(v6_view(outv6@) =~= v6_entries(selection(el, numwant as int, seed)));
            }
            return (outv4, outv6);
        }
        shuffle_cands(&mut cands, k, seed);
        let ghost sel_full = selection(el, numwant as int, seed);
        let ghost shuffled = shuffle_prefix(el, seed, k as nat);
        proof {
            lemma_shuffle_facts(el, seed, k as nat);
            assert(sel_full == shuffled.take(k as int));
        }
        let mut q: usize = 0;
        while q < k
            invariant
                0 <= q <= k <= len,
                len == cands@.len(),
                peers_view(cands@) == shuffled,
                shuffled.len() == len,
                sel_full == shuffled.take(k as int),
                v4_view(outv4@) == v4_entries(sel_full.take(q as int)),
                v6_view(outv6@) == v6_entries(sel_full.take(q as int)),
                outv4@.len() + outv6@.len() == q,
            decreases k - q,
        {
            let ghost pre = sel_full.take(q as int);
            let ghost post = sel_full.take(q + 1);
            proof {
                assert(post.drop_last() =~= pre);
                assert(post.last() == shuffled[q as int]);
                assert(shuffled[q as int] == v_at(cands@, q as int));
            }
            push_converted(&cands, q, &mut outv4, &mut outv6);
            q = q + 1;
        }
        proof {
            assert(sel_full.take(k as int) =~= sel_full);
            lemma_entries_split(sel_full);
        }
        (outv4, outv6)
    }
}

/// The view of the peer at one index.
pub open spec fn v_at(v: Seq<Peer>, i: int) -> PeerData {
    peers_view(v)[i]
}

/// Applies the seed-driven partial shuffle to the first `k` positions:
/// position `t` takes a seed-chosen peer from `t` onward, so any subset of
/// the pool can be drawn.
fn shuffle_cands(cands: &mut Vec<Peer>, k: usize, seed: u64)
    requires
        k <= old(cands)@.len(),
    ensures
        final(cands)@.len() == old(cands)@.len(),
        peers_view(final(cands)@) == shuffle_prefix(peers_view(old(cands)@), seed, k as nat),
{
    let ghost el = peers_view(cands@);
    let len = cands.len();
    let mut t: usize = 0;
    while t < k
        invariant
            0 <= t <= k <= len,
            len == cands@.len(),
            len == el.len(),
            el == peers_view(old(cands)@),
            peers_view(cands@) == shuffle_prefix(el, seed, t as nat),
        decreases k - t,
    {
        let ghost prev = peers_view(cands@);
        let draw = mix64_draw(seed, t as u64);
        let j = t + ((draw % ((len - t) as u64)) as usize);
        proof {
            assert((draw % ((len - t) as u64)) as int == (mix64(seed, t as u64) as int) % (
            prev.len() - t));
            assert(j < len);
        }
        let vt = cands[t].duplicate();
        let vj = cands[j].duplicate();
        cands.set(t, vj);
        cands.set(j, vt);
        proof {
            assert(peers_view(cands@) =~= prev.update(t as int, prev[j as int]).update(
                j as int,
                prev[t as int],
            ));
            assert(peers_view(cands@) == swap_at(prev, t as int, j as int));
            assert(peers_view(cands@) == shuffle_prefix(el, seed, (t + 1) as nat));
        }
        t = t + 1;
    }
}

/// Converts the candidate at `idx` and appends it to the list of its
/// address family.
fn push_converted(cands: &Vec<Peer>, idx: usize, outv4: &mut Vec<Peerv4>, outv6: &mut Vec<Peerv6>)
    requires
        idx < cands@.len(),
    ensures
        v_at(cands@, idx as int).addr is V4 ==> v4_view(final(outv4)@) == v4_view(old(outv4)@).push(
            entry_of(v_at(cands@, idx as int)),
        ) && final(outv6)@ == old(outv6)@,
        !(v_at(cands@, idx as int).addr is V4) ==> v6_view(final(outv6)@) == v6_view(
            old(outv6)@,
        ).push(entry_of(v_at(cands@, idx as int))) && final(outv4)@ == old(outv4)@,
        final(outv4)@.len() + final(outv6)@.len() == old(outv4)@.len() + old(outv6)@.len() + 1,
{
    let p = &cands[idx];
    proof {
        assert(v_at(cands@, idx as int) == cands@[idx as int]@);
    }
    match &p.addr {
        IpAddress::V4(_) => {
            let ghost before = v4_view(outv4@);
            let q = peer_to_v4(p);
            outv4.push(q);
            proof {
                assert(v4_view(outv4@) =~= before.push(entry_of(v_at(cands@, idx as int))));
            }
        },
        IpAddress::V6(_) => {
            let ghost before = v6_view(outv6@);
            let q = peer_to_v6(p);
            outv6.push(q);
            proof {
                assert(v6_view(outv6@) =~= before.push(entry_of(v_at(cands@, idx as int))));
            }
        },
    }
}

/// One info-hash and its swarm.
pub struct SwarmEntry {
    pub info_hash: Vec<u8>,
    pub swarm: Swarm,
}

/// The spec-level image of a store entry.
pub struct EntryData {
    pub info_hash: Seq<u8>,
    pub swarm: SwarmData,
}

impl View for SwarmEntry {
    type V = EntryData;

    open spec fn view(&self) -> EntryData {
        EntryData { info_hash: self.info_hash@, swarm: self.swarm@ }
    }
}

/// The peer store: a swarm per info-hash.
pub struct PeerStore {
    pub records: Vec<SwarmEntry>,
}

pub open spec fn entries_view(v: Seq<SwarmEntry>) -> Seq<EntryData> {
    v.map_values(|e: SwarmEntry| e@)
}

impl View for PeerStore {
    type V = Seq<EntryData>;

    open spec fn view(&self) -> Seq<EntryData> {
        entries_view(self.records@)
    }
}

/// The swarm of the first entry with the given info-hash, if any.
pub open spec fn find_swarm(es: Seq<EntryData>, ih: Seq<u8>) -> Option<SwarmData>
    decreases es.len(),
{
    if es.len() == 0 {
        Option::None
    } else if es.first().info_hash == ih {
        Option::Some(es.first().swarm)
    } else {
        find_swarm(es.drop_first(), ih)
    }
}

/// The swarm registered for an info-hash, or an empty one.
pub open spec fn swarm_or_empty(es: Seq<EntryData>, ih: Seq<u8>) -> SwarmData {
    match find_swarm(es, ih) {
        Option::Some(sd) => sd,
        Option::None => SwarmData { seeders: Seq::empty(), leechers: Seq::empty() },
    }
}

/// Updating the first entry of an info-hash changes only that hash's swarm.
proof fn lemma_find_swarm_update(es: Seq<EntryData>, i: int, e2: EntryData, ih2: Seq<u8>)
    requires
        0 <= i < es.len(),
        forall|k: int| 0 <= k < i ==> (#[trigger] es[k]).info_hash != es[i].info_hash,
        e2.info_hash == es[i].info_hash,
    ensures
        find_swarm(es.update(i, e2), ih2) == if ih2 == es[i].info_hash {
            Option::Some(e2.swarm)
        } else {
            find_swarm(es, ih2)
        },
        find_swarm(es, es[i].info_hash) == Option::Some(es[i].swarm),
    decreases i,
{
    if i == 0 {
        assert(es.update(0, e2).drop_first() =~= es.drop_first());
    } else {
        lemma_find_swarm_update(es.drop_first(), i - 1, e2, ih2);
        assert(es.drop_first()[i - 1] == es[i]);
        assert(es.update(i, e2).drop_first() =~= es.drop_first().update(i - 1, e2));
        assert(es.update(i, e2).first() == es.first());
    }
}

/// Appending an entry is visible only to hashes that had none.
proof fn lemma_find_swarm_push(es: Seq<EntryData>, e: EntryData, ih2: Seq<u8>)
    ensures
        find_swarm(es.push(e), ih2) == if find_swarm(es, ih2) is Some {
            find_swarm(es, ih2)
        } else if ih2 == e.info_hash {
            Option::Some(e.swarm)
        } else {
            Option::None
        },
    decreases es.len(),
{
    if es.len() == 0 {
        assert(es.push(e).first() == e);
        assert(es.push(e).drop_first() =~= Seq::<EntryData>::empty());
        assert(find_swarm(Seq::<EntryData>::empty(), ih2) is None);
        assert(find_swarm(es, ih2) is None);
    } else {
        lemma_find_swarm_push(es.drop_first(), e, ih2);
        assert(es.push(e).first() == es.first());
        assert(es.push(e).drop_first() =~= es.drop_first().push(e));
    }
}

/// Index of the first entry with the given info-hash.
fn find_entry_index(v: &Vec<SwarmEntry>, ih: &[u8]) -> (r: Option<usize>)
    ensures
        match r {
            Option::Some(i) => i < v@.len() && entries_view(v@)[i as int].info_hash == ih@ && (
            forall|k: int|
                0 <= k < i ==> (#[trigger] entries_view(v@)[k]).info_hash != ih@),
            Option::None => forall|k: int|
                0 <= k < v@.len() ==> (#[trigger] entries_view(v@)[k]).info_hash != ih@,
        },
{
    let mut i: usize = 0;
    while i < v.len()
        invariant
            0 <= i <= v@.len(),
            forall|k: int| 0 <= k < i ==> (#[trigger] entries_view(v@)[k]).info_hash != ih@,
        decreases v@.len() - i,
    {
        if crate::bittorrent::bytes_eq(v[i].info_hash.as_slice(), ih) {
            proof {
                assert(entries_view(v@)[i as int] == v@[i as int]@);
            }
            return Option::Some(i);
        }
        proof {
            assert(entries_view(v@)[i as int] == v@[i as int]@);
        }
        i = i + 1;
    }
    Option::None
}

/// Without an entry of the given info-hash, the search finds nothing.
proof fn lemma_find_swarm_absent(es: Seq<EntryData>, ih: Seq<u8>)
    requires
        forall|k: int| 0 <= k < es.len() ==> (#[trigger] es[k]).info_hash != ih,
    ensures
        find_swarm(es, ih) is None,
    decreases es.len(),
{
    if es.len() > 0 {
        assert(forall|k: int|
            0 <= k < es.drop_first().len() ==> #[trigger] es.drop_first()[k] == es[k + 1]);
        lemma_find_swarm_absent(es.drop_first(), ih);
    }
}

impl PeerStore {
    /// An empty peer store.
    pub fn new() -> (r: PeerStore)
        ensures
            r@.len() == 0,
    {
        let r = PeerStore { records: Vec::new() };
        proof {
            assert(entries_view(r.records@) =~= Seq::<EntryData>::empty());
        }
        r
    }

    /// Takes the entry holding `ih` out of the store, or makes a fresh one.
    fn take_entry(&mut self, ih: &Vec<u8>) -> (r: (SwarmEntry, Option<usize>))
        ensures
            r.0@.info_hash == ih@,
            r.0@.swarm == swarm_or_empty(old(self)@, ih@),
            match r.1 {
                Option::Some(i) => i < old(self)@.len() && old(self)@[i as int].info_hash == ih@ && (
                forall|k: int|
                    0 <= k < i ==> (#[trigger] old(self)@[k]).info_hash != ih@) && final(self)@
                    =~= old(self)@.remove(i as int),
                Option::None => find_swarm(old(self)@, ih@) is None && final(self)@ == old(self)@,
            },
    {
        match find_entry_index(&self.records, ih.as_slice()) {
            Option::Some(i) => {
                proof {
                    lemma_find_swarm_at(entries_view(self.records@), ih@, i as int);
                }
                let ghost before = entries_view(self.records@);
                let e = self.records.remove(i);
                proof {
                    assert(entries_view(self.records@) =~= before.remove(i as int));
                    assert(e@ == before[i as int]);
                }
                (e, Option::Some(i))
            },
            Option::None => {
                proof {
                    lemma_find_swarm_absent(entries_view(self.records@), ih@);
                }
                let sw = Swarm::empty();
                proof {
                    assert(sw@.seeders =~= Seq::<PeerData>::empty());
                    assert(sw@.leechers =~= Seq::<PeerData>::empty());
                }
                (SwarmEntry { info_hash: clone_id(ih), swarm: sw }, Option::None)
            },
        }
    }

    /// Puts an entry back where `take_entry` found it, or appends it.
    fn put_entry(&mut self, e: SwarmEntry, slot: Option<usize>)
        requires
            match slot {
                Option::Some(i) => i <= old(self)@.len(),
                Option::None => true,
            },
        ensures
            final(self)@ == match slot {
                Option::Some(i) => old(self)@.insert(i as int, e@),
                Option::None => old(self)@.push(e@),
            },
    {
        let ghost before = entries_view(self.records@);
        match slot {
            Option::Some(i) => {
                self.records.insert(i, e);
                proof {
                    assert(entries_view(self.records@) =~= before.insert(i as int, e@));
                }
            },
            Option::None => {
                self.records.push(e);
                proof {
                    assert(entries_view(self.records@) =~= before.push(e@));
                }
            },
        }
    }
}

/// Saturating 64-bit addition, used for reap tallies.
pub open spec fn sat_add64(a: u64, b: u64) -> u64 {
    if a + b > u64::MAX {
        u64::MAX
    } else {
        (a + b) as u64
    }
}

/// A peer is alive when it announced within the timeout before `now`.
pub open spec fn alive(p: PeerData, now: u64, timeout: u64) -> bool {
    (if p.last_announced <= now {
        now - p.last_announced
    } else {
        0
    }) < timeout
}

/// A swarm after eviction: only the peers alive at `now` stay.
pub open spec fn reap_swarm(sd: SwarmData, now: u64, timeout: u64) -> SwarmData {
    SwarmData {
        seeders: sd.seeders.filter(|p: PeerData| alive(p, now, timeout)),
        leechers: sd.leechers.filter(|p: PeerData| alive(p, now, timeout)),
    }
}

/// How many seeders eviction removes from one swarm.
pub open spec fn removed_seeds(sd: SwarmData, now: u64, timeout: u64) -> int {
    sd.seeders.len() - sd.seeders.filter(|p: PeerData| alive(p, now, timeout)).len()
}

/// How many leechers eviction removes from one swarm.
pub open spec fn removed_leeches(sd: SwarmData, now: u64, timeout: u64) -> int {
    sd.leechers.len() - sd.leechers.filter(|p: PeerData| alive(p, now, timeout)).len()
}

/// Entries' info-hashes are pairwise distinct.
pub open spec fn unique_hashes(es: Seq<EntryData>) -> bool {
    forall|i: int, j: int|
        0 <= i < j < es.len() ==> (#[trigger] es[i]).info_hash != (#[trigger] es[j]).info_hash
}

/// Seeders evicted over a store, saturating.
pub open spec fn seeds_reaped_of(es: Seq<EntryData>, now: u64, timeout: u64) -> u64
    decreases es.len(),
{
    if es.len() == 0 {
        0
    } else {
        sat_add64(
            seeds_reaped_of(es.drop_last(), now, timeout),
            (es.last().swarm.seeders.len() - es.last().swarm.seeders.filter(
                |p: PeerData| alive(p, now, timeout),
            ).len()) as u64,
        )
    }
}

/// Leechers evicted over a store, saturating.
pub open spec fn leeches_reaped_of(es: Seq<EntryData>, now: u64, timeout: u64) -> u64
    decreases es.len(),
{
    if es.len() == 0 {
        0
    } else {
        sat_add64(
            leeches_reaped_of(es.drop_last(), now, timeout),
            (es.last().swarm.leechers.len() - es.last().swarm.leechers.filter(
                |p: PeerData| alive(p, now, timeout),
            ).len()) as u64,
        )
    }
}

/// Keeps only the peers alive at `now`; reports how many left.
fn retain_alive(v: &mut Vec<Peer>, now: u64, timeout: u64) -> (removed: usize)
    ensures
        peers_view(final(v)@) == peers_view(old(v)@).filter(|p: PeerData| alive(p, now, timeout)),
        peers_view(final(v)@).len() <= peers_view(old(v)@).len(),
        removed == peers_view(old(v)@).len() - peers_view(final(v)@).len(),
{
    let ghost pred = |p: PeerData| alive(p, now, timeout);
    let mut kept: Vec<Peer> = Vec::new();
    let mut i: usize = 0;
    proof {
        reveal(Seq::filter);
        assert(peers_view(v@).take(0) =~= Seq::<PeerData>::empty());
        assert(peers_view(kept@) =~= Seq::<PeerData>::empty().filter(pred));
    }
    while i < v.len()
        invariant
            0 <= i <= v@.len(),
            peers_view(kept@) == peers_view(v@).take(i as int).filter(
                |p: PeerData| alive(p, now, timeout),
            ),
            peers_view(kept@).len() <= i,
        decreases v@.len() - i,
    {
        let ghost pre = peers_view(v@).take(i as int);
        let ghost post = peers_view(v@).take(i + 1);
        proof {
            reveal(Seq::filter);
            assert(post.drop_last() =~= pre);
            assert(post.last() == v_at(v@, i as int));
            post.lemma_filter_len(pred);
        }
        let p = &v[i];
        let last_ok = p.last_announced <= now;
        let elapsed: u64 = if last_ok {
            now - p.last_announced
        } else {
            0
        };
        if elapsed < timeout {
            let ghost kbefore = peers_view(kept@);
            kept.push(p.duplicate());
            proof {
                assert(peers_view(kept@) =~= kbefore.push(post.last()));
            }
        }
        i = i + 1;
    }
    proof {
        reveal(Seq::filter);
        assert(peers_view(v@).take(v@.len() as int) =~= peers_view(v@));
    }
    let removed = v.len() - kept.len();
    *v = kept;
    removed
}

/// With `i` the first index bearing `ih`, the search stops there.
proof fn lemma_find_swarm_at(es: Seq<EntryData>, ih: Seq<u8>, i: int)
    requires
        0 <= i < es.len(),
        es[i].info_hash == ih,
        forall|k: int| 0 <= k < i ==> (#[trigger] es[k]).info_hash != ih,
    ensures
        find_swarm(es, ih) == Option::Some(es[i].swarm),
    decreases i,
{
    if i > 0 {
        lemma_find_swarm_at(es.drop_first(), ih, i - 1);
        assert(es.drop_first()[i - 1] == es[i]);
    }
}

impl PeerStore {
    /// Inserts `peer` among the leechers of `info_hash`'s swarm, creating
    /// the swarm on first contact; reports where the id was beforehand.
    pub fn put_leecher(&mut self, info_hash: &Vec<u8>, peer: Peer) -> (was: Residence)
        ensures
            find_swarm(final(self)@, info_hash@) == Option::Some(
                SwarmData {
                    seeders: remove_id(swarm_or_empty(old(self)@, info_hash@).seeders, peer@.peer_id),
                    leechers: replace_or_push(
                        swarm_or_empty(old(self)@, info_hash@).leechers,
                        peer@,
                    ),
                },
            ),
            forall|other: Seq<u8>|
                other != info_hash@ ==> #[trigger] find_swarm(final(self)@, other) == find_swarm(
                    old(self)@,
                    other,
                ),
            was == residence_of(swarm_or_empty(old(self)@, info_hash@), peer@.peer_id),
    {
        let (mut e, slot) = self.take_entry(info_hash);
        let was = e.swarm.put_leecher(peer);
        self.finish_entry(e, slot, Ghost(old(self)@), Ghost(info_hash@));
        was
    }

    /// Inserts `peer` among the seeders of `info_hash`'s swarm, creating the
    /// swarm on first contact; reports where the id was beforehand.
    pub fn put_seeder(&mut self, info_hash: &Vec<u8>, peer: Peer) -> (was: Residence)
        ensures
            find_swarm(final(self)@, info_hash@) == Option::Some(
                SwarmData {
                    seeders: replace_or_push(swarm_or_empty(old(self)@, info_hash@).seeders, peer@),
                    leechers: remove_id(
                        swarm_or_empty(old(self)@, info_hash@).leechers,
                        peer@.peer_id,
                    ),
                },
            ),
            forall|other: Seq<u8>|
                other != info_hash@ ==> #[trigger] find_swarm(final(self)@, other) == find_swarm(
                    old(self)@,
                    other,
                ),
            was == residence_of(swarm_or_empty(old(self)@, info_hash@), peer@.peer_id),
    {
        let (mut e, slot) = self.take_entry(info_hash);
        let was = e.swarm.put_seeder(peer);
        self.finish_entry(e, slot, Ghost(old(self)@), Ghost(info_hash@));
        was
    }

    /// Moves `peer_id` from leechers to seeders in `info_hash`'s swarm;
    /// inert, and `false`, when no such leecher exists.
    pub fn promote_leecher(&mut self, info_hash: &Vec<u8>, peer_id: &Vec<u8>) -> (moved: bool)
        ensures
            ({
                let sw = swarm_or_empty(old(self)@, info_hash@);
                match find_peer(sw.leechers, peer_id@) {
                    Option::Some(p) => moved && find_swarm(final(self)@, info_hash@)
                        == Option::Some(
                        SwarmData {
                            seeders: sw.seeders.push(p),
                            leechers: remove_id(sw.leechers, peer_id@),
                        },
                    ),
                    Option::None => !moved && find_swarm(final(self)@, info_hash@)
                        == Option::Some(sw),
                }
            }),
            forall|other: Seq<u8>|
                other != info_hash@ ==> #[trigger] find_swarm(final(self)@, other) == find_swarm(
                    old(self)@,
                    other,
                ),
    {
        let (mut e, slot) = self.take_entry(info_hash);
        let moved = e.swarm.promote(peer_id.as_slice());
        self.finish_entry(e, slot, Ghost(old(self)@), Ghost(info_hash@));
        moved
    }

    /// Removes the seeder `peer_id` from `info_hash`'s swarm, if present.
    pub fn remove_seeder(&mut self, info_hash: &Vec<u8>, peer_id: &Vec<u8>) -> (removed: bool)
        ensures
            find_swarm(final(self)@, info_hash@) == Option::Some(
                SwarmData {
                    seeders: remove_id(swarm_or_empty(old(self)@, info_hash@).seeders, peer_id@),
                    leechers: swarm_or_empty(old(self)@, info_hash@).leechers,
                },
            ),
            forall|other: Seq<u8>|
                other != info_hash@ ==> #[trigger] find_swarm(final(self)@, other) == find_swarm(
                    old(self)@,
                    other,
                ),
            removed == (find_peer(swarm_or_empty(old(self)@, info_hash@).seeders, peer_id@)
                is Some),
    {
        let (mut e, slot) = self.take_entry(info_hash);
        let removed = e.swarm.remove_seeder(peer_id.as_slice());
        self.finish_entry(e, slot, Ghost(old(self)@), Ghost(info_hash@));
        removed
    }

    /// Removes the leecher `peer_id` from `info_hash`'s swarm, if present.
    pub fn remove_leecher(&mut self, info_hash: &Vec<u8>, peer_id: &Vec<u8>) -> (removed: bool)
        ensures
            find_swarm(final(self)@, info_hash@) == Option::Some(
                SwarmData {
                    seeders: swarm_or_empty(old(self)@, info_hash@).seeders,
                    leechers: remove_id(swarm_or_empty(old(self)@, info_hash@).leechers, peer_id@),
                },
            ),
            forall|other: Seq<u8>|
                other != info_hash@ ==> #[trigger] find_swarm(final(self)@, other) == find_swarm(
                    old(self)@,
                    other,
                ),
            removed == (find_peer(swarm_or_empty(old(self)@, info_hash@).leechers, peer_id@)
                is Some),
    {
        let (mut e, slot) = self.take_entry(info_hash);
        let removed = e.swarm.remove_leecher(peer_id.as_slice());
        self.finish_entry(e, slot, Ghost(old(self)@), Ghost(info_hash@));
        removed
    }

    /// Refreshes `peer`'s entry in whichever set of `info_hash`'s swarm
    /// holds its id; a client that never started is not added.
    pub fn update_peer(&mut self, info_hash: &Vec<u8>, peer: Peer)
        ensures
            find_swarm(final(self)@, info_hash@) == Option::Some(
                SwarmData {
                    seeders: replace_present(swarm_or_empty(old(self)@, info_hash@).seeders, peer@),
                    leechers: replace_present(
                        swarm_or_empty(old(self)@, info_hash@).leechers,
                        peer@,
                    ),
                },
            ),
            forall|other: Seq<u8>|
                other != info_hash@ ==> #[trigger] find_swarm(final(self)@, other) == find_swarm(
                    old(self)@,
                    other,
                ),
    {
        let (mut e, slot) = self.take_entry(info_hash);
        e.swarm.update_peer(peer);
        self.finish_entry(e, slot, Ghost(old(self)@), Ghost(info_hash@));
    }

    /// Puts a taken entry back and carries the find-map facts over.
    fn finish_entry(
        &mut self,
        e: SwarmEntry,
        slot: Option<usize>,
        Ghost(orig): Ghost<Seq<EntryData>>,
        Ghost(ih): Ghost<Seq<u8>>,
    )
        requires
            e@.info_hash == ih,
            match slot {
                Option::Some(i) => i < orig.len() && orig[i as int].info_hash == ih && (forall|
                    k: int,
                |
                    0 <= k < i ==> (#[trigger] orig[k]).info_hash != ih) && old(self)@ =~= orig.remove(
                    i as int,
                ),
                Option::None => find_swarm(orig, ih) is None && old(self)@ == orig,
            },
        ensures
            find_swarm(final(self)@, ih) == Option::Some(e@.swarm),
            forall|other: Seq<u8>|
                other != ih ==> #[trigger] find_swarm(final(self)@, other) == find_swarm(
                    orig,
                    other,
                ),
    {
        let ghost e_view = e@;
        self.put_entry(e, slot);
        proof {
            match slot {
                Option::Some(i) => {
                    assert(self@ =~= orig.update(i as int, e_view));
                    assert forall|other: Seq<u8>| true implies find_swarm(
                        orig.update(i as int, e_view),
                        other,
                    ) == (if other == ih {
                        Option::Some(e_view.swarm)
                    } else {
                        find_swarm(orig, other)
                    }) by {
                        lemma_find_swarm_update(orig, i as int, e_view, other);
                    }
                },
                Option::None => {
                    assert forall|other: Seq<u8>| true implies find_swarm(
                        orig.push(e_view),
                        other,
                    ) == (if find_swarm(orig, other) is Some {
                        find_swarm(orig, other)
                    } else if other == e_view.info_hash {
                        Option::Some(e_view.swarm)
                    } else {
                        Option::None
                    }) by {
                        lemma_find_swarm_push(orig, e_view, other);
                    }
                },
            }
        }
    }

    /// Samples up to `numwant` peers of `info_hash`'s swarm, the requester
    /// excluded; the caller supplies the randomness in `seed`.
    pub fn get_peers(&self, info_hash: &Vec<u8>, numwant: u32, requester: &[u8], seed: u64) -> (r: (
        Vec<Peerv4>,
        Vec<Peerv6>,
    ))
        ensures
            v4_view(r.0@) == v4_entries(
                selection(
                    eligible(swarm_or_empty(self@, info_hash@), requester@),
                    numwant as int,
                    seed,
                ),
            ),
            v6_view(r.1@) == v6_entries(
                selection(
                    eligible(swarm_or_empty(self@, info_hash@), requester@),
                    numwant as int,
                    seed,
                ),
            ),
            r.0@.len() + r.1@.len() == selection(
                eligible(swarm_or_empty(self@, info_hash@), requester@),
                numwant as int,
                seed,
            ).len(),
    {
        match find_entry_index(&self.records, info_hash.as_slice()) {
            Option::Some(i) => {
                proof {
                    lemma_find_swarm_at(entries_view(self.records@), info_hash@, i as int);
                    assert(entries_view(self.records@)[i as int] == self.records@[i as int]@);
                }
                self.records[i].swarm.sample(numwant, requester, seed)
            },
            Option::None => {
                proof {
                    reveal(Seq::filter);
                    lemma_find_swarm_absent(entries_view(self.records@), info_hash@);
                    let sd = swarm_or_empty(self@, info_hash@);
                    assert(sd.seeders + sd.leechers =~= Seq::<PeerData>::empty());
                    assert(eligible(sd, requester@) =~= Seq::<PeerData>::empty());
                }
                (Vec::new(), Vec::new())
            },
        }
    }

    /// Evicts the stale peers of the entry at `i` alone; returns its
    /// info-hash and how many seeders and leechers left it.
    pub fn reap_entry(&mut self, i: usize, now: u64, peer_timeout: u64) -> (r: (Vec<u8>, u64, u64))
        requires
            i < old(self)@.len(),
        ensures
            final(self)@.len() == old(self)@.len(),
            final(self)@[i as int].info_hash == old(self)@[i as int].info_hash,
            final(self)@[i as int].swarm == reap_swarm(old(self)@[i as int].swarm, now, peer_timeout),
            forall|k: int|
                0 <= k < old(self)@.len() && k != i ==> #[trigger] final(self)@[k] == old(
                    self,
                )@[k],
            r.0@ == old(self)@[i as int].info_hash,
            r.1 == removed_seeds(old(self)@[i as int].swarm, now, peer_timeout),
            r.2 == removed_leeches(old(self)@[i as int].swarm, now, peer_timeout),
    {
        let ghost before = entries_view(self.records@);
        let mut e = self.records.remove(i);
        let ghost mid = entries_view(self.records@);
        proof {
            assert(mid =~= before.remove(i as int));
            assert(e@ == before[i as int]);
        }
        let sr = retain_alive(&mut e.swarm.seeders, now, peer_timeout);
        let lr = retain_alive(&mut e.swarm.leechers, now, peer_timeout);
        let ih = clone_id(&e.info_hash);
        proof {
            assert(e@.info_hash == before[i as int].info_hash);
            assert(e@.swarm == reap_swarm(before[i as int].swarm, now, peer_timeout));
        }
        self.records.insert(i, e);
        proof {
            assert(entries_view(self.records@) =~= mid.insert(i as int, e@));
            assert(entries_view(self.records@) =~= before.update(i as int, e@));
        }
        (ih, sr as u64, lr as u64)
    }

    /// Evicts every peer whose last announce lies `peer_timeout` or more
    /// before `now`; returns how many seeders and leechers left.
    pub fn reap(&mut self, now: u64, peer_timeout: u64) -> (r: (u64, u64))
        ensures
            final(self)@.len() == old(self)@.len(),
            forall|i: int|
                0 <= i < old(self)@.len() ==> (#[trigger] final(self)@[i]).info_hash == old(
                    self,
                )@[i].info_hash && final(self)@[i].swarm == reap_swarm(
                    old(self)@[i].swarm,
                    now,
                    peer_timeout,
                ),
            r.0 == seeds_reaped_of(old(self)@, now, peer_timeout),
            r.1 == leeches_reaped_of(old(self)@, now, peer_timeout),
    {
        let ghost orig = entries_view(self.records@);
        let mut seeds: u64 = 0;
        let mut leeches: u64 = 0;
        let mut i: usize = 0;
        proof {
            assert(orig.take(0) =~= Seq::<EntryData>::empty());
        }
        while i < self.records.len()
            invariant
                0 <= i <= self.records@.len(),
                entries_view(self.records@).len() == orig.len(),
                forall|k: int|
                    i <= k < orig.len() ==> #[trigger] entries_view(self.records@)[k] == orig[k],
                forall|k: int|
                    0 <= k < i ==> (#[trigger] entries_view(self.records@)[k]).info_hash
                        == orig[k].info_hash && entries_view(self.records@)[k].swarm == reap_swarm(
                        orig[k].swarm,
                        now,
                        peer_timeout,
                    ),
                seeds == seeds_reaped_of(orig.take(i as int), now, peer_timeout),
                leeches == leeches_reaped_of(orig.take(i as int), now, peer_timeout),
            decreases self.records@.len() - i,
        {
            let ghost before = entries_view(self.records@);
            let mut e = self.records.remove(i);
            let ghost mid = entries_view(self.records@);
            proof {
                assert(mid =~= before.remove(i as int));
                assert(e@ == before[i as int]);
                assert(before[i as int] == orig[i as int]);
            }
            let sr = retain_alive(&mut e.swarm.seeders, now, peer_timeout);
            let lr = retain_alive(&mut e.swarm.leechers, now, peer_timeout);
            proof {
                assert(e@.info_hash == orig[i as int].info_hash);
                assert(e@.swarm == reap_swarm(orig[i as int].swarm, now, peer_timeout));
            }
            self.records.insert(i, e);
            proof {
                assert(entries_view(self.records@) =~= mid.insert(i as int, e@));
                assert(entries_view(self.records@) =~= before.update(i as int, e@));
                assert(orig.take(i + 1).drop_last() =~= orig.take(i as int));
                assert(orig.take(i + 1).last() == orig[i as int]);
            }
            seeds = saturating_add_u64(seeds, sr as u64);
            leeches = saturating_add_u64(leeches, lr as u64);
            i = i + 1;
        }
        proof {
            assert(orig.take(orig.len() as int) =~= orig);
        }
        (seeds, leeches)
    }
}

/// Saturating 64-bit addition.
pub fn saturating_add_u64(a: u64, b: u64) -> (r: u64)
    ensures
        r == sat_add64(a, b),
{
    a.saturating_add(b)
}

/// Replaces the first entry sharing `p`'s id, or appends `p`; reports
/// whether one was there.
fn upsert_peer(v: &mut Vec<Peer>, p: Peer) -> (was_there: bool)
    ensures
        peers_view(final(v)@) == replace_or_push(peers_view(old(v)@), p@),
        was_there == (find_peer(peers_view(old(v)@), p@.peer_id) is Some),
{
    match find_index(v, p.peer_id.as_slice()) {
        Option::Some(i) => {
            proof {
                lemma_ops_at_index(peers_view(v@), p@.peer_id, i as int, p@);
            }
            let ghost before = peers_view(v@);
            v.set(i, p);
            proof {
                assert(peers_view(v@) =~= before.update(i as int, p@));
            }
            true
        },
        Option::None => {
            proof {
                lemma_ops_absent(peers_view(v@), p@.peer_id, p@);
            }
            let ghost before = peers_view(v@);
            v.push(p);
            proof {
                assert(peers_view(v@) =~= before.push(p@));
            }
            false
        },
    }
}

} // verus!
