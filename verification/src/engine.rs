//! The announce and scrape engines: the sole mutators that couple the peer
//! store, the torrent store and the global figures, and the reaper that
//! evicts stale peers.
//!
//! Counter discipline: a `started` only raises `incomplete` when the peer
//! was not already a leecher, and lowers `complete` when it had been a
//! seeder; a `completed` only counts when it in fact promotes a leecher, so
//! repeats from a seeder change nothing; a `stopped` only lowers the counter
//! of the set the peer actually left. This keeps the cached counters equal
//! to the swarm sizes.
use crate::bittorrent::{
    AnnReqData, AnnounceRequest, AnnounceResponse, Event, ScrapeRequest, ScrapeResponse,
};
use crate::peer::{clone_id, IpAddress, Peer, PeerData};
use crate::stats::{stat_add, stat_sub, GlobalStats};
use crate::store::{
    eligible, find_peer, find_swarm, remove_id, replace_or_push, replace_present, residence_of,
    selection, swarm_or_empty, v4_entries, v6_entries, v4_view, v6_view, PeerStore, Residence,
    SwarmData,
};
use crate::torrent::{
    find_torrent, new_leech_spec, new_seed_spec, sat_sub32, scrape_projection_ok, scrape_views,
    TorrentData, TorrentStore,
};
use vstd::prelude::*;

verus! {

/// The whole tracker: swarms, aggregate records, process figures.
pub struct Tracker {
    pub peer_store: PeerStore,
    pub torrent_store: TorrentStore,
    pub stats: GlobalStats,
}

/// The spec-level image of the tracker.
pub struct TrackerData {
    pub peers: Seq<crate::store::EntryData>,
    pub torrents: Seq<TorrentData>,
    pub stats: GlobalStats,
}

impl View for Tracker {
    type V = TrackerData;

    open spec fn view(&self) -> TrackerData {
        TrackerData { peers: self.peer_store@, torrents: self.torrent_store@, stats: self.stats }
    }
}

impl Tracker {
    /// A tracker with no swarms, no records and zeroed figures.
    pub fn new() -> (r: Tracker)
        ensures
            r@.peers.len() == 0,
            r@.torrents.len() == 0,
            r@.stats.seeders_total == 0 && r@.stats.leechers_total == 0,
            r@.stats.announces_ok == 0 && r@.stats.announces_fail == 0,
            r@.stats.scrapes == 0 && r@.stats.promotions == 0,
    {
        Tracker {
            peer_store: PeerStore::new(),
            torrent_store: TorrentStore::new(Vec::new()),
            stats: GlobalStats::new(),
        }
    }
}

/// The stored peer an announce describes.
pub open spec fn peer_from_req(rq: AnnReqData, addr: IpAddress, now: u64) -> PeerData {
    PeerData {
        peer_id: rq.peer_id,
        addr,
        port: rq.port,
        last_announced: now,
        uploaded: rq.uploaded,
        downloaded: rq.downloaded,
        left: rq.left,
    }
}

/// The swarm after one announce event.
pub open spec fn swarm_after(sw0: SwarmData, rq: AnnReqData, peer: PeerData) -> SwarmData {
    match rq.event {
        Event::Started => SwarmData {
            seeders: remove_id(sw0.seeders, rq.peer_id),
            leechers: replace_or_push(sw0.leechers, peer),
        },
        Event::Stopped => if find_peer(sw0.seeders, rq.peer_id) is Some {
            SwarmData { seeders: remove_id(sw0.seeders, rq.peer_id), leechers: sw0.leechers }
        } else {
            SwarmData { seeders: sw0.seeders, leechers: remove_id(sw0.leechers, rq.peer_id) }
        },
        Event::Completed => match find_peer(sw0.leechers, rq.peer_id) {
            Option::Some(p) => SwarmData {
                seeders: sw0.seeders.push(p),
                leechers: remove_id(sw0.leechers, rq.peer_id),
            },
            Option::None => sw0,
        },
        Event::KeepAlive => SwarmData {
            seeders: replace_present(sw0.seeders, peer),
            leechers: replace_present(sw0.leechers, peer),
        },
    }
}

/// The torrent record after one announce event.
pub open spec fn torrent_after(
    t0: Option<TorrentData>,
    sw0: SwarmData,
    rq: AnnReqData,
) -> Option<TorrentData> {
    match rq.event {
        Event::Started => match residence_of(sw0, rq.peer_id) {
            Residence::Absent => Option::Some(new_leech_spec(t0, rq.info_hash)),
            Residence::InSeeders => Option::Some(
                TorrentData {
                    complete: sat_sub32(new_leech_spec(t0, rq.info_hash).complete, 1),
                    ..new_leech_spec(t0, rq.info_hash)
                },
            ),
            Residence::InLeechers => t0,
        },
        Event::Completed => if find_peer(sw0.leechers, rq.peer_id) is Some {
            Option::Some(new_seed_spec(t0, rq.info_hash))
        } else {
            t0
        },
        Event::Stopped => if find_peer(sw0.seeders, rq.peer_id) is Some {
            match t0 {
                Option::Some(t) => Option::Some(
                    TorrentData { complete: sat_sub32(t.complete, 1), ..t },
                ),
                Option::None => Option::None,
            }
        } else if find_peer(sw0.leechers, rq.peer_id) is Some {
            match t0 {
                Option::Some(t) => Option::Some(
                    TorrentData { incomplete: sat_sub32(t.incomplete, 1), ..t },
                ),
                Option::None => Option::None,
            }
        } else {
            t0
        },
        Event::KeepAlive => t0,
    }
}

/// The global figures after one announce event.
pub open spec fn stats_after(gs: GlobalStats, sw0: SwarmData, rq: AnnReqData) -> GlobalStats {
    match rq.event {
        Event::Started => GlobalStats {
            leechers_total: stat_add(gs.leechers_total, 1),
            announces_ok: stat_add(gs.announces_ok, 1),
            ..gs
        },
        Event::Completed => if find_peer(sw0.leechers, rq.peer_id) is Some {
            GlobalStats {
                seeders_total: stat_add(gs.seeders_total, 1),
                leechers_total: stat_sub(gs.leechers_total, 1),
                promotions: stat_add(gs.promotions, 1),
                announces_ok: stat_add(gs.announces_ok, 1),
                ..gs
            }
        } else {
            GlobalStats { announces_ok: stat_add(gs.announces_ok, 1), ..gs }
        },
        Event::Stopped => if find_peer(sw0.seeders, rq.peer_id) is Some {
            GlobalStats {
                seeders_total: stat_sub(gs.seeders_total, 1),
                announces_ok: stat_add(gs.announces_ok, 1),
                ..gs
            }
        } else {
            GlobalStats {
                leechers_total: stat_sub(gs.leechers_total, 1),
                announces_ok: stat_add(gs.announces_ok, 1),
                ..gs
            }
        },
        Event::KeepAlive => GlobalStats { announces_ok: stat_add(gs.announces_ok, 1), ..gs },
    }
}

/// The `(complete, incomplete)` pair reported after the mutation.
pub open spec fn counters_after(t1: Option<TorrentData>) -> (u32, u32) {
    match t1 {
        Option::Some(t) => (t.complete, t.incomplete),
        Option::None => (0u32, 0u32),
    }
}

/// Everything one served announce does: how the addressed swarm, its
/// record, the figures and nothing else change, and what the response
/// carries.
pub open spec fn announce_post(
    pre: TrackerData,
    post: TrackerData,
    rq: AnnReqData,
    addr: IpAddress,
    now: u64,
    seed: u64,
    interval: u32,
    resp: crate::bittorrent::AnnRespData,
) -> bool {
    let ih = rq.info_hash;
    let sw0 = swarm_or_empty(pre.peers, ih);
    let peer = peer_from_req(rq, addr, now);
    let sw1 = swarm_after(sw0, rq, peer);
    let t1 = torrent_after(find_torrent(pre.torrents, ih), sw0, rq);
    find_swarm(post.peers, ih) == Option::Some(sw1) && (forall|other: Seq<u8>|
        other != ih ==> #[trigger] find_swarm(post.peers, other) == find_swarm(pre.peers, other))
        && find_torrent(post.torrents, ih) == t1 && (forall|other: Seq<u8>|
        other != ih ==> #[trigger] find_torrent(post.torrents, other) == find_torrent(
            pre.torrents,
            other,
        )) && post.stats == stats_after(pre.stats, sw0, rq) && resp.failure_reason
        == Seq::<char>::empty() && resp.tracker_id == Seq::<char>::empty() && resp.interval
        == interval && (resp.complete, resp.incomplete) == counters_after(t1) && resp.peers
        == v4_entries(selection(eligible(sw1, rq.peer_id), rq.numwant as int, seed)) && resp.peers6
        == v6_entries(selection(eligible(sw1, rq.peer_id), rq.numwant as int, seed))
}

/// Serves one parsed announce: drives the event through the stores, then
/// samples peers and reads the counters, so the response reflects this very
/// request. `remote` is the connection's address, used when the request
/// names none; `now` is the current time in seconds, and `seed` supplies
/// the sampling randomness.
pub fn handle_announce(
    t: &mut Tracker,
    req: &AnnounceRequest,
    remote: IpAddress,
    now: u64,
    seed: u64,
    interval: u32,
) -> (resp: AnnounceResponse)
    ensures
        announce_post(
            old(t)@,
            final(t)@,
            req@,
            (match req.ip {
                Option::Some(a) => a,
                Option::None => remote,
            }),
            now,
            seed,
            interval,
            resp@,
        ),
{
    let addr = match req.ip {
        Option::Some(a) => a,
        Option::None => remote,
    };
    let peer = Peer {
        peer_id: clone_id(&req.peer_id),
        addr,
        port: req.port,
        last_announced: now,
        uploaded: req.uploaded,
        downloaded: req.downloaded,
        left: req.left,
    };
    let ghost peer_view = peer@;
    let ghost pre = t@;
    let ghost rq = req@;
    let ghost ih = rq.info_hash;
    let ghost sw0 = swarm_or_empty(pre.peers, ih);
    proof {
        assert(peer_view == peer_from_req(rq, addr, now));
    }
    match req.event {
        Event::Started => {
            let was = t.peer_store.put_leecher(&req.info_hash, peer);
            match was {
                Residence::Absent => {
                    t.torrent_store.new_leech(&req.info_hash);
                },
                Residence::InSeeders => {
                    t.torrent_store.new_leech(&req.info_hash);
                    t.torrent_store.drop_seed(&req.info_hash);
                },
                Residence::InLeechers => {},
            }
            t.stats.add_leech();
            t.stats.succ_announce();
            proof {
                assert(find_swarm(t@.peers, ih) == Option::Some(
                    swarm_after(sw0, rq, peer_view),
                ));
                assert(find_torrent(t@.torrents, ih) == torrent_after(
                    find_torrent(pre.torrents, ih),
                    sw0,
                    rq,
                ));
                assert(t@.stats == stats_after(pre.stats, sw0, rq));
            }
        },
        Event::Completed => {
            let moved = t.peer_store.promote_leecher(&req.info_hash, &req.peer_id);
            if moved {
                t.torrent_store.new_seed(&req.info_hash);
                t.stats.promote_leech();
            }
            t.stats.succ_announce();
            proof {
                assert(find_swarm(t@.peers, ih) == Option::Some(
                    swarm_after(sw0, rq, peer_view),
                ));
                assert(find_torrent(t@.torrents, ih) == torrent_after(
                    find_torrent(pre.torrents, ih),
                    sw0,
                    rq,
                ));
                assert(t@.stats == stats_after(pre.stats, sw0, rq));
            }
        },
        Event::Stopped => {
            if t.peer_store.remove_seeder(&req.info_hash, &req.peer_id) {
                t.torrent_store.drop_seed(&req.info_hash);
                t.stats.sub_seed();
            } else {
                proof {
                    crate::store::lemma_remove_id_inert(sw0.seeders, rq.peer_id);
                }
                let removed = t.peer_store.remove_leecher(&req.info_hash, &req.peer_id);
                if removed {
                    t.torrent_store.drop_leech(&req.info_hash);
                }
                t.stats.sub_leech();
            }
            t.stats.succ_announce();
            proof {
                assert(find_swarm(t@.peers, ih) == Option::Some(
                    swarm_after(sw0, rq, peer_view),
                ));
                assert(find_torrent(t@.torrents, ih) == torrent_after(
                    find_torrent(pre.torrents, ih),
                    sw0,
                    rq,
                ));
                assert(t@.stats == stats_after(pre.stats, sw0, rq));
            }
        },
        Event::KeepAlive => {
            t.peer_store.update_peer(&req.info_hash, peer);
            t.stats.succ_announce();
            proof {
                assert(find_swarm(t@.peers, ih) == Option::Some(
                    swarm_after(sw0, rq, peer_view),
                ));
                assert(find_torrent(t@.torrents, ih) == torrent_after(
                    find_torrent(pre.torrents, ih),
                    sw0,
                    rq,
                ));
                assert(t@.stats == stats_after(pre.stats, sw0, rq));
            }
        },
    }
    proof {
        assert(swarm_or_empty(t@.peers, ih) == swarm_after(sw0, rq, peer_view));
    }
    let (peers, peers6) = t.peer_store.get_peers(
        &req.info_hash,
        req.numwant,
        req.peer_id.as_slice(),
        seed,
    );
    let (complete, incomplete) = t.torrent_store.get_announce_stats(&req.info_hash);
    let resp = match AnnounceResponse::new(interval, complete, incomplete, peers, peers6) {
        Ok(r) => r,
        Err(_) => vstd::pervasive::unreached(),
    };
    resp
}

/// The record the reaper leaves for one swarm's info-hash.
pub open spec fn reap_torrent(
    t0: Option<TorrentData>,
    sw: crate::store::SwarmData,
    now: u64,
    timeout: u64,
) -> Option<TorrentData> {
    match t0 {
        Option::Some(t) => Option::Some(
            TorrentData {
                complete: crate::torrent::sat_sub_wide(
                    t.complete,
                    crate::store::removed_seeds(sw, now, timeout),
                ),
                incomplete: crate::torrent::sat_sub_wide(
                    t.incomplete,
                    crate::store::removed_leeches(sw, now, timeout),
                ),
                ..t
            },
        ),
        Option::None => Option::None,
    }
}

impl Tracker {
    /// One reaper pass: evicts every peer whose last announce lies
    /// `peer_timeout` or more before `now`, lowers each torrent's counters
    /// by what its swarm lost, and adjusts the global figures; returns the
    /// totals evicted.
    #[verifier::loop_isolation(false)]
    pub fn reap(&mut self, now: u64, peer_timeout: u64) -> (r: (u64, u64))
        ensures
            final(self)@.peers.len() == old(self)@.peers.len(),
            forall|i: int|
                0 <= i < old(self)@.peers.len() ==> (#[trigger] final(self)@.peers[i]).info_hash
                    == old(self)@.peers[i].info_hash && final(self)@.peers[i].swarm
                    == crate::store::reap_swarm(old(self)@.peers[i].swarm, now, peer_timeout),
            r.0 == crate::store::seeds_reaped_of(old(self)@.peers, now, peer_timeout),
            r.1 == crate::store::leeches_reaped_of(old(self)@.peers, now, peer_timeout),
            final(self)@.stats == (GlobalStats {
                seeders_total: stat_sub(old(self)@.stats.seeders_total, r.0),
                leechers_total: stat_sub(old(self)@.stats.leechers_total, r.1),
                ..old(self)@.stats
            }),
            crate::store::unique_hashes(old(self)@.peers) ==> (forall|i: int|
                0 <= i < old(self)@.peers.len() ==> #[trigger] find_torrent(
                    final(self)@.torrents,
                    old(self)@.peers[i].info_hash,
                ) == reap_torrent(
                    find_torrent(old(self)@.torrents, old(self)@.peers[i].info_hash),
                    old(self)@.peers[i].swarm,
                    now,
                    peer_timeout,
                )),
            crate::store::unique_hashes(old(self)@.peers) ==> (forall|other: Seq<u8>|
                (forall|i: int|
                    0 <= i < old(self)@.peers.len() ==> (#[trigger] old(
                        self,
                    )@.peers[i]).info_hash != other) ==> #[trigger] find_torrent(
                    final(self)@.torrents,
                    other,
                ) == find_torrent(old(self)@.torrents, other)),
    {
        let ghost orig = self@.peers;
        let ghost orig_t = self@.torrents;
        let mut seeds: u64 = 0;
        let mut leeches: u64 = 0;
        let mut i: usize = 0;
        proof {
            assert(orig.take(0) =~= Seq::<crate::store::EntryData>::empty());
        }
        let n = self.peer_store.records.len();
        proof {
            assert(n == orig.len());
        }
        while i < n
            invariant
                0 <= i <= n == orig.len(),
                self@.peers.len() == orig.len(),
                self@.stats == old(self)@.stats,
                orig == old(self)@.peers,
                orig_t == old(self)@.torrents,
                n == self.peer_store.records@.len(),
                forall|k: int| i <= k < orig.len() ==> #[trigger] self@.peers[k] == orig[k],
                forall|k: int|
                    0 <= k < i ==> (#[trigger] self@.peers[k]).info_hash == orig[k].info_hash
                        && self@.peers[k].swarm == crate::store::reap_swarm(
                        orig[k].swarm,
                        now,
                        peer_timeout,
                    ),
                seeds == crate::store::seeds_reaped_of(orig.take(i as int), now, peer_timeout),
                leeches == crate::store::leeches_reaped_of(orig.take(i as int), now, peer_timeout),
                crate::store::unique_hashes(orig) ==> (forall|k: int|
                    0 <= k < i ==> #[trigger] find_torrent(self@.torrents, orig[k].info_hash)
                        == reap_torrent(
                        find_torrent(orig_t, orig[k].info_hash),
                        orig[k].swarm,
                        now,
                        peer_timeout,
                    )),
                forall|other: Seq<u8>|
                    (forall|k: int|
                        0 <= k < i ==> (#[trigger] orig[k]).info_hash != other)
                        ==> #[trigger] find_torrent(self@.torrents, other) == find_torrent(
                        orig_t,
                        other,
                    ),
            decreases n - i,
        {
            let (ih, sr, lr) = self.peer_store.reap_entry(i, now, peer_timeout);
            let ghost t_before = self@.torrents;
            proof {
                assert(ih@ == orig[i as int].info_hash);
            }
            self.torrent_store.drop_counts(&ih, sr, lr);
            proof {
                assert(orig.take(i + 1).drop_last() =~= orig.take(i as int));
                assert(orig.take(i + 1).last() == orig[i as int]);
                if crate::store::unique_hashes(orig) {
                    assert forall|k: int| 0 <= k < i + 1 implies #[trigger] find_torrent(
                        self@.torrents,
                        orig[k].info_hash,
                    ) == reap_torrent(
                        find_torrent(orig_t, orig[k].info_hash),
                        orig[k].swarm,
                        now,
                        peer_timeout,
                    ) by {
                        if k < i {
                            assert(orig[k].info_hash != orig[i as int].info_hash);
                        } else {
                            assert(forall|k2: int|
                                0 <= k2 < i ==> (#[trigger] orig[k2]).info_hash != orig[
                                    i as int
                                ].info_hash);
                            assert(find_torrent(t_before, orig[i as int].info_hash)
                                == find_torrent(orig_t, orig[i as int].info_hash));
                        }
                    }
                }
                assert forall|other: Seq<u8>|
                    (forall|k: int|
                        0 <= k < i + 1 ==> (#[trigger] orig[k]).info_hash
                            != other) implies #[trigger] find_torrent(self@.torrents, other)
                    == find_torrent(orig_t, other) by {
                    assert(orig[i as int].info_hash != other);
                    assert(forall|k: int| 0 <= k < i ==> (#[trigger] orig[k]).info_hash != other);
                }
            }
            seeds = crate::store::saturating_add_u64(seeds, sr);
            leeches = crate::store::saturating_add_u64(leeches, lr);
            i = i + 1;
        }
        proof {
            assert(orig.take(orig.len() as int) =~= orig);
        }
        self.stats.sub_seeds(seeds);
        self.stats.sub_leeches(leeches);
        (seeds, leeches)
    }
}

impl Tracker {
    /// One reaper step, touching a single swarm: evicts the stale peers of
    /// the entry at `i`, lowers its torrent record by what was evicted, and
    /// adjusts the global figures; returns the seeders and leechers evicted.
    /// The caller may release and retake its lock between steps, so a scan
    /// never blocks announces for long.
    pub fn reap_one(&mut self, i: usize, now: u64, peer_timeout: u64) -> (r: (u64, u64))
        requires
            i < old(self)@.peers.len(),
        ensures
            final(self)@.peers.len() == old(self)@.peers.len(),
            final(self)@.peers[i as int].info_hash == old(self)@.peers[i as int].info_hash,
            final(self)@.peers[i as int].swarm == crate::store::reap_swarm(
                old(self)@.peers[i as int].swarm,
                now,
                peer_timeout,
            ),
            forall|k: int|
                0 <= k < old(self)@.peers.len() && k != i ==> #[trigger] final(self)@.peers[k]
                    == old(self)@.peers[k],
            find_torrent(final(self)@.torrents, old(self)@.peers[i as int].info_hash)
                == reap_torrent(
                find_torrent(old(self)@.torrents, old(self)@.peers[i as int].info_hash),
                old(self)@.peers[i as int].swarm,
                now,
                peer_timeout,
            ),
            forall|other: Seq<u8>|
                other != old(self)@.peers[i as int].info_hash ==> #[trigger] find_torrent(
                    final(self)@.torrents,
                    other,
                ) == find_torrent(old(self)@.torrents, other),
            r.0 == crate::store::removed_seeds(old(self)@.peers[i as int].swarm, now, peer_timeout),
            r.1 == crate::store::removed_leeches(
                old(self)@.peers[i as int].swarm,
                now,
                peer_timeout,
            ),
            final(self)@.stats == (GlobalStats {
                seeders_total: stat_sub(old(self)@.stats.seeders_total, r.0),
                leechers_total: stat_sub(old(self)@.stats.leechers_total, r.1),
                ..old(self)@.stats
            }),
    {
        let (ih, sr, lr) = self.peer_store.reap_entry(i, now, peer_timeout);
        self.torrent_store.drop_counts(&ih, sr, lr);
        self.stats.sub_seeds(sr);
        self.stats.sub_leeches(lr);
        (sr, lr)
    }
}

/// Serves one parsed scrape: projects the known records of the requested
/// hashes, sorted by info-hash bytes, and counts the scrape.
pub fn handle_scrape(t: &mut Tracker, req: &ScrapeRequest) -> (resp: ScrapeResponse)
    ensures
        final(t)@.peers == old(t)@.peers,
        final(t)@.torrents == old(t)@.torrents,
        final(t)@.stats == (GlobalStats {
            scrapes: stat_add(old(t)@.stats.scrapes, 1),
            ..old(t)@.stats
        }),
        scrape_projection_ok(old(t)@.torrents, req.info_hashes.deep_view(), scrape_views(resp.files@)),
{
    let files = t.torrent_store.get_scrapes(&req.info_hashes);
    t.stats.incr_scrapes();
    ScrapeResponse { files }
}

} // verus!
