//! The torrent store: aggregate counters per info-hash, and their
//! projection into scrape replies.
use crate::bittorrent::ScrapeFile;
use crate::peer::clone_id;
use vstd::prelude::*;

verus! {

/// Saturating 32-bit addition.
pub open spec fn sat_add32(a: u32, b: u32) -> u32 {
    if a + b > u32::MAX {
        u32::MAX
    } else {
        (a + b) as u32
    }
}

/// Saturating 32-bit subtraction.
pub open spec fn sat_sub32(a: u32, b: u32) -> u32 {
    if a - b < 0 {
        0
    } else {
        (a - b) as u32
    }
}

/// Saturating subtraction of a wide tally from a 32-bit counter.
pub open spec fn sat_sub_wide(a: u32, b: int) -> u32 {
    if b >= a {
        0
    } else {
        (a - b) as u32
    }
}

/// Aggregate figures for one torrent.
pub struct Torrent {
    pub info_hash: Vec<u8>,
    pub complete: u32,
    pub downloaded: u32,
    pub incomplete: u32,
    pub name: String,
}

/// The spec-level image of a torrent record.
pub struct TorrentData {
    pub info_hash: Seq<u8>,
    pub complete: u32,
    pub downloaded: u32,
    pub incomplete: u32,
    pub name: Seq<char>,
}

impl View for Torrent {
    type V = TorrentData;

    open spec fn view(&self) -> TorrentData {
        TorrentData {
            info_hash: self.info_hash@,
            complete: self.complete,
            downloaded: self.downloaded,
            incomplete: self.incomplete,
            name: self.name@,
        }
    }
}

impl Torrent {
    /// A record with the given counters and an empty name.
    pub fn new(info_hash: Vec<u8>, complete: u32, downloaded: u32, incomplete: u32) -> (r: Torrent)
        ensures
            r@.info_hash == info_hash@,
            r@.complete == complete && r@.downloaded == downloaded && r@.incomplete == incomplete,
            r@.name == Seq::<char>::empty(),
    {
        Torrent { info_hash, complete, downloaded, incomplete, name: String::new() }
    }
}

/// The torrent store: one record per known info-hash.
pub struct TorrentStore {
    pub torrents: Vec<Torrent>,
}

pub open spec fn torrents_view(v: Seq<Torrent>) -> Seq<TorrentData> {
    v.map_values(|t: Torrent| t@)
}

impl View for TorrentStore {
    type V = Seq<TorrentData>;

    open spec fn view(&self) -> Seq<TorrentData> {
        torrents_view(self.torrents@)
    }
}

/// The first record with the given info-hash, if any.
pub open spec fn find_torrent(ts: Seq<TorrentData>, ih: Seq<u8>) -> Option<TorrentData>
    decreases ts.len(),
{
    if ts.len() == 0 {
        Option::None
    } else if ts.first().info_hash == ih {
        Option::Some(ts.first())
    } else {
        find_torrent(ts.drop_first(), ih)
    }
}

/// The record a `started` announce leaves for an info-hash.
pub open spec fn new_leech_spec(t: Option<TorrentData>, ih: Seq<u8>) -> TorrentData {
    match t {
        Option::Some(t) => TorrentData { incomplete: sat_add32(t.incomplete, 1), ..t },
        Option::None => TorrentData {
            info_hash: ih,
            complete: 0,
            downloaded: 0,
            incomplete: 1,
            name: Seq::empty(),
        },
    }
}

/// The record a completion leaves for an info-hash.
pub open spec fn new_seed_spec(t: Option<TorrentData>, ih: Seq<u8>) -> TorrentData {
    match t {
        Option::Some(t) => TorrentData {
            complete: sat_add32(t.complete, 1),
            downloaded: sat_add32(t.downloaded, 1),
            incomplete: sat_sub32(t.incomplete, 1),
            ..t
        },
        Option::None => TorrentData {
            info_hash: ih,
            complete: 1,
            downloaded: 1,
            incomplete: 0,
            name: Seq::empty(),
        },
    }
}

/// Updating the first record of an info-hash changes only that hash.
proof fn lemma_find_torrent_update(ts: Seq<TorrentData>, i: int, t2: TorrentData, ih2: Seq<u8>)
    requires
        0 <= i < ts.len(),
        forall|k: int| 0 <= k < i ==> (#[trigger] ts[k]).info_hash != ts[i].info_hash,
        t2.info_hash == ts[i].info_hash,
    ensures
        find_torrent(ts.update(i, t2), ih2) == if ih2 == ts[i].info_hash {
            Option::Some(t2)
        } else {
            find_torrent(ts, ih2)
        },
        find_torrent(ts, ts[i].info_hash) == Option::Some(ts[i]),
    decreases i,
{
    if i == 0 {
        assert(ts.update(0, t2).drop_first() =~= ts.drop_first());
    } else {
        lemma_find_torrent_update(ts.drop_first(), i - 1, t2, ih2);
        assert(ts.drop_first()[i - 1] == ts[i]);
        assert(ts.update(i, t2).drop_first() =~= ts.drop_first().update(i - 1, t2));
        assert(ts.update(i, t2).first() == ts.first());
    }
}

/// Appending a record is visible only to hashes that had none.
proof fn lemma_find_torrent_push(ts: Seq<TorrentData>, t: TorrentData, ih2: Seq<u8>)
    ensures
        find_torrent(ts.push(t), ih2) == if find_torrent(ts, ih2) is Some {
            find_torrent(ts, ih2)
        } else if ih2 == t.info_hash {
            Option::Some(t)
        } else {
            Option::None
        },
    decreases ts.len(),
{
    if ts.len() == 0 {
        assert(ts.push(t).first() == t);
        assert(ts.push(t).drop_first() =~= Seq::<TorrentData>::empty());
        assert(find_torrent(Seq::<TorrentData>::empty(), ih2) is None);
        assert(find_torrent(ts, ih2) is None);
    } else {
        lemma_find_torrent_push(ts.drop_first(), t, ih2);
        assert(ts.push(t).first() == ts.first());
        assert(ts.push(t).drop_first() =~= ts.drop_first().push(t));
    }
}

/// Without a record of the given info-hash, the search finds nothing.
proof fn lemma_find_torrent_absent(ts: Seq<TorrentData>, ih: Seq<u8>)
    requires
        forall|k: int| 0 <= k < ts.len() ==> (#[trigger] ts[k]).info_hash != ih,
    ensures
        find_torrent(ts, ih) is None,
    decreases ts.len(),
{
    if ts.len() > 0 {
        assert(forall|k: int|
            0 <= k < ts.drop_first().len() ==> #[trigger] ts.drop_first()[k] == ts[k + 1]);
        lemma_find_torrent_absent(ts.drop_first(), ih);
    }
}

/// With `i` the first index bearing `ih`, the search stops there.
proof fn lemma_find_torrent_at(ts: Seq<TorrentData>, ih: Seq<u8>, i: int)
    requires
        0 <= i < ts.len(),
        ts[i].info_hash == ih,
        forall|k: int| 0 <= k < i ==> (#[trigger] ts[k]).info_hash != ih,
    ensures
        find_torrent(ts, ih) == Option::Some(ts[i]),
    decreases i,
{
    if i > 0 {
        lemma_find_torrent_at(ts.drop_first(), ih, i - 1);
        assert(ts.drop_first()[i - 1] == ts[i]);
    }
}

/// Index of the first record with the given info-hash.
fn find_torrent_index(v: &Vec<Torrent>, ih: &[u8]) -> (r: Option<usize>)
    ensures
        match r {
            Option::Some(i) => i < v@.len() && torrents_view(v@)[i as int].info_hash == ih@ && (
            forall|k: int|
                0 <= k < i ==> (#[trigger] torrents_view(v@)[k]).info_hash != ih@),
            Option::None => forall|k: int|
                0 <= k < v@.len() ==> (#[trigger] torrents_view(v@)[k]).info_hash != ih@,
        },
{
    let mut i: usize = 0;
    while i < v.len()
        invariant
            0 <= i <= v@.len(),
            forall|k: int| 0 <= k < i ==> (#[trigger] torrents_view(v@)[k]).info_hash != ih@,
        decreases v@.len() - i,
    {
        if crate::bittorrent::bytes_eq(v[i].info_hash.as_slice(), ih) {
            proof {
                assert(torrents_view(v@)[i as int] == v@[i as int]@);
            }
            return Option::Some(i);
        }
        proof {
            assert(torrents_view(v@)[i as int] == v@[i as int]@);
        }
        i = i + 1;
    }
    Option::None
}

impl TorrentStore {
    /// A store over the given records.
    pub fn new(torrents: Vec<Torrent>) -> (r: TorrentStore)
        ensures
            r@ == torrents_view(torrents@),
    {
        TorrentStore { torrents }
    }

    /// Registers or replaces the record of `t`'s info-hash.
    pub fn upsert(&mut self, t: Torrent)
        ensures
            find_torrent(final(self)@, t@.info_hash) == Option::Some(t@),
            forall|other: Seq<u8>|
                other != t@.info_hash ==> #[trigger] find_torrent(final(self)@, other)
                    == find_torrent(old(self)@, other),
    {
        let ghost before = torrents_view(self.torrents@);
        match find_torrent_index(&self.torrents, t.info_hash.as_slice()) {
            Option::Some(i) => {
                let ghost t_view = t@;
                self.torrents.set(i, t);
                proof {
                    assert(torrents_view(self.torrents@) =~= before.update(i as int, t_view));
                    assert forall|other: Seq<u8>| true implies find_torrent(
                        before.update(i as int, t_view),
                        other,
                    ) == (if other == before[i as int].info_hash {
                        Option::Some(t_view)
                    } else {
                        find_torrent(before, other)
                    }) by {
                        lemma_find_torrent_update(before, i as int, t_view, other);
                    }
                }
            },
            Option::None => {
                let ghost t_view = t@;
                self.torrents.push(t);
                proof {
                    lemma_find_torrent_absent(before, t_view.info_hash);
                    assert(torrents_view(self.torrents@) =~= before.push(t_view));
                    assert forall|other: Seq<u8>| true implies find_torrent(
                        before.push(t_view),
                        other,
                    ) == (if find_torrent(before, other) is Some {
                        find_torrent(before, other)
                    } else if other == t_view.info_hash {
                        Option::Some(t_view)
                    } else {
                        Option::None
                    }) by {
                        lemma_find_torrent_push(before, t_view, other);
                    }
                }
            },
        }
    }

    /// A leecher arrived: the record exists afterwards and counts one more
    /// incomplete peer.
    pub fn new_leech(&mut self, info_hash: &Vec<u8>)
        ensures
            find_torrent(final(self)@, info_hash@) == Option::Some(
                new_leech_spec(find_torrent(old(self)@, info_hash@), info_hash@),
            ),
            forall|other: Seq<u8>|
                other != info_hash@ ==> #[trigger] find_torrent(final(self)@, other)
                    == find_torrent(old(self)@, other),
    {
        let t2 = match find_torrent_index(&self.torrents, info_hash.as_slice()) {
            Option::Some(i) => {
                proof {
                    lemma_find_torrent_at(torrents_view(self.torrents@), info_hash@, i as int);
                }
                let t = &self.torrents[i];
                proof {
                    assert(torrents_view(self.torrents@)[i as int] == self.torrents@[i as int]@);
                }
                Torrent {
                    info_hash: clone_id(&t.info_hash),
                    complete: t.complete,
                    downloaded: t.downloaded,
                    incomplete: t.incomplete.saturating_add(1),
                    name: t.name.as_str().to_owned(),
                }
            },
            Option::None => {
                proof {
                    lemma_find_torrent_absent(torrents_view(self.torrents@), info_hash@);
                }
                Torrent::new(clone_id(info_hash), 0, 0, 1)
            },
        };
        self.upsert(t2);
    }

    /// A completion arrived: one more seeder and download, one leecher
    /// fewer.
    pub fn new_seed(&mut self, info_hash: &Vec<u8>)
        ensures
            find_torrent(final(self)@, info_hash@) == Option::Some(
                new_seed_spec(find_torrent(old(self)@, info_hash@), info_hash@),
            ),
            forall|other: Seq<u8>|
                other != info_hash@ ==> #[trigger] find_torrent(final(self)@, other)
                    == find_torrent(old(self)@, other),
    {
        let t2 = match find_torrent_index(&self.torrents, info_hash.as_slice()) {
            Option::Some(i) => {
                proof {
                    lemma_find_torrent_at(torrents_view(self.torrents@), info_hash@, i as int);
                }
                let t = &self.torrents[i];
                proof {
                    assert(torrents_view(self.torrents@)[i as int] == self.torrents@[i as int]@);
                }
                Torrent {
                    info_hash: clone_id(&t.info_hash),
                    complete: t.complete.saturating_add(1),
                    downloaded: t.downloaded.saturating_add(1),
                    incomplete: t.incomplete.saturating_sub(1),
                    name: t.name.as_str().to_owned(),
                }
            },
            Option::None => {
                proof {
                    lemma_find_torrent_absent(torrents_view(self.torrents@), info_hash@);
                }
                Torrent::new(clone_id(info_hash), 1, 1, 0)
            },
        };
        self.upsert(t2);
    }

    /// A seeder left: one complete peer fewer, when the record exists.
    pub fn drop_seed(&mut self, info_hash: &Vec<u8>)
        ensures
            match find_torrent(old(self)@, info_hash@) {
                Option::Some(t) => find_torrent(final(self)@, info_hash@) == Option::Some(
                    TorrentData { complete: sat_sub32(t.complete, 1), ..t },
                ),
                Option::None => find_torrent(final(self)@, info_hash@) is None,
            },
            forall|other: Seq<u8>|
                other != info_hash@ ==> #[trigger] find_torrent(final(self)@, other)
                    == find_torrent(old(self)@, other),
    {
        match find_torrent_index(&self.torrents, info_hash.as_slice()) {
            Option::Some(i) => {
                proof {
                    lemma_find_torrent_at(torrents_view(self.torrents@), info_hash@, i as int);
                }
                let t = &self.torrents[i];
                proof {
                    assert(torrents_view(self.torrents@)[i as int] == self.torrents@[i as int]@);
                }
                let t2 = Torrent {
                    info_hash: clone_id(&t.info_hash),
                    complete: t.complete.saturating_sub(1),
                    downloaded: t.downloaded,
                    incomplete: t.incomplete,
                    name: t.name.as_str().to_owned(),
                };
                self.upsert(t2);
            },
            Option::None => {
                proof {
                    lemma_find_torrent_absent(torrents_view(self.torrents@), info_hash@);
                }
            },
        }
    }

    /// A leecher left: one incomplete peer fewer, when the record exists.
    pub fn drop_leech(&mut self, info_hash: &Vec<u8>)
        ensures
            match find_torrent(old(self)@, info_hash@) {
                Option::Some(t) => find_torrent(final(self)@, info_hash@) == Option::Some(
                    TorrentData { incomplete: sat_sub32(t.incomplete, 1), ..t },
                ),
                Option::None => find_torrent(final(self)@, info_hash@) is None,
            },
            forall|other: Seq<u8>|
                other != info_hash@ ==> #[trigger] find_torrent(final(self)@, other)
                    == find_torrent(old(self)@, other),
    {
        match find_torrent_index(&self.torrents, info_hash.as_slice()) {
            Option::Some(i) => {
                proof {
                    lemma_find_torrent_at(torrents_view(self.torrents@), info_hash@, i as int);
                }
                let t = &self.torrents[i];
                proof {
                    assert(torrents_view(self.torrents@)[i as int] == self.torrents@[i as int]@);
                }
                let t2 = Torrent {
                    info_hash: clone_id(&t.info_hash),
                    complete: t.complete,
                    downloaded: t.downloaded,
                    incomplete: t.incomplete.saturating_sub(1),
                    name: t.name.as_str().to_owned(),
                };
                self.upsert(t2);
            },
            Option::None => {
                proof {
                    lemma_find_torrent_absent(torrents_view(self.torrents@), info_hash@);
                }
            },
        }
    }

    /// The reaper's adjustment: lowers `complete` and `incomplete` by how
    /// many peers eviction removed, when the record exists.
    pub fn drop_counts(&mut self, info_hash: &Vec<u8>, seeds: u64, leeches: u64)
        ensures
            match find_torrent(old(self)@, info_hash@) {
                Option::Some(t) => find_torrent(final(self)@, info_hash@) == Option::Some(
                    TorrentData {
                        complete: sat_sub_wide(t.complete, seeds as int),
                        incomplete: sat_sub_wide(t.incomplete, leeches as int),
                        ..t
                    },
                ),
                Option::None => find_torrent(final(self)@, info_hash@) is None,
            },
            forall|other: Seq<u8>|
                other != info_hash@ ==> #[trigger] find_torrent(final(self)@, other)
                    == find_torrent(old(self)@, other),
    {
        match find_torrent_index(&self.torrents, info_hash.as_slice()) {
            Option::Some(i) => {
                proof {
                    lemma_find_torrent_at(torrents_view(self.torrents@), info_hash@, i as int);
                }
                let t = &self.torrents[i];
                proof {
                    assert(torrents_view(self.torrents@)[i as int] == self.torrents@[i as int]@);
                }
                let new_complete: u32 = if seeds >= t.complete as u64 {
                    0
                } else {
                    t.complete - (seeds as u32)
                };
                let new_incomplete: u32 = if leeches >= t.incomplete as u64 {
                    0
                } else {
                    t.incomplete - (leeches as u32)
                };
                let t2 = Torrent {
                    info_hash: clone_id(&t.info_hash),
                    complete: new_complete,
                    downloaded: t.downloaded,
                    incomplete: new_incomplete,
                    name: t.name.as_str().to_owned(),
                };
                self.upsert(t2);
            },
            Option::None => {
                proof {
                    lemma_find_torrent_absent(torrents_view(self.torrents@), info_hash@);
                }
            },
        }
    }

    /// The `(complete, incomplete)` pair an announce response reports; zero
    /// for an unknown info-hash.
    pub fn get_announce_stats(&self, info_hash: &Vec<u8>) -> (r: (u32, u32))
        ensures
            r == match find_torrent(self@, info_hash@) {
                Option::Some(t) => (t.complete, t.incomplete),
                Option::None => (0u32, 0u32),
            },
    {
        match find_torrent_index(&self.torrents, info_hash.as_slice()) {
            Option::Some(i) => {
                proof {
                    lemma_find_torrent_at(torrents_view(self.torrents@), info_hash@, i as int);
                    assert(torrents_view(self.torrents@)[i as int] == self.torrents@[i as int]@);
                }
                (self.torrents[i].complete, self.torrents[i].incomplete)
            },
            Option::None => {
                proof {
                    lemma_find_torrent_absent(torrents_view(self.torrents@), info_hash@);
                }
                (0, 0)
            },
        }
    }

    /// One scrape entry per distinct requested info-hash that the store
    /// knows, sorted by info-hash bytes; unknown hashes are left out, never
    /// fabricated, and a hash requested twice appears once.
    #[verifier::rlimit(100)]
    pub fn get_scrapes(&self, info_hashes: &Vec<Vec<u8>>) -> (r: Vec<ScrapeFile>)
        ensures
            scrape_projection_ok(self@, info_hashes.deep_view(), scrape_views(r@)),
    {
        let ghost ihs = info_hashes.deep_view();
        let mut out: Vec<ScrapeFile> = Vec::new();
        let mut i: usize = 0;
        while i < info_hashes.len()
            invariant
                0 <= i <= ihs.len(),
                ihs == info_hashes.deep_view(),
                sorted_hashes(scrape_views(out@)),
                forall|q: int|
                    0 <= q < out@.len() ==> scrape_entry_sound(
                        self@,
                        ihs.take(i as int),
                        #[trigger] scrape_views(out@)[q],
                    ),
                forall|k: int|
                    0 <= k < i && find_torrent(self@, ihs[k]) is Some ==> exists|q: int|
                        0 <= q < out@.len() && (#[trigger] scrape_views(out@)[q]).info_hash
                            == ihs[k],
            decreases ihs.len() - i,
        {
            proof {
                assert(ihs[i as int] == info_hashes@[i as int]@);
            }
            let ih = &info_hashes[i];
            match find_torrent_index(&self.torrents, ih.as_slice()) {
                Option::Some(k) => {
                    proof {
                        lemma_find_torrent_at(torrents_view(self.torrents@), ih@, k as int);
                        assert(torrents_view(self.torrents@)[k as int]
                            == self.torrents@[k as int]@);
                    }
                    let t = &self.torrents[k];
                    let f = ScrapeFile {
                        info_hash: clone_id(&t.info_hash),
                        complete: t.complete,
                        downloaded: t.downloaded,
                        incomplete: t.incomplete,
                        name: t.name.as_str().to_owned(),
                    };
                    let ghost before = scrape_views(out@);
                    proof {
                        assert(forall|k2: int|
                            0 <= k2 < i ==> #[trigger] ihs.take(i + 1)[k2] == ihs.take(i as int)[k2]);
                        assert(ihs.take(i + 1)[i as int] == ihs[i as int]);
                        assert(f@ == scrape_of(find_torrent(self@, ihs[i as int]).unwrap()));
                        assert(scrape_entry_sound(self@, ihs.take(i + 1), f@));
                        assert(forall|q: int|
                            0 <= q < out@.len() ==> scrape_entry_sound(
                                self@,
                                ihs.take(i + 1),
                                #[trigger] scrape_views(out@)[q],
                            ));
                    }
                    insert_sorted(&mut out, f, Ghost(self@), Ghost(ihs.take(i + 1)));
                    proof {
                        assert forall|k2: int|
                            0 <= k2 < i + 1 && find_torrent(self@, ihs[k2]) is Some implies exists|
                            q: int,
                        |
                            0 <= q < out@.len() && (#[trigger] scrape_views(out@)[q]).info_hash
                                == ihs[k2] by {
                            if k2 < i {
                                let q0 = choose|q0: int|
                                    0 <= q0 < before.len() && (#[trigger] before[q0]).info_hash
                                        == ihs[k2];
                                let q = choose|q: int|
                                    0 <= q < scrape_views(out@).len() && scrape_views(out@)[q]
                                        == before[q0];
                                assert(scrape_views(out@)[q].info_hash == ihs[k2]);
                            }
                        }
                    }
                },
                Option::None => {
                    proof {
                        lemma_find_torrent_absent(torrents_view(self.torrents@), ih@);
                        assert(forall|q: int|
                            0 <= q < out@.len() ==> scrape_entry_sound(
                                self@,
                                ihs.take(i + 1),
                                #[trigger] scrape_views(out@)[q],
                            )) by {
                            assert(forall|k2: int|
                                0 <= k2 < i ==> #[trigger] ihs.take(i + 1)[k2] == ihs.take(
                                    i as int,
                                )[k2]);
                        }
                    }
                },
            }
            i = i + 1;
        }
        proof {
            assert(ihs.take(ihs.len() as int) =~= ihs);
        }
        out
    }
}

/// Inserts `f` into a strictly sorted scrape list, keeping it sorted; a
/// hash already present stays as it was.
#[verifier::rlimit(100)]
fn insert_sorted(
    out: &mut Vec<ScrapeFile>,
    f: ScrapeFile,
    Ghost(ts): Ghost<Seq<TorrentData>>,
    Ghost(reqs): Ghost<Seq<Seq<u8>>>,
)
    requires
        sorted_hashes(scrape_views(old(out)@)),
        forall|q: int|
            0 <= q < old(out)@.len() ==> scrape_entry_sound(
                ts,
                reqs,
                #[trigger] scrape_views(old(out)@)[q],
            ),
        scrape_entry_sound(ts, reqs, f@),
    ensures
        sorted_hashes(scrape_views(final(out)@)),
        forall|q: int|
            0 <= q < final(out)@.len() ==> scrape_entry_sound(
                ts,
                reqs,
                #[trigger] scrape_views(final(out)@)[q],
            ),
        exists|q: int|
            0 <= q < final(out)@.len() && (#[trigger] scrape_views(final(out)@)[q]).info_hash
                == f@.info_hash,
        forall|q0: int|
            0 <= q0 < old(out)@.len() ==> exists|q: int|
                0 <= q < final(out)@.len() && scrape_views(final(out)@)[q] == #[trigger] scrape_views(
                    old(out)@,
                )[q0],
{
    let ghost fs0 = scrape_views(out@);
    let mut p: usize = 0;
    loop
        invariant_except_break
            0 <= p <= out@.len(),
            fs0 == scrape_views(out@),
            forall|q: int| 0 <= q < p ==> lex_lt((#[trigger] fs0[q]).info_hash, f@.info_hash),
        ensures
            fs0 == scrape_views(out@),
            0 <= p <= out@.len(),
            forall|q: int| 0 <= q < p ==> lex_lt((#[trigger] fs0[q]).info_hash, f@.info_hash),
            p < out@.len() ==> (fs0[p as int].info_hash == f@.info_hash || lex_lt(
                f@.info_hash,
                fs0[p as int].info_hash,
            )),
        decreases out@.len() - p,
    {
        if p == out.len() {
            break ;
        }
        proof {
            assert(fs0[p as int] == out@[p as int]@);
        }
        match lex_compare(out[p].info_hash.as_slice(), f.info_hash.as_slice()) {
            LexOrder::Before => {
                p = p + 1;
            },
            LexOrder::Same => {
                break ;
            },
            LexOrder::After => {
                break ;
            },
        }
    }
    if p < out.len() {
        proof {
            assert(fs0[p as int] == out@[p as int]@);
        }
        if crate::bittorrent::bytes_eq(out[p].info_hash.as_slice(), f.info_hash.as_slice()) {
            // Already present: the record of this hash is already listed.
            proof {
                assert(scrape_views(out@)[p as int].info_hash == f@.info_hash);
            }
            return ;
        }
    }
    let ghost fv = f@;
    out.insert(p, f);
    proof {
        let fs1 = scrape_views(out@);
        assert(fs1 =~~= fs0.insert(p as int, fv));
        assert(forall|q: int| 0 <= q < p ==> #[trigger] fs1[q] == fs0[q]);
        assert(fs1[p as int] == fv);
        assert(forall|q: int| p < q < fs1.len() ==> #[trigger] fs1[q] == fs0[q - 1]);
        assert forall|i: int, j: int| 0 <= i < j < fs1.len() implies lex_lt(
            (#[trigger] fs1[i]).info_hash,
            (#[trigger] fs1[j]).info_hash,
        ) by {
            if i < p && j == p {
            } else if i == p && j > p {
                if p < fs0.len() && lex_lt(fv.info_hash, fs0[p as int].info_hash) && j > p + 1 {
                    lemma_lex_trans(fv.info_hash, fs0[p as int].info_hash, fs0[j - 1].info_hash);
                }
            } else if i < p && j > p {
            }
        }
        assert forall|q0: int| 0 <= q0 < fs0.len() implies exists|q: int|
            0 <= q < fs1.len() && fs1[q] == #[trigger] fs0[q0] by {
            if q0 < p {
                assert(fs1[q0] == fs0[q0]);
            } else {
                assert(fs1[q0 + 1] == fs0[q0]);
            }
        }
    }
}

/// The spec-level image of a scrape entry.
pub struct ScrapeFileData {
    pub info_hash: Seq<u8>,
    pub complete: u32,
    pub downloaded: u32,
    pub incomplete: u32,
    pub name: Seq<char>,
}

impl View for ScrapeFile {
    type V = ScrapeFileData;

    open spec fn view(&self) -> ScrapeFileData {
        ScrapeFileData {
            info_hash: self.info_hash@,
            complete: self.complete,
            downloaded: self.downloaded,
            incomplete: self.incomplete,
            name: self.name@,
        }
    }
}

pub open spec fn scrape_views(v: Seq<ScrapeFile>) -> Seq<ScrapeFileData> {
    v.map_values(|f: ScrapeFile| f@)
}

/// The scrape entry a torrent record projects to.
pub open spec fn scrape_of(t: TorrentData) -> ScrapeFileData {
    ScrapeFileData {
        info_hash: t.info_hash,
        complete: t.complete,
        downloaded: t.downloaded,
        incomplete: t.incomplete,
        name: t.name,
    }
}

/// Strict lexicographic order on byte strings.
pub open spec fn lex_lt(a: Seq<u8>, b: Seq<u8>) -> bool
    decreases a.len(),
{
    if b.len() == 0 {
        false
    } else if a.len() == 0 {
        true
    } else if a.first() < b.first() {
        true
    } else if a.first() > b.first() {
        false
    } else {
        lex_lt(a.drop_first(), b.drop_first())
    }
}

/// Lexicographic order is transitive.
pub proof fn lemma_lex_trans(a: Seq<u8>, b: Seq<u8>, c: Seq<u8>)
    requires
        lex_lt(a, b),
        lex_lt(b, c),
    ensures
        lex_lt(a, c),
    decreases a.len(),
{
    if a.len() > 0 && b.len() > 0 && c.len() > 0 && a.first() == b.first() && b.first()
        == c.first() {
        lemma_lex_trans(a.drop_first(), b.drop_first(), c.drop_first());
    }
}

/// How two byte strings compare lexicographically.
pub enum LexOrder {
    Before,
    Same,
    After,
}

/// Three-way lexicographic comparison.
pub fn lex_compare(a: &[u8], b: &[u8]) -> (r: LexOrder)
    ensures
        r is Before <==> lex_lt(a@, b@),
        r is Same <==> a@ == b@,
        r is After <==> lex_lt(b@, a@),
{
    let mut i: usize = 0;
    let a_len = a.len();
    let b_len = b.len();
    while i < a_len && i < b_len
        invariant
            0 <= i <= a@.len(),
            i <= b@.len(),
            a_len == a@.len() && b_len == b@.len(),
            forall|k: int| 0 <= k < i ==> #[trigger] a@[k] == b@[k],
        decreases a@.len() - i,
    {
        if a[i] < b[i] {
            proof {
                lemma_lex_at(a@, b@, i as int);
            }
            return LexOrder::Before;
        }
        if a[i] > b[i] {
            proof {
                lemma_lex_at(b@, a@, i as int);
            }
            return LexOrder::After;
        }
        i = i + 1;
    }
    proof {
        lemma_lex_end(a@, b@, i as int);
    }
    if a_len < b_len {
        LexOrder::Before
    } else if a_len > b_len {
        LexOrder::After
    } else {
        LexOrder::Same
    }
}

/// With a common prefix of length `i` and `a` smaller at `i`, `a` comes
/// first and `b` does not.
proof fn lemma_lex_at(a: Seq<u8>, b: Seq<u8>, i: int)
    requires
        0 <= i < a.len(),
        i < b.len(),
        forall|k: int| 0 <= k < i ==> a[k] == b[k],
        a[i] < b[i],
    ensures
        lex_lt(a, b),
        !lex_lt(b, a),
        a != b,
    decreases i,
{
    if i == 0 {
        if a == b {
            assert(a[0] == b[0]);
        }
    } else {
        assert(forall|k: int|
            0 <= k < i - 1 ==> #[trigger] a.drop_first()[k] == b.drop_first()[k]);
        assert(a.drop_first()[i - 1] == a[i] && b.drop_first()[i - 1] == b[i]);
        lemma_lex_at(a.drop_first(), b.drop_first(), i - 1);
        if a == b {
            assert(a[i] == b[i]);
        }
    }
}

/// With one string a strict prefix of the other, the shorter comes first;
/// equal-length strings with equal bytes are equal.
proof fn lemma_lex_end(a: Seq<u8>, b: Seq<u8>, i: int)
    requires
        0 <= i,
        i == a.len() || i == b.len(),
        i <= a.len() && i <= b.len(),
        forall|k: int| 0 <= k < i ==> a[k] == b[k],
    ensures
        a.len() < b.len() ==> lex_lt(a, b) && !lex_lt(b, a) && a != b,
        b.len() < a.len() ==> lex_lt(b, a) && !lex_lt(a, b) && a != b,
        a.len() == b.len() ==> a == b && !lex_lt(a, b) && !lex_lt(b, a),
    decreases i,
{
    if i == 0 {
        if a.len() == b.len() {
            assert(a =~= b);
        }
    } else {
        assert(forall|k: int|
            0 <= k < i - 1 ==> #[trigger] a.drop_first()[k] == b.drop_first()[k]);
        lemma_lex_end(a.drop_first(), b.drop_first(), i - 1);
        if a.len() == b.len() {
            assert(seq![a.first()] + a.drop_first() =~= a);
            assert(seq![b.first()] + b.drop_first() =~= b);
        }
    }
}

/// Entries come strictly sorted by info-hash bytes, so each hash appears at
/// most once.
pub open spec fn sorted_hashes(fs: Seq<ScrapeFileData>) -> bool {
    forall|i: int, j: int|
        0 <= i < j < fs.len() ==> lex_lt((#[trigger] fs[i]).info_hash, (#[trigger] fs[j]).info_hash)
}

/// One scrape entry is justified: it projects the store's record of a hash
/// that was asked about.
pub open spec fn scrape_entry_sound(
    ts: Seq<TorrentData>,
    ihs: Seq<Seq<u8>>,
    f: ScrapeFileData,
) -> bool {
    &&& find_torrent(ts, f.info_hash) is Some
    &&& f == scrape_of(find_torrent(ts, f.info_hash).unwrap())
    &&& exists|k: int| 0 <= k < ihs.len() && ihs[k] == f.info_hash
}

/// What a scrape projection must be: strictly sorted by info-hash bytes
/// (hence duplicate-free), every entry the record of a requested hash, and
/// every known requested hash present.
pub open spec fn scrape_projection_ok(
    ts: Seq<TorrentData>,
    ihs: Seq<Seq<u8>>,
    fs: Seq<ScrapeFileData>,
) -> bool {
    &&& sorted_hashes(fs)
    &&& forall|q: int| 0 <= q < fs.len() ==> scrape_entry_sound(ts, ihs, #[trigger] fs[q])
    &&& forall|k: int|
        0 <= k < ihs.len() && find_torrent(ts, #[trigger] ihs[k]) is Some ==> exists|q: int|
            0 <= q < fs.len() && (#[trigger] fs[q]).info_hash == ihs[k]
}

} // verus!

