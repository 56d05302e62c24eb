//! The properties the tracker keeps, proved over the spec-level transition
//! functions that the engine's contracts are stated in.
use crate::engine::{
    announce_post, counters_after, peer_from_req, swarm_after, torrent_after, TrackerData,
};
use crate::bittorrent::{AnnReqData, Event};
use crate::peer::{IpAddress, PeerData};
use crate::store::{
    alive, eligible, find_peer, find_swarm, reap_swarm, remove_id, replace_or_push,
    replace_present, residence_of, selection, swarm_or_empty, unique_ids, SwarmData,
};
use crate::torrent::{find_torrent, new_leech_spec, new_seed_spec, TorrentData};
use vstd::prelude::*;

verus! {

/// Whether some peer with this id is in the sequence.
pub open spec fn has_id(s: Seq<PeerData>, id: Seq<u8>) -> bool {
    find_peer(s, id) is Some
}

/// `find_peer` misses exactly when no element bears the id.
pub proof fn lemma_find_none_iff(s: Seq<PeerData>, id: Seq<u8>)
    ensures
        (find_peer(s, id) is None) <==> (forall|k: int|
            0 <= k < s.len() ==> (#[trigger] s[k]).peer_id != id),
    decreases s.len(),
{
    if s.len() > 0 {
        lemma_find_none_iff(s.drop_first(), id);
        assert(forall|k: int|
            0 <= k < s.drop_first().len() ==> #[trigger] s.drop_first()[k] == s[k + 1]);
        if s.first().peer_id != id && (find_peer(s.drop_first(), id) is None) {
            assert(forall|k: int|
                0 <= k < s.len() ==> (#[trigger] s[k]).peer_id != id) by {
                assert(forall|k: int| 1 <= k < s.len() ==> s[k] == s.drop_first()[k - 1]);
            }
        }
    }
}

/// A sequence with a head is free of duplicate ids exactly when its tail is
/// and the head's id is not in the tail.
pub proof fn lemma_unique_cons(s: Seq<PeerData>)
    requires
        s.len() > 0,
    ensures
        unique_ids(s) <==> (unique_ids(s.drop_first()) && !has_id(s.drop_first(), s.first().peer_id)),
{
    lemma_find_none_iff(s.drop_first(), s.first().peer_id);
    let t = s.drop_first();
    assert(forall|k: int| 0 <= k < t.len() ==> #[trigger] t[k] == s[k + 1]);
    if unique_ids(s) {
        assert(forall|k: int| 0 <= k < t.len() ==> (#[trigger] t[k]).peer_id != s.first().peer_id)
            by {
            assert(forall|k: int| 0 <= k < t.len() ==> s[0].peer_id != (#[trigger] s[k + 1]).peer_id);
        }
        assert(unique_ids(t)) by {
            assert(forall|i: int, j: int|
                0 <= i < j < t.len() ==> (#[trigger] t[i]).peer_id != (#[trigger] t[j]).peer_id)
                by {
                assert(forall|i: int, j: int|
                    0 <= i < j < t.len() ==> (#[trigger] s[i + 1]).peer_id != (
                    #[trigger] s[j + 1]).peer_id);
            }
        }
    }
    if unique_ids(t) && !has_id(t, s.first().peer_id) {
        assert(forall|i: int, j: int|
            0 <= i < j < s.len() ==> (#[trigger] s[i]).peer_id != (#[trigger] s[j]).peer_id) by {
            assert(forall|j: int| 1 <= j < s.len() ==> #[trigger] s[j] == t[j - 1]);
            assert(forall|i: int, j: int|
                1 <= i < j < s.len() ==> (#[trigger] t[i - 1]).peer_id != (
                #[trigger] t[j - 1]).peer_id);
            assert(forall|j: int| 1 <= j < s.len() ==> (#[trigger] t[j - 1]).peer_id != s[0].peer_id);
        }
    }
}

/// What removing an id does: one entry fewer when present, that id gone,
/// every other id untouched, uniqueness kept.
pub proof fn lemma_remove_id_shape(s: Seq<PeerData>, id: Seq<u8>)
    requires
        unique_ids(s),
    ensures
        unique_ids(remove_id(s, id)),
        !has_id(remove_id(s, id), id),
        forall|x: Seq<u8>|
            x != id ==> #[trigger] find_peer(remove_id(s, id), x) == find_peer(s, x),
        remove_id(s, id).len() == s.len() - (if has_id(s, id) {
            1int
        } else {
            0int
        }),
    decreases s.len(),
{
    if s.len() == 0 {
    } else if s.first().peer_id == id {
        lemma_unique_cons(s);
        lemma_find_none_iff(s.drop_first(), id);
        assert forall|x: Seq<u8>| x != id implies #[trigger] find_peer(s.drop_first(), x)
            == find_peer(s, x) by {}
    } else {
        lemma_unique_cons(s);
        lemma_remove_id_shape(s.drop_first(), id);
        let r = seq![s.first()] + remove_id(s.drop_first(), id);
        assert(r.first() == s.first());
        assert(r.drop_first() =~= remove_id(s.drop_first(), id));
        lemma_unique_cons(r);
        assert forall|x: Seq<u8>| x != id implies #[trigger] find_peer(remove_id(s, id), x)
            == find_peer(s, x) by {
            if s.first().peer_id != x {
                assert(find_peer(r, x) == find_peer(remove_id(s.drop_first(), id), x));
                assert(find_peer(remove_id(s.drop_first(), id), x) == find_peer(
                    s.drop_first(),
                    x,
                ));
            }
        }
    }
}

/// What upserting a peer does: its id present exactly once, carried by the
/// new value, every other id untouched, uniqueness kept.
pub proof fn lemma_replace_or_push_shape(s: Seq<PeerData>, p: PeerData)
    requires
        unique_ids(s),
    ensures
        unique_ids(replace_or_push(s, p)),
        find_peer(replace_or_push(s, p), p.peer_id) == Option::Some(p),
        forall|x: Seq<u8>|
            x != p.peer_id ==> #[trigger] find_peer(replace_or_push(s, p), x) == find_peer(s, x),
        replace_or_push(s, p).len() == s.len() + (if has_id(s, p.peer_id) {
            0int
        } else {
            1int
        }),
    decreases s.len(),
{
    if s.len() == 0 {
        let r = seq![p];
        assert(r.drop_first() =~= Seq::<PeerData>::empty());
        assert forall|x: Seq<u8>| x != p.peer_id implies #[trigger] find_peer(
            replace_or_push(s, p),
            x,
        ) == find_peer(s, x) by {
            assert(find_peer(Seq::<PeerData>::empty(), x) is None);
        }
    } else if s.first().peer_id == p.peer_id {
        lemma_unique_cons(s);
        let r = seq![p] + s.drop_first();
        assert(r.first() == p);
        assert(r.drop_first() =~= s.drop_first());
        lemma_unique_cons(r);
        assert forall|x: Seq<u8>| x != p.peer_id implies #[trigger] find_peer(
            replace_or_push(s, p),
            x,
        ) == find_peer(s, x) by {
            assert(find_peer(r, x) == find_peer(s.drop_first(), x));
        }
    } else {
        lemma_unique_cons(s);
        lemma_replace_or_push_shape(s.drop_first(), p);
        let r = seq![s.first()] + replace_or_push(s.drop_first(), p);
        assert(r.first() == s.first());
        assert(r.drop_first() =~= replace_or_push(s.drop_first(), p));
        lemma_unique_cons(r);
        assert forall|x: Seq<u8>| x != p.peer_id implies #[trigger] find_peer(
            replace_or_push(s, p),
            x,
        ) == find_peer(s, x) by {
            if s.first().peer_id != x {
                assert(find_peer(r, x) == find_peer(replace_or_push(s.drop_first(), p), x));
                assert(find_peer(replace_or_push(s.drop_first(), p), x) == find_peer(
                    s.drop_first(),
                    x,
                ));
            }
        }
    }
}

/// What refreshing a peer does: presence of every id untouched, the
/// refreshed id carrying the new value when present, uniqueness kept, same
/// size.
pub proof fn lemma_replace_present_shape(s: Seq<PeerData>, p: PeerData)
    requires
        unique_ids(s),
    ensures
        unique_ids(replace_present(s, p)),
        find_peer(replace_present(s, p), p.peer_id) == (if has_id(s, p.peer_id) {
            Option::Some(p)
        } else {
            Option::<PeerData>::None
        }),
        forall|x: Seq<u8>|
            x != p.peer_id ==> #[trigger] find_peer(replace_present(s, p), x) == find_peer(s, x),
        replace_present(s, p).len() == s.len(),
    decreases s.len(),
{
    if s.len() == 0 {
    } else if s.first().peer_id == p.peer_id {
        lemma_unique_cons(s);
        let r = seq![p] + s.drop_first();
        assert(r.first() == p);
        assert(r.drop_first() =~= s.drop_first());
        lemma_unique_cons(r);
        assert forall|x: Seq<u8>| x != p.peer_id implies #[trigger] find_peer(
            replace_present(s, p),
            x,
        ) == find_peer(s, x) by {
            assert(find_peer(r, x) == find_peer(s.drop_first(), x));
        }
    } else {
        lemma_unique_cons(s);
        lemma_replace_present_shape(s.drop_first(), p);
        let r = seq![s.first()] + replace_present(s.drop_first(), p);
        assert(r.first() == s.first());
        assert(r.drop_first() =~= replace_present(s.drop_first(), p));
        lemma_unique_cons(r);
        assert forall|x: Seq<u8>| x != p.peer_id implies #[trigger] find_peer(
            replace_present(s, p),
            x,
        ) == find_peer(s, x) by {
            if s.first().peer_id != x {
                assert(find_peer(r, x) == find_peer(replace_present(s.drop_first(), p), x));
                assert(find_peer(replace_present(s.drop_first(), p), x) == find_peer(
                    s.drop_first(),
                    x,
                ));
            }
        }
    }
}

/// A pushed peer of a fresh id keeps uniqueness and touches no other id.
pub proof fn lemma_push_shape(s: Seq<PeerData>, p: PeerData)
    requires
        unique_ids(s),
        !has_id(s, p.peer_id),
    ensures
        unique_ids(s.push(p)),
        find_peer(s.push(p), p.peer_id) == Option::Some(p),
        forall|x: Seq<u8>| x != p.peer_id ==> #[trigger] find_peer(s.push(p), x) == find_peer(s, x),
    decreases s.len(),
{
    if s.len() == 0 {
        assert(s.push(p).drop_first() =~= Seq::<PeerData>::empty());
        assert(s.push(p).first() == p);
        lemma_unique_cons(s.push(p));
        assert forall|x: Seq<u8>| x != p.peer_id implies #[trigger] find_peer(s.push(p), x)
            == find_peer(s, x) by {
            assert(find_peer(Seq::<PeerData>::empty(), x) is None);
        }
    } else {
        lemma_unique_cons(s);
        lemma_find_none_iff(s.drop_first(), p.peer_id);
        lemma_push_shape(s.drop_first(), p);
        assert(s.push(p).first() == s.first());
        assert(s.push(p).drop_first() =~= s.drop_first().push(p));
        lemma_unique_cons(s.push(p));
        assert forall|x: Seq<u8>| x != p.peer_id implies #[trigger] find_peer(s.push(p), x)
            == find_peer(s, x) by {
            if s.first().peer_id != x {
                assert(find_peer(s.push(p), x) == find_peer(s.drop_first().push(p), x));
                assert(find_peer(s.drop_first().push(p), x) == find_peer(s.drop_first(), x));
            }
        }
    }
}

/// A swarm is well formed when each set is free of duplicate ids and no id
/// sits in both.
pub open spec fn swarm_ok(sd: SwarmData) -> bool {
    unique_ids(sd.seeders) && unique_ids(sd.leechers) && (forall|x: Seq<u8>|
        !(#[trigger] has_id(sd.seeders, x) && has_id(sd.leechers, x)))
}

/// A peer id stays in at most one of `seeders` and `leechers`, whatever one
/// announce does to a well-formed swarm.
pub proof fn lemma_single_residence(sd: SwarmData, rq: AnnReqData, peer: PeerData)
    requires
        swarm_ok(sd),
        peer.peer_id == rq.peer_id,
    ensures
        swarm_ok(swarm_after(sd, rq, peer)),
{
    let id = rq.peer_id;
    let after = swarm_after(sd, rq, peer);
    match rq.event {
        Event::Started => {
            lemma_remove_id_shape(sd.seeders, id);
            lemma_replace_or_push_shape(sd.leechers, peer);
            assert forall|x: Seq<u8>| !(#[trigger] has_id(after.seeders, x) && has_id(
                after.leechers,
                x,
            )) by {
                if x != id {
                    assert(find_peer(after.seeders, x) == find_peer(sd.seeders, x));
                    assert(find_peer(after.leechers, x) == find_peer(sd.leechers, x));
                    assert(!(has_id(sd.seeders, x) && has_id(sd.leechers, x)));
                }
            }
        },
        Event::Stopped => {
            if has_id(sd.seeders, id) {
                lemma_remove_id_shape(sd.seeders, id);
                assert forall|x: Seq<u8>| !(#[trigger] has_id(after.seeders, x) && has_id(
                    after.leechers,
                    x,
                )) by {
                    if x != id {
                        assert(find_peer(after.seeders, x) == find_peer(sd.seeders, x));
                        assert(!(has_id(sd.seeders, x) && has_id(sd.leechers, x)));
                    }
                }
            } else {
                lemma_remove_id_shape(sd.leechers, id);
                assert forall|x: Seq<u8>| !(#[trigger] has_id(after.seeders, x) && has_id(
                    after.leechers,
                    x,
                )) by {
                    if x != id {
                        assert(find_peer(after.leechers, x) == find_peer(sd.leechers, x));
                        assert(!(has_id(sd.seeders, x) && has_id(sd.leechers, x)));
                    }
                }
            }
        },
        Event::Completed => {
            match find_peer(sd.leechers, id) {
                Option::Some(p) => {
                    assert(p.peer_id == id) by {
                        lemma_find_peer_id(sd.leechers, id);
                    }
                    assert(has_id(sd.leechers, id));
                    assert(!has_id(sd.seeders, id));
                    lemma_remove_id_shape(sd.leechers, id);
                    lemma_push_shape(sd.seeders, p);
                    assert forall|x: Seq<u8>| !(#[trigger] has_id(after.seeders, x) && has_id(
                        after.leechers,
                        x,
                    )) by {
                        if x == id {
                            assert(!has_id(after.leechers, x));
                        } else {
                            assert(find_peer(after.seeders, x) == find_peer(sd.seeders, x));
                            assert(find_peer(after.leechers, x) == find_peer(sd.leechers, x));
                            assert(!(has_id(sd.seeders, x) && has_id(sd.leechers, x)));
                        }
                    }
                },
                Option::None => {},
            }
        },
        Event::KeepAlive => {
            lemma_replace_present_shape(sd.seeders, peer);
            lemma_replace_present_shape(sd.leechers, peer);
            assert forall|x: Seq<u8>| !(#[trigger] has_id(after.seeders, x) && has_id(
                after.leechers,
                x,
            )) by {
                if x != id {
                    assert(find_peer(after.seeders, x) == find_peer(sd.seeders, x));
                    assert(find_peer(after.leechers, x) == find_peer(sd.leechers, x));
                }
                assert(!(has_id(sd.seeders, x) && has_id(sd.leechers, x)));
            }
        },
    }
}

/// The peer `find_peer` returns bears the id it was asked for.
pub proof fn lemma_find_peer_id(s: Seq<PeerData>, id: Seq<u8>)
    ensures
        find_peer(s, id) matches Option::Some(p) ==> p.peer_id == id,
    decreases s.len(),
{
    if s.len() > 0 {
        lemma_find_peer_id(s.drop_first(), id);
    }
}

/// An element's id is found.
pub proof fn lemma_has_at(s: Seq<PeerData>, k: int)
    requires
        0 <= k < s.len(),
    ensures
        has_id(s, s[k].peer_id),
    decreases k,
{
    if s.first().peer_id != s[k].peer_id {
        lemma_has_at(s.drop_first(), k - 1);
    }
}

/// A filter keeps only elements of its input, keeps uniqueness, and is the
/// identity or empty at the predicate's extremes.
pub proof fn lemma_filter_facts(s: Seq<PeerData>, pred: spec_fn(PeerData) -> bool)
    ensures
        forall|i: int|
            0 <= i < s.filter(pred).len() ==> exists|j: int|
                0 <= j < s.len() && s[j] == #[trigger] s.filter(pred)[i],
        unique_ids(s) ==> unique_ids(s.filter(pred)),
        (forall|j: int| 0 <= j < s.len() ==> pred(#[trigger] s[j])) ==> s.filter(pred) == s,
        (forall|j: int| 0 <= j < s.len() ==> !pred(#[trigger] s[j])) ==> s.filter(pred)
            == Seq::<PeerData>::empty(),
    decreases s.len(),
{
    reveal(Seq::filter);
    if s.len() > 0 {
        let t = s.drop_last();
        assert(forall|j: int| 0 <= j < t.len() ==> #[trigger] t[j] == s[j]);
        lemma_filter_facts(t, pred);
        let f = s.filter(pred);
        let ft = t.filter(pred);
        if pred(s.last()) {
            assert(f == ft.push(s.last()));
            assert forall|i: int| 0 <= i < f.len() implies exists|j: int|
                0 <= j < s.len() && s[j] == #[trigger] f[i] by {
                if i < ft.len() {
                    let j = choose|j: int| 0 <= j < t.len() && t[j] == ft[i];
                    assert(s[j] == f[i]);
                } else {
                    assert(s[s.len() - 1] == f[i]);
                }
            }
            if unique_ids(s) {
                assert(unique_ids(ft));
                assert forall|i: int, j: int|
                    0 <= i < j < f.len() implies (#[trigger] f[i]).peer_id != (
                #[trigger] f[j]).peer_id by {
                    if j < ft.len() {
                    } else {
                        let k = choose|k: int| 0 <= k < t.len() && t[k] == ft[i];
                        assert(s[k].peer_id != s[s.len() - 1].peer_id);
                    }
                }
            }
        } else {
            assert(f == ft);
            if unique_ids(s) {
                assert(unique_ids(ft));
            }
        }
        if forall|j: int| 0 <= j < s.len() ==> pred(#[trigger] s[j]) {
            assert(pred(s.last()));
            assert(ft == t);
            assert(f =~= s);
        }
    } else {
        assert(s.filter(pred) == s);
        assert(s =~= Seq::<PeerData>::empty());
    }
}

/// Concatenating two well-separated unique lists stays unique.
pub proof fn lemma_unique_concat(a: Seq<PeerData>, b: Seq<PeerData>)
    requires
        unique_ids(a),
        unique_ids(b),
        forall|x: Seq<u8>| !(#[trigger] has_id(a, x) && has_id(b, x)),
    ensures
        unique_ids(a + b),
{
    let c = a + b;
    assert forall|i: int, j: int|
        0 <= i < j < c.len() implies (#[trigger] c[i]).peer_id != (#[trigger] c[j]).peer_id by {
        if i < a.len() && j >= a.len() {
            lemma_has_at(a, i);
            lemma_has_at(b, j - a.len());
            assert(!(has_id(a, a[i].peer_id) && has_id(b, a[i].peer_id)));
        }
    }
}

/// The sample of a well-formed swarm: at most `numwant` peers and at most
/// the swarm's population, all pairwise distinct, each drawn from the swarm
/// and none the requester's own entry.
pub proof fn lemma_sample_sound(sd: SwarmData, requester: Seq<u8>, numwant: int, seed: u64)
    requires
        swarm_ok(sd),
    ensures
        ({
            let sel = selection(eligible(sd, requester), numwant, seed);
            &&& sel.len() <= numwant || numwant < 0
            &&& sel.len() <= sd.seeders.len() + sd.leechers.len()
            &&& unique_ids(sel)
            &&& forall|i: int|
                0 <= i < sel.len() ==> (#[trigger] sel[i]).peer_id != requester && (exists|k: int|
                    0 <= k < (sd.seeders + sd.leechers).len() && (sd.seeders + sd.leechers)[k]
                        == sel[i])
        }),
{
    let pred = |p: PeerData| p.peer_id != requester;
    let all = sd.seeders + sd.leechers;
    let el = eligible(sd, requester);
    assert(unique_ids(all)) by {
        lemma_unique_concat(sd.seeders, sd.leechers);
    }
    lemma_filter_facts(all, pred);
    all.lemma_filter_len(pred);
    lemma_selection_len(el, numwant, seed);
    let sel = selection(el, numwant, seed);
    assert forall|i: int| 0 <= i < sel.len() implies exists|j: int|
        0 <= j < el.len() && el[j] == #[trigger] sel[i] by {
        lemma_selection_source(el, numwant, seed, i);
    }
    assert(unique_ids(sel)) by {
        lemma_selection_unique(el, numwant, seed);
    }
    assert forall|i: int|
        0 <= i < sel.len() implies (#[trigger] sel[i]).peer_id != requester && (exists|k: int|
            0 <= k < all.len() && all[k] == sel[i]) by {
        let j = choose|j: int| 0 <= j < el.len() && el[j] == sel[i];
        all.lemma_filter_pred(pred, j);
        let k = choose|k: int| 0 <= k < all.len() && all[k] == el[j];
        assert(all[k] == sel[i]);
    }
}

/// How long a sample is: `numwant` when the eligible pool suffices, else
/// the whole pool.
pub proof fn lemma_selection_len(el: Seq<PeerData>, numwant: int, seed: u64)
    ensures
        selection(el, numwant, seed).len() == if numwant <= 0 {
            0int
        } else if numwant < el.len() {
            numwant
        } else {
            el.len() as int
        },
{
    let len = el.len() as int;
    if len > 0 && numwant > 0 {
        let k = if numwant < len {
            numwant
        } else {
            len
        };
        crate::store::lemma_shuffle_facts(el, seed, k as nat);
    }
}

/// Each sampled slot holds some eligible peer.
proof fn lemma_selection_source(el: Seq<PeerData>, numwant: int, seed: u64, i: int)
    requires
        0 <= i < selection(el, numwant, seed).len(),
    ensures
        exists|j: int| 0 <= j < el.len() && el[j] == selection(el, numwant, seed)[i],
{
    let sel = selection(el, numwant, seed);
    let len = el.len() as int;
    assert(len > 0 && numwant > 0);
    let k = if numwant < len {
        numwant
    } else {
        len
    };
    crate::store::lemma_shuffle_facts(el, seed, k as nat);
    let sh = crate::store::shuffle_prefix(el, seed, k as nat);
    assert(sel[i] == sh[i]);
    assert(el.contains(sh[i]));
    let j = choose|j: int| 0 <= j < el.len() && el[j] == sh[i];
    assert(el[j] == sel[i]);
}

/// Distinct slots of a sample hold distinct peers.
proof fn lemma_selection_unique(el: Seq<PeerData>, numwant: int, seed: u64)
    requires
        unique_ids(el),
    ensures
        unique_ids(selection(el, numwant, seed)),
{
    let sel = selection(el, numwant, seed);
    if el.len() > 0 && numwant > 0 {
        let len = el.len() as int;
        let k = if numwant < len {
            numwant
        } else {
            len
        };
        crate::store::lemma_shuffle_facts(el, seed, k as nat);
        let sh = crate::store::shuffle_prefix(el, seed, k as nat);
        assert forall|i: int, j: int|
            0 <= i < j < sel.len() implies (#[trigger] sel[i]).peer_id != (
        #[trigger] sel[j]).peer_id by {
            assert(sel[i] == sh[i] && sel[j] == sh[j]);
        }
    }
}

/// With the requester outside the swarm and `numwant` at least the swarm's
/// population, a sample returns the whole swarm's worth of peers.
pub proof fn lemma_sample_whole_swarm(sd: SwarmData, requester: Seq<u8>, numwant: int, seed: u64)
    requires
        !has_id(sd.seeders, requester),
        !has_id(sd.leechers, requester),
        numwant >= sd.seeders.len() + sd.leechers.len(),
        numwant >= 0,
    ensures
        selection(eligible(sd, requester), numwant, seed).len() == sd.seeders.len()
            + sd.leechers.len(),
{
    let pred = |p: PeerData| p.peer_id != requester;
    let all = sd.seeders + sd.leechers;
    lemma_find_none_iff(sd.seeders, requester);
    lemma_find_none_iff(sd.leechers, requester);
    assert(forall|j: int| 0 <= j < all.len() ==> pred(#[trigger] all[j])) by {
        assert(forall|j: int| 0 <= j < sd.seeders.len() ==> all[j] == sd.seeders[j]);
        assert(forall|j: int|
            sd.seeders.len() <= j < all.len() ==> all[j] == sd.leechers[j - sd.seeders.len()]);
    }
    lemma_filter_facts(all, pred);
    if all.len() == 0 {
        assert(eligible(sd, requester).len() == 0);
    }
    lemma_selection_len(eligible(sd, requester), numwant, seed);
}

/// A sample for `numwant == 0` is empty, yet the response around it is
/// still well formed.
pub proof fn lemma_numwant_zero(el: Seq<PeerData>, seed: u64)
    ensures
        selection(el, 0, seed) == Seq::<PeerData>::empty(),
{
}

/// Upserting an absent id appends.
pub proof fn lemma_ror_absent(s: Seq<PeerData>, p: PeerData)
    requires
        !has_id(s, p.peer_id),
    ensures
        replace_or_push(s, p) == s.push(p),
    decreases s.len(),
{
    if s.len() == 0 {
        assert(replace_or_push(s, p) =~= s.push(p));
    } else {
        lemma_ror_absent(s.drop_first(), p);
        assert(seq![s.first()] + s.drop_first().push(p) =~= s.push(p));
    }
}

/// Removing a freshly pushed id restores the sequence.
pub proof fn lemma_remove_pushed(s: Seq<PeerData>, p: PeerData)
    requires
        !has_id(s, p.peer_id),
    ensures
        remove_id(s.push(p), p.peer_id) == s,
    decreases s.len(),
{
    if s.len() == 0 {
        assert(s.push(p).first() == p);
        assert(s.push(p).drop_first() =~= s);
    } else {
        lemma_remove_pushed(s.drop_first(), p);
        assert(s.push(p).first() == s.first());
        assert(s.push(p).drop_first() =~= s.drop_first().push(p));
        assert(seq![s.first()] + s.drop_first() =~= s);
    }
}

/// Counters match swarm sizes for one info-hash: the record of a swarm
/// counts exactly its seeders and leechers, and a record without peers is
/// absent or zeroed.
pub open spec fn consistent_at(d: TrackerData, ih: Seq<u8>) -> bool {
    let sw = swarm_or_empty(d.peers, ih);
    match find_torrent(d.torrents, ih) {
        Option::Some(t) => t.complete == sw.seeders.len() && t.incomplete == sw.leechers.len(),
        Option::None => sw.seeders.len() == 0 && sw.leechers.len() == 0,
    }
}

/// At quiescence the cached counters equal the swarm sizes: one served
/// announce keeps every info-hash consistent, provided the addressed swarm
/// is well formed and its sizes leave room in the 32-bit counters.
pub proof fn lemma_announce_keeps_consistency(
    pre: TrackerData,
    post: TrackerData,
    rq: AnnReqData,
    addr: IpAddress,
    now: u64,
    seed: u64,
    interval: u32,
    resp: crate::bittorrent::AnnRespData,
)
    requires
        announce_post(pre, post, rq, addr, now, seed, interval, resp),
        forall|x: Seq<u8>| #[trigger] consistent_at(pre, x),
        swarm_ok(swarm_or_empty(pre.peers, rq.info_hash)),
        swarm_or_empty(pre.peers, rq.info_hash).seeders.len() < u32::MAX,
        swarm_or_empty(pre.peers, rq.info_hash).leechers.len() < u32::MAX,
    ensures
        forall|x: Seq<u8>| #[trigger] consistent_at(post, x),
{
    let ih = rq.info_hash;
    let id = rq.peer_id;
    let sw0 = swarm_or_empty(pre.peers, ih);
    let peer = peer_from_req(rq, addr, now);
    let sw1 = swarm_after(sw0, rq, peer);
    let t0 = find_torrent(pre.torrents, ih);
    assert forall|x: Seq<u8>| #[trigger] consistent_at(post, x) by {
        if x != ih {
            assert(consistent_at(pre, x));
            assert(find_swarm(post.peers, x) == find_swarm(pre.peers, x));
            assert(find_torrent(post.torrents, x) == find_torrent(pre.torrents, x));
        } else {
            assert(consistent_at(pre, ih));
            match rq.event {
                Event::Started => {
                    lemma_remove_id_shape(sw0.seeders, id);
                    lemma_replace_or_push_shape(sw0.leechers, peer);
                    match residence_of(sw0, id) {
                        crate::store::Residence::Absent => {},
                        crate::store::Residence::InSeeders => {
                            assert(sw0.seeders.len() >= 1);
                        },
                        crate::store::Residence::InLeechers => {
                            assert(sw0.leechers.len() >= 1);
                        },
                    }
                },
                Event::Completed => {
                    match find_peer(sw0.leechers, id) {
                        Option::Some(p) => {
                            lemma_find_peer_id(sw0.leechers, id);
                            lemma_remove_id_shape(sw0.leechers, id);
                            assert(sw0.leechers.len() >= 1);
                        },
                        Option::None => {},
                    }
                },
                Event::Stopped => {
                    if has_id(sw0.seeders, id) {
                        lemma_remove_id_shape(sw0.seeders, id);
                        assert(sw0.seeders.len() >= 1);
                    } else {
                        lemma_remove_id_shape(sw0.leechers, id);
                        if has_id(sw0.leechers, id) {
                            assert(sw0.leechers.len() >= 1);
                        }
                    }
                },
                Event::KeepAlive => {
                    lemma_replace_present_shape(sw0.seeders, peer);
                    lemma_replace_present_shape(sw0.leechers, peer);
                },
            }
        }
    }
}

/// A `started` followed by a `stopped` for the same pair of info-hash and
/// peer id restores the swarm and its counters, for a peer that was not in
/// the swarm.
pub proof fn lemma_start_stop_round_trip(
    sw0: SwarmData,
    t0: Option<TorrentData>,
    rq1: AnnReqData,
    rq2: AnnReqData,
    peer: PeerData,
)
    requires
        swarm_ok(sw0),
        rq1.event == Event::Started,
        rq2.event == Event::Stopped,
        rq2.info_hash == rq1.info_hash,
        rq2.peer_id == rq1.peer_id,
        peer.peer_id == rq1.peer_id,
        !has_id(sw0.seeders, rq1.peer_id),
        !has_id(sw0.leechers, rq1.peer_id),
        t0 matches Option::Some(t) ==> t.incomplete < u32::MAX,
    ensures
        ({
            let sw1 = swarm_after(sw0, rq1, peer);
            let t1 = torrent_after(t0, sw0, rq1);
            let sw2 = swarm_after(sw1, rq2, peer);
            let t2 = torrent_after(t1, sw1, rq2);
            &&& sw2 == sw0
            &&& t2 == (match t0 {
                Option::Some(t) => Option::Some(t),
                Option::None => Option::Some(
                    TorrentData {
                        info_hash: rq1.info_hash,
                        complete: 0,
                        downloaded: 0,
                        incomplete: 0,
                        name: Seq::empty(),
                    },
                ),
            })
        }),
{
    let id = rq1.peer_id;
    crate::store::lemma_remove_id_inert(sw0.seeders, id);
    lemma_ror_absent(sw0.leechers, peer);
    let sw1 = swarm_after(sw0, rq1, peer);
    assert(sw1.seeders == sw0.seeders);
    assert(sw1.leechers == sw0.leechers.push(peer));
    lemma_replace_or_push_shape(sw0.leechers, peer);
    assert(has_id(sw1.leechers, id));
    lemma_remove_pushed(sw0.leechers, peer);
    assert(swarm_after(sw1, rq2, peer).seeders =~= sw0.seeders);
    assert(swarm_after(sw1, rq2, peer).leechers =~= sw0.leechers);
}

/// A `completed` after a `started` raises `complete` and `downloaded` by
/// one exactly once: a repeated `completed` from the now-seeding peer
/// changes nothing.
pub proof fn lemma_completed_counted_once(
    sw0: SwarmData,
    t0: Option<TorrentData>,
    rq1: AnnReqData,
    rq2: AnnReqData,
    peer: PeerData,
)
    requires
        swarm_ok(sw0),
        rq1.event == Event::Started,
        rq2.event == Event::Completed,
        rq2.info_hash == rq1.info_hash,
        rq2.peer_id == rq1.peer_id,
        peer.peer_id == rq1.peer_id,
        !has_id(sw0.seeders, rq1.peer_id),
        !has_id(sw0.leechers, rq1.peer_id),
        t0 matches Option::Some(t) ==> t.incomplete < u32::MAX && t.complete < u32::MAX
            && t.downloaded < u32::MAX,
    ensures
        ({
            let sw1 = swarm_after(sw0, rq1, peer);
            let t1 = torrent_after(t0, sw0, rq1);
            let sw2 = swarm_after(sw1, rq2, peer);
            let t2 = torrent_after(t1, sw1, rq2);
            let sw3 = swarm_after(sw2, rq2, peer);
            let t3 = torrent_after(t2, sw2, rq2);
            &&& t2 matches Option::Some(t) && t.complete == (match t0 {
                Option::Some(u) => u.complete + 1,
                Option::None => 1,
            }) && t.downloaded == (match t0 {
                Option::Some(u) => u.downloaded + 1,
                Option::None => 1,
            }) && t.incomplete == (match t0 {
                Option::Some(u) => u.incomplete,
                Option::None => 0,
            })
            &&& sw3 == sw2
            &&& t3 == t2
        }),
{
    let id = rq1.peer_id;
    crate::store::lemma_remove_id_inert(sw0.seeders, id);
    lemma_ror_absent(sw0.leechers, peer);
    let sw1 = swarm_after(sw0, rq1, peer);
    assert(sw1.seeders == sw0.seeders);
    assert(sw1.leechers == sw0.leechers.push(peer));
    lemma_replace_or_push_shape(sw0.leechers, peer);
    lemma_remove_pushed(sw0.leechers, peer);
    let sw2 = swarm_after(sw1, rq2, peer);
    assert(find_peer(sw1.leechers, id) == Option::Some(peer));
    assert(sw2.seeders == sw0.seeders.push(peer));
    assert(sw2.leechers == sw0.leechers);
    assert(!has_id(sw2.leechers, id));
    let sw3 = swarm_after(sw2, rq2, peer);
    assert(sw3 == sw2);
}

/// A compact peer byte string is a whole number of entries: 6 bytes each
/// for IPv4 and 18 for IPv6.
pub proof fn lemma_compact_whole_entries(
    ps: Seq<crate::peer::PeerEntry>,
    ps6: Seq<crate::peer::PeerEntry>,
)
    requires
        forall|i: int| 0 <= i < ps.len() ==> (#[trigger] ps[i]).ip.len() == 4,
        forall|i: int| 0 <= i < ps6.len() ==> (#[trigger] ps6[i]).ip.len() == 16,
    ensures
        crate::bencode::compact_cat_v4(ps).len() == 6 * ps.len(),
        crate::bencode::compact_cat_v6(ps6).len() == 18 * ps6.len(),
    decreases ps.len() + ps6.len(),
{
    if ps.len() > 0 {
        assert(forall|i: int| 0 <= i < ps.len() - 1 ==> #[trigger] ps.drop_last()[i] == ps[i]);
        lemma_compact_whole_entries(ps.drop_last(), ps6);
    } else if ps6.len() > 0 {
        assert(forall|i: int| 0 <= i < ps6.len() - 1 ==> #[trigger] ps6.drop_last()[i] == ps6[i]);
        lemma_compact_whole_entries(ps, ps6.drop_last());
    }
}

/// The entry lists an announce response carries hold 4-byte and 16-byte
/// addresses respectively.
pub proof fn lemma_entries_ip_len(sel: Seq<PeerData>)
    ensures
        forall|i: int|
            0 <= i < crate::store::v4_entries(sel).len() ==> (#[trigger] crate::store::v4_entries(
                sel,
            )[i]).ip.len() == 4,
        forall|i: int|
            0 <= i < crate::store::v6_entries(sel).len() ==> (#[trigger] crate::store::v6_entries(
                sel,
            )[i]).ip.len() == 16,
    decreases sel.len(),
{
    if sel.len() > 0 {
        lemma_entries_ip_len(sel.drop_last());
        match sel.last().addr {
            IpAddress::V4(a) => {
                assert(a@.len() == 4);
            },
            IpAddress::V6(a) => {
                assert(a@.len() == 16);
            },
        }
        let v4 = crate::store::v4_entries(sel);
        let v4p = crate::store::v4_entries(sel.drop_last());
        assert forall|i: int| 0 <= i < v4.len() implies (#[trigger] v4[i]).ip.len() == 4 by {
            if i < v4p.len() {
                assert(v4[i] == v4p[i]);
            }
        }
        let v6 = crate::store::v6_entries(sel);
        let v6p = crate::store::v6_entries(sel.drop_last());
        assert forall|i: int| 0 <= i < v6.len() implies (#[trigger] v6[i]).ip.len() == 16 by {
            if i < v6p.len() {
                assert(v6[i] == v6p[i]);
            }
        }
    }
}

/// A reaper pass with a zero timeout empties every swarm.
pub proof fn lemma_reap_timeout_zero(sd: SwarmData, now: u64)
    ensures
        reap_swarm(sd, now, 0).seeders.len() == 0,
        reap_swarm(sd, now, 0).leechers.len() == 0,
{
    let pred = |p: PeerData| alive(p, now, 0);
    assert(forall|j: int| 0 <= j < sd.seeders.len() ==> !pred(#[trigger] sd.seeders[j]));
    assert(forall|j: int| 0 <= j < sd.leechers.len() ==> !pred(#[trigger] sd.leechers[j]));
    lemma_filter_facts(sd.seeders, pred);
    lemma_filter_facts(sd.leechers, pred);
}

} // verus!
