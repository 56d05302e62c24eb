//! Bencoded wire output: integers as `i<n>e`, byte strings as
//! `<len>:<bytes>`, and the exact announce and scrape response forms.
//! Dictionary keys are emitted in lexicographic byte order.
use crate::bittorrent::{AnnRespData, AnnounceResponse, ScrapeResponse};
use crate::digits::dec_digits;
use crate::iptext::ipv4_text;
use crate::peer::{compact_v4, compact_v6, PeerEntry, Peerv4, Peerv6};
use crate::torrent::{scrape_views, ScrapeFileData};
use vstd::prelude::*;

verus! {

pub const DICT: u8 = 0x64;

pub const LIST: u8 = 0x6c;

pub const INT: u8 = 0x69;

pub const END: u8 = 0x65;

pub const SEP: u8 = 0x3a;

/// Bencoded form of an unsigned integer.
pub open spec fn benc_int(n: nat) -> Seq<u8> {
    seq![INT] + dec_digits(n) + seq![END]
}

/// Bencoded form of a byte string.
pub open spec fn benc_str(b: Seq<u8>) -> Seq<u8> {
    dec_digits(b.len()) + seq![SEP] + b
}

// The response keys, as byte strings.
pub open spec fn lit_complete() -> Seq<u8> {
    seq![0x63u8, 0x6f, 0x6d, 0x70, 0x6c, 0x65, 0x74, 0x65]
}

pub open spec fn lit_incomplete() -> Seq<u8> {
    seq![0x69u8, 0x6e, 0x63, 0x6f, 0x6d, 0x70, 0x6c, 0x65, 0x74, 0x65]
}

pub open spec fn lit_interval() -> Seq<u8> {
    seq![0x69u8, 0x6e, 0x74, 0x65, 0x72, 0x76, 0x61, 0x6c]
}

pub open spec fn lit_peers() -> Seq<u8> {
    seq![0x70u8, 0x65, 0x65, 0x72, 0x73]
}

pub open spec fn lit_peers6() -> Seq<u8> {
    seq![0x70u8, 0x65, 0x65, 0x72, 0x73, 0x36]
}

pub open spec fn lit_failure_reason() -> Seq<u8> {
    seq![0x66u8, 0x61, 0x69, 0x6c, 0x75, 0x72, 0x65, 0x5f, 0x72, 0x65, 0x61, 0x73, 0x6f, 0x6e]
}

pub open spec fn lit_files() -> Seq<u8> {
    seq![0x66u8, 0x69, 0x6c, 0x65, 0x73]
}

pub open spec fn lit_downloaded() -> Seq<u8> {
    seq![0x64u8, 0x6f, 0x77, 0x6e, 0x6c, 0x6f, 0x61, 0x64, 0x65, 0x64]
}

pub open spec fn lit_ip_key() -> Seq<u8> {
    seq![0x69u8, 0x70]
}

pub open spec fn lit_peer_id_key() -> Seq<u8> {
    seq![0x70u8, 0x65, 0x65, 0x72, 0x20, 0x69, 0x64]
}

pub open spec fn lit_port_key() -> Seq<u8> {
    seq![0x70u8, 0x6f, 0x72, 0x74]
}

/// The failure form: a dictionary holding only `failure_reason`.
pub open spec fn benc_failure(reason: Seq<u8>) -> Seq<u8> {
    seq![DICT] + benc_str(lit_failure_reason()) + benc_str(reason) + seq![END]
}

/// The concatenated 6-byte compact entries of the IPv4 peers.
pub open spec fn compact_cat_v4(ps: Seq<PeerEntry>) -> Seq<u8>
    decreases ps.len(),
{
    if ps.len() == 0 {
        Seq::empty()
    } else {
        compact_cat_v4(ps.drop_last()) + compact_v4(ps.last().ip, ps.last().port)
    }
}

/// The concatenated 18-byte compact entries of the IPv6 peers.
pub open spec fn compact_cat_v6(ps: Seq<PeerEntry>) -> Seq<u8>
    decreases ps.len(),
{
    if ps.len() == 0 {
        Seq::empty()
    } else {
        compact_cat_v6(ps.drop_last()) + compact_v6(ps.last().ip, ps.last().port)
    }
}

/// One non-compact peer dictionary: `ip`, optionally `peer id`, `port`.
pub open spec fn peer_dict_v4(p: PeerEntry, no_peer_id: bool) -> Seq<u8> {
    seq![DICT] + benc_str(lit_ip_key()) + benc_str(ipv4_text(p.ip)) + (if no_peer_id {
        Seq::empty()
    } else {
        benc_str(lit_peer_id_key()) + benc_str(p.peer_id)
    }) + benc_str(lit_port_key()) + benc_int(p.port as nat) + seq![END]
}

/// The concatenated non-compact peer dictionaries.
pub open spec fn peer_dicts_v4(ps: Seq<PeerEntry>, no_peer_id: bool) -> Seq<u8>
    decreases ps.len(),
{
    if ps.len() == 0 {
        Seq::empty()
    } else {
        peer_dicts_v4(ps.drop_last(), no_peer_id) + peer_dict_v4(ps.last(), no_peer_id)
    }
}

/// The value under the `peers` key: a compact byte string, or a list of
/// dictionaries.
pub open spec fn peers_value(ps: Seq<PeerEntry>, compact: bool, no_peer_id: bool) -> Seq<u8> {
    if compact {
        benc_str(compact_cat_v4(ps))
    } else {
        seq![LIST] + peer_dicts_v4(ps, no_peer_id) + seq![END]
    }
}

/// The bencoded announce response. A failure reason excludes every other
/// key; otherwise the keys come in lexicographic order: `complete`,
/// `incomplete`, `interval`, `peers`, `peers6`.
pub open spec fn benc_announce_spec(r: AnnRespData, compact: bool, no_peer_id: bool) -> Seq<u8> {
    if vstd::utf8::encode_utf8(r.failure_reason).len() > 0 {
        benc_failure(vstd::utf8::encode_utf8(r.failure_reason))
    } else {
        seq![DICT] + benc_str(lit_complete()) + benc_int(r.complete as nat) + benc_str(
            lit_incomplete(),
        ) + benc_int(r.incomplete as nat) + benc_str(lit_interval()) + benc_int(r.interval as nat)
            + benc_str(lit_peers()) + peers_value(r.peers, compact, no_peer_id) + benc_str(
            lit_peers6(),
        ) + benc_str(compact_cat_v6(r.peers6)) + seq![END]
    }
}

/// One torrent's scrape entry: its info-hash keying a dictionary of
/// `complete`, `downloaded`, `incomplete`.
pub open spec fn scrape_item(f: ScrapeFileData) -> Seq<u8> {
    benc_str(f.info_hash) + seq![DICT] + benc_str(lit_complete()) + benc_int(f.complete as nat)
        + benc_str(lit_downloaded()) + benc_int(f.downloaded as nat) + benc_str(lit_incomplete())
        + benc_int(f.incomplete as nat) + seq![END]
}

pub open spec fn scrape_items(fs: Seq<ScrapeFileData>) -> Seq<u8>
    decreases fs.len(),
{
    if fs.len() == 0 {
        Seq::empty()
    } else {
        scrape_items(fs.drop_last()) + scrape_item(fs.last())
    }
}

/// The bencoded scrape response: a `files` dictionary of per-torrent
/// entries.
pub open spec fn benc_scrape_spec(fs: Seq<ScrapeFileData>) -> Seq<u8> {
    seq![DICT] + benc_str(lit_files()) + seq![DICT] + scrape_items(fs) + seq![END] + seq![END]
}

/// Appends a byte slice.
pub fn push_slice(out: &mut Vec<u8>, s: &[u8])
    ensures
        final(out)@ == old(out)@ + s@,
{
    let mut i: usize = 0;
    proof {
        assert(s@.take(0) =~= Seq::<u8>::empty());
        assert(out@ =~= old(out)@ + s@.take(0));
    }
    while i < s.len()
        invariant
            0 <= i <= s@.len(),
            out@ == old(out)@ + s@.take(i as int),
        decreases s@.len() - i,
    {
        out.push(s[i]);
        proof {
            assert(out@ =~= old(out)@ + s@.take(i + 1));
        }
        i = i + 1;
    }
    proof {
        assert(s@.take(s@.len() as int) =~= s@);
    }
}

/// Appends the bencoded form of an unsigned integer.
fn push_benc_int(out: &mut Vec<u8>, n: u64)
    ensures
        final(out)@ == old(out)@ + benc_int(n as nat),
{
    out.push(INT);
    crate::digits::push_dec_u64(n, out);
    out.push(END);
    proof {
        assert(out@ =~= old(out)@ + benc_int(n as nat));
    }
}

/// Appends the bencoded form of a byte string.
fn push_benc_str(out: &mut Vec<u8>, s: &[u8])
    ensures
        final(out)@ == old(out)@ + benc_str(s@),
{
    crate::digits::push_dec_u64(s.len() as u64, out);
    out.push(SEP);
    push_slice(out, s);
    proof {
        assert(out@ =~= old(out)@ + benc_str(s@));
    }
}

/// Encodes an announce response; `compact` and `no_peer_id` come from the
/// request being answered.
pub fn encode_announce_response(resp: &AnnounceResponse, compact: bool, no_peer_id: bool) -> (r:
    Vec<u8>)
    ensures
        r@ == benc_announce_spec(resp@, compact, no_peer_id),
{
    let mut out: Vec<u8> = Vec::new();
    let fr = resp.failure_reason.as_str().as_bytes();
    let k_failure: Vec<u8> = vec![
        0x66u8,
        0x61,
        0x69,
        0x6c,
        0x75,
        0x72,
        0x65,
        0x5f,
        0x72,
        0x65,
        0x61,
        0x73,
        0x6f,
        0x6e,
    ];
    proof {
        assert(k_failure@ =~= lit_failure_reason());
    }
    if fr.len() > 0 {
        out.push(DICT);
        push_benc_str(&mut out, k_failure.as_slice());
        push_benc_str(&mut out, fr);
        out.push(END);
        proof {
            assert(out@ =~= benc_failure(vstd::utf8::encode_utf8(resp.failure_reason@)));
        }
        return out;
    }
    let k_complete: Vec<u8> = vec![0x63u8, 0x6f, 0x6d, 0x70, 0x6c, 0x65, 0x74, 0x65];
    let k_incomplete: Vec<u8> = vec![0x69u8, 0x6e, 0x63, 0x6f, 0x6d, 0x70, 0x6c, 0x65, 0x74, 0x65];
    let k_interval: Vec<u8> = vec![0x69u8, 0x6e, 0x74, 0x65, 0x72, 0x76, 0x61, 0x6c];
    let k_peers: Vec<u8> = vec![0x70u8, 0x65, 0x65, 0x72, 0x73];
    let k_peers6: Vec<u8> = vec![0x70u8, 0x65, 0x65, 0x72, 0x73, 0x36];
    proof {
        assert(k_complete@ =~= lit_complete());
        assert(k_incomplete@ =~= lit_incomplete());
        assert(k_interval@ =~= lit_interval());
        assert(k_peers@ =~= lit_peers());
        assert(k_peers6@ =~= lit_peers6());
    }
    out.push(DICT);
    push_benc_str(&mut out, k_complete.as_slice());
    push_benc_int(&mut out, resp.complete as u64);
    push_benc_str(&mut out, k_incomplete.as_slice());
    push_benc_int(&mut out, resp.incomplete as u64);
    push_benc_str(&mut out, k_interval.as_slice());
    push_benc_int(&mut out, resp.interval as u64);
    push_benc_str(&mut out, k_peers.as_slice());
    let ghost head = out@;
    if compact {
        let cat = compact_v4_bytes(&resp.peers);
        push_benc_str(&mut out, cat.as_slice());
    } else {
        push_peer_list(&mut out, &resp.peers, no_peer_id);
    }
    proof {
        assert(out@ == head + peers_value(resp@.peers, compact, no_peer_id));
    }
    push_benc_str(&mut out, k_peers6.as_slice());
    let cat6 = compact_v6_bytes(&resp.peers6);
    push_benc_str(&mut out, cat6.as_slice());
    out.push(END);
    proof {
        assert(out@ =~= benc_announce_spec(resp@, compact, no_peer_id));
    }
    out
}

/// The concatenated compact entries of a list of IPv4 peers.
fn compact_v4_bytes(peers: &Vec<Peerv4>) -> (r: Vec<u8>)
    ensures
        r@ == compact_cat_v4(peers@.map_values(|q: Peerv4| q@)),
{
    let ghost ps = peers@.map_values(|q: Peerv4| q@);
    let mut out: Vec<u8> = Vec::new();
    let mut i: usize = 0;
    proof {
        assert(ps.take(0) =~= Seq::<PeerEntry>::empty());
        assert(out@ =~= compact_cat_v4(ps.take(0)));
    }
    while i < peers.len()
        invariant
            0 <= i <= peers@.len(),
            ps == peers@.map_values(|q: Peerv4| q@),
            out@ == compact_cat_v4(ps.take(i as int)),
        decreases peers@.len() - i,
    {
        proof {
            assert(ps.take(i + 1).drop_last() =~= ps.take(i as int));
            assert(ps.take(i + 1).last() == peers@[i as int]@);
        }
        let c = peers[i].compact();
        push_slice(&mut out, c.as_slice());
        i = i + 1;
    }
    proof {
        assert(ps.take(ps.len() as int) =~= ps);
    }
    out
}

/// The concatenated compact entries of a list of IPv6 peers.
fn compact_v6_bytes(peers: &Vec<Peerv6>) -> (r: Vec<u8>)
    ensures
        r@ == compact_cat_v6(peers@.map_values(|q: Peerv6| q@)),
{
    let ghost ps = peers@.map_values(|q: Peerv6| q@);
    let mut out: Vec<u8> = Vec::new();
    let mut i: usize = 0;
    proof {
        assert(ps.take(0) =~= Seq::<PeerEntry>::empty());
        assert(out@ =~= compact_cat_v6(ps.take(0)));
    }
    while i < peers.len()
        invariant
            0 <= i <= peers@.len(),
            ps == peers@.map_values(|q: Peerv6| q@),
            out@ == compact_cat_v6(ps.take(i as int)),
        decreases peers@.len() - i,
    {
        proof {
            assert(ps.take(i + 1).drop_last() =~= ps.take(i as int));
            assert(ps.take(i + 1).last() == peers@[i as int]@);
        }
        let c = peers[i].compact();
        push_slice(&mut out, c.as_slice());
        i = i + 1;
    }
    proof {
        assert(ps.take(ps.len() as int) =~= ps);
    }
    out
}

/// Appends the non-compact peer list.
#[verifier::rlimit(80)]
fn push_peer_list(out: &mut Vec<u8>, peers: &Vec<Peerv4>, no_peer_id: bool)
    ensures
        final(out)@ == old(out)@ + peers_value(peers@.map_values(|q: Peerv4| q@), false, no_peer_id),
{
    let ghost ps = peers@.map_values(|q: Peerv4| q@);
    let k_ip: Vec<u8> = vec![0x69u8, 0x70];
    let k_peer_id: Vec<u8> = vec![0x70u8, 0x65, 0x65, 0x72, 0x20, 0x69, 0x64];
    let k_port: Vec<u8> = vec![0x70u8, 0x6f, 0x72, 0x74];
    proof {
        assert(k_ip@ =~= lit_ip_key());
        assert(k_peer_id@ =~= lit_peer_id_key());
        assert(k_port@ =~= lit_port_key());
    }
    out.push(LIST);
    let mut i: usize = 0;
    proof {
        assert(ps.take(0) =~= Seq::<PeerEntry>::empty());
        assert(out@ =~= old(out)@ + seq![LIST] + peer_dicts_v4(ps.take(0), no_peer_id));
    }
    while i < peers.len()
        invariant
            0 <= i <= peers@.len(),
            ps == peers@.map_values(|q: Peerv4| q@),
            k_ip@ == lit_ip_key(),
            k_peer_id@ == lit_peer_id_key(),
            k_port@ == lit_port_key(),
            out@ == old(out)@ + seq![LIST] + peer_dicts_v4(ps.take(i as int), no_peer_id),
        decreases peers@.len() - i,
    {
        proof {
            assert(ps.take(i + 1).drop_last() =~= ps.take(i as int));
            assert(ps.take(i + 1).last() == peers@[i as int]@);
        }
        let p = &peers[i];
        out.push(DICT);
        push_benc_str(out, k_ip.as_slice());
        let mut ip_text: Vec<u8> = Vec::new();
        crate::iptext::push_ipv4_text(&p.ip, &mut ip_text);
        proof {
            assert(ip_text@ =~= ipv4_text(p@.ip));
        }
        push_benc_str(out, ip_text.as_slice());
        if !no_peer_id {
            push_benc_str(out, k_peer_id.as_slice());
            push_benc_str(out, p.peer_id.as_slice());
        }
        push_benc_str(out, k_port.as_slice());
        push_benc_int(out, p.port as u64);
        out.push(END);
        proof {
            assert(out@ =~= old(out)@ + seq![LIST] + peer_dicts_v4(ps.take(i + 1), no_peer_id));
        }
        i = i + 1;
    }
    out.push(END);
    proof {
        assert(ps.take(ps.len() as int) =~= ps);
        assert(out@ =~= old(out)@ + peers_value(ps, false, no_peer_id));
    }
}

/// Encodes a scrape response.
pub fn encode_scrape_response(resp: &ScrapeResponse) -> (r: Vec<u8>)
    ensures
        r@ == benc_scrape_spec(scrape_views(resp.files@)),
{
    let ghost fs = scrape_views(resp.files@);
    let k_files: Vec<u8> = vec![0x66u8, 0x69, 0x6c, 0x65, 0x73];
    let k_complete: Vec<u8> = vec![0x63u8, 0x6f, 0x6d, 0x70, 0x6c, 0x65, 0x74, 0x65];
    let k_downloaded: Vec<u8> = vec![0x64u8, 0x6f, 0x77, 0x6e, 0x6c, 0x6f, 0x61, 0x64, 0x65, 0x64];
    let k_incomplete: Vec<u8> = vec![0x69u8, 0x6e, 0x63, 0x6f, 0x6d, 0x70, 0x6c, 0x65, 0x74, 0x65];
    proof {
        assert(k_files@ =~= lit_files());
        assert(k_complete@ =~= lit_complete());
        assert(k_downloaded@ =~= lit_downloaded());
        assert(k_incomplete@ =~= lit_incomplete());
    }
    let mut out: Vec<u8> = Vec::new();
    out.push(DICT);
    push_benc_str(&mut out, k_files.as_slice());
    out.push(DICT);
    let ghost head = out@;
    let mut i: usize = 0;
    proof {
        assert(fs.take(0) =~= Seq::<ScrapeFileData>::empty());
        assert(out@ =~= head + scrape_items(fs.take(0)));
    }
    while i < resp.files.len()
        invariant
            0 <= i <= resp.files@.len(),
            fs == scrape_views(resp.files@),
            k_complete@ == lit_complete(),
            k_downloaded@ == lit_downloaded(),
            k_incomplete@ == lit_incomplete(),
            out@ == head + scrape_items(fs.take(i as int)),
        decreases resp.files@.len() - i,
    {
        proof {
            assert(fs.take(i + 1).drop_last() =~= fs.take(i as int));
            assert(fs.take(i + 1).last() == resp.files@[i as int]@);
        }
        let f = &resp.files[i];
        push_benc_str(&mut out, f.info_hash.as_slice());
        out.push(DICT);
        push_benc_str(&mut out, k_complete.as_slice());
        push_benc_int(&mut out, f.complete as u64);
        push_benc_str(&mut out, k_downloaded.as_slice());
        push_benc_int(&mut out, f.downloaded as u64);
        push_benc_str(&mut out, k_incomplete.as_slice());
        push_benc_int(&mut out, f.incomplete as u64);
        out.push(END);
        proof {
            assert(out@ =~= head + scrape_items(fs.take(i + 1)));
        }
        i = i + 1;
    }
    out.push(END);
    out.push(END);
    proof {
        assert(fs.take(fs.len() as int) =~= fs);
        assert(out@ =~= benc_scrape_spec(fs));
    }
    out
}

/// Encodes the failure form shared by announce and scrape rejections.
pub fn encode_failure(reason: &str) -> (r: Vec<u8>)
    ensures
        r@ == benc_failure(vstd::utf8::encode_utf8(reason@)),
{
    let k_failure: Vec<u8> = vec![
        0x66u8,
        0x61,
        0x69,
        0x6c,
        0x75,
        0x72,
        0x65,
        0x5f,
        0x72,
        0x65,
        0x61,
        0x73,
        0x6f,
        0x6e,
    ];
    proof {
        assert(k_failure@ =~= lit_failure_reason());
    }
    let mut out: Vec<u8> = Vec::new();
    out.push(DICT);
    push_benc_str(&mut out, k_failure.as_slice());
    push_benc_str(&mut out, reason.as_bytes());
    out.push(END);
    proof {
        assert(out@ =~= benc_failure(vstd::utf8::encode_utf8(reason@)));
    }
    out
}

} // verus!
