//! The announce and scrape request surface: recognized keys, field
//! validation, and the typed request/response records.
//!
//! Announce queries are processed pair by pair in order; a later occurrence
//! of a key overrides an earlier one, and the first field that fails to
//! parse stops the request with its own message. Unknown announce keys are
//! ignored; any unknown scrape key rejects the request. `info_hash` and
//! `peer_id` must decode to exactly 20 bytes, `port` must be nonzero, and an
//! unknown `event` value is treated as a plain keep-alive.
use crate::digits::{dec_parses, dec_value, parse_dec_u64};
use crate::iptext::{parse_ipv4, parse_ipv4_text, parse_ipv6, parse_ipv6_text};
use crate::peer::{clone_id, IpAddress, Peerv4, Peerv6};
use crate::query::{parse_query, pairs_view, query_pairs, QueryPair};
use crate::trusted::{extract_query, url_query};
use vstd::prelude::*;

verus! {

/// Number of bytes in an info-hash or a peer id.
pub const ID_LEN: usize = 20;

/// Default number of peers returned by an announce.
pub const DEFAULT_NUMWANT: u32 = 50;

/// Hard cap on the number of peers a client may request.
pub const MAX_NUMWANT: u32 = 200;

/// The announce event reported by a client.
#[derive(Clone, Copy, Debug, PartialEq, Eq, Structural)]
pub enum Event {
    Started,
    Stopped,
    Completed,
    KeepAlive,
}

// Recognized announce/scrape keys and event values, as byte strings.
pub open spec fn lit_info_hash() -> Seq<u8> {
    seq![0x69u8, 0x6e, 0x66, 0x6f, 0x5f, 0x68, 0x61, 0x73, 0x68]
}

pub open spec fn lit_peer_id() -> Seq<u8> {
    seq![0x70u8, 0x65, 0x65, 0x72, 0x5f, 0x69, 0x64]
}

pub open spec fn lit_port() -> Seq<u8> {
    seq![0x70u8, 0x6f, 0x72, 0x74]
}

pub open spec fn lit_uploaded() -> Seq<u8> {
    seq![0x75u8, 0x70, 0x6c, 0x6f, 0x61, 0x64, 0x65, 0x64]
}

pub open spec fn lit_downloaded() -> Seq<u8> {
    seq![0x64u8, 0x6f, 0x77, 0x6e, 0x6c, 0x6f, 0x61, 0x64, 0x65, 0x64]
}

pub open spec fn lit_left() -> Seq<u8> {
    seq![0x6cu8, 0x65, 0x66, 0x74]
}

pub open spec fn lit_compact() -> Seq<u8> {
    seq![0x63u8, 0x6f, 0x6d, 0x70, 0x61, 0x63, 0x74]
}

pub open spec fn lit_no_peer_id() -> Seq<u8> {
    seq![0x6eu8, 0x6f, 0x5f, 0x70, 0x65, 0x65, 0x72, 0x5f, 0x69, 0x64]
}

pub open spec fn lit_event() -> Seq<u8> {
    seq![0x65u8, 0x76, 0x65, 0x6e, 0x74]
}

pub open spec fn lit_numwant() -> Seq<u8> {
    seq![0x6eu8, 0x75, 0x6d, 0x77, 0x61, 0x6e, 0x74]
}

pub open spec fn lit_ip() -> Seq<u8> {
    seq![0x69u8, 0x70]
}

pub open spec fn lit_started() -> Seq<u8> {
    seq![0x73u8, 0x74, 0x61, 0x72, 0x74, 0x65, 0x64]
}

pub open spec fn lit_stopped() -> Seq<u8> {
    seq![0x73u8, 0x74, 0x6f, 0x70, 0x70, 0x65, 0x64]
}

pub open spec fn lit_completed() -> Seq<u8> {
    seq![0x63u8, 0x6f, 0x6d, 0x70, 0x6c, 0x65, 0x74, 0x65, 0x64]
}

// Failure messages surfaced to clients.
pub open spec fn msg_malformed_announce() -> Seq<char> {
    "Malformed announce request"@
}

pub open spec fn msg_malformed_scrape() -> Seq<char> {
    "Malformed scrape request"@
}

pub open spec fn msg_bad_info_hash() -> Seq<char> {
    "info_hash must be 20 bytes"@
}

pub open spec fn msg_bad_peer_id() -> Seq<char> {
    "peer_id must be 20 bytes"@
}

pub open spec fn msg_bad_port() -> Seq<char> {
    "Unable to parse port"@
}

pub open spec fn msg_bad_uploaded() -> Seq<char> {
    "Unable to parse uploaded quantity"@
}

pub open spec fn msg_bad_downloaded() -> Seq<char> {
    "Unable to parse downloaded quantity"@
}

pub open spec fn msg_bad_left() -> Seq<char> {
    "Unable to parse remaining quantity"@
}

pub open spec fn msg_bad_compact() -> Seq<char> {
    "Unable to parse compact value as boolean"@
}

pub open spec fn msg_bad_no_peer_id() -> Seq<char> {
    "Unable to parse no_peer_id as boolean"@
}

pub open spec fn msg_bad_numwant() -> Seq<char> {
    "Unable to parse numwant"@
}

pub open spec fn msg_bad_ip() -> Seq<char> {
    "Unable to parse ip"@
}

/// The event a raw value stands for; anything unrecognized is a keep-alive.
pub open spec fn event_of(v: Seq<u8>) -> Event {
    if v == lit_started() {
        Event::Started
    } else if v == lit_stopped() {
        Event::Stopped
    } else if v == lit_completed() {
        Event::Completed
    } else {
        Event::KeepAlive
    }
}

/// A validated announce request.
pub struct AnnounceRequest {
    pub info_hash: Vec<u8>,
    pub peer_id: Vec<u8>,
    pub port: u16,
    pub uploaded: u64,
    pub downloaded: u64,
    pub left: u64,
    pub compact: bool,
    pub no_peer_id: bool,
    pub event: Event,
    pub numwant: u32,
    pub ip: Option<IpAddress>,
}

/// The spec-level image of an announce request.
pub struct AnnReqData {
    pub info_hash: Seq<u8>,
    pub peer_id: Seq<u8>,
    pub port: u16,
    pub uploaded: u64,
    pub downloaded: u64,
    pub left: u64,
    pub compact: bool,
    pub no_peer_id: bool,
    pub event: Event,
    pub numwant: u32,
    pub ip: Option<Seq<u8>>,
}

pub open spec fn ip_view(ip: Option<IpAddress>) -> Option<Seq<u8>> {
    match ip {
        Option::Some(a) => Option::Some(a.addr_bytes()),
        Option::None => Option::None,
    }
}

impl View for AnnounceRequest {
    type V = AnnReqData;

    open spec fn view(&self) -> AnnReqData {
        AnnReqData {
            info_hash: self.info_hash@,
            peer_id: self.peer_id@,
            port: self.port,
            uploaded: self.uploaded,
            downloaded: self.downloaded,
            left: self.left,
            compact: self.compact,
            no_peer_id: self.no_peer_id,
            event: self.event,
            numwant: self.numwant,
            ip: ip_view(self.ip),
        }
    }
}

/// Accumulator of the pair-by-pair announce fold; required fields start
/// absent, optional ones at their defaults.
pub struct AnnAcc {
    pub info_hash: Option<Seq<u8>>,
    pub peer_id: Option<Seq<u8>>,
    pub port: Option<u16>,
    pub uploaded: Option<u64>,
    pub downloaded: Option<u64>,
    pub left: Option<u64>,
    pub compact: bool,
    pub no_peer_id: bool,
    pub event: Event,
    pub numwant: u32,
    pub ip: Option<Seq<u8>>,
}

pub open spec fn ann_init() -> AnnAcc {
    AnnAcc {
        info_hash: Option::None,
        peer_id: Option::None,
        port: Option::None,
        uploaded: Option::None,
        downloaded: Option::None,
        left: Option::None,
        compact: true,
        no_peer_id: false,
        event: Event::KeepAlive,
        numwant: DEFAULT_NUMWANT,
        ip: Option::None,
    }
}

/// Effect of one decoded key/value pair on the accumulator.
pub open spec fn ann_step(acc: AnnAcc, k: Seq<u8>, v: Seq<u8>) -> Result<AnnAcc, Seq<char>> {
    if k == lit_info_hash() {
        if v.len() == ID_LEN {
            Ok(AnnAcc { info_hash: Option::Some(v), ..acc })
        } else {
            Err(msg_bad_info_hash())
        }
    } else if k == lit_peer_id() {
        if v.len() == ID_LEN {
            Ok(AnnAcc { peer_id: Option::Some(v), ..acc })
        } else {
            Err(msg_bad_peer_id())
        }
    } else if k == lit_port() {
        if dec_parses(v) && 1 <= dec_value(v) <= 65535 {
            Ok(AnnAcc { port: Option::Some(dec_value(v) as u16), ..acc })
        } else {
            Err(msg_bad_port())
        }
    } else if k == lit_uploaded() {
        if dec_parses(v) && dec_value(v) <= u64::MAX {
            Ok(AnnAcc { uploaded: Option::Some(dec_value(v) as u64), ..acc })
        } else {
            Err(msg_bad_uploaded())
        }
    } else if k == lit_downloaded() {
        if dec_parses(v) && dec_value(v) <= u64::MAX {
            Ok(AnnAcc { downloaded: Option::Some(dec_value(v) as u64), ..acc })
        } else {
            Err(msg_bad_downloaded())
        }
    } else if k == lit_left() {
        if dec_parses(v) && dec_value(v) <= u64::MAX {
            Ok(AnnAcc { left: Option::Some(dec_value(v) as u64), ..acc })
        } else {
            Err(msg_bad_left())
        }
    } else if k == lit_compact() {
        if dec_parses(v) && dec_value(v) <= u32::MAX {
            Ok(AnnAcc { compact: dec_value(v) != 0, ..acc })
        } else {
            Err(msg_bad_compact())
        }
    } else if k == lit_no_peer_id() {
        if dec_parses(v) && dec_value(v) <= u32::MAX {
            Ok(AnnAcc { no_peer_id: dec_value(v) != 0, ..acc })
        } else {
            Err(msg_bad_no_peer_id())
        }
    } else if k == lit_event() {
        Ok(AnnAcc { event: event_of(v), ..acc })
    } else if k == lit_numwant() {
        if dec_parses(v) && dec_value(v) <= u32::MAX {
            Ok(
                AnnAcc {
                    numwant: if dec_value(v) > MAX_NUMWANT {
                        MAX_NUMWANT
                    } else {
                        dec_value(v) as u32
                    },
                    ..acc
                },
            )
        } else {
            Err(msg_bad_numwant())
        }
    } else if k == lit_ip() {
        if parse_ipv4_text(v) is Some {
            Ok(AnnAcc { ip: Option::Some(parse_ipv4_text(v).unwrap()), ..acc })
        } else if parse_ipv6_text(v) is Some {
            Ok(AnnAcc { ip: Option::Some(parse_ipv6_text(v).unwrap()), ..acc })
        } else {
            Err(msg_bad_ip())
        }
    } else {
        Ok(acc)
    }
}

/// Folds the decoded pairs left to right.
pub open spec fn ann_fold(acc: AnnAcc, ps: Seq<(Seq<u8>, Seq<u8>)>) -> Result<AnnAcc, Seq<char>>
    decreases ps.len(),
{
    if ps.len() == 0 {
        Ok(acc)
    } else {
        match ann_step(acc, ps.first().0, ps.first().1) {
            Ok(a2) => ann_fold(a2, ps.drop_first()),
            Err(m) => Err(m),
        }
    }
}

/// Turns a finished accumulator into a request; all required fields must
/// have appeared.
pub open spec fn ann_finish(acc: AnnAcc) -> Result<AnnReqData, Seq<char>> {
    if acc.info_hash is Some && acc.peer_id is Some && acc.port is Some && acc.uploaded is Some
        && acc.downloaded is Some && acc.left is Some {
        Ok(
            AnnReqData {
                info_hash: acc.info_hash.unwrap(),
                peer_id: acc.peer_id.unwrap(),
                port: acc.port.unwrap(),
                uploaded: acc.uploaded.unwrap(),
                downloaded: acc.downloaded.unwrap(),
                left: acc.left.unwrap(),
                compact: acc.compact,
                no_peer_id: acc.no_peer_id,
                event: acc.event,
                numwant: acc.numwant,
                ip: acc.ip,
            },
        )
    } else {
        Err(msg_malformed_announce())
    }
}

/// What parsing a raw announce query yields.
pub open spec fn parse_announce_spec(q: Seq<u8>) -> Result<AnnReqData, Seq<char>> {
    match ann_fold(ann_init(), query_pairs(q)) {
        Ok(acc) => ann_finish(acc),
        Err(m) => Err(m),
    }
}

/// What parsing a raw scrape query yields: the decoded `info_hash` values,
/// in order; any other key, or no pair at all, is a malformed request.
pub open spec fn parse_scrape_spec(q: Seq<u8>) -> Result<Seq<Seq<u8>>, Seq<char>> {
    let ps = query_pairs(q);
    if (forall|i: int| 0 <= i < ps.len() ==> (#[trigger] ps[i]).0 == lit_info_hash()) && ps.len()
        >= 1 {
        Ok(ps.map_values(|p: (Seq<u8>, Seq<u8>)| p.1))
    } else {
        Err(msg_malformed_scrape())
    }
}

/// Byte-for-byte slice equality.
pub fn bytes_eq(a: &[u8], b: &[u8]) -> (r: bool)
    ensures
        r == (a@ == b@),
{
    if a.len() != b.len() {
        proof {
            assert(a@ != b@) by {
                if a@ == b@ {
                    assert(a@.len() == b@.len());
                }
            }
        }
        return false;
    }
    let mut i: usize = 0;
    while i < a.len()
        invariant
            0 <= i <= a@.len(),
            a@.len() == b@.len(),
            forall|j: int| 0 <= j < i ==> a@[j] == b@[j],
        decreases a@.len() - i,
    {
        if a[i] != b[i] {
            return false;
        }
        i = i + 1;
    }
    proof {
        assert(a@ =~= b@);
    }
    true
}

/// The event a raw value stands for.
pub fn event_from_bytes(v: &[u8]) -> (r: Event)
    ensures
        r == event_of(v@),
{
    let started: Vec<u8> = vec![0x73u8, 0x74, 0x61, 0x72, 0x74, 0x65, 0x64];
    let stopped: Vec<u8> = vec![0x73u8, 0x74, 0x6f, 0x70, 0x70, 0x65, 0x64];
    let completed: Vec<u8> = vec![0x63u8, 0x6f, 0x6d, 0x70, 0x6c, 0x65, 0x74, 0x65, 0x64];
    proof {
        assert(started@ =~= lit_started());
        assert(stopped@ =~= lit_stopped());
        assert(completed@ =~= lit_completed());
    }
    if bytes_eq(v, started.as_slice()) {
        Event::Started
    } else if bytes_eq(v, stopped.as_slice()) {
        Event::Stopped
    } else if bytes_eq(v, completed.as_slice()) {
        Event::Completed
    } else {
        Event::KeepAlive
    }
}

/// Maps a raw event value to its event; anything unrecognized is a plain
/// keep-alive rather than an error, matching what clients expect.
pub fn string_to_event(s: String) -> (r: Event)
    ensures
        r == event_of(vstd::utf8::encode_utf8(s@)),
{
    event_from_bytes(s.as_str().as_bytes())
}

pub open spec fn opt_bytes_view(o: Option<Vec<u8>>) -> Option<Seq<u8>> {
    match o {
        Option::Some(v) => Option::Some(v@),
        Option::None => Option::None,
    }
}

/// Parses a raw announce query string.
#[verifier::loop_isolation(false)]
pub fn parse_announce_bytes(q: &[u8]) -> (r: Result<AnnounceRequest, &'static str>)
    ensures
        match r {
            Ok(req) => parse_announce_spec(q@) == Ok::<AnnReqData, Seq<char>>(req@),
            Err(m) => parse_announce_spec(q@) matches Err(e) && m@ == e,
        },
{
    let k_info_hash: Vec<u8> = vec![0x69u8, 0x6e, 0x66, 0x6f, 0x5f, 0x68, 0x61, 0x73, 0x68];
    let k_peer_id: Vec<u8> = vec![0x70u8, 0x65, 0x65, 0x72, 0x5f, 0x69, 0x64];
    let k_port: Vec<u8> = vec![0x70u8, 0x6f, 0x72, 0x74];
    let k_uploaded: Vec<u8> = vec![0x75u8, 0x70, 0x6c, 0x6f, 0x61, 0x64, 0x65, 0x64];
    let k_downloaded: Vec<u8> = vec![0x64u8, 0x6f, 0x77, 0x6e, 0x6c, 0x6f, 0x61, 0x64, 0x65, 0x64];
    let k_left: Vec<u8> = vec![0x6cu8, 0x65, 0x66, 0x74];
    let k_compact: Vec<u8> = vec![0x63u8, 0x6f, 0x6d, 0x70, 0x61, 0x63, 0x74];
    let k_no_peer_id: Vec<u8> = vec![0x6eu8, 0x6f, 0x5f, 0x70, 0x65, 0x65, 0x72, 0x5f, 0x69, 0x64];
    let k_event: Vec<u8> = vec![0x65u8, 0x76, 0x65, 0x6e, 0x74];
    let k_numwant: Vec<u8> = vec![0x6eu8, 0x75, 0x6d, 0x77, 0x61, 0x6e, 0x74];
    let k_ip: Vec<u8> = vec![0x69u8, 0x70];
    proof {
        assert(k_info_hash@ =~= lit_info_hash());
        assert(k_peer_id@ =~= lit_peer_id());
        assert(k_port@ =~= lit_port());
        assert(k_uploaded@ =~= lit_uploaded());
        assert(k_downloaded@ =~= lit_downloaded());
        assert(k_left@ =~= lit_left());
        assert(k_compact@ =~= lit_compact());
        assert(k_no_peer_id@ =~= lit_no_peer_id());
        assert(k_event@ =~= lit_event());
        assert(k_numwant@ =~= lit_numwant());
        assert(k_ip@ =~= lit_ip());
    }
    let pairs = parse_query(q);
    let ghost all = pairs_view(pairs@);
    let mut info_hash: Option<Vec<u8>> = Option::None;
    let mut peer_id: Option<Vec<u8>> = Option::None;
    let mut port: Option<u16> = Option::None;
    let mut uploaded: Option<u64> = Option::None;
    let mut downloaded: Option<u64> = Option::None;
    let mut left: Option<u64> = Option::None;
    let mut compact: bool = true;
    let mut no_peer_id: bool = false;
    let mut event: Event = Event::KeepAlive;
    let mut numwant: u32 = DEFAULT_NUMWANT;
    let mut ip: Option<IpAddress> = Option::None;
    let mut i: usize = 0;
    proof {
        assert(all.skip(0) =~= all);
    }
    while i < pairs.len()
        invariant
            0 <= i <= pairs@.len(),
            all == pairs_view(pairs@),
            all == query_pairs(q@),
            ann_fold(ann_init(), all) == ann_fold(
                AnnAcc {
                    info_hash: opt_bytes_view(info_hash),
                    peer_id: opt_bytes_view(peer_id),
                    port: port,
                    uploaded: uploaded,
                    downloaded: downloaded,
                    left: left,
                    compact: compact,
                    no_peer_id: no_peer_id,
                    event: event,
                    numwant: numwant,
                    ip: ip_view(ip),
                },
                all.skip(i as int),
            ),
        decreases pairs@.len() - i,
    {
        let ghost acc0 = AnnAcc {
            info_hash: opt_bytes_view(info_hash),
            peer_id: opt_bytes_view(peer_id),
            port: port,
            uploaded: uploaded,
            downloaded: downloaded,
            left: left,
            compact: compact,
            no_peer_id: no_peer_id,
            event: event,
            numwant: numwant,
            ip: ip_view(ip),
        };
        let k = &pairs[i].key;
        let v = &pairs[i].value;
        proof {
            assert(all[i as int] == pairs@[i as int]@);
            assert(all.skip(i as int).first() == (k@, v@));
            assert(all.skip(i as int).drop_first() =~= all.skip(i + 1));
        }
        if bytes_eq(k.as_slice(), k_info_hash.as_slice()) {
            if v.len() == ID_LEN {
                info_hash = Option::Some(clone_id(v));
            } else {
                proof {
                    assert(ann_fold(acc0, all.skip(i as int)) == ann_step(acc0, k@, v@));
                }
                return Err("info_hash must be 20 bytes");
            }
        } else if bytes_eq(k.as_slice(), k_peer_id.as_slice()) {
            if v.len() == ID_LEN {
                peer_id = Option::Some(clone_id(v));
            } else {
                proof {
                    assert(ann_fold(acc0, all.skip(i as int)) == ann_step(acc0, k@, v@));
                }
                return Err("peer_id must be 20 bytes");
            }
        } else if bytes_eq(k.as_slice(), k_port.as_slice()) {
            match parse_dec_u64(v.as_slice()) {
                Option::Some(n) if 1 <= n && n <= 65535 => {
                    port = Option::Some(n as u16);
                },
                _ => {
                    proof {
                    assert(ann_fold(acc0, all.skip(i as int)) == ann_step(acc0, k@, v@));
                }
                return Err("Unable to parse port");
                },
            }
        } else if bytes_eq(k.as_slice(), k_uploaded.as_slice()) {
            match parse_dec_u64(v.as_slice()) {
                Option::Some(n) => {
                    uploaded = Option::Some(n);
                },
                Option::None => {
                    proof {
                    assert(ann_fold(acc0, all.skip(i as int)) == ann_step(acc0, k@, v@));
                }
                return Err("Unable to parse uploaded quantity");
                },
            }
        } else if bytes_eq(k.as_slice(), k_downloaded.as_slice()) {
            match parse_dec_u64(v.as_slice()) {
                Option::Some(n) => {
                    downloaded = Option::Some(n);
                },
                Option::None => {
                    proof {
                    assert(ann_fold(acc0, all.skip(i as int)) == ann_step(acc0, k@, v@));
                }
                return Err("Unable to parse downloaded quantity");
                },
            }
        } else if bytes_eq(k.as_slice(), k_left.as_slice()) {
            match parse_dec_u64(v.as_slice()) {
                Option::Some(n) => {
                    left = Option::Some(n);
                },
                Option::None => {
                    proof {
                    assert(ann_fold(acc0, all.skip(i as int)) == ann_step(acc0, k@, v@));
                }
                return Err("Unable to parse remaining quantity");
                },
            }
        } else if bytes_eq(k.as_slice(), k_compact.as_slice()) {
            match parse_dec_u64(v.as_slice()) {
                Option::Some(n) if n <= u32::MAX as u64 => {
                    compact = n != 0;
                },
                _ => {
                    proof {
                    assert(ann_fold(acc0, all.skip(i as int)) == ann_step(acc0, k@, v@));
                }
                return Err("Unable to parse compact value as boolean");
                },
            }
        } else if bytes_eq(k.as_slice(), k_no_peer_id.as_slice()) {
            match parse_dec_u64(v.as_slice()) {
                Option::Some(n) if n <= u32::MAX as u64 => {
                    no_peer_id = n != 0;
                },
                _ => {
                    proof {
                    assert(ann_fold(acc0, all.skip(i as int)) == ann_step(acc0, k@, v@));
                }
                return Err("Unable to parse no_peer_id as boolean");
                },
            }
        } else if bytes_eq(k.as_slice(), k_event.as_slice()) {
            event = event_from_bytes(v.as_slice());
        } else if bytes_eq(k.as_slice(), k_numwant.as_slice()) {
            match parse_dec_u64(v.as_slice()) {
                Option::Some(n) if n <= u32::MAX as u64 => {
                    numwant = if n > MAX_NUMWANT as u64 {
                        MAX_NUMWANT
                    } else {
                        n as u32
                    };
                },
                _ => {
                    proof {
                    assert(ann_fold(acc0, all.skip(i as int)) == ann_step(acc0, k@, v@));
                }
                return Err("Unable to parse numwant");
                },
            }
        } else if bytes_eq(k.as_slice(), k_ip.as_slice()) {
            match parse_ipv4(v.as_slice()) {
                Option::Some(b4) => {
                    let arr: [u8; 4] = [b4[0], b4[1], b4[2], b4[3]];
                    proof {
                        assert(arr@ =~= b4@);
                    }
                    ip = Option::Some(IpAddress::V4(arr));
                },
                Option::None => {
                    match parse_ipv6(v.as_slice()) {
                        Option::Some(b6) => {
                            let arr: [u8; 16] = [
                                b6[0],
                                b6[1],
                                b6[2],
                                b6[3],
                                b6[4],
                                b6[5],
                                b6[6],
                                b6[7],
                                b6[8],
                                b6[9],
                                b6[10],
                                b6[11],
                                b6[12],
                                b6[13],
                                b6[14],
                                b6[15],
                            ];
                            proof {
                                assert(arr@ =~= b6@);
                            }
                            ip = Option::Some(IpAddress::V6(arr));
                        },
                        Option::None => {
                            proof {
                    assert(ann_fold(acc0, all.skip(i as int)) == ann_step(acc0, k@, v@));
                }
                return Err("Unable to parse ip");
                        },
                    }
                },
            }
        }
        proof {
            let acc1 = AnnAcc {
                info_hash: opt_bytes_view(info_hash),
                peer_id: opt_bytes_view(peer_id),
                port: port,
                uploaded: uploaded,
                downloaded: downloaded,
                left: left,
                compact: compact,
                no_peer_id: no_peer_id,
                event: event,
                numwant: numwant,
                ip: ip_view(ip),
            };
            assert(ann_step(acc0, k@, v@) == Ok::<AnnAcc, Seq<char>>(acc1));
            assert(ann_fold(acc0, all.skip(i as int)) == ann_fold(acc1, all.skip(i + 1)));
        }
        i = i + 1;
    }
    proof {
        assert(all.skip(pairs@.len() as int) =~= Seq::<(Seq<u8>, Seq<u8>)>::empty());
    }
    match (info_hash, peer_id, port, uploaded, downloaded, left) {
        (
            Option::Some(ih),
            Option::Some(pid),
            Option::Some(po),
            Option::Some(up),
            Option::Some(dn),
            Option::Some(lf),
        ) => Ok(
            AnnounceRequest {
                info_hash: ih,
                peer_id: pid,
                port: po,
                uploaded: up,
                downloaded: dn,
                left: lf,
                compact,
                no_peer_id,
                event,
                numwant,
                ip,
            },
        ),
        _ => Err("Malformed announce request"),
    }
}

impl AnnounceRequest {
    /// Parses a full announce URL; the URL must carry a query string.
    pub fn new(url_string: &str) -> (r: Result<AnnounceRequest, &'static str>)
        ensures
            match url_query(url_string@) {
                Option::Some(q) => match r {
                    Ok(req) => parse_announce_spec(q) == Ok::<AnnReqData, Seq<char>>(req@),
                    Err(m) => parse_announce_spec(q) matches Err(e) && m@ == e,
                },
                Option::None => r matches Err(m) && m@ == msg_malformed_announce(),
            },
    {
        match extract_query(url_string) {
            Option::Some(q) => parse_announce_bytes(q.as_slice()),
            Option::None => Err("Malformed announce request"),
        }
    }
}

/// A validated scrape request: the info-hashes asked about, in order.
pub struct ScrapeRequest {
    pub info_hashes: Vec<Vec<u8>>,
}

/// Parses a raw scrape query string.
#[verifier::loop_isolation(false)]
pub fn parse_scrape_bytes(q: &[u8]) -> (r: Result<ScrapeRequest, &'static str>)
    ensures
        match r {
            Ok(sr) => parse_scrape_spec(q@) == Ok::<Seq<Seq<u8>>, Seq<char>>(
                sr.info_hashes.deep_view(),
            ),
            Err(m) => parse_scrape_spec(q@) matches Err(e) && m@ == e,
        },
{
    let k_info_hash: Vec<u8> = vec![0x69u8, 0x6e, 0x66, 0x6f, 0x5f, 0x68, 0x61, 0x73, 0x68];
    proof {
        assert(k_info_hash@ =~= lit_info_hash());
    }
    let pairs = parse_query(q);
    let ghost all = pairs_view(pairs@);
    let mut hashes: Vec<Vec<u8>> = Vec::new();
    let mut i: usize = 0;
    while i < pairs.len()
        invariant
            0 <= i <= pairs@.len(),
            all == pairs_view(pairs@),
            all == query_pairs(q@),
            k_info_hash@ == lit_info_hash(),
            forall|j: int| 0 <= j < i ==> (#[trigger] all[j]).0 == lit_info_hash(),
            hashes@.len() == i,
            forall|j: int| 0 <= j < i ==> #[trigger] hashes.deep_view()[j] == all[j].1,
        decreases pairs@.len() - i,
    {
        let k = &pairs[i].key;
        let v = &pairs[i].value;
        proof {
            assert(all[i as int] == pairs@[i as int]@);
        }
        if bytes_eq(k.as_slice(), k_info_hash.as_slice()) {
            let ghost hv = hashes.deep_view();
            hashes.push(clone_id(v));
            proof {
                assert(hashes.deep_view() =~~= hv.push(all[i as int].1));
            }
        } else {
            proof {
                assert((all[i as int]).0 != lit_info_hash());
            }
            return Err("Malformed scrape request");
        }
        i = i + 1;
    }
    if hashes.len() == 0 {
        return Err("Malformed scrape request");
    }
    proof {
        assert(hashes.deep_view() =~~= all.map_values(|p: (Seq<u8>, Seq<u8>)| p.1));
    }
    Ok(ScrapeRequest { info_hashes: hashes })
}

impl ScrapeRequest {
    /// Parses a full scrape URL; the URL must carry a query string.
    pub fn new(url_string: &str) -> (r: Result<ScrapeRequest, &'static str>)
        ensures
            match url_query(url_string@) {
                Option::Some(q) => match r {
                    Ok(sr) => parse_scrape_spec(q) == Ok::<Seq<Seq<u8>>, Seq<char>>(
                        sr.info_hashes.deep_view(),
                    ),
                    Err(m) => parse_scrape_spec(q) matches Err(e) && m@ == e,
                },
                Option::None => r matches Err(m) && m@ == msg_malformed_scrape(),
            },
    {
        match extract_query(url_string) {
            Option::Some(q) => parse_scrape_bytes(q.as_slice()),
            Option::None => Err("Malformed scrape request"),
        }
    }
}

/// A tracker's reply to an announce, before bencoding.
pub struct AnnounceResponse {
    pub failure_reason: String,
    pub interval: u32,
    pub tracker_id: String,
    pub complete: u32,
    pub incomplete: u32,
    pub peers: Vec<Peerv4>,
    pub peers6: Vec<Peerv6>,
}

impl AnnounceResponse {
    /// A successful response carrying counters and sampled peers.
    pub fn new(
        interval: u32,
        complete: u32,
        incomplete: u32,
        peers: Vec<Peerv4>,
        peers6: Vec<Peerv6>,
    ) -> (r: Result<AnnounceResponse, &'static str>)
        ensures
            r matches Ok(resp) && resp.failure_reason@ == Seq::<char>::empty() && resp.interval
                == interval && resp.tracker_id@ == Seq::<char>::empty() && resp.complete == complete
                && resp.incomplete == incomplete && resp.peers == peers && resp.peers6 == peers6,
    {
        Ok(
            AnnounceResponse {
                failure_reason: String::new(),
                interval,
                tracker_id: String::new(),
                complete,
                incomplete,
                peers,
                peers6,
            },
        )
    }

    /// A failure response; no other field carries information.
    pub fn fail(failure_reason: String) -> (r: AnnounceResponse)
        ensures
            r.failure_reason@ == failure_reason@,
            r.interval == 0 && r.complete == 0 && r.incomplete == 0,
            r.tracker_id@ == Seq::<char>::empty(),
            r.peers@.len() == 0 && r.peers6@.len() == 0,
    {
        AnnounceResponse {
            failure_reason,
            interval: 0,
            tracker_id: String::new(),
            complete: 0,
            incomplete: 0,
            peers: Vec::new(),
            peers6: Vec::new(),
        }
    }
}

/// The spec-level image of an announce response.
pub struct AnnRespData {
    pub failure_reason: Seq<char>,
    pub interval: u32,
    pub tracker_id: Seq<char>,
    pub complete: u32,
    pub incomplete: u32,
    pub peers: Seq<crate::peer::PeerEntry>,
    pub peers6: Seq<crate::peer::PeerEntry>,
}

impl View for AnnounceResponse {
    type V = AnnRespData;

    open spec fn view(&self) -> AnnRespData {
        AnnRespData {
            failure_reason: self.failure_reason@,
            interval: self.interval,
            tracker_id: self.tracker_id@,
            complete: self.complete,
            incomplete: self.incomplete,
            peers: crate::store::v4_view(self.peers@),
            peers6: crate::store::v6_view(self.peers6@),
        }
    }
}

/// The per-torrent figures a scrape reports.
pub struct ScrapeFile {
    pub info_hash: Vec<u8>,
    pub complete: u32,
    pub downloaded: u32,
    pub incomplete: u32,
    pub name: String,
}

impl Default for ScrapeFile {
    /// An empty scrape entry.
    fn default() -> (r: ScrapeFile)
        ensures
            r.info_hash@ == Seq::<u8>::empty(),
            r.complete == 0 && r.downloaded == 0 && r.incomplete == 0,
            r.name@ == Seq::<char>::empty(),
    {
        ScrapeFile {
            info_hash: Vec::new(),
            complete: 0,
            downloaded: 0,
            incomplete: 0,
            name: String::new(),
        }
    }
}

/// A tracker's reply to a scrape, before bencoding.
pub struct ScrapeResponse {
    pub files: Vec<ScrapeFile>,
}

impl ScrapeResponse {
    /// An empty scrape response.
    pub fn new() -> (r: Result<ScrapeResponse, ()>)
        ensures
            r matches Ok(resp) && resp.files@.len() == 0,
    {
        Ok(ScrapeResponse { files: Vec::new() })
    }

    /// Appends one torrent's figures.
    pub fn add_file(&mut self, scrape_file: ScrapeFile)
        ensures
            final(self).files@ == old(self).files@.push(scrape_file),
    {
        self.files.push(scrape_file);
    }
}

} // verus!

