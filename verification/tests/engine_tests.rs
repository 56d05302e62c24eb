use swarm_tracker::bencode::{encode_announce_response, encode_failure, encode_scrape_response};
use swarm_tracker::bittorrent::{AnnounceRequest, AnnounceResponse, Event, ScrapeRequest, ScrapeResponse};
use swarm_tracker::engine::{handle_announce, handle_scrape, Tracker};
use swarm_tracker::peer::IpAddress;
use swarm_tracker::torrent::Torrent;

fn announce_req(peer_id: &[u8], event: Event) -> AnnounceRequest {
    AnnounceRequest {
        info_hash: b"aaaaaaaaaaaaaaaaaaaa".to_vec(),
        peer_id: peer_id.to_vec(),
        port: 6881,
        uploaded: 0,
        downloaded: 0,
        left: 100,
        compact: true,
        no_peer_id: false,
        event,
        numwant: 50,
        ip: None,
    }
}

#[test]
fn malformed_announce_body() {
    let err = match AnnounceRequest::new("http://tracker/announce?bad_stuff=123") {
        Err(m) => m,
        Ok(_) => panic!("expected a parse failure"),
    };
    let resp = AnnounceResponse::fail(err.to_string());
    let body = encode_announce_response(&resp, true, false);
    assert_eq!(body, b"d14:failure_reason26:Malformed announce requeste".to_vec());
}

#[test]
fn malformed_scrape_body() {
    let err = match ScrapeRequest::new("http://tracker/scrape?bad_stuff=123") {
        Err(m) => m,
        Ok(_) => panic!("expected a parse failure"),
    };
    let body = encode_failure(err);
    assert_eq!(body, b"d14:failure_reason24:Malformed scrape requeste".to_vec());
}

#[test]
fn scrape_two_known_torrents() {
    let mut tracker = Tracker::new();
    tracker
        .torrent_store
        .upsert(Torrent::new(b"A1B2C3D4E5F6G7H8I9J0".to_vec(), 10, 34, 7));
    tracker
        .torrent_store
        .upsert(Torrent::new(b"B2C3D4E5F6G7H8I9J0K1".to_vec(), 25, 57, 19));

    let req = ScrapeRequest::new(
        "http://tracker/scrape?info_hash=A1B2C3D4E5F6G7H8I9J0&info_hash=B2C3D4E5F6G7H8I9J0K1",
    )
    .unwrap();
    let resp = handle_scrape(&mut tracker, &req);
    let body = encode_scrape_response(&resp);
    let proper = "d5:filesd20:A1B2C3D4E5F6G7H8I9J0d8:completei10e10:downloadedi34e10:incompletei7ee20:B2C3D4E5F6G7H8I9J0K1d8:completei25e10:downloadedi57e10:incompletei19eeee";
    assert_eq!(body, proper.as_bytes().to_vec());
}

#[test]
fn lifecycle_started_completed_stopped() {
    let mut tracker = Tracker::new();
    let remote = IpAddress::V4([127, 0, 0, 1]);
    let ih = b"aaaaaaaaaaaaaaaaaaaa".to_vec();

    handle_announce(&mut tracker, &announce_req(b"ABCDEFGHIJKLMNOPQRST", Event::Started), remote, 10, 1, 1800);
    handle_announce(&mut tracker, &announce_req(b"ABCDEFGHIJKLMNOPQRST", Event::Completed), remote, 20, 2, 1800);
    let resp = handle_announce(&mut tracker, &announce_req(b"ABCDEFGHIJKLMNOPQRST", Event::Stopped), remote, 30, 3, 1800);

    assert_eq!(resp.complete, 0);
    assert_eq!(resp.incomplete, 0);
    let files = tracker.torrent_store.get_scrapes(&vec![ih]);
    assert_eq!(files.len(), 1);
    assert_eq!(files[0].complete, 0);
    assert_eq!(files[0].incomplete, 0);
    assert_eq!(files[0].downloaded, 1);
}

#[test]
fn completed_counted_once() {
    let mut tracker = Tracker::new();
    let remote = IpAddress::V4([127, 0, 0, 1]);
    let ih = b"aaaaaaaaaaaaaaaaaaaa".to_vec();

    handle_announce(&mut tracker, &announce_req(b"ABCDEFGHIJKLMNOPQRST", Event::Started), remote, 10, 1, 1800);
    handle_announce(&mut tracker, &announce_req(b"ABCDEFGHIJKLMNOPQRST", Event::Completed), remote, 20, 2, 1800);
    handle_announce(&mut tracker, &announce_req(b"ABCDEFGHIJKLMNOPQRST", Event::Completed), remote, 30, 3, 1800);

    let files = tracker.torrent_store.get_scrapes(&vec![ih]);
    assert_eq!(files[0].complete, 1);
    assert_eq!(files[0].downloaded, 1);
    assert_eq!(files[0].incomplete, 0);
}

#[test]
fn started_then_stopped_restores_counters() {
    let mut tracker = Tracker::new();
    let remote = IpAddress::V4([127, 0, 0, 1]);
    let ih = b"aaaaaaaaaaaaaaaaaaaa".to_vec();

    handle_announce(&mut tracker, &announce_req(b"AAAAAAAAAAAAAAAAAAAA", Event::Started), remote, 10, 1, 1800);
    let before = tracker.torrent_store.get_announce_stats(&ih);
    handle_announce(&mut tracker, &announce_req(b"BBBBBBBBBBBBBBBBBBBB", Event::Started), remote, 11, 2, 1800);
    handle_announce(&mut tracker, &announce_req(b"BBBBBBBBBBBBBBBBBBBB", Event::Stopped), remote, 12, 3, 1800);
    let after = tracker.torrent_store.get_announce_stats(&ih);
    assert_eq!(before, after);
}

#[test]
fn numwant_zero_gives_empty_valid_response() {
    let mut tracker = Tracker::new();
    let remote = IpAddress::V4([127, 0, 0, 1]);

    handle_announce(&mut tracker, &announce_req(b"AAAAAAAAAAAAAAAAAAAA", Event::Started), remote, 10, 1, 1800);
    let mut req = announce_req(b"BBBBBBBBBBBBBBBBBBBB", Event::Started);
    req.numwant = 0;
    let resp = handle_announce(&mut tracker, &req, remote, 11, 2, 1800);
    assert!(resp.failure_reason.is_empty());
    assert_eq!(resp.interval, 1800);
    assert!(resp.peers.is_empty());
    assert!(resp.peers6.is_empty());
}

#[test]
fn numwant_beyond_swarm_returns_whole_swarm() {
    let mut tracker = Tracker::new();
    let remote = IpAddress::V4([127, 0, 0, 1]);
    let ih = b"aaaaaaaaaaaaaaaaaaaa".to_vec();

    handle_announce(&mut tracker, &announce_req(b"AAAAAAAAAAAAAAAAAAAA", Event::Started), remote, 10, 1, 1800);
    handle_announce(&mut tracker, &announce_req(b"BBBBBBBBBBBBBBBBBBBB", Event::Started), remote, 11, 2, 1800);
    handle_announce(&mut tracker, &announce_req(b"CCCCCCCCCCCCCCCCCCCC", Event::Started), remote, 12, 3, 1800);

    let (v4, v6) = tracker
        .peer_store
        .get_peers(&ih, 200, b"DDDDDDDDDDDDDDDDDDDD", 7);
    assert_eq!(v4.len() + v6.len(), 3);
}

#[test]
fn requester_excluded_from_sample() {
    let mut tracker = Tracker::new();
    let remote = IpAddress::V4([127, 0, 0, 1]);
    let ih = b"aaaaaaaaaaaaaaaaaaaa".to_vec();

    handle_announce(&mut tracker, &announce_req(b"AAAAAAAAAAAAAAAAAAAA", Event::Started), remote, 10, 1, 1800);
    handle_announce(&mut tracker, &announce_req(b"BBBBBBBBBBBBBBBBBBBB", Event::Started), remote, 11, 2, 1800);

    let (v4, v6) = tracker
        .peer_store
        .get_peers(&ih, 200, b"AAAAAAAAAAAAAAAAAAAA", 7);
    assert_eq!(v4.len() + v6.len(), 1);
    assert_eq!(v4[0].peer_id, b"BBBBBBBBBBBBBBBBBBBB".to_vec());
}

#[test]
fn reaper_with_zero_timeout_empties_swarms() {
    let mut tracker = Tracker::new();
    let remote = IpAddress::V4([127, 0, 0, 1]);
    let ih = b"aaaaaaaaaaaaaaaaaaaa".to_vec();

    handle_announce(&mut tracker, &announce_req(b"AAAAAAAAAAAAAAAAAAAA", Event::Started), remote, 10, 1, 1800);
    handle_announce(&mut tracker, &announce_req(b"BBBBBBBBBBBBBBBBBBBB", Event::Completed), remote, 11, 2, 1800);
    handle_announce(&mut tracker, &announce_req(b"BBBBBBBBBBBBBBBBBBBB", Event::Started), remote, 11, 2, 1800);

    let (seeds, leeches) = tracker.reap(100, 0);
    assert_eq!(seeds + leeches, 2);
    let (v4, v6) = tracker.peer_store.get_peers(&ih, 200, b"ZZZZZZZZZZZZZZZZZZZZ", 7);
    assert_eq!(v4.len() + v6.len(), 0);
}

#[test]
fn reaper_keeps_fresh_peers() {
    let mut tracker = Tracker::new();
    let remote = IpAddress::V4([127, 0, 0, 1]);
    let ih = b"aaaaaaaaaaaaaaaaaaaa".to_vec();

    handle_announce(&mut tracker, &announce_req(b"AAAAAAAAAAAAAAAAAAAA", Event::Started), remote, 10, 1, 1800);
    handle_announce(&mut tracker, &announce_req(b"BBBBBBBBBBBBBBBBBBBB", Event::Started), remote, 500, 2, 1800);

    // At time 600 with a 300-second timeout only the first peer is stale.
    let (seeds, leeches) = tracker.reap(600, 300);
    assert_eq!((seeds, leeches), (0, 1));
    let (v4, v6) = tracker.peer_store.get_peers(&ih, 200, b"ZZZZZZZZZZZZZZZZZZZZ", 7);
    assert_eq!(v4.len() + v6.len(), 1);
    let files = tracker.torrent_store.get_scrapes(&vec![ih]);
    assert_eq!(files[0].incomplete, 1);
}

#[test]
fn announce_success_body_compact() {
    let mut tracker = Tracker::new();
    let remote = IpAddress::V4([127, 0, 0, 1]);

    let mut seeder = announce_req(b"AAAAAAAAAAAAAAAAAAAA", Event::Started);
    seeder.port = 6681;
    handle_announce(&mut tracker, &seeder, remote, 10, 1, 1800);

    let mut req = announce_req(b"BBBBBBBBBBBBBBBBBBBB", Event::Started);
    req.port = 7000;
    let resp = handle_announce(&mut tracker, &req, remote, 11, 2, 1800);
    let body = encode_announce_response(&resp, true, false);

    let mut proper: Vec<u8> = Vec::new();
    proper.extend_from_slice(b"d8:completei0e10:incompletei2e8:intervali1800e5:peers6:");
    proper.extend_from_slice(&[127, 0, 0, 1, 0x1A, 0x19]);
    proper.extend_from_slice(b"6:peers60:e");
    assert_eq!(body, proper);
}

#[test]
fn announce_success_body_non_compact() {
    let mut tracker = Tracker::new();
    let remote = IpAddress::V4([127, 0, 0, 1]);

    let mut seeder = announce_req(b"AAAAAAAAAAAAAAAAAAAA", Event::Started);
    seeder.port = 6681;
    handle_announce(&mut tracker, &seeder, remote, 10, 1, 1800);

    let mut req = announce_req(b"BBBBBBBBBBBBBBBBBBBB", Event::Started);
    req.port = 7000;
    let resp = handle_announce(&mut tracker, &req, remote, 11, 2, 1800);
    let body = encode_announce_response(&resp, false, false);

    let proper = "d8:completei0e10:incompletei2e8:intervali1800e5:peersld2:ip9:127.0.0.17:peer id20:AAAAAAAAAAAAAAAAAAAA4:porti6681eee6:peers60:e";
    assert_eq!(body, proper.as_bytes().to_vec());
}

#[test]
fn scrape_unknown_hash_omitted() {
    let mut tracker = Tracker::new();
    tracker
        .torrent_store
        .upsert(Torrent::new(b"A1B2C3D4E5F6G7H8I9J0".to_vec(), 1, 2, 3));
    let req = ScrapeRequest::new(
        "http://tracker/scrape?info_hash=A1B2C3D4E5F6G7H8I9J0&info_hash=UNKNOWNUNKNOWNUNKNOW",
    )
    .unwrap();
    let resp = handle_scrape(&mut tracker, &req);
    assert_eq!(resp.files.len(), 1);
    assert_eq!(resp.files[0].info_hash, b"A1B2C3D4E5F6G7H8I9J0".to_vec());
}

#[test]
fn empty_scrape_response_body() {
    let resp = ScrapeResponse::new().unwrap();
    let body = encode_scrape_response(&resp);
    assert_eq!(body, b"d5:filesdee".to_vec());
}

#[test]
fn scrape_sorted_and_deduped() {
    let mut tracker = Tracker::new();
    tracker
        .torrent_store
        .upsert(Torrent::new(b"A1B2C3D4E5F6G7H8I9J0".to_vec(), 10, 34, 7));
    tracker
        .torrent_store
        .upsert(Torrent::new(b"B2C3D4E5F6G7H8I9J0K1".to_vec(), 25, 57, 19));

    // Requested out of order, with a repeat: the body is still sorted by
    // info-hash bytes and lists each hash once.
    let req = ScrapeRequest::new(
        "http://tracker/scrape?info_hash=B2C3D4E5F6G7H8I9J0K1&info_hash=A1B2C3D4E5F6G7H8I9J0&info_hash=B2C3D4E5F6G7H8I9J0K1",
    )
    .unwrap();
    let resp = handle_scrape(&mut tracker, &req);
    let body = encode_scrape_response(&resp);
    let proper = "d5:filesd20:A1B2C3D4E5F6G7H8I9J0d8:completei10e10:downloadedi34e10:incompletei7ee20:B2C3D4E5F6G7H8I9J0K1d8:completei25e10:downloadedi57e10:incompletei19eeee";
    assert_eq!(body, proper.as_bytes().to_vec());
}

#[test]
fn reap_one_swarm_at_a_time() {
    let mut tracker = Tracker::new();
    let remote = IpAddress::V4([127, 0, 0, 1]);
    let ih = b"aaaaaaaaaaaaaaaaaaaa".to_vec();

    handle_announce(&mut tracker, &announce_req(b"AAAAAAAAAAAAAAAAAAAA", Event::Started), remote, 10, 1, 1800);
    let n = tracker.peer_store.records.len();
    let mut seeds: u64 = 0;
    let mut leeches: u64 = 0;
    for i in 0..n {
        let (s, l) = tracker.reap_one(i, 100, 0);
        seeds += s;
        leeches += l;
    }
    assert_eq!((seeds, leeches), (0, 1));
    let files = tracker.torrent_store.get_scrapes(&vec![ih]);
    assert_eq!(files[0].incomplete, 0);
}
