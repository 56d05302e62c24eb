use swarm_tracker::bittorrent::{
    string_to_event, AnnounceRequest, AnnounceResponse, Event, ScrapeFile, ScrapeRequest,
    ScrapeResponse,
};
use swarm_tracker::peer::{IpAddress, Peerv4, Peerv6};

#[test]
fn announce_good_request_creation() {
    let url_string = "http://tracker/announce?\
                      info_hash=%9A%813%3C%1B%16%E4%A8%3C%10%F3%05%2C%15%90%AA%DF%5E.%20\
                      &peer_id=ABCDEFGHIJKLMNOPQRST&port=6881&uploaded=0&downloaded=0\
                      &left=727955456&event=started&numwant=100&no_peer_id=1&compact=1";

    assert!(
        AnnounceRequest::new(url_string).is_ok(),
        "Announce request creation failed"
    );
}

#[test]
fn announce_bad_request_creation() {
    let url_string =
        "http://tracker/announce?\
         info_hash=%9A%813%3C%1B%16%E4%A8%3C%10%F3%05%2C%15%90%AA%DF%5E.%20\
         &peer_id=ABCDEFGHIJKLMNOPQRST&port=thisisnotanumber&uploaded=0&downloaded=0\
         &left=727955456&event=started&numwant=100&no_peer_id=1&compact=thisisnotanumber";

    assert!(
        AnnounceRequest::new(url_string).is_err(),
        "Incorrect announce request parameter parsing"
    );
}

#[test]
fn event_good_value_parse() {
    let s = "started".to_string();
    assert_eq!(string_to_event(s), Event::Started);
}

#[test]
fn event_garbage_value_to_none() {
    let s = "garbage".to_string();
    assert_eq!(string_to_event(s), Event::KeepAlive);
}

#[test]
fn response_failure_return() {
    let failure_reason = "It's not you...no, it's just you".to_string();
    let response = AnnounceResponse::fail(failure_reason);
    assert_eq!(
        response.failure_reason,
        "It's not you...no, it's just you".to_string()
    );
}

#[test]
fn peerv4_compact_transform() {
    let peer = Peerv4 {
        peer_id: b"ABCDEFGHIJKLMNOPQRST".to_vec(),
        ip: [127, 0, 0, 1],
        port: 6681,
    };

    let mut localhost_port_byte_string: Vec<u8> = Vec::new();
    localhost_port_byte_string.extend_from_slice(&2130706433u32.to_be_bytes()); // localhost in decimal
    localhost_port_byte_string.extend_from_slice(&6681u16.to_be_bytes());

    let compact_rep_byte_string = peer.compact();

    assert_eq!(compact_rep_byte_string, localhost_port_byte_string);
}

#[test]
fn peerv6_compact_transform() {
    let localhost_decimal = 42540766452641154071740215577757643572u128;
    let peer = Peerv6 {
        peer_id: b"ABCDEFGHIJKLMNOPQRST".to_vec(),
        ip: localhost_decimal.to_be_bytes(),
        port: 6681,
    };

    let mut localhost_port_byte_string: Vec<u8> = Vec::new();
    localhost_port_byte_string.extend_from_slice(&localhost_decimal.to_be_bytes());
    localhost_port_byte_string.extend_from_slice(&6681u16.to_be_bytes());

    let compact_rep_byte_string = peer.compact();

    assert_eq!(compact_rep_byte_string, localhost_port_byte_string);
}

#[test]
fn scrape_good_request_creation() {
    let url_string = "http://example.com/scrape.php?info_hash=aaaaaaaaaaaaaaaaaaaa&info_hash=bbbbbbbbbbbbbbbbbbbb&info_hash=cccccccccccccccccccc";

    assert!(
        ScrapeRequest::new(url_string).is_ok(),
        "Scrape request creation failed"
    );
}

#[test]
fn scrape_good_request_multiple_hashes() {
    let url_string = "http://example.com/scrape.php?info_hash=aaaaaaaaaaaaaaaaaaaa&info_hash=bbbbbbbbbbbbbbbbbbbb&info_hash=cccccccccccccccccccc";
    let scrape = ScrapeRequest::new(url_string).unwrap();
    assert_eq!(
        scrape.info_hashes,
        vec![
            b"aaaaaaaaaaaaaaaaaaaa".to_vec(),
            b"bbbbbbbbbbbbbbbbbbbb".to_vec(),
            b"cccccccccccccccccccc".to_vec(),
        ]
    );
}

#[test]
fn scrape_bad_request_creation() {
    let url_string = "http://example.com/scrape.php?info_hash=aaaaaaaaaaaaaaaaaaaa&info_bash=bbbbbbbbbbbbbbbbbbbb&info_slash=cccccccccccccccccccc";

    assert!(
        ScrapeRequest::new(url_string).is_err(),
        "Incorrect scrape request parsing"
    );
}

#[test]
fn scrape_response_add_file() {
    let file = ScrapeFile::default();
    let mut scrape_response = ScrapeResponse::new().unwrap();
    scrape_response.add_file(file);

    assert_eq!(scrape_response.files.len(), 1);
}

#[test]
fn announce_all_fields_recovered() {
    let url_string = "http://tracker/announce?info_hash=aaaaaaaaaaaaaaaaaaaa\
                      &peer_id=ABCDEFGHIJKLMNOPQRST&port=6881&uploaded=17&downloaded=23\
                      &left=42&event=completed&numwant=33&no_peer_id=1&compact=0&ip=10.1.2.3";
    let req = AnnounceRequest::new(url_string).unwrap();
    assert_eq!(req.info_hash, b"aaaaaaaaaaaaaaaaaaaa".to_vec());
    assert_eq!(req.peer_id, b"ABCDEFGHIJKLMNOPQRST".to_vec());
    assert_eq!(req.port, 6881);
    assert_eq!(req.uploaded, 17);
    assert_eq!(req.downloaded, 23);
    assert_eq!(req.left, 42);
    assert_eq!(req.event, Event::Completed);
    assert_eq!(req.numwant, 33);
    assert!(!req.compact);
    assert!(req.no_peer_id);
    match req.ip {
        Some(IpAddress::V4(octets)) => assert_eq!(octets, [10, 1, 2, 3]),
        _ => panic!("expected a v4 address"),
    }
}

#[test]
fn announce_defaults_applied() {
    let url_string = "http://tracker/announce?info_hash=aaaaaaaaaaaaaaaaaaaa\
                      &peer_id=ABCDEFGHIJKLMNOPQRST&port=6881&uploaded=0&downloaded=0&left=1";
    let req = AnnounceRequest::new(url_string).unwrap();
    assert_eq!(req.event, Event::KeepAlive);
    assert_eq!(req.numwant, 50);
    assert!(req.compact);
    assert!(!req.no_peer_id);
    assert!(req.ip.is_none());
}

#[test]
fn announce_numwant_capped() {
    let url_string = "http://tracker/announce?info_hash=aaaaaaaaaaaaaaaaaaaa\
                      &peer_id=ABCDEFGHIJKLMNOPQRST&port=6881&uploaded=0&downloaded=0&left=1\
                      &numwant=5000";
    let req = AnnounceRequest::new(url_string).unwrap();
    assert_eq!(req.numwant, 200);
}

#[test]
fn announce_ipv6_key_parsed() {
    let url_string = "http://tracker/announce?info_hash=aaaaaaaaaaaaaaaaaaaa\
                      &peer_id=ABCDEFGHIJKLMNOPQRST&port=6881&uploaded=0&downloaded=0&left=1\
                      &ip=2001:0db8:85a3::8a2e:0370:7334";
    let req = AnnounceRequest::new(url_string).unwrap();
    match req.ip {
        Some(IpAddress::V6(bytes)) => assert_eq!(
            bytes,
            [
                0x20, 0x01, 0x0D, 0xB8, 0x85, 0xA3, 0x00, 0x00, 0x00, 0x00, 0x8A, 0x2E, 0x03,
                0x70, 0x73, 0x34
            ]
        ),
        _ => panic!("expected a v6 address"),
    }
}

#[test]
fn announce_error_messages() {
    let base = "http://tracker/announce?info_hash=aaaaaaaaaaaaaaaaaaaa\
                &peer_id=ABCDEFGHIJKLMNOPQRST&port=6881&uploaded=0&downloaded=0&left=1";
    let cases = vec![
        ("http://tracker/announce?bad_stuff=123", "Malformed announce request"),
        ("http://tracker/announce?info_hash=tooshort&peer_id=ABCDEFGHIJKLMNOPQRST&port=1&uploaded=0&downloaded=0&left=1", "info_hash must be 20 bytes"),
        ("http://tracker/announce?info_hash=aaaaaaaaaaaaaaaaaaaa&peer_id=short&port=1&uploaded=0&downloaded=0&left=1", "peer_id must be 20 bytes"),
        ("http://tracker/announce?info_hash=aaaaaaaaaaaaaaaaaaaa&peer_id=ABCDEFGHIJKLMNOPQRST&port=0&uploaded=0&downloaded=0&left=1", "Unable to parse port"),
        ("http://tracker/announce?info_hash=aaaaaaaaaaaaaaaaaaaa&peer_id=ABCDEFGHIJKLMNOPQRST&port=65536&uploaded=0&downloaded=0&left=1", "Unable to parse port"),
    ];
    for (url, msg) in cases {
        match AnnounceRequest::new(url) {
            Err(m) => assert_eq!(m, msg),
            Ok(_) => panic!("expected a parse failure"),
        }
    }
    let more = vec![
        (format!("{}&uploaded=x", base), "Unable to parse uploaded quantity"),
        (format!("{}&downloaded=x", base), "Unable to parse downloaded quantity"),
        (format!("{}&left=x", base), "Unable to parse remaining quantity"),
        (format!("{}&compact=x", base), "Unable to parse compact value as boolean"),
        (format!("{}&no_peer_id=x", base), "Unable to parse no_peer_id as boolean"),
        (format!("{}&numwant=x", base), "Unable to parse numwant"),
        (format!("{}&ip=not.an.ip", base), "Unable to parse ip"),
    ];
    for (url, msg) in more {
        match AnnounceRequest::new(url.as_str()) {
            Err(m) => assert_eq!(m, msg),
            Ok(_) => panic!("expected a parse failure"),
        }
    }
}

#[test]
fn announce_last_occurrence_wins() {
    let url_string = "http://tracker/announce?info_hash=aaaaaaaaaaaaaaaaaaaa\
                      &peer_id=ABCDEFGHIJKLMNOPQRST&port=6881&uploaded=0&downloaded=0&left=1\
                      &port=7000";
    let req = AnnounceRequest::new(url_string).unwrap();
    assert_eq!(req.port, 7000);
}

#[test]
fn scrape_needs_one_hash() {
    assert!(ScrapeRequest::new("http://example.com/scrape.php?").is_err());
    assert!(ScrapeRequest::new("http://example.com/scrape.php").is_err());
}

#[test]
fn canonical_query_round_trip() {
    let req = AnnounceRequest {
        info_hash: vec![0x9A, 0x81, b'3', 0x3C, 0x1B, 0x16, 0xE4, 0xA8, 0x3C, 0x10, 0xF3, 0x05,
                        0x2C, 0x15, 0x90, 0xAA, 0xDF, 0x5E, b'.', 0x20],
        peer_id: b"ABCDEFGHIJKLMNOPQRST".to_vec(),
        port: 6881,
        uploaded: 17,
        downloaded: 23,
        left: 42,
        compact: false,
        no_peer_id: true,
        event: Event::Completed,
        numwant: 33,
        ip: Some(IpAddress::V4([10, 1, 2, 3])),
    };
    let query = swarm_tracker::canonical::to_query(&req);
    let back = swarm_tracker::bittorrent::parse_announce_bytes(&query).unwrap();
    assert_eq!(back.info_hash, req.info_hash);
    assert_eq!(back.peer_id, req.peer_id);
    assert_eq!(back.port, req.port);
    assert_eq!(back.uploaded, req.uploaded);
    assert_eq!(back.downloaded, req.downloaded);
    assert_eq!(back.left, req.left);
    assert_eq!(back.compact, req.compact);
    assert_eq!(back.no_peer_id, req.no_peer_id);
    assert_eq!(back.event, req.event);
    assert_eq!(back.numwant, req.numwant);
    match back.ip {
        Some(IpAddress::V4(o)) => assert_eq!(o, [10, 1, 2, 3]),
        _ => panic!("expected a v4 address"),
    }
}

#[test]
fn canonical_query_round_trip_v6_keepalive() {
    let localhost = 42540766452641154071740215577757643572u128;
    let req = AnnounceRequest {
        info_hash: b"aaaaaaaaaaaaaaaaaaaa".to_vec(),
        peer_id: b"ABCDEFGHIJKLMNOPQRST".to_vec(),
        port: 1,
        uploaded: 0,
        downloaded: 0,
        left: 0,
        compact: true,
        no_peer_id: false,
        event: Event::KeepAlive,
        numwant: 200,
        ip: Some(IpAddress::V6(localhost.to_be_bytes())),
    };
    let query = swarm_tracker::canonical::to_query(&req);
    let back = swarm_tracker::bittorrent::parse_announce_bytes(&query).unwrap();
    assert_eq!(back.event, Event::KeepAlive);
    assert_eq!(back.numwant, 200);
    match back.ip {
        Some(IpAddress::V6(o)) => assert_eq!(o, localhost.to_be_bytes()),
        _ => panic!("expected a v6 address"),
    }
}
