use bittorrent_rust::peers::{
    build_announce_request, build_connect_request, build_tracker_request, is_udp,
    parse_announce_response, parse_connect_response, parse_tracker_response, split_udp_announce,
    tracker_params, tracker_url, Peers, TrackerError,
};

#[test]
fn compact_peer_list_decoding() {
    let bytes = [10u8, 0, 0, 1, 0x1f, 0x90, 192, 168, 1, 2, 0, 80];
    let ps = Peers::from_compact(&bytes).unwrap();
    assert_eq!(ps.0.len(), 2);
    assert_eq!(ps.0[0].ip, [10, 0, 0, 1]);
    assert_eq!(ps.0[0].port, 8080);
    assert_eq!(ps.0[1].ip, [192, 168, 1, 2]);
    assert_eq!(ps.0[1].port, 80);
    // a length that is no multiple of six is rejected
    assert_eq!(Peers::from_compact(&bytes[0..5]).unwrap_err(), TrackerError::BadResponse);
    // and the compact form comes back unchanged
    assert_eq!(ps.to_compact(), bytes.to_vec());
}

#[test]
fn tracker_response_parsing() {
    let mut body = b"d8:intervali1800e5:peers6:".to_vec();
    body.extend_from_slice(&[10u8, 0, 0, 1, 0x1f, 0x90]);
    body.push(b'e');
    let t = parse_tracker_response(&body).unwrap();
    assert_eq!(t.interval, 1800);
    assert_eq!(t.peers.0.len(), 1);
    assert_eq!(t.peers.0[0].ip, [10, 0, 0, 1]);
    assert_eq!(t.peers.0[0].port, 8080);
    // a peers string of the wrong length is a bad response
    let body = b"d8:intervali1800e5:peers3:abce".to_vec();
    assert_eq!(parse_tracker_response(&body).unwrap_err(), TrackerError::BadResponse);
    // a missing interval is a bad response
    let mut body = b"d5:peers6:".to_vec();
    body.extend_from_slice(&[10u8, 0, 0, 1, 0x1f, 0x90]);
    body.push(b'e');
    assert_eq!(parse_tracker_response(&body).unwrap_err(), TrackerError::BadResponse);
    // something that is not bencode at all
    assert_eq!(parse_tracker_response(b"nonsense").unwrap_err(), TrackerError::BadResponse);
}

#[test]
fn announce_query_encoding() {
    let req = build_tracker_request(42);
    assert_eq!(req.peer_id, "00112233445566778899");
    assert_eq!(req.port, 6881);
    assert_eq!(req.compact, 1);
    let params = tracker_params(&req);
    assert_eq!(
        params,
        "peer_id=00112233445566778899&port=6881&uploaded=0&downloaded=0&left=42&compact=1"
    );
}

#[test]
fn announce_url_percent_encodes_raw_hash() {
    let req = build_tracker_request(0);
    let params = tracker_params(&req);
    let url = tracker_url("http://t/a", &params, &[0xabu8; 20]);
    let mut expected = String::from("http://t/a?");
    expected.push_str(&params);
    expected.push_str("&info_hash=");
    for _i in 0..20 {
        expected.push_str("%AB");
    }
    assert_eq!(url, expected);
    // unchanged bytes pass through, a space becomes a plus
    let url = tracker_url("u", "q", &[b'a', b'Z', b'0', b'*', b'-', b'.', b'_', b' ', 0x01, 0xff,
        b'a', b'a', b'a', b'a', b'a', b'a', b'a', b'a', b'a', b'a']);
    assert_eq!(url, "u?q&info_hash=aZ0*-._+%01%FFaaaaaaaaaa");
}

#[test]
fn udp_scheme_detection_and_split() {
    assert!(is_udp("udp://tracker.example:8080"));
    assert!(!is_udp("http://tracker.example/announce"));
    let (host, port) = split_udp_announce("udp://tracker.example:8080").unwrap();
    assert_eq!(host, "tracker.example");
    assert_eq!(port, 8080);
    // the largest port still fits
    let (_, port) = split_udp_announce("udp://h:65535").unwrap();
    assert_eq!(port, 65535);
    // no colon, a second colon, an empty or non-numeric or oversized port
    assert_eq!(split_udp_announce("udp://hostonly").unwrap_err(), TrackerError::BadResponse);
    assert_eq!(split_udp_announce("udp://h:1:2").unwrap_err(), TrackerError::BadResponse);
    assert_eq!(split_udp_announce("udp://h:").unwrap_err(), TrackerError::BadResponse);
    assert_eq!(split_udp_announce("udp://h:12x").unwrap_err(), TrackerError::BadResponse);
    assert_eq!(split_udp_announce("udp://h:65536").unwrap_err(), TrackerError::BadResponse);
    assert_eq!(split_udp_announce("http://h:1").unwrap_err(), TrackerError::BadResponse);
}

#[test]
fn udp_connect_exchange() {
    let req = build_connect_request(0xdead_beef);
    assert_eq!(req.len(), 16);
    assert_eq!(&req[0..8], &[0, 0, 0x04, 0x17, 0x27, 0x10, 0x19, 0x80]);
    assert_eq!(&req[8..12], &[0, 0, 0, 0]);
    assert_eq!(&req[12..16], &[0xde, 0xad, 0xbe, 0xef]);
    // a matching response yields the connection id
    let mut resp = vec![0u8, 0, 0, 0, 0xde, 0xad, 0xbe, 0xef];
    resp.extend_from_slice(&[1, 2, 3, 4, 5, 6, 7, 8]);
    let cid = parse_connect_response(&resp, 0xdead_beef).unwrap();
    assert_eq!(cid, 0x0102_0304_0506_0708);
    // a mismatched transaction id is rejected
    assert_eq!(parse_connect_response(&resp, 1).unwrap_err(), TrackerError::BadResponse);
    // a short datagram is rejected
    assert_eq!(parse_connect_response(&resp[0..12], 0xdead_beef).unwrap_err(),
        TrackerError::BadResponse);
}

#[test]
fn udp_announce_exchange() {
    let req = build_announce_request(
        0x0102_0304_0506_0708,
        7,
        &[0xaau8; 20],
        &[0xbbu8; 20],
        0,
        71,
        0,
        99,
        6881,
    );
    assert_eq!(req.len(), 98);
    assert_eq!(&req[0..8], &[1, 2, 3, 4, 5, 6, 7, 8]);
    assert_eq!(&req[8..12], &[0, 0, 0, 1]);
    assert_eq!(&req[12..16], &[0, 0, 0, 7]);
    assert_eq!(&req[16..36], &[0xaau8; 20]);
    assert_eq!(&req[36..56], &[0xbbu8; 20]);
    assert_eq!(&req[64..72], &[0, 0, 0, 0, 0, 0, 0, 71]);
    assert_eq!(&req[88..92], &[0, 0, 0, 99]);
    assert_eq!(&req[92..96], &[0xff, 0xff, 0xff, 0xff]);
    assert_eq!(&req[96..98], &[0x1a, 0xe1]);
    // a well-formed answer with one peer
    let mut resp = vec![0u8, 0, 0, 1, 0, 0, 0, 7];
    resp.extend_from_slice(&[0, 0, 7, 8]); // interval 1800
    resp.extend_from_slice(&[0, 0, 0, 2]); // leechers
    resp.extend_from_slice(&[0, 0, 0, 3]); // seeders
    resp.extend_from_slice(&[10, 0, 0, 1, 0x1f, 0x90]);
    let a = parse_announce_response(&resp, 7).unwrap();
    assert_eq!(a.interval, 1800);
    assert_eq!(a.leechers, 2);
    assert_eq!(a.seeders, 3);
    assert_eq!(a.peers.0.len(), 1);
    assert_eq!(a.peers.0[0].port, 8080);
    // the wrong action is rejected
    let mut bad = resp.clone();
    bad[3] = 0;
    assert_eq!(parse_announce_response(&bad, 7).unwrap_err(), TrackerError::BadResponse);
    // ragged trailing peer bytes are rejected
    let mut ragged = resp.clone();
    ragged.push(1);
    assert_eq!(parse_announce_response(&ragged, 7).unwrap_err(), TrackerError::BadResponse);
}
