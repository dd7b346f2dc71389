use pixm::net::ack::PeerAckState;
use pixm::net::clock::{
    TICK_DUS, resync_due, tick_at,
    ClockSample, ClockSync, GameClock, SYNC_SAMPLES, adjusted_us, compute_sync, handle_ping,
    measure_sample, pong_sample, sample_in_range, sync_from_samples,
};
use pixm::net::dht::{make_join_link, parse_join_link};
use pixm::net::election::{
    ElectionResult, elect_from_ranking, election_token, validate_takeover,
};
use pixm::net::nat_traversal::{
    PONG_PAYLOAD, PUNCH_ATTEMPTS, PUNCH_PAYLOAD, PublicAddr, PunchReply, PunchStep,
    punch_deadline_passed, punch_step, STUN_MAGIC_COOKIE, build_stun_request,
    classify_punch, parse_stun_response, stun_scan, transaction_id_from, StunScan,
};
use pixm::net::peer::{PeerStatus, status_after_packet};
use pixm::net::protocol::{InputKind, NetMessage, RoomId};
use pixm::net::session::{
    InboundAction, checksum_due, count_connected, diverged, has_peer, hello_message,
    inbound_action, input_message, welcome_tick_start,
};
use pixm::net::transport::{
    HEADER_SIZE, PacketHeader, PacketKind, accept_packet, frame_packet, in_window, prepare_send,
    resend_packets,
};

// ─── clock ──────────────────────────────────────────────────────────────────

#[test]
fn measure_sample_zero_processing() {
    let s = measure_sample(0, 10, 10, 20);
    assert_eq!(s.rtt_us, 20);
    assert_eq!(s.offset_us, 0);
}

#[test]
fn measure_sample_clock_behind() {
    let s = measure_sample(100, 115, 115, 120);
    assert_eq!(s.rtt_us, 20);
    assert_eq!(s.offset_us, 5);
}

#[test]
fn measure_sample_subtracts_processing_time() {
    // 30µs of processing on the coordinator: rtt 100 - 30 = 70
    let s = measure_sample(1000, 1050, 1080, 1100);
    assert_eq!(s.rtt_us, 70);
    assert_eq!(s.offset_us, 15);
    assert!(sample_in_range(1000, 1050, 1080, 1100));
}

#[test]
fn compute_sync_discards_outliers() {
    let mut samples = vec![
        ClockSample { rtt_us: 1000, offset_us: 5 },
        ClockSample { rtt_us: 900, offset_us: 4 },
        ClockSample { rtt_us: 950, offset_us: 5 },
        ClockSample { rtt_us: 9999, offset_us: 99 },
    ];
    samples.resize(SYNC_SAMPLES, ClockSample { rtt_us: 920, offset_us: 4 });
    let sync = compute_sync(&samples);
    assert!(sync.rtt_us < 1100);
    assert_ne!(sync.offset_us, 99);
}

#[test]
fn compute_sync_takes_smallest_round_trip() {
    let samples = vec![
        ClockSample { rtt_us: 300, offset_us: 7 },
        ClockSample { rtt_us: 100, offset_us: -3 },
        ClockSample { rtt_us: 200, offset_us: 9 },
    ];
    let sync = compute_sync(&samples);
    assert_eq!(sync.rtt_us, 100);
    assert_eq!(sync.offset_us, -3);
    assert_eq!(sync.sample_count, 3);
}

#[test]
fn compute_sync_drops_round_trips_above_three_medians() {
    // median 10, threshold 30: the 5µs sample is kept, the 40µs one dropped
    let samples = vec![
        ClockSample { rtt_us: 40, offset_us: 1 },
        ClockSample { rtt_us: 10, offset_us: 2 },
        ClockSample { rtt_us: 5, offset_us: 3 },
        ClockSample { rtt_us: 10, offset_us: 4 },
    ];
    let sync = compute_sync(&samples);
    assert_eq!(sync.rtt_us, 5);
    assert_eq!(sync.offset_us, 3);
}

#[test]
fn sync_from_no_samples_is_none() {
    assert!(sync_from_samples(&Vec::new()).is_none());
    let one = vec![ClockSample { rtt_us: 8, offset_us: 2 }];
    let sync = sync_from_samples(&one).unwrap();
    assert_eq!(sync.rtt_us, 8);
    assert_eq!(sync.offset_us, 2);
}

#[test]
fn pong_answers_a_ping() {
    let pong = handle_ping(1234);
    match pong {
        NetMessage::PongTime { t1_us, t2_us, t3_us } => {
            assert_eq!(t1_us, 1234);
            assert!(t2_us <= t3_us);
        }
        _ => panic!("expected a pong"),
    }
    let pong = NetMessage::PongTime { t1_us: 100, t2_us: 115, t3_us: 115 };
    let s = pong_sample(100, &pong, 120).unwrap();
    assert_eq!(s.rtt_us, 20);
    assert_eq!(s.offset_us, 5);
    // a pong for another ping is ignored
    assert!(pong_sample(99, &pong, 120).is_none());
    assert!(pong_sample(100, &NetMessage::Heartbeat { tick: 1 }, 120).is_none());
}

#[test]
fn adjusted_time_applies_offset() {
    assert_eq!(adjusted_us(1000, 25), 1025);
    assert_eq!(adjusted_us(1000, -25), 975);
    assert_eq!(adjusted_us(10, -25), 0);
}

#[test]
fn game_clock_tick_is_deterministic() {
    let sync = ClockSync::zero();
    let clock = GameClock::new(sync);
    let t1 = clock.current_tick();
    let t2 = clock.current_tick();
    assert!(t2 >= t1);
}

#[test]
fn game_clock_keeps_sync_round_trip() {
    let mut clock = GameClock::new(ClockSync::zero());
    assert_eq!(clock.rtt_us(), 0);
    let samples = vec![ClockSample { rtt_us: 77, offset_us: 0 }];
    clock.update_sync(compute_sync(&samples));
    assert_eq!(clock.rtt_us(), 77);
}

// ─── dht ────────────────────────────────────────────────────────────────────

#[test]
fn link_roundtrip() {
    let id = RoomId([0xABu8; 32]);
    let link = make_join_link(&id);
    assert!(link.starts_with("pixm://join/"));
    let parsed = parse_join_link(&link).unwrap();
    assert_eq!(parsed, id);
}

#[test]
fn invalid_link_returns_none() {
    assert!(parse_join_link("https://example.com").is_none());
    assert!(parse_join_link("pixm://join/zzz").is_none());
    assert!(parse_join_link("pixm://join/tooshort").is_none());
}

#[test]
fn link_hex_part_may_carry_whitespace() {
    let id = RoomId([0x3Cu8; 32]);
    let link = format!("pixm://join/  {}\n", id.to_hex());
    assert_eq!(parse_join_link(&link), Some(id));
    assert_eq!(make_join_link(&id), format!("pixm://join/{}", "3c".repeat(32)));
}

// ─── election ───────────────────────────────────────────────────────────────

#[test]
fn takeover_validation() {
    let result = ElectionResult { coordinator_id: 0, shadow_id: 2, token: 12345 };
    assert!(validate_takeover(&result, 2, 12345));
    assert!(!validate_takeover(&result, 1, 12345));
    assert!(!validate_takeover(&result, 2, 99999));
}

#[test]
fn ranking_picks_coordinator_and_shadow() {
    let ids = [1u8, 2, 3];
    let r = elect_from_ranking(&[0, 2, 1, 3], &ids, 0).unwrap();
    assert_eq!(r.coordinator_id, 0);
    assert_eq!(r.shadow_id, 2);
    assert_eq!(r.token, election_token(&ids, 0));
    let alone = elect_from_ranking(&[0], &[], 0).unwrap();
    assert_eq!(alone.shadow_id, 0);
    assert!(elect_from_ranking(&[], &ids, 0).is_none());
}

#[test]
fn election_token_mixes_peer_ids() {
    assert_eq!(election_token(&[], 5), 5);
    assert_eq!(election_token(&[1], 0), 2654435761);
    assert_eq!(election_token(&[1, 2], 3), 3 ^ 2654435761 ^ 2654435761u32.wrapping_mul(2));
}

// ─── nat ────────────────────────────────────────────────────────────────────

#[test]
fn stun_request_format() {
    let id = [1u8; 12];
    let req = build_stun_request(&id);
    assert_eq!(&req[0..2], &0x0001u16.to_be_bytes());
    assert_eq!(&req[4..8], &STUN_MAGIC_COOKIE.to_be_bytes());
    assert_eq!(&req[8..20], &id);
}

#[test]
fn stun_response_wrong_type_returns_none() {
    let mut buf = [0u8; 20];
    buf[0..2].copy_from_slice(&0x0001u16.to_be_bytes());
    buf[4..8].copy_from_slice(&STUN_MAGIC_COOKIE.to_be_bytes());
    let id = [0u8; 12];
    assert!(parse_stun_response(&buf, &id).is_none());
}

fn binding_response(id: &[u8; 12], attrs: &[u8]) -> Vec<u8> {
    let mut buf = vec![0x01, 0x01];
    buf.extend_from_slice(&(attrs.len() as u16).to_be_bytes());
    buf.extend_from_slice(&STUN_MAGIC_COOKIE.to_be_bytes());
    buf.extend_from_slice(id);
    buf.extend_from_slice(attrs);
    buf
}

#[test]
fn stun_response_xor_mapped_address() {
    let id = [7u8; 12];
    // 203.0.113.9:40000, xored with the cookie
    let port = 40000u16 ^ 0x2112;
    let ip = u32::from_be_bytes([203, 0, 113, 9]) ^ STUN_MAGIC_COOKIE;
    let mut attr = vec![0x00, 0x20, 0x00, 0x08, 0x00, 0x01];
    attr.extend_from_slice(&port.to_be_bytes());
    attr.extend_from_slice(&ip.to_be_bytes());
    let buf = binding_response(&id, &attr);
    let addr = parse_stun_response(&buf, &id).unwrap();
    assert_eq!(addr, PublicAddr { ip: u32::from_be_bytes([203, 0, 113, 9]), port: 40000 });
    // another transaction id is refused
    assert!(parse_stun_response(&buf, &[8u8; 12]).is_none());
}

#[test]
fn stun_response_skips_unknown_attributes() {
    let id = [3u8; 12];
    // an unknown attribute of 5 bytes (padded to 8), then XOR-MAPPED-ADDRESS
    let mut attrs = vec![0x80, 0x22, 0x00, 0x05, 1, 2, 3, 4, 5, 0, 0, 0];
    attrs.extend_from_slice(&[0x00, 0x20, 0x00, 0x08, 0x00, 0x01]);
    attrs.extend_from_slice(&(8080u16 ^ 0x2112).to_be_bytes());
    attrs.extend_from_slice(&(0x0A00_0001u32 ^ STUN_MAGIC_COOKIE).to_be_bytes());
    let buf = binding_response(&id, &attrs);
    assert_eq!(stun_scan(&buf, &id), StunScan::Found(PublicAddr { ip: 0x0A00_0001, port: 8080 }));
    assert_eq!(
        parse_stun_response(&buf, &id),
        Some(PublicAddr { ip: 0x0A00_0001, port: 8080 })
    );
}

#[test]
fn stun_response_without_address_is_none() {
    let id = [3u8; 12];
    let buf = binding_response(&id, &[0x80, 0x22, 0x00, 0x00]);
    assert!(parse_stun_response(&buf, &id).is_none());
    assert!(parse_stun_response(&buf[..10], &id).is_none());
}

#[test]
fn transaction_id_takes_low_bytes_of_nanos() {
    let id = transaction_id_from(0x0102_0304_0506_0708_090A_0B0C_0D0E_0F10u128);
    assert_eq!(id, [0x10, 0x0F, 0x0E, 0x0D, 0x0C, 0x0B, 0x0A, 0x09, 0, 0, 0, 0]);
}

#[test]
fn punch_replies_are_classified() {
    assert_eq!(classify_punch(&PUNCH_PAYLOAD), PunchReply::Probe);
    assert_eq!(classify_punch(b"PIXM_PUNCH"), PunchReply::Probe);
    assert_eq!(classify_punch(&PONG_PAYLOAD), PunchReply::Pong);
    assert_eq!(classify_punch(b"PIXM_PUNC"), PunchReply::Other);
    assert_eq!(classify_punch(b""), PunchReply::Other);
}

// ─── protocol ───────────────────────────────────────────────────────────────

#[test]
fn room_id_hex_roundtrip() {
    let id = RoomId([42u8; 32]);
    let hex = id.to_hex();
    assert_eq!(hex.len(), 64);
    let decoded = RoomId::from_hex(&hex).unwrap();
    assert_eq!(id, decoded);
}

#[test]
fn room_id_hex_is_lower_case_and_parse_takes_both_cases() {
    let mut bytes = [0u8; 32];
    for (i, b) in bytes.iter_mut().enumerate() {
        *b = (i as u8).wrapping_mul(37);
    }
    let id = RoomId(bytes);
    let hex = id.to_hex();
    assert_eq!(hex, hex.to_lowercase());
    assert_eq!(RoomId::from_hex(&hex.to_uppercase()), Some(id));
    assert!(RoomId::from_hex(&hex[..62]).is_none());
    assert!(RoomId::from_hex(&format!("{}g", &hex[..63])).is_none());
}

#[test]
fn reliable_classification() {
    assert!(NetMessage::Hello { room_id: RoomId([0u8; 32]), player_id: 0, version: 1 }
        .is_reliable());
    assert!(!NetMessage::Heartbeat { tick: 0 }.is_reliable());
    assert!(!NetMessage::StateChecksum { tick: 0, hash: 0 }.is_reliable());
}

#[test]
fn inputs_and_handshakes_are_reliable() {
    let input = NetMessage::Input {
        tick: 1,
        player_id: 2,
        kind: InputKind::Ability(0),
        target_x: 3,
        target_y: 4,
        target_id: 5,
    };
    assert!(input.is_reliable());
    assert!(NetMessage::Welcome { player_id: 1, rng_seed: 2, tick_start: 3 }.is_reliable());
    assert!(!NetMessage::PingTime { t1_us: 1 }.is_reliable());
}

// ─── transport ──────────────────────────────────────────────────────────────

#[test]
fn header_roundtrip() {
    let h = PacketHeader { sequence: 42, ack: 7, ack_bits: 0b1010_1010, kind: PacketKind::Reliable };
    let mut buf = [0u8; HEADER_SIZE];
    h.encode(&mut buf);
    let decoded = PacketHeader::decode(&buf).unwrap();
    assert_eq!(decoded.sequence, 42);
    assert_eq!(decoded.ack, 7);
    assert_eq!(decoded.ack_bits, 0b1010_1010);
    assert_eq!(decoded.kind, PacketKind::Reliable);
}

#[test]
fn header_bytes_are_little_endian() {
    let h = PacketHeader {
        sequence: 1,
        ack: 2,
        ack_bits: 0x0403_0201,
        kind: PacketKind::Unreliable,
    };
    let mut buf = [0u8; HEADER_SIZE];
    h.encode(&mut buf);
    assert_eq!(buf, [1, 2, 1, 2, 3, 4, 0x00]);
    assert!(PacketHeader::decode(&buf[..6]).is_none());
    assert!(PacketHeader::decode(&[1, 2, 3, 4, 5, 6, 0x20]).is_none());
    assert_eq!(frame_packet(&h, b"ab"), vec![1, 2, 1, 2, 3, 4, 0, b'a', b'b']);
}

fn wait_past_retry_interval() {
    let start = std::time::Instant::now();
    while start.elapsed().as_millis() < 60 {}
}

#[test]
fn reliable_packet_is_acked_and_released() {
    let mut a = PeerAckState::new();
    let mut b = PeerAckState::new();
    let pkt = prepare_send(&mut a, b"hi", true);
    assert_eq!(pkt, vec![0, 0, 0, 0, 0, 0, 0x10, b'h', b'i']);
    let (h, payload) = accept_packet(&mut b, &pkt).unwrap();
    assert_eq!(h.sequence, 0);
    assert_eq!(h.kind, PacketKind::Reliable);
    assert_eq!(payload, b"hi");
    assert_eq!(b.header_ack_fields(), (0, 0));

    // b answers: its header acknowledges sequence 0, which a then releases
    let reply = prepare_send(&mut b, b"ok", false);
    accept_packet(&mut a, &reply).unwrap();
    // nothing left to resend, whatever the clock says
    wait_past_retry_interval();
    assert!(resend_packets(&mut a).is_empty());
}

#[test]
fn selective_ack_releases_exactly_the_received_packets() {
    let mut a = PeerAckState::new();
    let mut b = PeerAckState::new();
    let sent: Vec<Vec<u8>> = (0u8..5).map(|i| prepare_send(&mut a, &[i], true)).collect();
    // packets 1 and 3 are lost
    for i in [0usize, 2, 4] {
        accept_packet(&mut b, &sent[i]).unwrap();
    }
    // last 4; bit 1 = sequence 2, bit 3 = sequence 0
    assert_eq!(b.header_ack_fields(), (4, 0b1010));
    let reply = prepare_send(&mut b, b"", false);
    accept_packet(&mut a, &reply).unwrap();
    wait_past_retry_interval();
    let resent = resend_packets(&mut a);
    // the lost ones, framed again with their own sequences
    let seqs: Vec<u8> = resent.iter().map(|p| p[0]).collect();
    assert_eq!(seqs, vec![1, 3]);
    assert_eq!(resent[0][7..], [1u8]);
    assert_eq!(resent[1][7..], [3u8]);
}

#[test]
fn unacknowledged_reliable_packet_is_resent() {
    let mut a = PeerAckState::new();
    let pkt = prepare_send(&mut a, b"x", true);
    wait_past_retry_interval();
    let resent = resend_packets(&mut a);
    assert_eq!(resent.len(), 1);
    assert_eq!(resent[0], pkt);
}

#[test]
fn invalid_datagram_is_dropped() {
    let mut a = PeerAckState::new();
    assert!(accept_packet(&mut a, &[1, 2, 3]).is_none());
    assert_eq!(a.header_ack_fields(), (0, 0));
}

#[test]
fn ack_history_records_received_sequences() {
    let mut a = PeerAckState::new();
    a.on_recv(1);
    // the first packet: nothing before it was received
    assert_eq!(a.header_ack_fields(), (1, 0));
    a.on_recv(3);
    // last 3; bit 1 = seq 1
    assert_eq!(a.header_ack_fields(), (3, 0b10));
    // an older packet only sets its bit
    a.on_recv(2);
    assert_eq!(a.header_ack_fields(), (3, 0b11));
    let mut b = PeerAckState::new();
    b.on_recv(5);
    assert_eq!(b.header_ack_fields(), (5, 0));
    assert_eq!(a.on_send(false, b""), 0);
    assert_eq!(a.on_send(false, b""), 1);
}

// ─── peer and session ───────────────────────────────────────────────────────

#[test]
fn peer_connects_on_first_packet() {
    assert_eq!(status_after_packet(PeerStatus::Connecting), PeerStatus::Connected);
    assert_eq!(status_after_packet(PeerStatus::Connected), PeerStatus::Connected);
    assert_eq!(status_after_packet(PeerStatus::Disconnected), PeerStatus::Disconnected);
}

#[test]
fn session_decisions() {
    let el = Some(ElectionResult { coordinator_id: 1, shadow_id: 0, token: 9 });
    let takeover = NetMessage::Takeover { from_tick: 1, state_hash: 2, token: 9 };
    assert_eq!(inbound_action(&takeover, &el), InboundAction::Ignore);
    let forged = NetMessage::Takeover { from_tick: 1, state_hash: 2, token: 8 };
    assert_eq!(inbound_action(&forged, &el), InboundAction::RejectTakeover);
    assert_eq!(inbound_action(&forged, &None), InboundAction::Ignore);
    assert_eq!(
        inbound_action(&input_message(70000, 3), &el),
        InboundAction::DeliverInput { player_id: 3, tick: 70000 }
    );
    assert_eq!(
        inbound_action(&NetMessage::PingTime { t1_us: 5 }, &el),
        InboundAction::AnswerPing { t1_us: 5 }
    );
    assert_eq!(
        inbound_action(&NetMessage::StateChecksum { tick: 60, hash: 7 }, &el),
        InboundAction::CompareChecksum { tick: 60, hash: 7 }
    );
    assert!(checksum_due(120, 60));
    assert!(!checksum_due(119, 60));
    assert!(diverged(60, 60, 1, 2));
    assert!(!diverged(59, 60, 1, 2));
    assert!(!diverged(60, 60, 2, 2));
    assert_eq!(welcome_tick_start(100), 160);
    match hello_message(RoomId([1u8; 32]), 4) {
        NetMessage::Hello { room_id, player_id, version } => {
            assert_eq!(room_id, RoomId([1u8; 32]));
            assert_eq!(player_id, 4);
            assert_eq!(version, 1);
        }
        _ => panic!("expected a hello"),
    }
    let statuses = [PeerStatus::Connected, PeerStatus::Connecting, PeerStatus::Connected];
    assert_eq!(count_connected(&statuses), 2);
    assert!(has_peer(&[3, 5], 5));
    assert!(!has_peer(&[3, 5], 4));
}

#[test]
fn tick_and_resync_decisions() {
    assert_eq!(TICK_DUS, 16_667);
    assert_eq!(tick_at(16_667 * 10, 0), 10);
    assert_eq!(tick_at(16_667 * 10 - 1, 0), 9);
    assert_eq!(tick_at(100, 16_667), 1);
    assert_eq!(tick_at(100, -200), 0);
    assert!(!resync_due(29_999));
    assert!(resync_due(30_000));
}

#[test]
fn window_check_before_and_after_first_packet() {
    let mut a = PeerAckState::new();
    let far = PacketHeader { sequence: 200, ack: 0, ack_bits: 0, kind: PacketKind::Unreliable };
    // nothing received yet: any sequence starts the history
    assert!(in_window(&a, &far));
    a.on_recv(10);
    let near = PacketHeader { sequence: 42, ack: 0, ack_bits: 0, kind: PacketKind::Unreliable };
    let ahead = PacketHeader { sequence: 43, ack: 0, ack_bits: 0, kind: PacketKind::Unreliable };
    let opposite = PacketHeader { sequence: 138, ack: 0, ack_bits: 0, kind: PacketKind::Unreliable };
    assert!(in_window(&a, &near));
    assert!(!in_window(&a, &ahead));
    assert!(!in_window(&a, &opposite));
}

#[test]
fn punch_steps_follow_replies_attempts_and_deadline() {
    assert_eq!(PUNCH_ATTEMPTS, 10);
    assert_eq!(punch_step(0, false, PunchReply::Probe), PunchStep::ReplyPongAndConnect);
    assert_eq!(punch_step(9, true, PunchReply::Pong), PunchStep::Connect);
    assert_eq!(punch_step(0, false, PunchReply::Other), PunchStep::Retry);
    assert_eq!(punch_step(8, false, PunchReply::Other), PunchStep::Retry);
    assert_eq!(punch_step(9, false, PunchReply::Other), PunchStep::Fail);
    assert_eq!(punch_step(3, true, PunchReply::Other), PunchStep::Fail);
    assert!(!punch_deadline_passed(4999));
    assert!(punch_deadline_passed(5000));
}
