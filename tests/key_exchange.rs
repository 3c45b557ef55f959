use audio_key::manager::{
    AudioKeyError, AudioKeyManager, DecodeError, FileId, Requested, Resolution, SpotifyId,
};
use audio_key::wire::{read_key, read_sequence, request_payload, CMD_KEY_FAILED, CMD_KEY_OK};

fn track(n: u8) -> SpotifyId {
    let mut raw = [0u8; 16];
    for (i, b) in raw.iter_mut().enumerate() {
        *b = n.wrapping_add(i as u8);
    }
    SpotifyId(raw)
}

fn file(n: u8) -> FileId {
    let mut raw = [0u8; 20];
    for (i, b) in raw.iter_mut().enumerate() {
        *b = n.wrapping_mul(3).wrapping_add(i as u8);
    }
    FileId(raw)
}

fn key(n: u8) -> [u8; 16] {
    [n; 16]
}

fn success(seq: u32, k: [u8; 16]) -> Vec<u8> {
    let mut data = seq.to_be_bytes().to_vec();
    data.extend_from_slice(&k);
    data
}

fn failure(seq: u32) -> Vec<u8> {
    seq.to_be_bytes().to_vec()
}

fn expected_payload(t: &SpotifyId, f: &FileId, seq: u32) -> Vec<u8> {
    let mut p = f.0.to_vec();
    p.extend_from_slice(&t.0);
    p.extend_from_slice(&seq.to_be_bytes());
    p.extend_from_slice(&[0, 0]);
    p
}

/// Requests an unknown identity and records the send; returns its sequence id.
fn send(m: &mut AudioKeyManager, t: SpotifyId, f: FileId, waiter: u64) -> u32 {
    match m.request(t, f, waiter) {
        Requested::Send(p) => {
            let seq = m.confirm_sent(t, f, waiter).expect("sequence id");
            assert_eq!(p, expected_payload(&t, &f, seq));
            seq
        }
        _ => panic!("expected a request to send"),
    }
}

fn resolved(r: Result<Option<Resolution>, DecodeError>) -> (Vec<u64>, Result<[u8; 16], AudioKeyError>) {
    let res = r.expect("well-formed").expect("a matching request");
    (res.waiters, res.outcome)
}

#[test]
fn first_requests_use_increasing_sequence_ids() {
    let mut m = AudioKeyManager::new();
    assert_eq!(send(&mut m, track(1), file(1), 10), 1);
    assert_eq!(send(&mut m, track(2), file(2), 11), 2);
    assert_eq!(send(&mut m, track(1), file(2), 12), 3);
}

#[test]
fn request_payload_layout() {
    let t = track(7);
    let f = file(9);
    let p = request_payload(&t.0, &f.0, 0x0102_0304);
    assert_eq!(p.len(), 42);
    assert_eq!(&p[..20], &f.0[..]);
    assert_eq!(&p[20..36], &t.0[..]);
    assert_eq!(&p[36..], &[1, 2, 3, 4, 0, 0]);
}

#[test]
fn response_fields_are_read() {
    assert_eq!(read_sequence(&[0xde, 0xad, 0xbe, 0xef, 9]), Some(0xdead_beef));
    assert_eq!(read_sequence(&[1, 2, 3]), None);
    let data = success(5, [0x42; 16]);
    assert_eq!(read_key(&data), Some([0x42; 16]));
    assert_eq!(read_key(&data[..19]), None);
}

#[test]
fn concurrent_requests_send_once_and_share_the_outcome() {
    let mut m = AudioKeyManager::new();
    let seq = send(&mut m, track(1), file(1), 1);
    assert!(matches!(m.request(track(1), file(1), 2), Requested::Waiting));
    assert_eq!(m.confirm_sent(track(1), file(1), 2), None);
    let (waiters, outcome) = resolved(m.handle(CMD_KEY_OK, &success(seq, key(5))));
    assert_eq!(waiters, vec![1, 2]);
    assert_eq!(outcome, Ok(key(5)));
}

#[test]
fn success_resolves_identity() {
    let mut m = AudioKeyManager::new();
    let seq = send(&mut m, track(3), file(4), 7);
    let (waiters, outcome) = resolved(m.handle(CMD_KEY_OK, &success(seq, key(9))));
    assert_eq!(waiters, vec![7]);
    assert_eq!(outcome, Ok(key(9)));
    match m.request(track(3), file(4), 8) {
        Requested::Ready(r) => assert_eq!(r, Ok(key(9))),
        _ => panic!("expected the cached key"),
    }
}

#[test]
fn failure_fails_identity() {
    let mut m = AudioKeyManager::new();
    let seq = send(&mut m, track(3), file(4), 7);
    assert!(matches!(m.request(track(3), file(4), 8), Requested::Waiting));
    let (waiters, outcome) = resolved(m.handle(CMD_KEY_FAILED, &failure(seq)));
    assert_eq!(waiters, vec![7, 8]);
    assert_eq!(outcome, Err(AudioKeyError));
    match m.request(track(3), file(4), 9) {
        Requested::Ready(r) => assert_eq!(r, Err(AudioKeyError)),
        _ => panic!("expected the cached failure"),
    }
    assert_eq!(m.confirm_sent(track(3), file(4), 9), None);
}

#[test]
fn unknown_sequence_is_ignored() {
    let mut m = AudioKeyManager::new();
    let seq = send(&mut m, track(1), file(1), 1);
    assert!(matches!(m.handle(CMD_KEY_OK, &success(seq + 1, key(1))), Ok(None)));
    assert!(matches!(m.handle(CMD_KEY_FAILED, &failure(99)), Ok(None)));
    assert!(matches!(m.request(track(1), file(1), 2), Requested::Waiting));
}

#[test]
fn consumed_sequence_is_ignored() {
    let mut m = AudioKeyManager::new();
    let seq = send(&mut m, track(1), file(1), 1);
    let (_, outcome) = resolved(m.handle(CMD_KEY_OK, &success(seq, key(3))));
    assert_eq!(outcome, Ok(key(3)));
    assert!(matches!(m.handle(CMD_KEY_FAILED, &failure(seq)), Ok(None)));
    match m.request(track(1), file(1), 2) {
        Requested::Ready(r) => assert_eq!(r, Ok(key(3))),
        _ => panic!("expected the cached key"),
    }
}

#[test]
fn short_payloads_are_decode_errors() {
    let mut m = AudioKeyManager::new();
    let seq = send(&mut m, track(1), file(1), 1);
    assert!(matches!(m.handle(CMD_KEY_OK, &[0, 0, 1]), Err(DecodeError)));
    let mut short = success(seq, key(4));
    short.truncate(19);
    assert!(matches!(m.handle(CMD_KEY_OK, &short), Err(DecodeError)));
    // The request is still in flight and still answers.
    assert!(matches!(m.request(track(1), file(1), 2), Requested::Waiting));
    let (waiters, outcome) = resolved(m.handle(CMD_KEY_OK, &success(seq, key(4))));
    assert_eq!(waiters, vec![1, 2]);
    assert_eq!(outcome, Ok(key(4)));
}

#[test]
fn other_commands_are_ignored() {
    let mut m = AudioKeyManager::new();
    let seq = send(&mut m, track(1), file(1), 1);
    assert!(matches!(m.handle(0x0c, &success(seq, key(4))), Ok(None)));
    assert!(matches!(m.request(track(1), file(1), 2), Requested::Waiting));
}

#[test]
fn failed_send_leaves_no_trace() {
    let mut m = AudioKeyManager::new();
    // The payload is never sent: nothing is confirmed.
    assert!(matches!(m.request(track(1), file(1), 1), Requested::Send(_)));
    match m.request(track(1), file(1), 2) {
        Requested::Send(p) => assert_eq!(p, expected_payload(&track(1), &file(1), 1)),
        _ => panic!("expected a request to send"),
    }
}

#[test]
fn out_of_order_responses() {
    let mut m = AudioKeyManager::new();
    let s1 = send(&mut m, track(1), file(1), 100);
    let s2 = send(&mut m, track(2), file(2), 200);
    assert_eq!((s1, s2), (1, 2));
    let (waiters, outcome) = resolved(m.handle(CMD_KEY_OK, &success(2, key(0x22))));
    assert_eq!(waiters, vec![200]);
    assert_eq!(outcome, Ok(key(0x22)));
    assert!(matches!(m.request(track(1), file(1), 101), Requested::Waiting));
    let (waiters, outcome) = resolved(m.handle(CMD_KEY_FAILED, &failure(1)));
    assert_eq!(waiters, vec![100, 101]);
    assert_eq!(outcome, Err(AudioKeyError));
    match m.request(track(1), file(1), 102) {
        Requested::Ready(r) => assert_eq!(r, Err(AudioKeyError)),
        _ => panic!("expected the cached failure"),
    }
    match m.request(track(2), file(2), 202) {
        Requested::Ready(r) => assert_eq!(r, Ok(key(0x22))),
        _ => panic!("expected the cached key"),
    }
}

#[test]
fn track_id_raw_bytes() {
    assert_eq!(track(5).to_raw(), track(5).0);
}
