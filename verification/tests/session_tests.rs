use raycoord::http::fix_content_type;
use raycoord::session::Session;

#[test]
fn handshake_accepts_versions_zero_and_one() {
    let s0 = Session::start(&vec![0, 0, 0, 0]).expect("version 0 accepted");
    assert_eq!(s0.version, 0);
    let s1 = Session::start(&vec![0, 0, 0, 1]).expect("version 1 accepted");
    assert_eq!(s1.version, 1);
    assert!(Session::start(&vec![0, 0, 0, 2]).is_none());
    assert!(Session::start(&vec![1, 0, 0, 0]).is_none());
}

#[test]
fn responses_balance_requests() {
    let mut s = Session::start(&vec![0, 0, 0, 1]).expect("accepted");
    for _ in 0..5 {
        s.note_request();
        s.note_response();
        assert_eq!(s.requests_read, s.responses_written);
    }
    assert_eq!(s.requests_read, 5);
    assert_eq!(s.responses_written, 5);
}

#[test]
fn dlna_mpeg_tts_is_rewritten_to_octet_stream() {
    let hit = fix_content_type(&b"video/vnd.dlna.mpeg-tts".to_vec());
    assert_eq!(hit, Some(b"application/octet-stream".to_vec()));
    assert_eq!(fix_content_type(&b"video/mp4".to_vec()), None);
    assert_eq!(fix_content_type(&Vec::new()), None);
}

#[test]
fn client_ids_wrap_their_raw_counter_value() {
    let id = raycoord::client_id::ClientId::new(41);
    assert_eq!(id.0, 41);
    assert_eq!(raycoord::tile::TileAddr { frame: 1, x: 3, y: 2 }.rays_index(), 19);
}
