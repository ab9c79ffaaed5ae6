//! Configuration, diagnostics and texts.

use iroh_webrtc::config::{IceServer, WebRtcConfig};
use iroh_webrtc::peer_connection::diagnostics::{
    debug_record, summarize_sdp_candidates, webrtc_debug_clear, webrtc_debug_snapshot, DebugLog,
};
use iroh_webrtc::text::decimal_string;

#[test]
fn default_configuration_uses_public_stun_servers() {
    let config = WebRtcConfig::default();
    assert_eq!(config.ice_servers.len(), 1);
    let server = &config.ice_servers[0];
    assert_eq!(
        server.urls,
        vec![
            "stun:stun.l.google.com:19302",
            "stun:stun1.l.google.com:19302"
        ]
    );
    assert_eq!(server.username, None);
    assert_eq!(server.credential, None);
    assert_eq!(IceServer::default().urls, server.urls);
}

#[test]
fn log_is_joined_by_newlines() {
    let mut log = DebugLog::new();
    assert_eq!(webrtc_debug_snapshot(&log), "");
    debug_record(&mut log, "1700000000000", "first");
    assert_eq!(webrtc_debug_snapshot(&log), "[1700000000000] first");
    debug_record(&mut log, "1700000000001", "");
    debug_record(&mut log, "1700000000002", "third");
    assert_eq!(
        webrtc_debug_snapshot(&log),
        "[1700000000000] first\n[1700000000001] \n[1700000000002] third"
    );
    webrtc_debug_clear(&mut log);
    assert_eq!(webrtc_debug_snapshot(&log), "");
}

#[test]
fn log_keeps_the_last_entries() {
    let mut log = DebugLog::new();
    for n in 0..1030 {
        debug_record(&mut log, "0", &format!("{n}"));
    }
    let snapshot = webrtc_debug_snapshot(&log);
    let lines: Vec<&str> = snapshot.lines().collect();
    assert_eq!(lines.len(), 1024);
    assert_eq!(lines[0], "[0] 6");
    assert_eq!(lines[1023], "[0] 1029");
}

#[test]
fn candidates_are_counted_by_kind() {
    assert_eq!(
        summarize_sdp_candidates(""),
        "host=0 srflx=0 relay=0 prflx=0 total=0"
    );
    let sdp = "v=0\r\n\
        a=candidate:1 1 udp 1 192.168.1.1 5000 typ host\r\n\
        a=candidate:2 1 udp 1 203.0.113.5 5000 typ srflx raddr 192.168.1.1 rport 5000\r\n";
    assert_eq!(
        summarize_sdp_candidates(sdp),
        "host=1 srflx=1 relay=0 prflx=0 total=2"
    );
    let sdp = "a=candidate:1 typ relay\n\
        a=candidate:2 typ prflx\n\
        a=candidate:3 typ other\n \
        a=candidate:4 typ host\n\
        x a=candidate:5 typ host\n\
        a=candidate: typ relay typ host";
    assert_eq!(
        summarize_sdp_candidates(sdp),
        "host=1 srflx=0 relay=1 prflx=1 total=4"
    );
}

#[test]
fn many_candidates_are_counted() {
    let sdp = "a=candidate:1 typ host\r\n".repeat(123);
    assert_eq!(
        summarize_sdp_candidates(&sdp),
        "host=123 srflx=0 relay=0 prflx=0 total=123"
    );
}

#[test]
fn numbers_are_written_in_decimal() {
    for n in [0, 1, 2, 3, 4, 5, 6, 7, 8, 9, 10, 99, 100, 9876543210] {
        assert_eq!(decimal_string(n), format!("{n}"));
    }
}
