use p2p_rtc::p2p_connection::inner::{
    answer_response, check_id_message, check_id_response, conclude_check_response, request_response,
    routed_message,
};
use p2p_rtc::p2p_connection::{
    channel_open_check, classify_peer_message, ChannelState, DataChannel, IceConnectionState,
    PeerConnectionState, PeerEvent, PeerListener, RtcConnectionError,
};
use p2p_rtc::socket_cmd;
use p2p_rtc::websocket::{split_command, MessageGatherer, SocketListener};

#[test]
fn data_channel_fifo() {
    let mut ch = DataChannel::new();
    assert!(ch.is_open());
    let mut out = Vec::new();
    assert!(!ch.pop_message(&mut out));
    ch.push_message(&[1, 2, 3]);
    ch.push_message(&[]);
    ch.push_message(&[9]);
    assert!(ch.pop_message(&mut out));
    assert_eq!(out, vec![1, 2, 3]);
    assert!(!ch.pop_message(&mut out));
    assert_eq!(out, vec![1, 2, 3]);
    assert!(ch.pop_message(&mut out));
    assert_eq!(out, vec![1, 2, 3, 9]);
    assert!(!ch.pop_message(&mut out));
    assert_eq!(ch.check_send(), Ok(()));
    ch.close();
    assert!(!ch.is_open());
    assert_eq!(ch.check_send(), Err(()));
}

#[test]
fn channel_open_checks() {
    assert_eq!(
        channel_open_check(PeerConnectionState::Failed, IceConnectionState::Connected, Some(ChannelState::Open)),
        Err(RtcConnectionError::RtcConnectionFailed)
    );
    assert_eq!(
        channel_open_check(PeerConnectionState::Disconnected, IceConnectionState::Failed, None),
        Err(RtcConnectionError::RtcConnectionFailed)
    );
    assert_eq!(
        channel_open_check(PeerConnectionState::Connecting, IceConnectionState::Failed, None),
        Err(RtcConnectionError::IceConnectionFailed)
    );
    assert_eq!(channel_open_check(PeerConnectionState::Connected, IceConnectionState::Checking, None), Ok(None));
    assert_eq!(
        channel_open_check(PeerConnectionState::Connected, IceConnectionState::Checking, Some(ChannelState::Connecting)),
        Ok(Some(()))
    );
    assert_eq!(
        channel_open_check(PeerConnectionState::Connecting, IceConnectionState::Checking, Some(ChannelState::Open)),
        Ok(Some(()))
    );
    assert_eq!(
        channel_open_check(PeerConnectionState::New, IceConnectionState::New, Some(ChannelState::Connecting)),
        Ok(None)
    );
}

#[test]
fn formats_messages() {
    assert_eq!(routed_message("#OFFER", 3, 12, "{\"a\":1}"), "#OFFER 3 12 {\"a\":1}");
    assert_eq!(check_id_message(42), "#CHECK_ID 42");
    assert_eq!(routed_message(socket_cmd::REQUEST_P2P, 0, u64::MAX, "hi"), format!("#REQUEST_P2P 0 {} hi", u64::MAX));
}

#[test]
fn classifies_peer_messages() {
    match classify_peer_message(socket_cmd::REQUEST_P2P, "5 8 please connect ") {
        PeerEvent::Request { sender_id, message } => {
            assert_eq!(sender_id, 8);
            assert_eq!(message, "please connect");
        }
        _ => panic!("expected a request"),
    }
    match classify_peer_message(socket_cmd::OFFER, "5 8 {\"sdp\":\"v=0\"}") {
        PeerEvent::Offer { sender_id, offer } => {
            assert_eq!(sender_id, 8);
            assert_eq!(offer, "{\"sdp\":\"v=0\"}");
        }
        _ => panic!("expected an offer"),
    }
    assert!(matches!(classify_peer_message(socket_cmd::ANSWER, "5 8 x"), PeerEvent::Ignored));
    assert!(matches!(classify_peer_message(socket_cmd::OFFER, "x 8 y"), PeerEvent::Ignored));
    assert!(matches!(classify_peer_message(socket_cmd::OFFER, "5 y z"), PeerEvent::Ignored));
}

#[test]
fn listener_whitelist() {
    let mut l = PeerListener::new();
    assert!(!l.accepts_offer(8));
    assert_eq!(l.answer_request(8, 5, true), "#REQUEST_P2P_RES 8 5 true");
    assert_eq!(l.answer_request(9, 5, false), "#REQUEST_P2P_RES 9 5 false");
    assert!(l.accepts_offer(8));
    assert!(!l.accepts_offer(9));
    assert_eq!(l.tick(), 200);
    assert_eq!(l.tick(), 400);
    assert_eq!(l.time(), 400);
}

fn gather(messages: &[&str]) -> MessageGatherer {
    let mut g = MessageGatherer::new();
    for m in messages {
        let (c, d) = split_command(m);
        g.listen(&mut (), c, d);
    }
    g
}

#[test]
fn check_id_responses() {
    let mut g = gather(&["#OTHER 1", "#CHECK_ID_RES 4 true", "#LATER x"]);
    assert_eq!(check_id_response(&mut g, 4), Ok(Some(true)));
    assert_eq!(g.pop_message(), Some(("#LATER".to_string(), "x".to_string())));
    let mut g = gather(&["#CHECK_ID_RES 4 false"]);
    assert_eq!(check_id_response(&mut g, 4), Ok(Some(false)));
    let mut g = gather(&["#CHECK_ID_RES 3 true"]);
    assert_eq!(check_id_response(&mut g, 4), Ok(None));
    let mut g = gather(&["#CHECK_ID_RES x true"]);
    assert_eq!(check_id_response(&mut g, 4), Err(RtcConnectionError::IdParsingError));
    let mut g = gather(&["#OTHER 1"]);
    assert_eq!(check_id_response(&mut g, 4), Ok(None));
    assert_eq!(g.pop_message(), None);
}

#[test]
fn check_conclusion() {
    let mut g = gather(&["#A 1"]);
    assert_eq!(conclude_check_response(&mut g, Ok(true)), Ok(()));
    assert_eq!(g.pop_message(), None);
    let mut g = gather(&["#A 1"]);
    assert_eq!(conclude_check_response(&mut g, Ok(false)), Err(RtcConnectionError::PeerDoesNotExist));
    let mut g = gather(&["#A 1"]);
    assert_eq!(
        conclude_check_response(&mut g, Err(RtcConnectionError::CheckResponseTimeout)),
        Err(RtcConnectionError::CheckResponseTimeout)
    );
    assert!(g.pop_message().is_some());
}

#[test]
fn request_responses() {
    let mut g = gather(&["#REQUEST_P2P_RES 5 8 true"]);
    assert_eq!(request_response(&mut g, 8), Ok(Some(true)));
    let mut g = gather(&["#REQUEST_P2P_RES 5 8 nope"]);
    assert_eq!(request_response(&mut g, 8), Ok(Some(false)));
    let mut g = gather(&["#REQUEST_P2P_RES 5 9 true"]);
    assert_eq!(request_response(&mut g, 8), Ok(None));
    let mut g = gather(&["#REQUEST_P2P_RES 5 x true"]);
    assert_eq!(request_response(&mut g, 8), Err(RtcConnectionError::IdParsingError));
    let mut g = gather(&["#REQUEST_P2P_RES x"]);
    assert_eq!(request_response(&mut g, 8), Err(RtcConnectionError::IdParsingError));
}

#[test]
fn answer_responses() {
    let mut g = gather(&["#ANSWER 5 9 other", "#ANSWER 5 8  {\"sdp\":1} ", "#ANSWER 5 8 later"]);
    assert_eq!(answer_response(&mut g, 8), Ok(Some("{\"sdp\":1}".to_string())));
    assert_eq!(g.pop_message(), Some(("#ANSWER".to_string(), "5 8 later".to_string())));
    let mut g = gather(&["#OTHER 1", "#ANSWER 5 8 x"]);
    assert_eq!(answer_response(&mut g, 8), Ok(None));
    assert_eq!(answer_response(&mut g, 8), Ok(Some("x".to_string())));
    let mut g = gather(&["#ANSWER y"]);
    assert_eq!(answer_response(&mut g, 8), Err(RtcConnectionError::IdParsingError));
    let mut g = MessageGatherer::new();
    assert_eq!(answer_response(&mut g, 8), Ok(None));
}

#[test]
fn answer_round_trip() {
    let sent = routed_message(socket_cmd::ANSWER, 5, 8, "  {\"type\":\"answer\"}\n");
    let mut g = gather(&[&sent]);
    assert_eq!(answer_response(&mut g, 8), Ok(Some("{\"type\":\"answer\"}".to_string())));
}

#[test]
fn request_round_trip() {
    let mut listener = PeerListener::new();
    let request = routed_message(socket_cmd::REQUEST_P2P, 5, 8, "let me in");
    let (command, data) = split_command(&request);
    let reply = match classify_peer_message(command, data) {
        PeerEvent::Request { sender_id, message } => {
            assert_eq!(message, "let me in");
            listener.answer_request(sender_id, 5, true)
        }
        _ => panic!("expected a request"),
    };
    let mut g = gather(&[&reply]);
    assert_eq!(request_response(&mut g, 5), Ok(Some(true)));
    let offer = routed_message(socket_cmd::OFFER, 5, 8, "sdp");
    let (command, data) = split_command(&offer);
    match classify_peer_message(command, data) {
        PeerEvent::Offer { sender_id, offer } => {
            assert!(listener.accepts_offer(sender_id));
            assert_eq!(offer, "sdp");
        }
        _ => panic!("expected an offer"),
    }
}
