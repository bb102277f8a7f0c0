use relay_core::server::SocketManager;
use relay_core::session::FrameAction;
use relay_core::session::HeartbeatAction;
use relay_core::session::InboundFrame;
use relay_core::session::Phase;
use relay_core::session::SocketSession;
use relay_core::session::CLIENT_TIMEOUT;
use relay_core::session::HEARTBEAT_INTERVAL;

#[test]
fn registration_walks_connecting_to_active() {
    let mut s = SocketSession::new(0);
    assert_eq!(s.phase, Phase::Connecting);
    assert_eq!(s.id, 0);
    s.activate(7);
    assert_eq!(s.phase, Phase::Active);
    assert_eq!(s.id, 7);
}

#[test]
fn teardown_walks_closing_to_closed() {
    let mut s = SocketSession::new(0);
    s.activate(1);
    s.begin_close();
    assert_eq!(s.phase, Phase::Closing);
    s.finish_close();
    assert_eq!(s.phase, Phase::Closed);
}

#[test]
fn heartbeat_pings_within_the_window() {
    let mut s = SocketSession::new(0);
    s.activate(1);
    assert_eq!(s.heartbeat(HEARTBEAT_INTERVAL), HeartbeatAction::Ping);
    assert_eq!(s.heartbeat(CLIENT_TIMEOUT), HeartbeatAction::Ping);
    assert_eq!(s.phase, Phase::Active);
}

#[test]
fn heartbeat_timeout_forces_disconnect_and_leave_broadcast() {
    let mut m = SocketManager::new();
    let (id1, _) = m.connect();
    let (id2, _) = m.connect();
    let mut s = SocketSession::new(0);
    s.activate(id2);
    // silence past the timeout window: the next tick demands a disconnect
    let a = s.heartbeat(CLIENT_TIMEOUT + 1);
    assert_eq!(a, HeartbeatAction::Disconnect);
    assert_eq!(s.phase, Phase::Closing);
    let out = m.disconnect(s.id);
    assert_eq!(out.len(), 1);
    assert_eq!(out[0].to, id1);
    assert_eq!(out[0].payload, b"2 2".to_vec());
    assert!(m.world.get_all_users_states().iter().all(|u| u.user_id != id2));
    s.finish_close();
    assert_eq!(s.phase, Phase::Closed);
}

#[test]
fn liveness_frames_refresh_the_clock() {
    let mut s = SocketSession::new(0);
    s.activate(1);
    let a = s.handle_frame(InboundFrame::Ping(b"hi".to_vec()), 4);
    assert_eq!(a, FrameAction::Pong(b"hi".to_vec()));
    assert_eq!(s.hb, 4);
    let a2 = s.handle_frame(InboundFrame::Pong(Vec::new()), 9);
    assert_eq!(a2, FrameAction::Ignore);
    assert_eq!(s.hb, 9);
    // refreshed liveness keeps the session past the earlier deadline
    assert_eq!(s.heartbeat(9 + CLIENT_TIMEOUT), HeartbeatAction::Ping);
}

#[test]
fn text_is_forwarded_verbatim_without_touching_liveness() {
    let mut s = SocketSession::new(3);
    s.activate(1);
    let a = s.handle_frame(InboundFrame::Text(b"3 1,0,0".to_vec()), 8);
    assert_eq!(a, FrameAction::ForwardText(b"3 1,0,0".to_vec()));
    assert_eq!(s.hb, 3);
    assert_eq!(s.phase, Phase::Active);
}

#[test]
fn binary_is_observed_not_interpreted() {
    let mut s = SocketSession::new(0);
    s.activate(1);
    let a = s.handle_frame(InboundFrame::Binary(vec![1, 2, 3]), 5);
    assert_eq!(a, FrameAction::ForwardBinary(vec![1, 2, 3]));
    assert_eq!(s.phase, Phase::Active);
}

#[test]
fn close_and_continuation_frames_tear_down() {
    let mut s = SocketSession::new(0);
    s.activate(1);
    assert_eq!(s.handle_frame(InboundFrame::Close, 5), FrameAction::CloseConnection);
    assert_eq!(s.phase, Phase::Closing);
    let mut s2 = SocketSession::new(0);
    s2.activate(2);
    assert_eq!(
        s2.handle_frame(InboundFrame::Continuation, 5),
        FrameAction::CloseConnection
    );
    assert_eq!(s2.phase, Phase::Closing);
}

#[test]
fn nop_frames_change_nothing() {
    let mut s = SocketSession::new(2);
    s.activate(1);
    assert_eq!(s.handle_frame(InboundFrame::Nop, 9), FrameAction::Ignore);
    assert_eq!(s.hb, 2);
    assert_eq!(s.phase, Phase::Active);
}
