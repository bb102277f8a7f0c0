use relay_core::server::SocketManager;
use relay_core::state::UserState;
use relay_core::vec3::Vec3;

fn ids_of(deliveries: &[relay_core::server::Delivery]) -> Vec<usize> {
    deliveries.iter().map(|d| d.to).collect()
}

#[test]
fn connect_assigns_monotonic_ids() {
    let mut m = SocketManager::new();
    let (id1, _) = m.connect();
    let (id2, _) = m.connect();
    let (id3, _) = m.connect();
    assert_eq!((id1, id2, id3), (1, 2, 3));
}

#[test]
fn first_connect_gets_empty_snapshot_and_no_join_broadcast() {
    let mut m = SocketManager::new();
    let (id, out) = m.connect();
    assert_eq!(id, 1);
    assert_eq!(out.len(), 1);
    assert_eq!(out[0].to, 1);
    assert_eq!(out[0].payload, b"0 1 {}".to_vec());
}

#[test]
fn join_broadcast_excludes_the_newcomer() {
    let mut m = SocketManager::new();
    m.connect();
    m.connect();
    let (id3, out) = m.connect();
    // the init delivery goes to the newcomer, the join broadcast to the rest
    assert_eq!(out[0].to, id3);
    let joins: Vec<&relay_core::server::Delivery> = out.iter().skip(1).collect();
    assert_eq!(joins.len(), 2);
    assert!(joins.iter().all(|d| d.to != id3));
    assert_eq!(ids_of(&out[1..]), vec![1, 2]);
    assert!(joins.iter().all(|d| d.payload == b"1 3".to_vec()));
}

#[test]
fn join_snapshot_holds_every_registered_user_with_its_state() {
    let mut m = SocketManager::new();
    m.connect();
    m.connect();
    m.client_message(1, &b"3 1.5,0,0".to_vec());
    let (_, out) = m.connect();
    assert_eq!(out[0].to, 3);
    let expected = "0 3 {\"1\":{\"user_id\":1,\"position\":[1.5,0,0],\"rotation\":[0,0,0]},\"2\":{\"user_id\":2,\"position\":[0,0,0],\"rotation\":[0,0,0]}}";
    assert_eq!(out[0].payload, expected.as_bytes().to_vec());
}

#[test]
fn move_broadcast_excludes_sender_and_keeps_raw_delta() {
    let mut m = SocketManager::new();
    m.connect();
    m.connect();
    m.connect();
    let out = m.client_message(2, &b"3 1.5,0,0".to_vec());
    assert_eq!(ids_of(&out), vec![1, 3]);
    assert!(out.iter().all(|d| d.payload == b"3 2 1.5,0,0".to_vec()));
}

#[test]
fn rotate_broadcast_excludes_sender() {
    let mut m = SocketManager::new();
    m.connect();
    m.connect();
    let out = m.client_message(1, &b"4 0,90,0".to_vec());
    assert_eq!(ids_of(&out), vec![2]);
    assert_eq!(out[0].payload, b"4 1 0,90,0".to_vec());
}

#[test]
fn shoot_rebroadcasts_both_tokens_untouched() {
    let mut m = SocketManager::new();
    m.connect();
    m.connect();
    let before = m.world.get_all_users_states();
    let out = m.client_message(1, &b"5 1,2,3 0,0,-1".to_vec());
    assert_eq!(ids_of(&out), vec![2]);
    assert_eq!(out[0].payload, b"5 1 1,2,3 0,0,-1".to_vec());
    // shoot never touches the store
    assert_eq!(m.world.get_all_users_states(), before);
}

#[test]
fn accumulation_not_replacement() {
    let mut m = SocketManager::new();
    let (id, _) = m.connect();
    m.client_message(id, &b"3 1,0,0".to_vec());
    m.client_message(id, &b"3 1,0,0".to_vec());
    let states = m.world.get_all_users_states();
    assert_eq!(states.len(), 1);
    assert_eq!(states[0].user_id, id);
    // twice the delta, not the delta: 2 units, not 1
    assert_eq!(states[0].position, Vec3 { x: 2000, y: 0, z: 0 });
    assert_eq!(states[0].rotation, Vec3 { x: 0, y: 0, z: 0 });
}

#[test]
fn accumulation_saturates_at_the_coordinate_bound() {
    let mut m = SocketManager::new();
    let (id, _) = m.connect();
    m.client_message(id, &b"3 1000000000000,0,0".to_vec());
    m.client_message(id, &b"3 1000000000000,0,0".to_vec());
    let states = m.world.get_all_users_states();
    assert_eq!(states[0].position.x, 1_000_000_000_000_000);
}

#[test]
fn cleanup_on_disconnect() {
    let mut m = SocketManager::new();
    m.connect();
    m.connect();
    m.client_message(2, &b"3 4,5,6".to_vec());
    let out = m.disconnect(2);
    assert_eq!(ids_of(&out), vec![1]);
    assert_eq!(out[0].payload, b"2 2".to_vec());
    let states = m.world.get_all_users_states();
    assert!(states.iter().all(|u| u.user_id != 2));
    // a later newcomer's snapshot omits the departed user
    let (_, out3) = m.connect();
    let expected = "0 3 {\"1\":{\"user_id\":1,\"position\":[0,0,0],\"rotation\":[0,0,0]}}";
    assert_eq!(out3[0].payload, expected.as_bytes().to_vec());
}

#[test]
fn double_disconnect_is_a_quiet_no_op() {
    let mut m = SocketManager::new();
    m.connect();
    m.connect();
    let first = m.disconnect(1);
    assert_eq!(first.len(), 1);
    let before = m.world.get_all_users_states();
    let second = m.disconnect(1);
    assert_eq!(second.len(), 0);
    assert_eq!(m.world.get_all_users_states(), before);
}

#[test]
fn disconnect_of_unknown_id_is_a_no_op() {
    let mut m = SocketManager::new();
    m.connect();
    let out = m.disconnect(99);
    assert!(out.is_empty());
}

#[test]
fn unknown_tag_is_dropped_without_closing_anything() {
    let mut m = SocketManager::new();
    m.connect();
    m.connect();
    let before = m.world.get_all_users_states();
    let out = m.client_message(1, &b"{\"type\":\"danceParty\"}".to_vec());
    assert!(out.is_empty());
    assert_eq!(m.world.get_all_users_states(), before);
    // the sender is still registered and can still broadcast
    let out2 = m.client_message(1, &b"3 1,0,0".to_vec());
    assert_eq!(ids_of(&out2), vec![2]);
}

#[test]
fn malformed_payload_is_dropped() {
    let mut m = SocketManager::new();
    m.connect();
    m.connect();
    assert!(m.client_message(1, &b"3".to_vec()).is_empty());
    assert!(m.client_message(1, &b"3 1,0".to_vec()).is_empty());
    assert!(m.client_message(1, &b"3 1,0,0,0".to_vec()).is_empty());
    assert!(m.client_message(1, &b"3 a,b,c".to_vec()).is_empty());
    assert!(m.client_message(1, &b"5 1,2,3".to_vec()).is_empty());
    assert!(m.world.get_all_users_states().iter().all(
        |u: &UserState| u.position == Vec3 { x: 0, y: 0, z: 0 }
    ));
}

#[test]
fn events_from_unregistered_ids_are_dropped() {
    let mut m = SocketManager::new();
    m.connect();
    let out = m.client_message(0, &b"3 1,0,0".to_vec());
    assert!(out.is_empty());
    assert!(m.world.get_all_users_states().iter().all(|u| u.user_id != 0));
}

#[test]
fn emit_message_skips_only_the_excluded_id() {
    let mut m = SocketManager::new();
    m.connect();
    m.connect();
    m.connect();
    let out = m.emit_message(&b"hello".to_vec(), 2);
    assert_eq!(ids_of(&out), vec![1, 3]);
    assert!(out.iter().all(|d| d.payload == b"hello".to_vec()));
    let all = m.emit_message(&b"x".to_vec(), 0);
    assert_eq!(ids_of(&all), vec![1, 2, 3]);
}

#[test]
fn trailing_tokens_after_the_delta_are_ignored() {
    let mut m = SocketManager::new();
    m.connect();
    m.connect();
    let out = m.client_message(1, &b"3 1,0,0 junk".to_vec());
    assert_eq!(ids_of(&out), vec![2]);
    assert_eq!(out[0].payload, b"3 1 1,0,0".to_vec());
}
