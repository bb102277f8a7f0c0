use relay_core::state::WorldState;
use relay_core::vec3::Vec3;
use relay_core::vec3::COORD_LIMIT;

#[test]
fn updates_accumulate_per_user() {
    let mut w = WorldState::new();
    w.update_user_position(1, Vec3 { x: 1000, y: 0, z: 0 });
    w.update_user_position(1, Vec3 { x: 500, y: -250, z: 0 });
    w.update_user_rotation(1, Vec3 { x: 0, y: 90_000, z: 0 });
    let states = w.get_all_users_states();
    assert_eq!(states.len(), 1);
    assert_eq!(states[0].user_id, 1);
    assert_eq!(states[0].position, Vec3 { x: 1500, y: -250, z: 0 });
    assert_eq!(states[0].rotation, Vec3 { x: 0, y: 90_000, z: 0 });
}

#[test]
fn first_update_starts_from_zero() {
    let mut w = WorldState::new();
    w.update_user_rotation(4, Vec3 { x: 0, y: 0, z: -500 });
    let states = w.get_all_users_states();
    assert_eq!(states[0].position, Vec3 { x: 0, y: 0, z: 0 });
    assert_eq!(states[0].rotation, Vec3 { x: 0, y: 0, z: -500 });
}

#[test]
fn accumulation_saturates_at_the_bounds() {
    let mut w = WorldState::new();
    w.update_user_position(1, Vec3 { x: COORD_LIMIT, y: -COORD_LIMIT, z: 0 });
    w.update_user_position(1, Vec3 { x: COORD_LIMIT, y: -COORD_LIMIT, z: 1 });
    let states = w.get_all_users_states();
    assert_eq!(states[0].position, Vec3 { x: COORD_LIMIT, y: -COORD_LIMIT, z: 1 });
}

#[test]
fn remove_deletes_exactly_one_user() {
    let mut w = WorldState::new();
    w.update_user_position(1, Vec3 { x: 1, y: 2, z: 3 });
    w.update_user_position(2, Vec3 { x: 4, y: 5, z: 6 });
    w.remove_user_position(1);
    let states = w.get_all_users_states();
    assert_eq!(states.len(), 1);
    assert_eq!(states[0].user_id, 2);
    // removing an absent user is a no-op
    w.remove_user_position(1);
    assert_eq!(w.get_all_users_states().len(), 1);
}

#[test]
fn snapshot_is_a_copy() {
    let mut w = WorldState::new();
    w.update_user_position(1, Vec3 { x: 1000, y: 0, z: 0 });
    let snap = w.get_all_users_states();
    w.update_user_position(1, Vec3 { x: 1000, y: 0, z: 0 });
    assert_eq!(snap[0].position, Vec3 { x: 1000, y: 0, z: 0 });
    assert_eq!(w.get_all_users_states()[0].position, Vec3 { x: 2000, y: 0, z: 0 });
}
