use idaptik_engine::codec::FormatError;
use idaptik_engine::system::{GameSystem, PlayerInput};

#[test]
fn test_serialize_empty_world_exact() {
    let game = GameSystem::new(5000, 6000);
    let text = game.serialize_state().unwrap();
    // width, height, ambient light, then three empty collections
    assert_eq!(text, "5000 6000 300 0 0 0");
}

#[test]
fn test_round_trip() {
    let mut game = GameSystem::new(100_000, 100_000);
    let player_id = game.spawn_player(10_000, 10_000);
    game.spawn_guard(50_000, 50_000);
    game.add_obstacle(30_000, 30_000, 2000);
    game.add_light(20_000, 20_000, 15_000, 800);
    game.apply_player_input(
        player_id,
        PlayerInput { move_x: 1000, move_y: -1000, sprint: true, crouch: false, prone: false },
    );
    game.update(16);
    game.update(16);

    let text = game.serialize_state().unwrap();

    let mut other = GameSystem::new(1000, 1000);
    other.deserialize_state(&text).unwrap();

    assert_eq!(other.world.entities, game.world.entities);
    assert_eq!(other.world.obstacles, game.world.obstacles);
    assert_eq!(other.world.lights, game.world.lights);
    assert_eq!(other.world.width, game.world.width);
    assert_eq!(other.world.height, game.world.height);
    assert_eq!(other.world.ambient_light, game.world.ambient_light);
}

#[test]
fn test_deserialize_keeps_counter_and_time() {
    let mut game = GameSystem::new(100_000, 100_000);
    game.spawn_player(10_000, 10_000);
    game.update(16);
    let text = game.serialize_state().unwrap();

    let mut other = GameSystem::new(100_000, 100_000);
    other.spawn_player(1000, 1000);
    other.spawn_guard(2000, 2000);
    other.update(50);
    other.deserialize_state(&text).unwrap();

    // the world is replaced wholesale; the identity counter and the
    // elapsed time are not
    assert_eq!(other.world.entities.len(), 1);
    assert_eq!(other.next_entity_id, 3);
    assert_eq!(other.get_time(), 50);
}

#[test]
fn test_deserialize_bad_number() {
    let mut game = GameSystem::new(100_000, 100_000);
    game.spawn_player(10_000, 10_000);
    let err = game.deserialize_state("5000 6000 3x0 0 0 0").unwrap_err();
    assert_eq!(err, FormatError::BadNumber);
    // the prior state is untouched
    assert_eq!(game.world.entities.len(), 1);
    assert_eq!(game.world.width, 100_000);
}

#[test]
fn test_deserialize_bad_structure() {
    let mut game = GameSystem::new(100_000, 100_000);
    game.spawn_player(10_000, 10_000);
    // numbers, but not a valid framing: truncated after the header
    let err = game.deserialize_state("5000 6000 300 1").unwrap_err();
    assert_eq!(err, FormatError::BadStructure);
    assert_eq!(game.world.entities.len(), 1);

    // duplicate identities are structurally invalid
    let mut donor = GameSystem::new(5000, 6000);
    donor.spawn_player(1000, 1000);
    let one = donor.serialize_state().unwrap();
    let entity_part = one.strip_prefix("5000 6000 300 1 ").unwrap();
    let entity_part = entity_part.strip_suffix(" 0 0").unwrap();
    let doubled = format!("5000 6000 300 2 {} {} 0 0", entity_part, entity_part);
    let err = game.deserialize_state(&doubled).unwrap_err();
    assert_eq!(err, FormatError::BadStructure);
}

#[test]
fn test_deserialize_rejects_junk() {
    let mut game = GameSystem::new(100_000, 100_000);
    assert!(game.deserialize_state("").is_err());
    assert!(game.deserialize_state("   ").is_err());
    assert!(game.deserialize_state("1 2 -").is_err());
    assert!(game.deserialize_state("1 2 007").is_err());
    assert!(game.deserialize_state("99999999999999999999 0 0 0").is_err());
}
