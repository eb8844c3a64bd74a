use idaptik_engine::system::{GameEvent, GameSystem, PlayerInput};
use idaptik_engine::types::{ActorState, EntityType, Stance};

fn input(move_x: i64, move_y: i64, sprint: bool, crouch: bool, prone: bool) -> PlayerInput {
    PlayerInput { move_x, move_y, sprint, crouch, prone }
}

#[test]
fn test_spawn_entities() {
    let mut game = GameSystem::new(100_000, 100_000);
    let player_id = game.spawn_player(10_000, 10_000);
    let guard_id = game.spawn_guard(50_000, 50_000);

    assert_eq!(game.world.entities.len(), 2);
    assert!(game.world.get_entity(player_id).is_some());
    assert!(game.world.get_entity(guard_id).is_some());
}

#[test]
fn test_player_input() {
    let mut game = GameSystem::new(100_000, 100_000);
    let player_id = game.spawn_player(10_000, 10_000);

    let input = PlayerInput {
        move_x: 1000,
        move_y: 0,
        sprint: false,
        crouch: true,
        prone: false,
    };

    game.apply_player_input(player_id, input);

    let player = game.world.get_entity(player_id).unwrap();
    assert_eq!(player.stance, Stance::Crouching);
    assert!(player.vel_x * player.vel_x + player.vel_y * player.vel_y > 0);
}

#[test]
fn test_update_loop() {
    let mut game = GameSystem::new(100_000, 100_000);
    game.spawn_player(10_000, 10_000);
    game.spawn_guard(50_000, 50_000);

    let events = game.update(16); // ~60 FPS
    assert!(events.is_empty()); // No immediate detection
}

#[test]
fn test_spawn_and_first_frame() {
    // distance ~56.6 units, beyond the guard's visibility radius of 20
    let mut game = GameSystem::new(100_000, 100_000);
    let player_id = game.spawn_player(10_000, 10_000);
    let guard_id = game.spawn_guard(50_000, 50_000);

    let events = game.update(16);
    assert!(events.is_empty());
    let player = game.world.get_entity(player_id).unwrap();
    assert_eq!((player.position.x, player.position.y), (10_000, 10_000));
    let guard = game.world.get_entity(guard_id).unwrap();
    assert_eq!((guard.position.x, guard.position.y), (50_000, 50_000));
}

#[test]
fn test_crouched_movement() {
    let mut game = GameSystem::new(100_000, 100_000);
    let player_id = game.spawn_player(10_000, 10_000);
    game.apply_player_input(player_id, input(1000, 0, false, true, false));

    let player = game.world.get_entity(player_id).unwrap();
    assert_eq!(player.stance, Stance::Crouching);
    assert_eq!(player.state, ActorState::Walking);
    // velocity magnitude = base speed 5.0 * 0.6 = 3.0, along +x
    assert_eq!((player.vel_x, player.vel_y), (3000, 0));
    // facing angle 0: the unit vector along +x
    assert_eq!((player.facing_x, player.facing_y), (1000, 0));
}

#[test]
fn test_sprint_speed() {
    let mut game = GameSystem::new(100_000, 100_000);
    let player_id = game.spawn_player(10_000, 10_000);
    game.apply_player_input(player_id, input(1000, 0, true, false, false));

    let player = game.world.get_entity(player_id).unwrap();
    assert_eq!(player.state, ActorState::Running);
    assert_eq!((player.vel_x, player.vel_y), (10_000, 0));
}

#[test]
fn test_prone_overrides_crouch() {
    let mut game = GameSystem::new(100_000, 100_000);
    let player_id = game.spawn_player(10_000, 10_000);
    game.apply_player_input(player_id, input(1000, 0, false, true, true));

    let player = game.world.get_entity(player_id).unwrap();
    assert_eq!(player.stance, Stance::Prone);
    // prone keeps 0.3 of the base speed 5.0
    assert_eq!((player.vel_x, player.vel_y), (1500, 0));
}

#[test]
fn test_input_to_missing_or_guard_is_noop() {
    let mut game = GameSystem::new(100_000, 100_000);
    let guard_id = game.spawn_guard(10_000, 10_000);
    game.apply_player_input(999, input(1000, 0, true, false, false));
    game.apply_player_input(guard_id, input(1000, 0, true, false, false));

    let guard = game.world.get_entity(guard_id).unwrap();
    assert_eq!(guard.stance, Stance::Standing);
    assert_eq!((guard.vel_x, guard.vel_y), (0, 0));
}

#[test]
fn test_guaranteed_detection() {
    // guard and player 2 units apart, no obstacles, facing each other,
    // player fully lit; full visibility for over 2 seconds
    let mut game = GameSystem::new(100_000, 100_000);
    let guard_id = game.spawn_guard(10_000, 10_000);
    let player_id = game.spawn_player(12_000, 10_000);
    game.add_light(12_000, 10_000, 20_000, 1000);

    let mut detected = 0;
    let mut alerted = false;
    for _ in 0..25 {
        let events = game.update(100);
        for e in events {
            if let GameEvent::PlayerDetected { player_id: p, guard_id: g, level } = e {
                assert_eq!(p, player_id);
                assert_eq!(g, guard_id);
                assert!(level >= 900);
                detected += 1;
            }
        }
        if game.world.get_entity(guard_id).unwrap().state == ActorState::Alerted {
            alerted = true;
        }
    }
    assert_eq!(detected, 1);
    assert!(alerted);
    assert_eq!(
        game.world.get_entity(guard_id).unwrap().state,
        ActorState::Alerted
    );
}

#[test]
fn test_player_hidden_event() {
    // a player already partly detected decays to hidden once out of sight
    let mut game = GameSystem::new(100_000, 100_000);
    let player_id = game.spawn_player(10_000, 10_000);
    game.spawn_guard(90_000, 90_000); // far away: zero visibility
    if let Some(p) = game.world.get_entity_mut(player_id) {
        p.detection_level = 150;
    }
    let events = game.update(1000);
    assert_eq!(events.len(), 1);
    assert!(matches!(
        events[0],
        GameEvent::PlayerHidden { player_id: p } if p == player_id
    ));
    assert_eq!(game.world.get_entity(player_id).unwrap().detection_level, 0);
}

#[test]
fn test_physics_pushes_out_of_obstacle() {
    let mut game = GameSystem::new(100_000, 100_000);
    let player_id = game.spawn_player(10_300, 10_000);
    game.add_obstacle(10_000, 10_000, 1000);

    game.update(16);
    // penetration depth 1.2 units, pushed directly away along +x
    let player = game.world.get_entity(player_id).unwrap();
    assert_eq!((player.position.x, player.position.y), (11_500, 10_000));
}

#[test]
fn test_world_bounds_clamp() {
    let mut game = GameSystem::new(20_000, 20_000);
    let player_id = game.spawn_player(19_500, 10_000);
    game.apply_player_input(player_id, input(1000, 0, true, false, false));
    game.update(1000); // would move 10 units beyond the edge
    let player = game.world.get_entity(player_id).unwrap();
    assert_eq!(player.position.x, 20_000);
}

#[test]
fn test_get_time() {
    let mut game = GameSystem::new(100_000, 100_000);
    assert_eq!(game.get_time(), 0);
    game.update(16);
    game.update(16);
    assert_eq!(game.get_time(), 32);
}

#[test]
fn test_remove_entity() {
    let mut game = GameSystem::new(100_000, 100_000);
    let player_id = game.spawn_player(10_000, 10_000);
    game.spawn_guard(50_000, 50_000);

    assert!(game.world.remove_entity(player_id));
    assert!(!game.world.remove_entity(player_id));
    assert_eq!(game.world.entities.len(), 1);
}

#[test]
fn test_ids_monotonic_and_not_reused() {
    let mut game = GameSystem::new(100_000, 100_000);
    let a = game.spawn_player(10_000, 10_000);
    let b = game.spawn_guard(20_000, 20_000);
    game.world.remove_entity(a);
    let c = game.spawn_player(30_000, 30_000);
    assert_eq!((a, b, c), (1, 2, 3));
}

#[test]
fn test_spawn_defaults() {
    let mut game = GameSystem::new(100_000, 100_000);
    let player_id = game.spawn_player(10_000, 10_000);
    let guard_id = game.spawn_guard(50_000, 50_000);
    let p = game.world.get_entity(player_id).unwrap();
    assert_eq!(p.entity_type, EntityType::Player);
    assert_eq!(p.visibility_radius, 15_000);
    assert_eq!(p.speed, 5000);
    assert_eq!(p.light_exposure, 500);
    let g = game.world.get_entity(guard_id).unwrap();
    assert_eq!(g.entity_type, EntityType::Guard);
    assert_eq!(g.visibility_radius, 20_000);
    assert_eq!(g.speed, 4000);
    assert_eq!(g.light_exposure, 1000);
}
