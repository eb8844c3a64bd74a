use idaptik_engine::detection::{
    calculate_light_exposure, calculate_movement_noise, calculate_noise_at_position,
    calculate_visibility, has_line_of_sight, is_in_cover, update_detection,
};
use idaptik_engine::types::{
    ActorState, Entity, LightSource, Obstacle, Position, Stance, World,
};

fn obstacle(x: i64, y: i64, radius: i64) -> Obstacle {
    Obstacle {
        position: Position::new(x, y),
        radius,
        blocks_vision: true,
        blocks_sound: true,
        provides_cover: true,
    }
}

#[test]
fn test_distances() {
    let a = Position::new(0, 0);
    let b = Position::with_height(3000, 4000, 12_000);
    // 3-4-5 triangle in the plane; 5-12-13 with the elevation
    assert_eq!(a.distance_2d(&b), 5000);
    assert_eq!(a.distance_to(&b), 13_000);
}

#[test]
fn test_facing() {
    let guard = Entity::new_guard(1, Position::new(0, 0));
    assert_eq!(guard.facing_direction(), (1000, 0));
    // straight ahead is within the 144-degree field of view
    assert!(guard.is_facing(&Position::new(10_000, 0)));
    // straight behind is not
    assert!(!guard.is_facing(&Position::new(-10_000, 0)));
    // a player sees a full circle
    let player = Entity::new_player(2, Position::new(0, 0));
    assert!(player.is_facing(&Position::new(-10_000, 0)));
}

#[test]
fn test_line_of_sight_clear() {
    let from = Position::new(0, 0);
    let to = Position::new(10_000, 0);
    let obstacles = vec![];

    assert!(has_line_of_sight(&from, &to, &obstacles));
}

#[test]
fn test_line_of_sight_blocked() {
    let from = Position::new(0, 0);
    let to = Position::new(10_000, 0);
    let obstacles = vec![obstacle(5000, 0, 2000)];

    assert!(!has_line_of_sight(&from, &to, &obstacles));
}

#[test]
fn test_line_of_sight_symmetry() {
    let a = Position::new(1000, 2000);
    let b = Position::new(9000, 7000);
    let obstacles = vec![obstacle(5000, 4000, 1500), obstacle(2000, 9000, 3000)];
    assert_eq!(
        has_line_of_sight(&a, &b, &obstacles),
        has_line_of_sight(&b, &a, &obstacles)
    );
}

#[test]
fn test_movement_noise() {
    let mut entity = Entity::new_player(1, Position::new(0, 0));
    entity.vel_x = 5000;
    entity.vel_y = 0;
    entity.stance = Stance::Standing;

    let noise = calculate_movement_noise(&entity);
    assert!(noise > 0);

    entity.stance = Stance::Crouching;
    let crouch_noise = calculate_movement_noise(&entity);
    assert!(crouch_noise < noise);
}

#[test]
fn test_movement_noise_formula() {
    let mut entity = Entity::new_player(1, Position::new(0, 0));
    entity.vel_x = 5000; // moving at the full base speed of 5.0
    assert_eq!(calculate_movement_noise(&entity), 1000);

    entity.stance = Stance::Crouching;
    assert_eq!(calculate_movement_noise(&entity), 500);

    entity.stance = Stance::Prone;
    assert_eq!(calculate_movement_noise(&entity), 200);

    entity.stance = Stance::Crouching;
    entity.state = ActorState::Running;
    assert_eq!(calculate_movement_noise(&entity), 1000);

    entity.vel_x = 50; // below the 0.1 threshold
    assert_eq!(calculate_movement_noise(&entity), 0);
}

#[test]
fn test_blocked_line_of_sight_zeroes_visibility() {
    // obstacle of radius 2 at the midpoint between observer and target
    // 10 units apart
    let mut world = World::new(100_000, 100_000);
    world.obstacles.push(obstacle(5000, 0, 2000));
    let observer = Entity::new_guard(1, Position::new(0, 0));
    let mut target = Entity::new_player(2, Position::new(10_000, 0));
    target.light_exposure = 1000;

    assert!(!has_line_of_sight(
        &observer.position,
        &target.position,
        &world.obstacles
    ));
    assert_eq!(calculate_visibility(&observer, &target, &world), 0);
}

#[test]
fn test_visibility_formula() {
    // 10 units away, in view, fully lit, standing still:
    // distance factor 0.5, every other factor 1.0
    let world = World::new(100_000, 100_000);
    let observer = Entity::new_guard(1, Position::new(0, 0));
    let mut target = Entity::new_player(2, Position::new(10_000, 0));
    target.light_exposure = 1000;
    assert_eq!(calculate_visibility(&observer, &target, &world), 500);

    // a crouching target is at 0.6 of that
    target.stance = Stance::Crouching;
    assert_eq!(calculate_visibility(&observer, &target, &world), 300);

    // a moving target gets the 1.2 factor
    target.stance = Stance::Standing;
    target.vel_x = 2000;
    assert_eq!(calculate_visibility(&observer, &target, &world), 600);

    // behind the guard: outside the 144-degree field of view
    let behind = Entity::new_player(3, Position::new(-10_000, 0));
    let mut behind = behind;
    behind.light_exposure = 1000;
    assert_eq!(calculate_visibility(&observer, &behind, &world), 0);

    // too far away
    let far = Entity::new_player(4, Position::new(30_000, 0));
    assert_eq!(calculate_visibility(&observer, &far, &world), 0);
}

#[test]
fn test_light_exposure_formula() {
    // ambient 0.3 plus one light at half its radius: 0.3 + 1.0 * 0.5
    let mut world = World::new(100_000, 100_000);
    world.lights.push(LightSource {
        position: Position::new(5000, 0),
        radius: 10_000,
        intensity: 1000,
    });
    let entity = Entity::new_player(1, Position::new(0, 0));
    assert_eq!(calculate_light_exposure(&entity, &world), 800);

    // a vision-blocking obstacle between light and entity leaves ambient
    world.obstacles.push(obstacle(2500, 0, 1000));
    assert_eq!(calculate_light_exposure(&entity, &world), 300);
}

#[test]
fn test_light_exposure_clamped() {
    let mut world = World::new(100_000, 100_000);
    for _ in 0..3 {
        world.lights.push(LightSource {
            position: Position::new(0, 0),
            radius: 10_000,
            intensity: 1000,
        });
    }
    let entity = Entity::new_player(1, Position::new(0, 0));
    assert_eq!(calculate_light_exposure(&entity, &world), 1000);
}

#[test]
fn test_noise_at_position_formula() {
    // one source 15 units away at full level: (1 - 15/30) * 1.0 = 0.5
    let listener = Position::new(0, 0);
    let sources = vec![(Position::new(15_000, 0), 1000)];
    assert_eq!(calculate_noise_at_position(&listener, &sources, &[]), 500);

    // a sound-blocking obstacle between them keeps 0.7 of it
    let obstacles = vec![obstacle(7000, 0, 1000)];
    assert_eq!(
        calculate_noise_at_position(&listener, &sources, &obstacles),
        350
    );

    // inaudible beyond 30 units
    let far = vec![(Position::new(40_000, 0), 1000)];
    assert_eq!(calculate_noise_at_position(&listener, &far, &[]), 0);
}

#[test]
fn test_is_in_cover() {
    let mut world = World::new(100_000, 100_000);
    world.obstacles.push(obstacle(8000, 0, 1500));
    let observer = Entity::new_guard(1, Position::new(0, 0));
    // right behind the obstacle, within radius + 1 of its center
    let hiding = Entity::new_player(2, Position::new(10_000, 0));
    assert!(is_in_cover(&hiding, &observer, &world));
    // far past the obstacle: no longer hugging the cover
    let exposed = Entity::new_player(3, Position::new(20_000, 0));
    assert!(!is_in_cover(&exposed, &observer, &world));
}

#[test]
fn test_update_detection_rise_and_decay() {
    let mut e = Entity::new_player(1, Position::new(0, 0));
    // visible at 0.9 for 1 second: rises by 0.45
    update_detection(&mut e, 900, 1000);
    assert_eq!(e.detection_level, 450);
    // out of sight for 1 second: decays by 0.2
    update_detection(&mut e, 0, 1000);
    assert_eq!(e.detection_level, 250);
    // visibility exactly at the 0.1 threshold decays, not rises
    update_detection(&mut e, 100, 1000);
    assert_eq!(e.detection_level, 50);
}

#[test]
fn test_update_detection_clamped() {
    let mut e = Entity::new_player(1, Position::new(0, 0));
    e.detection_level = 500;
    // a huge step saturates at 1.0
    update_detection(&mut e, 1000, 1_000_000_000);
    assert_eq!(e.detection_level, 1000);
    // a negative step in the decay branch still stays inside [0, 1]
    update_detection(&mut e, 0, -1_000_000_000);
    assert_eq!(e.detection_level, 1000);
    // zero step changes nothing
    update_detection(&mut e, 0, 0);
    assert_eq!(e.detection_level, 1000);
    // a long decay empties it
    update_detection(&mut e, 0, 10_000);
    assert_eq!(e.detection_level, 0);
    // and a negative step in the rise branch cannot go below zero
    update_detection(&mut e, 1000, -1_000_000);
    assert_eq!(e.detection_level, 0);
}
