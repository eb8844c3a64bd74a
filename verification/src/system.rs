//! The simulation kernel: owns a world, allocates entity identities, and
//! runs the per-frame pipeline of lighting, noise, physics and detection.

use vstd::prelude::*;

use crate::math::{abs_spec, clamp_range, clamp_spec, div_trunc, isqrt, lemma_abs_mul_le,
    lemma_component_le_norm, lemma_div_le, lemma_square_bound, sdiv, sqrt_floor};
use crate::types::{dist2d, first_with_id, ids_below, ids_unique, lemma_dist_sq_bounds,
    lemma_first_with_id, new_guard_spec, new_player_spec, obstacle_wf, obstacles_wf, pos_wf,
    world_wf, ActorState, Entity, EntityId, EntityType, LightSource, Obstacle, Position, Stance,
    World, DIM_MAX, DT_MAX, SPEED_MAX, VEL_LIMIT};
use crate::detection::{detect_spec, movement_noise_spec, noise_at_spec, sources_wf};

verus! {

/// Game system that updates all game logic.  It owns exactly one world,
/// a monotonically increasing identity counter starting at 1 (never
/// reused, never reseeded), and the accumulated simulation time in
/// milli-seconds.
pub struct GameSystem {
    pub world: World,
    pub next_entity_id: EntityId,
    pub time: i64,
}

/// Player input commands: movement axes in milli-units (`1000` = full
/// deflection) and stance/sprint flags.
#[derive(Clone, Copy, PartialEq, Eq, Structural, Debug)]
pub struct PlayerInput {
    pub move_x: i64,
    pub move_y: i64,
    pub sprint: bool,
    pub crouch: bool,
    pub prone: bool,
}

impl Default for PlayerInput {
    fn default() -> (d: Self)
        ensures
            d == (PlayerInput { move_x: 0, move_y: 0, sprint: false, crouch: false, prone: false }),
    {
        PlayerInput { move_x: 0, move_y: 0, sprint: false, crouch: false, prone: false }
    }
}

/// Game events that can occur during one update call.  `GuardAlerted` and
/// `ObjectiveComplete` belong to the event vocabulary for consumers to
/// match on, though the current pipeline does not emit them.
#[derive(Clone, Copy, PartialEq, Eq, Structural, Debug)]
pub enum GameEvent {
    PlayerDetected { player_id: EntityId, guard_id: EntityId, level: i64 },
    PlayerHidden { player_id: EntityId },
    GuardAlerted { guard_id: EntityId, position: Position },
    ObjectiveComplete { player_id: EntityId },
}

/// Well-formed kernel: a well-formed world and non-negative time.
pub open spec fn sys_wf(g: GameSystem) -> bool {
    &&& world_wf(g.world)
    &&& 0 <= g.time
}

/// Stance selected by an input: prone overrides crouch overrides standing.
pub open spec fn input_stance(inp: PlayerInput) -> Stance {
    if inp.prone {
        Stance::Prone
    } else if inp.crouch {
        Stance::Crouching
    } else {
        Stance::Standing
    }
}

/// Whether an input requests movement: some axis beyond the 0.01 dead
/// zone.
pub open spec fn input_moving(inp: PlayerInput) -> bool {
    abs_spec(inp.move_x as int) > 10 || abs_spec(inp.move_y as int) > 10
}

/// Behavioral state selected by an input.
pub open spec fn input_state(inp: PlayerInput) -> ActorState {
    if !input_moving(inp) {
        ActorState::Idle
    } else if inp.sprint {
        ActorState::Running
    } else {
        ActorState::Walking
    }
}

/// Movement speed for a base speed under an input: sprint doubles the
/// speed only while standing; crouching keeps 0.6 and prone 0.3 of it.
pub open spec fn input_speed(base: int, inp: PlayerInput) -> int {
    match input_stance(inp) {
        Stance::Standing => if inp.sprint {
            base * 2
        } else {
            base
        },
        Stance::Crouching => base * 600 / 1000,
        Stance::Prone => base * 300 / 1000,
    }
}

/// The entity after a player input is applied: new stance and state; if
/// moving, the velocity is the normalized movement direction scaled by
/// the speed and the facing direction follows the movement; if not, the
/// velocity is zeroed and the facing is kept.
pub open spec fn apply_input_spec(e: Entity, inp: PlayerInput) -> Entity {
    let stance = input_stance(inp);
    let state = input_state(inp);
    let speed = input_speed(e.speed as int, inp);
    if input_moving(inp) {
        let len = sqrt_floor(inp.move_x * inp.move_x + inp.move_y * inp.move_y);
        let nx = sdiv(inp.move_x * 1000, len);
        let ny = sdiv(inp.move_y * 1000, len);
        Entity {
            stance,
            state,
            vel_x: sdiv(nx * speed, 1000) as i64,
            vel_y: sdiv(ny * speed, 1000) as i64,
            facing_x: nx as i64,
            facing_y: ny as i64,
            ..e
        }
    } else {
        Entity { stance, state, vel_x: 0, vel_y: 0, ..e }
    }
}

impl GameSystem {
    /// A kernel with an empty world of the given bounds, identity counter
    /// at 1 and zero elapsed time.
    pub fn new(width: i64, height: i64) -> (g: GameSystem)
        requires
            0 <= width <= DIM_MAX,
            0 <= height <= DIM_MAX,
        ensures
            g.world.entities@ =~= Seq::<Entity>::empty(),
            g.world.obstacles@ =~= Seq::<Obstacle>::empty(),
            g.world.lights@ =~= Seq::<LightSource>::empty(),
            g.world.width == width,
            g.world.height == height,
            g.world.ambient_light == 300,
            g.next_entity_id == 1,
            g.time == 0,
            sys_wf(g),
            ids_unique(g.world.entities@),
            ids_below(g.world.entities@, 1),
    {
        GameSystem { world: World::new(width, height), next_entity_id: 1, time: 0 }
    }

    /// Spawn a player entity; always succeeds and returns the fresh
    /// identity.
    pub fn spawn_player(&mut self, x: i64, y: i64) -> (id: EntityId)
        requires
            sys_wf(*old(self)),
            abs_spec(x as int) <= DIM_MAX,
            abs_spec(y as int) <= DIM_MAX,
            old(self).next_entity_id < EntityId::MAX,
        ensures
            id == old(self).next_entity_id,
            final(self).next_entity_id == old(self).next_entity_id + 1,
            final(self).time == old(self).time,
            final(self).world.entities@ == old(self).world.entities@.push(
                new_player_spec(id, Position { x, y, height: 0 }),
            ),
            final(self).world.obstacles == old(self).world.obstacles,
            final(self).world.lights == old(self).world.lights,
            final(self).world.width == old(self).world.width,
            final(self).world.height == old(self).world.height,
            final(self).world.ambient_light == old(self).world.ambient_light,
            sys_wf(*final(self)),
            ids_below(old(self).world.entities@, old(self).next_entity_id) ==> ids_below(
                final(self).world.entities@,
                final(self).next_entity_id,
            ),
            (ids_below(old(self).world.entities@, old(self).next_entity_id) && ids_unique(
                old(self).world.entities@,
            )) ==> ids_unique(final(self).world.entities@),
    {
        let id = self.next_entity_id;
        self.next_entity_id = self.next_entity_id + 1;
        let entity = Entity::new_player(id, Position::new(x, y));
        self.world.add_entity(entity)
    }

    /// Spawn a guard entity; always succeeds and returns the fresh
    /// identity.
    pub fn spawn_guard(&mut self, x: i64, y: i64) -> (id: EntityId)
        requires
            sys_wf(*old(self)),
            abs_spec(x as int) <= DIM_MAX,
            abs_spec(y as int) <= DIM_MAX,
            old(self).next_entity_id < EntityId::MAX,
        ensures
            id == old(self).next_entity_id,
            final(self).next_entity_id == old(self).next_entity_id + 1,
            final(self).time == old(self).time,
            final(self).world.entities@ == old(self).world.entities@.push(
                new_guard_spec(id, Position { x, y, height: 0 }),
            ),
            final(self).world.obstacles == old(self).world.obstacles,
            final(self).world.lights == old(self).world.lights,
            final(self).world.width == old(self).world.width,
            final(self).world.height == old(self).world.height,
            final(self).world.ambient_light == old(self).world.ambient_light,
            sys_wf(*final(self)),
            ids_below(old(self).world.entities@, old(self).next_entity_id) ==> ids_below(
                final(self).world.entities@,
                final(self).next_entity_id,
            ),
            (ids_below(old(self).world.entities@, old(self).next_entity_id) && ids_unique(
                old(self).world.entities@,
            )) ==> ids_unique(final(self).world.entities@),
    {
        let id = self.next_entity_id;
        self.next_entity_id = self.next_entity_id + 1;
        let entity = Entity::new_guard(id, Position::new(x, y));
        self.world.add_entity(entity)
    }

    /// Append an obstacle that blocks vision and sound and provides
    /// cover; always succeeds.
    pub fn add_obstacle(&mut self, x: i64, y: i64, radius: i64)
        requires
            sys_wf(*old(self)),
            abs_spec(x as int) <= DIM_MAX,
            abs_spec(y as int) <= DIM_MAX,
            0 <= radius <= DIM_MAX,
        ensures
            final(self).world.obstacles@ == old(self).world.obstacles@.push(
                Obstacle {
                    position: Position { x, y, height: 0 },
                    radius,
                    blocks_vision: true,
                    blocks_sound: true,
                    provides_cover: true,
                },
            ),
            final(self).world.entities == old(self).world.entities,
            final(self).world.lights == old(self).world.lights,
            final(self).world.width == old(self).world.width,
            final(self).world.height == old(self).world.height,
            final(self).world.ambient_light == old(self).world.ambient_light,
            final(self).next_entity_id == old(self).next_entity_id,
            final(self).time == old(self).time,
            sys_wf(*final(self)),
    {
        self.world.obstacles.push(
            Obstacle {
                position: Position::new(x, y),
                radius,
                blocks_vision: true,
                blocks_sound: true,
                provides_cover: true,
            },
        );
    }

    /// Append a light source; always succeeds.  The radius must be
    /// positive and the intensity within `[0, 1000]`: the kernel does not
    /// defend against other values, so they are the caller's contract.
    pub fn add_light(&mut self, x: i64, y: i64, radius: i64, intensity: i64)
        requires
            sys_wf(*old(self)),
            abs_spec(x as int) <= DIM_MAX,
            abs_spec(y as int) <= DIM_MAX,
            1 <= radius <= DIM_MAX,
            0 <= intensity <= 1000,
        ensures
            final(self).world.lights@ == old(self).world.lights@.push(
                LightSource { position: Position { x, y, height: 0 }, radius, intensity },
            ),
            final(self).world.entities == old(self).world.entities,
            final(self).world.obstacles == old(self).world.obstacles,
            final(self).world.width == old(self).world.width,
            final(self).world.height == old(self).world.height,
            final(self).world.ambient_light == old(self).world.ambient_light,
            final(self).next_entity_id == old(self).next_entity_id,
            final(self).time == old(self).time,
            sys_wf(*final(self)),
    {
        self.world.lights.push(LightSource { position: Position::new(x, y), radius, intensity });
    }

    /// Accumulated simulation time in milli-seconds.
    pub fn get_time(&self) -> (t: i64)
        ensures
            t == self.time,
    {
        self.time
    }

    /// Apply player input to move a player entity.  A miss, or an
    /// identity that does not resolve to a player, is a silent no-op.
    pub fn apply_player_input(&mut self, player_id: EntityId, input: PlayerInput)
        requires
            sys_wf(*old(self)),
            abs_spec(input.move_x as int) <= 1000,
            abs_spec(input.move_y as int) <= 1000,
        ensures
            final(self).next_entity_id == old(self).next_entity_id,
            final(self).time == old(self).time,
            final(self).world.obstacles == old(self).world.obstacles,
            final(self).world.lights == old(self).world.lights,
            final(self).world.width == old(self).world.width,
            final(self).world.height == old(self).world.height,
            final(self).world.ambient_light == old(self).world.ambient_light,
            ({
                let k = first_with_id(old(self).world.entities@, player_id);
                if k >= 0 && old(self).world.entities@[k].entity_type == EntityType::Player {
                    final(self).world.entities@ == old(self).world.entities@.update(
                        k,
                        apply_input_spec(old(self).world.entities@[k], input),
                    )
                } else {
                    final(self).world.entities == old(self).world.entities
                }
            }),
            sys_wf(*final(self)),
    {
        let idx = self.world.find_entity_index(player_id);
        proof {
            lemma_first_with_id(self.world.entities@, player_id);
        }
        let k = match idx {
            Option::Some(k) => k,
            Option::None => {
                return ;
            },
        };
        let player = self.world.entities[k];
        if !matches!(player.entity_type, EntityType::Player) {
            return ;
        }
        let stance = if input.prone {
            Stance::Prone
        } else if input.crouch {
            Stance::Crouching
        } else {
            Stance::Standing
        };
        let moving = {
            let ax = if input.move_x >= 0 {
                input.move_x
            } else {
                -input.move_x
            };
            let ay = if input.move_y >= 0 {
                input.move_y
            } else {
                -input.move_y
            };
            ax > 10 || ay > 10
        };
        let state = if !moving {
            ActorState::Idle
        } else if input.sprint {
            ActorState::Running
        } else {
            ActorState::Walking
        };
        let base_speed = player.speed;
        let speed = match stance {
            Stance::Standing => if input.sprint {
                base_speed * 2
            } else {
                base_speed
            },
            Stance::Crouching => base_speed * 600 / 1000,
            Stance::Prone => base_speed * 300 / 1000,
        };
        proof {
            crate::math::lemma_mul_le_mono(base_speed as int, SPEED_MAX as int, 600);
            crate::math::lemma_mul_le_mono(base_speed as int, SPEED_MAX as int, 300);
            lemma_div_le(base_speed * 600, 1000, base_speed as int);
            lemma_div_le(base_speed * 300, 1000, base_speed as int);
            assert(base_speed * 600 == 600 * base_speed && base_speed * 300 == 300 * base_speed)
                by (nonlinear_arith);
            crate::math::lemma_mul_le_mono(600, 1000, base_speed as int);
            crate::math::lemma_mul_le_mono(300, 1000, base_speed as int);
            lemma_div_le(base_speed * 1000, 1000, base_speed as int);
        }
        let mut updated = player;
        updated.stance = stance;
        updated.state = state;
        if moving {
            proof {
                lemma_square_bound(input.move_x as int, 1000);
                lemma_square_bound(input.move_y as int, 1000);
                assert(1000int * 1000int == 1_000_000int) by (nonlinear_arith);
            }
            let len = isqrt(input.move_x * input.move_x + input.move_y * input.move_y);
            proof {
                lemma_component_le_norm(input.move_x as int, (input.move_y * input.move_y) as int);
                assert(input.move_x * input.move_x + input.move_y * input.move_y == input.move_y
                    * input.move_y + input.move_x * input.move_x) by (nonlinear_arith);
                lemma_component_le_norm(input.move_y as int, (input.move_x * input.move_x) as int);
                crate::math::lemma_sqrt_floor(
                    (input.move_x * input.move_x + input.move_y * input.move_y) as int,
                );
                lemma_abs_mul_le(input.move_x as int, 1000, 1000, 1000);
                lemma_abs_mul_le(input.move_y as int, 1000, 1000, 1000);
            }
            let nx = div_trunc(input.move_x * 1000, len);
            let ny = div_trunc(input.move_y * 1000, len);
            proof {
                crate::math::lemma_sdiv_push_bound(input.move_x as int, 1000, len as int);
                crate::math::lemma_sdiv_push_bound(input.move_y as int, 1000, len as int);
                lemma_abs_mul_le(nx as int, speed as int, 1000, VEL_LIMIT as int);
                crate::math::lemma_sdiv_push_bound(nx as int, speed as int, 1000);
                lemma_abs_mul_le(ny as int, speed as int, 1000, VEL_LIMIT as int);
                crate::math::lemma_sdiv_push_bound(ny as int, speed as int, 1000);
            }
            updated.vel_x = div_trunc(nx * speed, 1000);
            updated.vel_y = div_trunc(ny * speed, 1000);
            updated.facing_x = nx;
            updated.facing_y = ny;
        } else {
            updated.vel_x = 0;
            updated.vel_y = 0;
        }
        self.world.entities[k] = updated;
    }
}

/// Phase 1: every entity with its light exposure recomputed from current
/// positions, lights and obstacles.
pub open spec fn light_pass(
    es: Seq<Entity>,
    lights: Seq<LightSource>,
    obs: Seq<Obstacle>,
    ambient: int,
) -> Seq<Entity> {
    Seq::new(
        es.len(),
        |i: int|
            (Entity {
                light_exposure: crate::detection::light_exposure_core(
                    es[i],
                    lights,
                    obs,
                    ambient,
                ) as i64,
                ..es[i]
            }),
    )
}

/// The noise every entity emits this frame, paired with its position;
/// every entity is simultaneously a noise source and a listener.
pub open spec fn noise_sources_of(es: Seq<Entity>) -> Seq<(Position, i64)> {
    Seq::new(es.len(), |i: int| (es[i].position, movement_noise_spec(es[i]) as i64))
}

/// Phase 2: every entity with its noise level recomputed from all
/// sources.
pub open spec fn noise_pass(es: Seq<Entity>, obs: Seq<Obstacle>) -> Seq<Entity> {
    Seq::new(
        es.len(),
        |i: int|
            (Entity {
                noise_level: noise_at_spec(es[i].position, noise_sources_of(es), obs) as i64,
                ..es[i]
            }),
    )
}

/// One obstacle push: an entity nearer than `radius + 0.5` is moved
/// directly away from the obstacle center by the penetration depth.  An
/// entity exactly at the center has no defined direction and stays.
pub open spec fn push_one(p: Position, ob: Obstacle) -> Position {
    let d = dist2d(p, ob.position);
    if 0 < d && d < ob.radius + 500 {
        let push = ob.radius + 500 - d;
        Position {
            x: (p.x + sdiv((p.x - ob.position.x) * push, d)) as i64,
            y: (p.y + sdiv((p.y - ob.position.y) * push, d)) as i64,
            height: p.height,
        }
    } else {
        p
    }
}

/// The pushes of the first `n` obstacles, applied in order (a single,
/// non-iterative pass: overlapping several obstacles can leave residual
/// penetration).
pub open spec fn push_all_upto(p: Position, obs: Seq<Obstacle>, n: int) -> Position
    decreases n,
{
    if n <= 0 {
        p
    } else {
        push_one(push_all_upto(p, obs, n - 1), obs[n - 1])
    }
}

/// Phase 3 for one entity: integrate the velocity, clamp to the world
/// bounds, then resolve obstacle overlaps in order.
pub open spec fn physics_entity(e: Entity, obs: Seq<Obstacle>, width: int, height: int, dt: int) -> Entity {
    let mx = clamp_spec(e.position.x + sdiv(e.vel_x * dt, 1000), 0, width);
    let my = clamp_spec(e.position.y + sdiv(e.vel_y * dt, 1000), 0, height);
    Entity {
        position: push_all_upto(
            Position { x: mx as i64, y: my as i64, height: e.position.height },
            obs,
            obs.len() as int,
        ),
        ..e
    }
}

/// Phase 3: physics for every entity independently.
pub open spec fn physics_pass(
    es: Seq<Entity>,
    obs: Seq<Obstacle>,
    width: int,
    height: int,
    dt: int,
) -> Seq<Entity> {
    Seq::new(es.len(), |i: int| physics_entity(es[i], obs, width, height, dt))
}

/// A push never moves a well-formed position out of the well-formed
/// range: the result is within `radius + 0.5` of the obstacle center.
pub proof fn lemma_push_one_wf(p: Position, ob: Obstacle)
    requires
        pos_wf(p),
        obstacle_wf(ob),
    ensures
        pos_wf(push_one(p, ob)),
        push_one(p, ob).height == p.height,
{
    let d = dist2d(p, ob.position);
    lemma_dist_sq_bounds(p, ob.position);
    if 0 < d && d < ob.radius + 500 {
        let push = ob.radius + 500 - d;
        let dx = p.x - ob.position.x;
        let dy = p.y - ob.position.y;
        crate::math::lemma_square_bound(dx as int, 600_000_000);
        crate::math::lemma_square_bound(dy as int, 600_000_000);
        crate::math::lemma_component_le_norm(dx as int, (dy * dy) as int);
        assert(dx * dx + dy * dy == dy * dy + dx * dx) by (nonlinear_arith);
        crate::math::lemma_component_le_norm(dy as int, (dx * dx) as int);
        crate::math::lemma_sdiv_push_bound(dx as int, push, d);
        crate::math::lemma_sdiv_push_bound(dy as int, push, d);
    }
}

/// Iterated pushes keep the position well-formed and the height fixed.
pub proof fn lemma_push_all_wf(p: Position, obs: Seq<Obstacle>, n: int)
    requires
        pos_wf(p),
        obstacles_wf(obs),
        n <= obs.len(),
    ensures
        pos_wf(push_all_upto(p, obs, n)),
        push_all_upto(p, obs, n).height == p.height,
    decreases n,
{
    if n > 0 {
        lemma_push_all_wf(p, obs, n - 1);
        lemma_push_one_wf(push_all_upto(p, obs, n - 1), obs[n - 1]);
    }
}

/// Identities of the entities of one type, in world order.
pub open spec fn ids_of_type_upto(s: Seq<Entity>, t: EntityType, n: int) -> Seq<EntityId>
    decreases n,
{
    if n <= 0 {
        Seq::empty()
    } else {
        let prev = ids_of_type_upto(s, t, n - 1);
        if s[n - 1].entity_type == t {
            prev.push(s[n - 1].id)
        } else {
            prev
        }
    }
}

/// One guard/player pair of the detection pass: integrate the player's
/// detection level from its visibility to the guard, emit `PlayerDetected`
/// on the rising edge across 0.9 (alerting the guard), `PlayerHidden` on
/// the falling edge across 0.1.  A missing identity is a no-op.
pub open spec fn detect_pair_step(
    es: Seq<Entity>,
    obs: Seq<Obstacle>,
    gid: EntityId,
    pid: EntityId,
    dt: int,
) -> (Seq<Entity>, Seq<GameEvent>) {
    let gi = first_with_id(es, gid);
    let pi = first_with_id(es, pid);
    if gi < 0 || pi < 0 {
        (es, Seq::empty())
    } else {
        let guard = es[gi];
        let player = es[pi];
        let vis = crate::detection::visibility_obs(guard, player, obs);
        let old_level = player.detection_level as int;
        let new_level = detect_spec(old_level, vis, dt);
        let es1 = es.update(pi, Entity { detection_level: new_level as i64, ..player });
        if old_level < 900 && new_level >= 900 {
            (
                es1.update(gi, Entity { state: ActorState::Alerted, ..es1[gi] }),
                seq![
                    GameEvent::PlayerDetected {
                        player_id: pid,
                        guard_id: gid,
                        level: new_level as i64,
                    },
                ],
            )
        } else if old_level > 100 && new_level <= 100 {
            (es1, seq![GameEvent::PlayerHidden { player_id: pid }])
        } else {
            (es1, Seq::empty())
        }
    }
}

/// One guard against the first `k` players, in order.
pub open spec fn detect_row(
    es: Seq<Entity>,
    obs: Seq<Obstacle>,
    gid: EntityId,
    pids: Seq<EntityId>,
    k: int,
    dt: int,
) -> (Seq<Entity>, Seq<GameEvent>)
    decreases k,
{
    if k <= 0 {
        (es, Seq::empty())
    } else {
        let prev = detect_row(es, obs, gid, pids, k - 1, dt);
        let step = detect_pair_step(prev.0, obs, gid, pids[k - 1], dt);
        (step.0, prev.1 + step.1)
    }
}

/// The first `k` guards, each against every player: the guard-outer,
/// player-inner order that fixes how events tie-break within one frame.
pub open spec fn detect_all(
    es: Seq<Entity>,
    obs: Seq<Obstacle>,
    gids: Seq<EntityId>,
    pids: Seq<EntityId>,
    k: int,
    dt: int,
) -> (Seq<Entity>, Seq<GameEvent>)
    decreases k,
{
    if k <= 0 {
        (es, Seq::empty())
    } else {
        let prev = detect_all(es, obs, gids, pids, k - 1, dt);
        let row = detect_row(prev.0, obs, gids[k - 1], pids, pids.len() as int, dt);
        (row.0, prev.1 + row.1)
    }
}

/// Phase 4: the whole detection pass over every (guard, player) pair.
pub open spec fn detection_phase(es: Seq<Entity>, obs: Seq<Obstacle>, dt: int) -> (
    Seq<Entity>,
    Seq<GameEvent>,
) {
    let gids = ids_of_type_upto(es, EntityType::Guard, es.len() as int);
    let pids = ids_of_type_upto(es, EntityType::Player, es.len() as int);
    detect_all(es, obs, gids, pids, gids.len() as int, dt)
}

/// Agreement on every field except the detection level and the
/// behavioral state, the only two an entity can change in the detection
/// pass.
pub open spec fn same_but_detection(a: Entity, b: Entity) -> bool {
    b == (Entity { detection_level: b.detection_level, state: b.state, ..a })
}

/// One detection step keeps the length and everything but detection
/// levels and behavioral states.
pub proof fn lemma_detect_pair_frame(
    es: Seq<Entity>,
    obs: Seq<Obstacle>,
    gid: EntityId,
    pid: EntityId,
    dt: int,
)
    ensures
        detect_pair_step(es, obs, gid, pid, dt).0.len() == es.len(),
        forall|i: int|
            0 <= i < es.len() ==> same_but_detection(
                es[i],
                #[trigger] detect_pair_step(es, obs, gid, pid, dt).0[i],
            ),
{
    lemma_first_with_id(es, gid);
    lemma_first_with_id(es, pid);
}

/// A guard's whole row keeps the length and everything but detection
/// levels and behavioral states.
pub proof fn lemma_detect_row_frame(
    es: Seq<Entity>,
    obs: Seq<Obstacle>,
    gid: EntityId,
    pids: Seq<EntityId>,
    k: int,
    dt: int,
)
    ensures
        detect_row(es, obs, gid, pids, k, dt).0.len() == es.len(),
        forall|i: int|
            0 <= i < es.len() ==> same_but_detection(
                es[i],
                #[trigger] detect_row(es, obs, gid, pids, k, dt).0[i],
            ),
    decreases k,
{
    if k > 0 {
        lemma_detect_row_frame(es, obs, gid, pids, k - 1, dt);
        let prev = detect_row(es, obs, gid, pids, k - 1, dt);
        lemma_detect_pair_frame(prev.0, obs, gid, pids[k - 1], dt);
    }
}

/// The whole detection pass keeps the length and everything but
/// detection levels and behavioral states.
pub proof fn lemma_detect_all_frame(
    es: Seq<Entity>,
    obs: Seq<Obstacle>,
    gids: Seq<EntityId>,
    pids: Seq<EntityId>,
    k: int,
    dt: int,
)
    ensures
        detect_all(es, obs, gids, pids, k, dt).0.len() == es.len(),
        forall|i: int|
            0 <= i < es.len() ==> same_but_detection(
                es[i],
                #[trigger] detect_all(es, obs, gids, pids, k, dt).0[i],
            ),
    decreases k,
{
    if k > 0 {
        lemma_detect_all_frame(es, obs, gids, pids, k - 1, dt);
        let prev = detect_all(es, obs, gids, pids, k - 1, dt);
        lemma_detect_row_frame(prev.0, obs, gids[k - 1], pids, pids.len() as int, dt);
    }
}

/// The position is at least `radius + 0.5` from every obstacle: no
/// obstacle pushes it.
pub open spec fn clear_of_obstacles(p: Position, obs: Seq<Obstacle>) -> bool {
    forall|j: int|
        0 <= j < obs.len() ==> dist2d(p, (#[trigger] obs[j]).position) >= obs[j].radius + 500
}

/// A clear position is a fixed point of the obstacle pushes.
pub proof fn lemma_push_all_clear(p: Position, obs: Seq<Obstacle>, n: int)
    requires
        clear_of_obstacles(p, obs),
        n <= obs.len(),
    ensures
        push_all_upto(p, obs, n) == p,
    decreases n,
{
    if n > 0 {
        lemma_push_all_clear(p, obs, n - 1);
    }
}

/// Idempotence of no-input physics: an entity with zero velocity, inside
/// the world bounds and clear of every obstacle keeps its exact position
/// through one whole update pipeline, and its velocity, bounds and
/// clearance are preserved with it — so the same holds across any number
/// of calls.
pub proof fn lemma_no_input_physics(w: World, dt: int, i: int)
    requires
        world_wf(w),
        0 <= dt <= DT_MAX,
        0 <= i < w.entities@.len(),
        w.entities@[i].vel_x == 0,
        w.entities@[i].vel_y == 0,
        0 <= w.entities@[i].position.x <= w.width,
        0 <= w.entities@[i].position.y <= w.height,
        clear_of_obstacles(w.entities@[i].position, w.obstacles@),
    ensures
        ({
            let es1 = light_pass(w.entities@, w.lights@, w.obstacles@, w.ambient_light as int);
            let es2 = noise_pass(es1, w.obstacles@);
            let es3 = physics_pass(es2, w.obstacles@, w.width as int, w.height as int, dt);
            let r = detection_phase(es3, w.obstacles@, dt);
            &&& r.0.len() == w.entities@.len()
            &&& r.0[i].position == w.entities@[i].position
            &&& r.0[i].vel_x == 0
            &&& r.0[i].vel_y == 0
            &&& clear_of_obstacles(r.0[i].position, w.obstacles@)
        }),
{
    let e0 = w.entities@[i];
    let es1 = light_pass(w.entities@, w.lights@, w.obstacles@, w.ambient_light as int);
    let es2 = noise_pass(es1, w.obstacles@);
    let es3 = physics_pass(es2, w.obstacles@, w.width as int, w.height as int, dt);
    assert(es2[i].position == e0.position && es2[i].vel_x == 0 && es2[i].vel_y == 0);
    lemma_push_all_clear(e0.position, w.obstacles@, w.obstacles@.len() as int);
    assert(es3[i].position == e0.position && es3[i].vel_x == 0 && es3[i].vel_y == 0);
    let gids = ids_of_type_upto(es3, EntityType::Guard, es3.len() as int);
    let pids = ids_of_type_upto(es3, EntityType::Player, es3.len() as int);
    lemma_detect_all_frame(es3, w.obstacles@, gids, pids, gids.len() as int, dt);
}

/// `PlayerDetected` fires at a pair step exactly on the rising edge: the
/// player's level was below 0.9 before the step and reaches at least 0.9
/// after it.  A pair whose identities do not both resolve emits nothing.
pub proof fn lemma_detection_rising_edge(
    es: Seq<Entity>,
    obs: Seq<Obstacle>,
    gid: EntityId,
    pid: EntityId,
    dt: int,
)
    ensures
        ({
            let step = detect_pair_step(es, obs, gid, pid, dt);
            let gi = first_with_id(es, gid);
            let pi = first_with_id(es, pid);
            &&& ((gi < 0 || pi < 0) ==> step.1 == Seq::<GameEvent>::empty())
            &&& ((gi >= 0 && pi >= 0) ==> ((exists|k: int|
                0 <= k < step.1.len() && (#[trigger] step.1[k]) is PlayerDetected) <==> (
            es[pi].detection_level < 900 && step.0[pi].detection_level >= 900)))
        }),
{
    let step = detect_pair_step(es, obs, gid, pid, dt);
    let gi = first_with_id(es, gid);
    let pi = first_with_id(es, pid);
    lemma_first_with_id(es, gid);
    lemma_first_with_id(es, pid);
    if gi >= 0 && pi >= 0 {
        let vis = crate::detection::visibility_obs(es[gi], es[pi], obs);
        let old_level = es[pi].detection_level as int;
        let new_level = detect_spec(old_level, vis, dt);
        crate::detection::lemma_detection_level_bounded(old_level, vis, dt);
        assert(step.0[pi].detection_level == new_level as i64);
        if old_level < 900 && new_level >= 900 {
            assert(step.1[0] is PlayerDetected);
        }
    }
}

/// Hysteresis non-chatter: once a player's detection level stands at or
/// above 0.9 when a pair is examined, that step emits no further
/// `PlayerDetected`; a new one needs the level first to fall below 0.9
/// and cross upward again.
pub proof fn lemma_hysteresis_non_chatter(
    es: Seq<Entity>,
    obs: Seq<Obstacle>,
    gid: EntityId,
    pid: EntityId,
    dt: int,
)
    requires
        first_with_id(es, pid) >= 0 ==> es[first_with_id(es, pid)].detection_level >= 900,
    ensures
        forall|k: int|
            0 <= k < detect_pair_step(es, obs, gid, pid, dt).1.len() ==> !((
            #[trigger] detect_pair_step(es, obs, gid, pid, dt).1[k]) is PlayerDetected),
{
    lemma_detection_rising_edge(es, obs, gid, pid, dt);
}

impl GameSystem {
    /// Phase 1: recompute light exposure for every entity.
    fn update_lighting(&mut self)
        requires
            world_wf(old(self).world),
        ensures
            final(self).next_entity_id == old(self).next_entity_id,
            final(self).time == old(self).time,
            final(self).world.obstacles == old(self).world.obstacles,
            final(self).world.lights == old(self).world.lights,
            final(self).world.width == old(self).world.width,
            final(self).world.height == old(self).world.height,
            final(self).world.ambient_light == old(self).world.ambient_light,
            world_wf(final(self).world),
            final(self).world.entities@ == light_pass(
                old(self).world.entities@,
                old(self).world.lights@,
                old(self).world.obstacles@,
                old(self).world.ambient_light as int,
            ),
    {
        let ghost es0 = self.world.entities@;
        let ghost target = light_pass(
            es0,
            self.world.lights@,
            self.world.obstacles@,
            self.world.ambient_light as int,
        );
        let n = self.world.entities.len();
        let mut i: usize = 0;
        while i < n
            invariant
                0 <= i <= n,
                n == es0.len(),
                self.world.entities@.len() == n,
                world_wf(self.world),
                self.world.obstacles == old(self).world.obstacles,
                self.world.lights == old(self).world.lights,
                self.world.width == old(self).world.width,
                self.world.height == old(self).world.height,
                self.world.ambient_light == old(self).world.ambient_light,
                self.next_entity_id == old(self).next_entity_id,
                self.time == old(self).time,
                es0 == old(self).world.entities@,
                target == light_pass(
                    es0,
                    old(self).world.lights@,
                    old(self).world.obstacles@,
                    old(self).world.ambient_light as int,
                ),
                forall|j: int| i <= j < n ==> self.world.entities@[j] == es0[j],
                forall|j: int| 0 <= j < i ==> self.world.entities@[j] == target[j],
            decreases n - i,
        {
            let le = crate::detection::calculate_light_exposure(
                &self.world.entities[i],
                &self.world,
            );
            let mut e = self.world.entities[i];
            e.light_exposure = le;
            self.world.entities[i] = e;
            i = i + 1;
        }
        proof {
            assert(self.world.entities@ =~= target);
        }
    }

    /// Phase 2: recompute every entity's noise level; every entity is a
    /// source and a listener at once.
    fn update_noise(&mut self)
        requires
            world_wf(old(self).world),
        ensures
            final(self).next_entity_id == old(self).next_entity_id,
            final(self).time == old(self).time,
            final(self).world.obstacles == old(self).world.obstacles,
            final(self).world.lights == old(self).world.lights,
            final(self).world.width == old(self).world.width,
            final(self).world.height == old(self).world.height,
            final(self).world.ambient_light == old(self).world.ambient_light,
            world_wf(final(self).world),
            final(self).world.entities@ == noise_pass(
                old(self).world.entities@,
                old(self).world.obstacles@,
            ),
    {
        let ghost es0 = self.world.entities@;
        let ghost target = noise_pass(es0, self.world.obstacles@);
        let n = self.world.entities.len();
        let mut sources: Vec<(Position, i64)> = Vec::new();
        let mut i: usize = 0;
        while i < n
            invariant
                0 <= i <= n,
                n == es0.len(),
                *self == *old(self),
                es0 == old(self).world.entities@,
                world_wf(self.world),
                sources@.len() == i,
                forall|j: int| 0 <= j < i ==> sources@[j] == noise_sources_of(es0)[j],
                sources_wf(sources@),
            decreases n - i,
        {
            let e = &self.world.entities[i];
            let nv = crate::detection::calculate_movement_noise(e);
            sources.push((e.position, nv));
            i = i + 1;
        }
        proof {
            assert(sources@ =~= noise_sources_of(es0));
        }
        let mut i: usize = 0;
        while i < n
            invariant
                0 <= i <= n,
                n == es0.len(),
                self.world.entities@.len() == n,
                world_wf(self.world),
                self.world.obstacles == old(self).world.obstacles,
                self.world.lights == old(self).world.lights,
                self.world.width == old(self).world.width,
                self.world.height == old(self).world.height,
                self.world.ambient_light == old(self).world.ambient_light,
                self.next_entity_id == old(self).next_entity_id,
                self.time == old(self).time,
                es0 == old(self).world.entities@,
                target == noise_pass(es0, old(self).world.obstacles@),
                sources@ == noise_sources_of(es0),
                sources_wf(sources@),
                forall|j: int| i <= j < n ==> self.world.entities@[j] == es0[j],
                forall|j: int| 0 <= j < i ==> self.world.entities@[j] == target[j],
            decreases n - i,
        {
            let pos = self.world.entities[i].position;
            let nl = crate::detection::calculate_noise_at_position(
                &pos,
                sources.as_slice(),
                self.world.obstacles.as_slice(),
            );
            let mut e = self.world.entities[i];
            e.noise_level = nl;
            self.world.entities[i] = e;
            i = i + 1;
        }
        proof {
            assert(self.world.entities@ =~= target);
        }
    }

    /// Phase 3: integrate velocities, clamp to the world bounds, resolve
    /// obstacle overlaps.
    fn update_physics(&mut self, delta_time: i64)
        requires
            world_wf(old(self).world),
            0 <= delta_time <= DT_MAX,
        ensures
            final(self).next_entity_id == old(self).next_entity_id,
            final(self).time == old(self).time,
            final(self).world.obstacles == old(self).world.obstacles,
            final(self).world.lights == old(self).world.lights,
            final(self).world.width == old(self).world.width,
            final(self).world.height == old(self).world.height,
            final(self).world.ambient_light == old(self).world.ambient_light,
            world_wf(final(self).world),
            final(self).world.entities@ == physics_pass(
                old(self).world.entities@,
                old(self).world.obstacles@,
                old(self).world.width as int,
                old(self).world.height as int,
                delta_time as int,
            ),
    {
        let ghost es0 = self.world.entities@;
        let ghost obs0 = self.world.obstacles@;
        let ghost target = physics_pass(
            es0,
            obs0,
            self.world.width as int,
            self.world.height as int,
            delta_time as int,
        );
        let n = self.world.entities.len();
        let mut i: usize = 0;
        while i < n
            invariant
                0 <= i <= n,
                n == es0.len(),
                self.world.entities@.len() == n,
                world_wf(self.world),
                self.world.obstacles == old(self).world.obstacles,
                self.world.lights == old(self).world.lights,
                self.world.width == old(self).world.width,
                self.world.height == old(self).world.height,
                self.world.ambient_light == old(self).world.ambient_light,
                self.next_entity_id == old(self).next_entity_id,
                self.time == old(self).time,
                es0 == old(self).world.entities@,
                obs0 == old(self).world.obstacles@,
                0 <= delta_time <= DT_MAX,
                target == physics_pass(
                    es0,
                    obs0,
                    old(self).world.width as int,
                    old(self).world.height as int,
                    delta_time as int,
                ),
                forall|j: int| i <= j < n ==> self.world.entities@[j] == es0[j],
                forall|j: int| 0 <= j < i ==> self.world.entities@[j] == target[j],
            decreases n - i,
        {
            let e = self.world.entities[i];
            proof {
                lemma_abs_mul_le(e.vel_x as int, delta_time as int, VEL_LIMIT as int, DT_MAX as int);
                lemma_abs_mul_le(e.vel_y as int, delta_time as int, VEL_LIMIT as int, DT_MAX as int);
                crate::math::lemma_sdiv_le((e.vel_x * delta_time) as int, 1000);
                crate::math::lemma_sdiv_le((e.vel_y * delta_time) as int, 1000);
            }
            let mx = clamp_range(e.position.x + div_trunc(e.vel_x * delta_time, 1000), 0, self.world.width);
            let my = clamp_range(e.position.y + div_trunc(e.vel_y * delta_time, 1000), 0, self.world.height);
            let mut pos = Position { x: mx, y: my, height: e.position.height };
            let ghost p0 = pos;
            let m = self.world.obstacles.len();
            let mut j: usize = 0;
            while j < m
                invariant
                    0 <= j <= m,
                    m == obs0.len(),
                    self.world.obstacles@ == obs0,
                    obstacles_wf(obs0),
                    pos_wf(pos),
                    pos == push_all_upto(p0, obs0, j as int),
                    pos_wf(p0),
                    p0.height == pos.height,
                decreases m - j,
            {
                proof {
                    lemma_push_all_wf(p0, obs0, j as int);
                    lemma_push_one_wf(pos, obs0[j as int]);
                }
                let ob = self.world.obstacles[j];
                let d = pos.distance_2d(&ob.position);
                if 0 < d && d < ob.radius + 500 {
                    let push = ob.radius + 500 - d;
                    let dx = pos.x - ob.position.x;
                    let dy = pos.y - ob.position.y;
                    proof {
                        lemma_dist_sq_bounds(pos, ob.position);
                        crate::math::lemma_square_bound(dx as int, 600_000_000);
                        crate::math::lemma_square_bound(dy as int, 600_000_000);
                        crate::math::lemma_component_le_norm(dx as int, (dy * dy) as int);
                        assert(dx * dx + dy * dy == dy * dy + dx * dx) by (nonlinear_arith);
                        crate::math::lemma_component_le_norm(dy as int, (dx * dx) as int);
                        crate::math::lemma_sdiv_push_bound(dx as int, push as int, d as int);
                        crate::math::lemma_sdiv_push_bound(dy as int, push as int, d as int);
                        lemma_abs_mul_le(dx as int, push as int, 600_000_000, 100_000_500);
                        lemma_abs_mul_le(dy as int, push as int, 600_000_000, 100_000_500);
                    }
                    let ox = div_trunc(dx * push, d);
                    let oy = div_trunc(dy * push, d);
                    pos = Position { x: pos.x + ox, y: pos.y + oy, height: pos.height };
                }
                j = j + 1;
            }
            proof {
                lemma_push_all_wf(p0, obs0, m as int);
            }
            let mut e2 = e;
            e2.position = pos;
            self.world.entities[i] = e2;
            i = i + 1;
        }
        proof {
            assert(self.world.entities@ =~= target);
        }
    }

    /// Phase 4: every guard integrates every player's detection level and
    /// the threshold crossings become events, guard-outer, player-inner.
    fn update_detection_and_ai(&mut self, delta_time: i64) -> (events: Vec<GameEvent>)
        requires
            world_wf(old(self).world),
        ensures
            final(self).next_entity_id == old(self).next_entity_id,
            final(self).time == old(self).time,
            final(self).world.obstacles == old(self).world.obstacles,
            final(self).world.lights == old(self).world.lights,
            final(self).world.width == old(self).world.width,
            final(self).world.height == old(self).world.height,
            final(self).world.ambient_light == old(self).world.ambient_light,
            world_wf(final(self).world),
            ({
                let r = detection_phase(
                    old(self).world.entities@,
                    old(self).world.obstacles@,
                    delta_time as int,
                );
                final(self).world.entities@ == r.0 && events@ == r.1
            }),
    {
        let ghost es0 = self.world.entities@;
        let ghost obs0 = self.world.obstacles@;
        let n = self.world.entities.len();
        let mut players: Vec<EntityId> = Vec::new();
        let mut guards: Vec<EntityId> = Vec::new();
        let mut i: usize = 0;
        while i < n
            invariant
                0 <= i <= n,
                n == es0.len(),
                *self == *old(self),
                es0 == old(self).world.entities@,
                players@ == ids_of_type_upto(es0, EntityType::Player, i as int),
                guards@ == ids_of_type_upto(es0, EntityType::Guard, i as int),
            decreases n - i,
        {
            let e = &self.world.entities[i];
            if matches!(e.entity_type, EntityType::Player) {
                players.push(e.id);
            } else if matches!(e.entity_type, EntityType::Guard) {
                guards.push(e.id);
            }
            i = i + 1;
        }
        let ghost pids = players@;
        let ghost gids = guards@;
        let ghost dt = delta_time as int;
        let mut events: Vec<GameEvent> = Vec::new();
        let ng = guards.len();
        let mut g: usize = 0;
        while g < ng
            invariant
                0 <= g <= ng,
                ng == gids.len(),
                guards@ == gids,
                players@ == pids,
                dt == delta_time as int,
                es0 == old(self).world.entities@,
                obs0 == old(self).world.obstacles@,
                world_wf(self.world),
                self.world.obstacles == old(self).world.obstacles,
                self.world.lights == old(self).world.lights,
                self.world.width == old(self).world.width,
                self.world.height == old(self).world.height,
                self.world.ambient_light == old(self).world.ambient_light,
                self.next_entity_id == old(self).next_entity_id,
                self.time == old(self).time,
                ({
                    let r = detect_all(es0, obs0, gids, pids, g as int, dt);
                    self.world.entities@ == r.0 && events@ == r.1
                }),
            decreases ng - g,
        {
            let gid = guards[g];
            let np = players.len();
            let mut p: usize = 0;
            while p < np
                invariant
                    0 <= p <= np,
                    0 <= g < ng,
                    ng == gids.len(),
                    np == pids.len(),
                    guards@ == gids,
                    players@ == pids,
                    gid == gids[g as int],
                    dt == delta_time as int,
                    es0 == old(self).world.entities@,
                    obs0 == old(self).world.obstacles@,
                    world_wf(self.world),
                    self.world.obstacles == old(self).world.obstacles,
                    self.world.lights == old(self).world.lights,
                    self.world.width == old(self).world.width,
                    self.world.height == old(self).world.height,
                    self.world.ambient_light == old(self).world.ambient_light,
                    self.next_entity_id == old(self).next_entity_id,
                    self.time == old(self).time,
                    ({
                        let prev = detect_all(es0, obs0, gids, pids, g as int, dt);
                        let row = detect_row(prev.0, obs0, gid, pids, p as int, dt);
                        self.world.entities@ == row.0 && events@ == prev.1 + row.1
                    }),
                decreases np - p,
            {
                let ghost es_in = self.world.entities@;
                let ghost events_in = events@;
                let pid = players[p];
                let gio = self.world.find_entity_index(gid);
                let pio = self.world.find_entity_index(pid);
                proof {
                    lemma_first_with_id(es_in, gid);
                    lemma_first_with_id(es_in, pid);
                }
                match (gio, pio) {
                    (Option::Some(gk), Option::Some(pk)) => {
                        let guard = self.world.entities[gk];
                        let player = self.world.entities[pk];
                        let vis = crate::detection::calculate_visibility(
                            &guard,
                            &player,
                            &self.world,
                        );
                        let old_level = player.detection_level;
                        let mut p2 = player;
                        crate::detection::update_detection(&mut p2, vis, delta_time);
                        let new_level = p2.detection_level;
                        self.world.entities[pk] = p2;
                        if old_level < 900 && new_level >= 900 {
                            events.push(
                                GameEvent::PlayerDetected {
                                    player_id: pid,
                                    guard_id: gid,
                                    level: new_level,
                                },
                            );
                            let mut g2 = self.world.entities[gk];
                            g2.state = ActorState::Alerted;
                            self.world.entities[gk] = g2;
                        } else if old_level > 100 && new_level <= 100 {
                            events.push(GameEvent::PlayerHidden { player_id: pid });
                        }
                    },
                    _ => {},
                }
                proof {
                    let step = detect_pair_step(es_in, obs0, gid, pid, dt);
                    assert(self.world.entities@ == step.0 && events@ == events_in + step.1) by {
                        assert(events_in + Seq::<GameEvent>::empty() =~= events_in);
                        if events@.len() == events_in.len() + 1 {
                            assert(events_in + seq![events@.last()] =~= events@);
                        }
                    }
                    let prev = detect_all(es0, obs0, gids, pids, g as int, dt);
                    let row = detect_row(prev.0, obs0, gid, pids, p as int, dt);
                    let row1 = detect_row(prev.0, obs0, gid, pids, p + 1, dt);
                    assert(row1.0 == step.0 && row1.1 == row.1 + step.1);
                    assert(prev.1 + row1.1 =~= (prev.1 + row.1) + step.1);
                }
                p = p + 1;
            }
            proof {
                let prev = detect_all(es0, obs0, gids, pids, g as int, dt);
                let row = detect_row(prev.0, obs0, gid, pids, np as int, dt);
                let next = detect_all(es0, obs0, gids, pids, g + 1, dt);
                assert(next.0 == row.0 && next.1 == prev.1 + row.1);
            }
            g = g + 1;
        }
        events
    }

    /// Main game update loop: accumulate time, then run lighting, noise,
    /// physics and detection in that fixed order, and return the events of
    /// this call in order.
    pub fn update(&mut self, delta_time: i64) -> (events: Vec<GameEvent>)
        requires
            sys_wf(*old(self)),
            0 <= delta_time <= DT_MAX,
            old(self).time + delta_time <= i64::MAX,
        ensures
            sys_wf(*final(self)),
            final(self).time == old(self).time + delta_time,
            final(self).next_entity_id == old(self).next_entity_id,
            final(self).world.obstacles == old(self).world.obstacles,
            final(self).world.lights == old(self).world.lights,
            final(self).world.width == old(self).world.width,
            final(self).world.height == old(self).world.height,
            final(self).world.ambient_light == old(self).world.ambient_light,
            ({
                let w0 = old(self).world;
                let es1 = light_pass(w0.entities@, w0.lights@, w0.obstacles@, w0.ambient_light as int);
                let es2 = noise_pass(es1, w0.obstacles@);
                let es3 = physics_pass(es2, w0.obstacles@, w0.width as int, w0.height as int, delta_time as int);
                let r = detection_phase(es3, w0.obstacles@, delta_time as int);
                final(self).world.entities@ == r.0 && events@ == r.1
            }),
    {
        self.time = self.time + delta_time;
        self.update_lighting();
        self.update_noise();
        self.update_physics(delta_time);
        let events = self.update_detection_and_ai(delta_time);
        events
    }
}

} // verus!
