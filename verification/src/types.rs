//! Entity, world and geometry types of the simulation kernel.
//!
//! Every scalar is a fixed-point integer in milli-units (`1000` = 1.0).
//! Facing is stored as a unit-length direction vector in milli-units
//! rather than an angle, so that the field-of-view test is exact integer
//! arithmetic: a target is inside the field of view when the cosine of the
//! angle to it, scaled by the distance, is at least `fov_cos`.

use vstd::prelude::*;

use crate::math::{abs_spec, isqrt, lemma_square_bound, sqrt_floor};

verus! {

/// Unique identifier for entities.
pub type EntityId = u32;

/// Largest world dimension, obstacle or light coordinate, and radius
/// (a machine limit that keeps all intermediate products inside `i64`).
pub const DIM_MAX: i64 = 100_000_000;

/// Entity positions stay within this magnitude: world bounds plus the
/// farthest an obstacle can push an entity outward.
pub const POS_LIMIT: i64 = 300_000_000;

/// Largest base movement speed (milli-units per second).
pub const SPEED_MAX: i64 = 100_000;

/// Velocity components stay within this magnitude (twice the base speed,
/// reached while sprinting).
pub const VEL_LIMIT: i64 = 200_000;

/// Largest time step accepted by one update call (milli-seconds).
pub const DT_MAX: i64 = 1_000_000;

/// Game position in the 2D world, with an optional elevation used only by
/// the 3D-aware distance.
#[derive(Clone, Copy, PartialEq, Eq, Structural, Debug)]
pub struct Position {
    pub x: i64,
    pub y: i64,
    pub height: i64,
}

/// A position whose coordinates are small enough for distance arithmetic.
pub open spec fn pos_wf(p: Position) -> bool {
    &&& abs_spec(p.x as int) <= POS_LIMIT
    &&& abs_spec(p.y as int) <= POS_LIMIT
    &&& abs_spec(p.height as int) <= POS_LIMIT
}

/// Squared 2D distance.
pub open spec fn dist2d_sq(a: Position, b: Position) -> int {
    (a.x - b.x) * (a.x - b.x) + (a.y - b.y) * (a.y - b.y)
}

/// 2D distance: the floor of the square root of the squared distance.
pub open spec fn dist2d(a: Position, b: Position) -> int {
    sqrt_floor(dist2d_sq(a, b))
}

/// Squared 3D distance, elevation included.
pub open spec fn dist3d_sq(a: Position, b: Position) -> int {
    dist2d_sq(a, b) + (a.height - b.height) * (a.height - b.height)
}

/// 3D distance.
pub open spec fn dist3d(a: Position, b: Position) -> int {
    sqrt_floor(dist3d_sq(a, b))
}

/// Squared distances and distances of well-formed positions stay inside
/// `i64`: coordinate differences are at most `600_000_000`, so the squared
/// 3D distance is at most `3 * 600_000_000^2` and the distance at most
/// `1_040_000_000`.
pub proof fn lemma_dist_sq_bounds(a: Position, b: Position)
    requires
        pos_wf(a),
        pos_wf(b),
    ensures
        0 <= dist2d_sq(a, b) <= 720_000_000_000_000_000,
        0 <= dist3d_sq(a, b) <= 1_080_000_000_000_000_000,
        dist2d_sq(a, b) <= dist3d_sq(a, b),
        0 <= dist2d(a, b) <= 1_040_000_000,
        0 <= dist3d(a, b) <= 1_040_000_000,
{
    lemma_square_bound(a.x - b.x, 600_000_000);
    lemma_square_bound(a.y - b.y, 600_000_000);
    lemma_square_bound(a.height - b.height, 600_000_000);
    assert(600_000_000int * 600_000_000int == 360_000_000_000_000_000int) by (nonlinear_arith);
    crate::math::lemma_sqrt_monotone(dist2d_sq(a, b), 1_081_600_000_000_000_000);
    crate::math::lemma_sqrt_monotone(dist3d_sq(a, b), 1_081_600_000_000_000_000);
    assert(1_040_000_000int * 1_040_000_000int == 1_081_600_000_000_000_000int)
        by (nonlinear_arith);
    crate::math::lemma_sqrt_of_square(1_040_000_000);
    crate::math::lemma_sqrt_le(dist2d_sq(a, b));
    crate::math::lemma_sqrt_le(dist3d_sq(a, b));
}

impl Position {
    pub fn new(x: i64, y: i64) -> (p: Position)
        ensures
            p == (Position { x, y, height: 0 }),
    {
        Position { x, y, height: 0 }
    }

    pub fn with_height(x: i64, y: i64, height: i64) -> (p: Position)
        ensures
            p == (Position { x, y, height }),
    {
        Position { x, y, height }
    }

    /// 3D distance to another position, elevation included.
    pub fn distance_to(&self, other: &Position) -> (d: i64)
        requires
            pos_wf(*self),
            pos_wf(*other),
        ensures
            d == dist3d(*self, *other),
            0 <= d,
    {
        proof {
            lemma_dist_sq_bounds(*self, *other);
            lemma_square_bound(self.x - other.x, 600_000_000);
            lemma_square_bound(self.y - other.y, 600_000_000);
            lemma_square_bound(self.height - other.height, 600_000_000);
            assert(600_000_000int * 600_000_000int == 360_000_000_000_000_000int)
                by (nonlinear_arith);
        }
        let dx = self.x - other.x;
        let dy = self.y - other.y;
        let dz = self.height - other.height;
        isqrt(dx * dx + dy * dy + dz * dz)
    }

    /// 2D distance to another position, ignoring elevation.
    pub fn distance_2d(&self, other: &Position) -> (d: i64)
        requires
            pos_wf(*self),
            pos_wf(*other),
        ensures
            d == dist2d(*self, *other),
            0 <= d,
    {
        proof {
            lemma_dist_sq_bounds(*self, *other);
            lemma_square_bound(self.x - other.x, 600_000_000);
            lemma_square_bound(self.y - other.y, 600_000_000);
            assert(600_000_000int * 600_000_000int == 360_000_000_000_000_000int)
                by (nonlinear_arith);
        }
        let dx = self.x - other.x;
        let dy = self.y - other.y;
        isqrt(dx * dx + dy * dy)
    }
}

/// Entity type classification.
#[derive(Clone, Copy, PartialEq, Eq, Structural, Debug)]
pub enum EntityType {
    Player,
    Guard,
    Camera,
    Door,
    LightSource,
    SoundEmitter,
    CoverObject,
}

/// Movement stance; affects visibility and noise.
#[derive(Clone, Copy, PartialEq, Eq, Structural, Debug)]
pub enum Stance {
    Standing,
    Crouching,
    Prone,
}

/// Player and NPC behavioral states.
#[derive(Clone, Copy, PartialEq, Eq, Structural, Debug)]
pub enum ActorState {
    Idle,
    Walking,
    Running,
    Hiding,
    Investigating,
    Alerted,
    Hunting,
}

/// Core entity data.
#[derive(Clone, Copy, PartialEq, Eq, Structural, Debug)]
pub struct Entity {
    pub id: EntityId,
    pub entity_type: EntityType,
    pub position: Position,
    /// Facing direction as a unit vector in milli-units.
    pub facing_x: i64,
    pub facing_y: i64,
    /// Velocity in milli-units per second.
    pub vel_x: i64,
    pub vel_y: i64,
    pub stance: Stance,
    pub state: ActorState,
    pub visible: bool,
    pub visibility_radius: i64,
    /// Cosine of the field-of-view half-angle, in milli-units.
    pub fov_cos: i64,
    /// How much noise reaches this entity, in `[0, 1000]`.
    pub noise_level: i64,
    /// How discovered this entity is, in `[0, 1000]`.
    pub detection_level: i64,
    /// How lit this entity is, in `[0, 1000]`.
    pub light_exposure: i64,
    /// Base movement speed in milli-units per second.
    pub speed: i64,
    pub health: i64,
}

/// Field bounds every entity of a well-formed world satisfies.
pub open spec fn entity_wf(e: Entity) -> bool {
    &&& pos_wf(e.position)
    &&& abs_spec(e.facing_x as int) <= 1000
    &&& abs_spec(e.facing_y as int) <= 1000
    &&& abs_spec(e.vel_x as int) <= VEL_LIMIT
    &&& abs_spec(e.vel_y as int) <= VEL_LIMIT
    &&& 1 <= e.visibility_radius <= DIM_MAX
    &&& -1000 <= e.fov_cos <= 1000
    &&& 0 <= e.noise_level <= 1000
    &&& 0 <= e.detection_level <= 1000
    &&& 0 <= e.light_exposure <= 1000
    &&& 1 <= e.speed <= SPEED_MAX
    &&& 0 <= e.health <= 1_000_000_000
}

/// Player defaults: visibility radius 15, full-circle field of view
/// (`fov_cos` = cos of a half-turn), speed 5, half lit.
pub open spec fn new_player_spec(id: EntityId, position: Position) -> Entity {
    Entity {
        id,
        entity_type: EntityType::Player,
        position,
        facing_x: 1000,
        facing_y: 0,
        vel_x: 0,
        vel_y: 0,
        stance: Stance::Standing,
        state: ActorState::Idle,
        visible: true,
        visibility_radius: 15_000,
        fov_cos: -1000i64,
        noise_level: 0,
        detection_level: 0,
        light_exposure: 500,
        speed: 5000,
        health: 100_000,
    }
}

/// Guard defaults: visibility radius 20, 144-degree field of view
/// (`fov_cos` = cos of the 72-degree half-angle), speed 4, fully lit.
pub open spec fn new_guard_spec(id: EntityId, position: Position) -> Entity {
    Entity {
        id,
        entity_type: EntityType::Guard,
        position,
        facing_x: 1000,
        facing_y: 0,
        vel_x: 0,
        vel_y: 0,
        stance: Stance::Standing,
        state: ActorState::Idle,
        visible: true,
        visibility_radius: 20_000,
        fov_cos: 309,
        noise_level: 0,
        detection_level: 0,
        light_exposure: 1000,
        speed: 4000,
        health: 100_000,
    }
}

/// A target is inside the field of view when the dot product of the facing
/// vector with the vector to the target is at least `fov_cos` times the
/// distance: the exact integer form of "the angle between facing and
/// to-target is at most the half-angle".  A zero-length to-target vector
/// has no direction and counts as out of view.
pub open spec fn in_fov_spec(e: Entity, target: Position) -> bool {
    let dx = target.x - e.position.x;
    let dy = target.y - e.position.y;
    &&& !(dx == 0 && dy == 0)
    &&& e.facing_x * dx + e.facing_y * dy >= e.fov_cos * sqrt_floor(dx * dx + dy * dy)
}

impl Entity {
    pub fn new_player(id: EntityId, position: Position) -> (e: Entity)
        ensures
            e == new_player_spec(id, position),
            pos_wf(position) ==> entity_wf(e),
    {
        Entity {
            id,
            entity_type: EntityType::Player,
            position,
            facing_x: 1000,
            facing_y: 0,
            vel_x: 0,
            vel_y: 0,
            stance: Stance::Standing,
            state: ActorState::Idle,
            visible: true,
            visibility_radius: 15_000,
            fov_cos: -1000,
            noise_level: 0,
            detection_level: 0,
            light_exposure: 500,
            speed: 5000,
            health: 100_000,
        }
    }

    pub fn new_guard(id: EntityId, position: Position) -> (e: Entity)
        ensures
            e == new_guard_spec(id, position),
            pos_wf(position) ==> entity_wf(e),
    {
        Entity {
            id,
            entity_type: EntityType::Guard,
            position,
            facing_x: 1000,
            facing_y: 0,
            vel_x: 0,
            vel_y: 0,
            stance: Stance::Standing,
            state: ActorState::Idle,
            visible: true,
            visibility_radius: 20_000,
            fov_cos: 309,
            noise_level: 0,
            detection_level: 0,
            light_exposure: 1000,
            speed: 4000,
            health: 100_000,
        }
    }

    /// The direction vector this entity is facing.
    pub fn facing_direction(&self) -> (d: (i64, i64))
        ensures
            d.0 == self.facing_x,
            d.1 == self.facing_y,
    {
        (self.facing_x, self.facing_y)
    }

    /// Whether this entity is facing towards a position, within its field
    /// of view.
    pub fn is_facing(&self, target: &Position) -> (r: bool)
        requires
            entity_wf(*self),
            pos_wf(*target),
        ensures
            r == in_fov_spec(*self, *target),
    {
        let dx = target.x - self.position.x;
        let dy = target.y - self.position.y;
        proof {
            lemma_square_bound(dx as int, 600_000_000);
            lemma_square_bound(dy as int, 600_000_000);
            assert(600_000_000int * 600_000_000int == 360_000_000_000_000_000int)
                by (nonlinear_arith);
        }
        let dist = isqrt(dx * dx + dy * dy);
        proof {
            crate::math::lemma_sqrt_monotone((dx * dx + dy * dy) as int, 1_081_600_000_000_000_000);
            assert(1_040_000_000int * 1_040_000_000int == 1_081_600_000_000_000_000int)
                by (nonlinear_arith);
            crate::math::lemma_sqrt_of_square(1_040_000_000);
            crate::math::lemma_abs_mul_le(self.facing_x as int, dx as int, 1000, 600_000_000);
            crate::math::lemma_abs_mul_le(self.facing_y as int, dy as int, 1000, 600_000_000);
            crate::math::lemma_abs_mul_le(self.fov_cos as int, dist as int, 1000, 1_040_000_000);
        }
        if dx == 0 && dy == 0 {
            return false;
        }
        self.facing_x * dx + self.facing_y * dy >= self.fov_cos * dist
    }
}

/// World obstacles and cover.
#[derive(Clone, Copy, PartialEq, Eq, Structural, Debug)]
pub struct Obstacle {
    pub position: Position,
    pub radius: i64,
    pub blocks_vision: bool,
    pub blocks_sound: bool,
    pub provides_cover: bool,
}

pub open spec fn obstacle_wf(o: Obstacle) -> bool {
    &&& abs_spec(o.position.x as int) <= DIM_MAX
    &&& abs_spec(o.position.y as int) <= DIM_MAX
    &&& abs_spec(o.position.height as int) <= DIM_MAX
    &&& 0 <= o.radius <= DIM_MAX
}

/// Light source in the world.
#[derive(Clone, Copy, PartialEq, Eq, Structural, Debug)]
pub struct LightSource {
    pub position: Position,
    pub radius: i64,
    /// Intensity in `[0, 1000]`.
    pub intensity: i64,
}

pub open spec fn light_wf(l: LightSource) -> bool {
    &&& abs_spec(l.position.x as int) <= DIM_MAX
    &&& abs_spec(l.position.y as int) <= DIM_MAX
    &&& abs_spec(l.position.height as int) <= DIM_MAX
    &&& 1 <= l.radius <= DIM_MAX
    &&& 0 <= l.intensity <= 1000
}

/// Game world state.
#[derive(Clone, Debug)]
pub struct World {
    pub entities: Vec<Entity>,
    pub obstacles: Vec<Obstacle>,
    pub lights: Vec<LightSource>,
    pub width: i64,
    pub height: i64,
    /// Ambient light applied before per-light contributions, in `[0, 1000]`.
    pub ambient_light: i64,
}

pub open spec fn entities_wf(s: Seq<Entity>) -> bool {
    forall|i: int| 0 <= i < s.len() ==> entity_wf(#[trigger] s[i])
}

pub open spec fn obstacles_wf(s: Seq<Obstacle>) -> bool {
    forall|i: int| 0 <= i < s.len() ==> obstacle_wf(#[trigger] s[i])
}

pub open spec fn lights_wf(s: Seq<LightSource>) -> bool {
    forall|i: int| 0 <= i < s.len() ==> light_wf(#[trigger] s[i])
}

/// Value bounds of a well-formed world.
pub open spec fn world_wf(w: World) -> bool {
    &&& entities_wf(w.entities@)
    &&& obstacles_wf(w.obstacles@)
    &&& lights_wf(w.lights@)
    &&& 0 <= w.width <= DIM_MAX
    &&& 0 <= w.height <= DIM_MAX
    &&& 0 <= w.ambient_light <= 1000
}

/// Entity identities are pairwise distinct.
pub open spec fn ids_unique(s: Seq<Entity>) -> bool {
    forall|i: int, j: int| 0 <= i < j < s.len() ==> (#[trigger] s[i].id) != (#[trigger] s[j].id)
}

/// Every entity identity is below `n` (so `n` is fresh).
pub open spec fn ids_below(s: Seq<Entity>, n: EntityId) -> bool {
    forall|i: int| 0 <= i < s.len() ==> (#[trigger] s[i].id) < n
}

/// Index of the first entity with the given identity, or `-1`.
pub open spec fn first_with_id_from(s: Seq<Entity>, id: EntityId, i: int) -> int
    decreases s.len() - i,
{
    if i < 0 || i >= s.len() {
        -1
    } else if s[i].id == id {
        i
    } else {
        first_with_id_from(s, id, i + 1)
    }
}

pub open spec fn first_with_id(s: Seq<Entity>, id: EntityId) -> int {
    first_with_id_from(s, id, 0)
}

/// What the search index means: `-1` exactly when no entity matches, and
/// otherwise the first matching index.
pub proof fn lemma_first_with_id_from(s: Seq<Entity>, id: EntityId, i: int)
    requires
        0 <= i <= s.len(),
    ensures
        first_with_id_from(s, id, i) == -1 ==> forall|j: int|
            i <= j < s.len() ==> (#[trigger] s[j].id) != id,
        first_with_id_from(s, id, i) != -1 ==> {
            let k = first_with_id_from(s, id, i);
            &&& i <= k < s.len()
            &&& s[k].id == id
            &&& forall|j: int| i <= j < k ==> (#[trigger] s[j].id) != id
        },
    decreases s.len() - i,
{
    if i < s.len() {
        lemma_first_with_id_from(s, id, i + 1);
    }
}

pub proof fn lemma_first_with_id(s: Seq<Entity>, id: EntityId)
    ensures
        first_with_id(s, id) == -1 ==> forall|j: int|
            0 <= j < s.len() ==> (#[trigger] s[j].id) != id,
        first_with_id(s, id) != -1 ==> {
            let k = first_with_id(s, id);
            &&& 0 <= k < s.len()
            &&& s[k].id == id
            &&& forall|j: int| 0 <= j < k ==> (#[trigger] s[j].id) != id
        },
{
    lemma_first_with_id_from(s, id, 0);
}

impl World {
    /// An empty world with the given bounds and the default ambient light.
    pub fn new(width: i64, height: i64) -> (w: World)
        ensures
            w.entities@ =~= Seq::<Entity>::empty(),
            w.obstacles@ =~= Seq::<Obstacle>::empty(),
            w.lights@ =~= Seq::<LightSource>::empty(),
            w.width == width,
            w.height == height,
            w.ambient_light == 300,
            (0 <= width <= DIM_MAX && 0 <= height <= DIM_MAX) ==> world_wf(w),
            ids_unique(w.entities@),
    {
        World {
            entities: Vec::new(),
            obstacles: Vec::new(),
            lights: Vec::new(),
            width,
            height,
            ambient_light: 300,
        }
    }

    /// Append an entity; the identity is pre-assigned by the caller.
    pub fn add_entity(&mut self, entity: Entity) -> (id: EntityId)
        ensures
            id == entity.id,
            final(self).entities@ == old(self).entities@.push(entity),
            final(self).obstacles == old(self).obstacles,
            final(self).lights == old(self).lights,
            final(self).width == old(self).width,
            final(self).height == old(self).height,
            final(self).ambient_light == old(self).ambient_light,
    {
        let id = entity.id;
        self.entities.push(entity);
        id
    }

    /// Look up an entity by identity; a miss is `None`, not an error.
    pub fn get_entity(&self, id: EntityId) -> (r: Option<&Entity>)
        ensures
            match r {
                Option::None => first_with_id(self.entities@, id) == -1,
                Option::Some(e) => {
                    &&& first_with_id(self.entities@, id) >= 0
                    &&& *e == self.entities@[first_with_id(self.entities@, id)]
                },
            },
    {
        let n = self.entities.len();
        let mut i: usize = 0;
        while i < n
            invariant
                0 <= i <= n,
                n == self.entities@.len(),
                first_with_id_from(self.entities@, id, 0) == first_with_id_from(
                    self.entities@,
                    id,
                    i as int,
                ),
            decreases n - i,
        {
            if self.entities[i].id == id {
                return Option::Some(&self.entities[i]);
            }
            i = i + 1;
        }
        Option::None
    }

    /// Index of the entity with the given identity, if any.
    pub fn find_entity_index(&self, id: EntityId) -> (r: Option<usize>)
        ensures
            match r {
                Option::None => first_with_id(self.entities@, id) == -1,
                Option::Some(k) => k as int == first_with_id(self.entities@, id),
            },
    {
        let n = self.entities.len();
        let mut i: usize = 0;
        while i < n
            invariant
                0 <= i <= n,
                n == self.entities@.len(),
                first_with_id_from(self.entities@, id, 0) == first_with_id_from(
                    self.entities@,
                    id,
                    i as int,
                ),
            decreases n - i,
        {
            if self.entities[i].id == id {
                return Option::Some(i);
            }
            i = i + 1;
        }
        Option::None
    }

    /// Look up an entity by identity for mutation; a miss is `None`.
    pub fn get_entity_mut(&mut self, id: EntityId) -> (r: Option<&mut Entity>)
        ensures
            final(self).obstacles == old(self).obstacles,
            final(self).lights == old(self).lights,
            final(self).width == old(self).width,
            final(self).height == old(self).height,
            final(self).ambient_light == old(self).ambient_light,
            match r {
                Option::None => {
                    &&& first_with_id(old(self).entities@, id) == -1
                    &&& final(self).entities == old(self).entities
                },
                Option::Some(m) => {
                    let k = first_with_id(old(self).entities@, id);
                    &&& k >= 0
                    &&& *m == old(self).entities@[k]
                    &&& final(self).entities@ == old(self).entities@.update(k, *final(m))
                },
            },
    {
        proof {
            lemma_first_with_id(self.entities@, id);
        }
        let r = self.find_entity_index(id);
        match r {
            Option::Some(k) => Option::Some(&mut self.entities[k]),
            Option::None => Option::None,
        }
    }

    /// Remove the entity with the given identity; reports whether one was
    /// found.
    pub fn remove_entity(&mut self, id: EntityId) -> (found: bool)
        ensures
            final(self).obstacles == old(self).obstacles,
            final(self).lights == old(self).lights,
            final(self).width == old(self).width,
            final(self).height == old(self).height,
            final(self).ambient_light == old(self).ambient_light,
            ({
                let k = first_with_id(old(self).entities@, id);
                if k == -1 {
                    &&& !found
                    &&& final(self).entities == old(self).entities
                } else {
                    &&& found
                    &&& final(self).entities@ == old(self).entities@.remove(k)
                }
            }),
    {
        let r = self.find_entity_index(id);
        proof {
            lemma_first_with_id(self.entities@, id);
        }
        match r {
            Option::Some(k) => {
                self.entities.remove(k);
                true
            },
            Option::None => false,
        }
    }
}

} // verus!
