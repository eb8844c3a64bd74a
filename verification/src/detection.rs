//! Detection mathematics: line-of-sight occlusion, visibility scoring,
//! light exposure, noise propagation, movement noise, cover, and the
//! progressive detection integrator.
//!
//! All functions are pure with respect to the world; each is tied to a
//! spec-level counterpart that states its value exactly.

use vstd::prelude::*;

use crate::math::{
    clamp_unit_spec, isqrt, lemma_abs_mul_le, lemma_div_le, lemma_square_bound, sdiv, sqrt_floor,
};
use crate::types::{
    dist2d, dist2d_sq, dist3d, entity_wf, in_fov_spec, lemma_dist_sq_bounds, light_wf, lights_wf,
    obstacle_wf, obstacles_wf, pos_wf, world_wf, ActorState, Entity, LightSource, Obstacle,
    Position, Stance, World,
};

verus! {

/// Whether one obstacle blocks the segment between two points: it must
/// block vision, the projection of its center onto the segment must fall
/// between the endpoints, and its center must lie within its radius of the
/// segment.  Written over squared quantities, this is the exact form of
/// the projection-and-perpendicular-distance test; a zero-length segment
/// blocks nothing.
pub open spec fn blocks_segment_spec(from: Position, to: Position, ob: Obstacle) -> bool {
    let sx = to.x - from.x;
    let sy = to.y - from.y;
    let ox = ob.position.x - from.x;
    let oy = ob.position.y - from.y;
    let ssq = sx * sx + sy * sy;
    let d = ox * sx + oy * sy;
    let osq = ox * ox + oy * oy;
    &&& ob.blocks_vision
    &&& 0 <= d <= ssq
    &&& osq * ssq - d * d < ob.radius * ob.radius * ssq
}

/// No obstacle among the first `n` blocks the segment.
pub open spec fn los_upto(from: Position, to: Position, obs: Seq<Obstacle>, n: int) -> bool {
    forall|i: int| 0 <= i < n ==> !blocks_segment_spec(from, to, #[trigger] obs[i])
}

/// The segment is unobstructed by every vision-blocking obstacle.
pub open spec fn line_of_sight_spec(from: Position, to: Position, obs: Seq<Obstacle>) -> bool {
    los_upto(from, to, obs, obs.len() as int)
}

/// The blocking test does not depend on the direction of the segment.
pub proof fn lemma_blocks_segment_symmetric(a: Position, b: Position, ob: Obstacle)
    ensures
        blocks_segment_spec(a, b, ob) == blocks_segment_spec(b, a, ob),
{
    let sx = b.x - a.x;
    let sy = b.y - a.y;
    let ox = ob.position.x - a.x;
    let oy = ob.position.y - a.y;
    let rx = ob.position.x - b.x;
    let ry = ob.position.y - b.y;
    let ssq = sx * sx + sy * sy;
    let d = ox * sx + oy * sy;
    let osq = ox * ox + oy * oy;
    // The reversed segment has the same length, and the reversed
    // projection and center offset are linear in the forward ones.
    assert((-sx) * (-sx) + (-sy) * (-sy) == ssq) by (nonlinear_arith)
        requires
            ssq == sx * sx + sy * sy,
    {}
    assert(rx * (-sx) + ry * (-sy) == ssq - d) by (nonlinear_arith)
        requires
            rx == ox - sx,
            ry == oy - sy,
            ssq == sx * sx + sy * sy,
            d == ox * sx + oy * sy,
    {}
    assert(rx * rx + ry * ry == osq - 2 * d + ssq) by (nonlinear_arith)
        requires
            rx == ox - sx,
            ry == oy - sy,
            ssq == sx * sx + sy * sy,
            d == ox * sx + oy * sy,
            osq == ox * ox + oy * oy,
    {}
    // The perpendicular-distance expression is invariant under reversal.
    assert((osq - 2 * d + ssq) * ssq - (ssq - d) * (ssq - d) == osq * ssq - d * d)
        by (nonlinear_arith) {}
}

/// Occlusion symmetry: line of sight from A to B equals line of sight
/// from B to A, for any obstacle set.
pub proof fn lemma_line_of_sight_symmetric(a: Position, b: Position, obs: Seq<Obstacle>)
    ensures
        line_of_sight_spec(a, b, obs) == line_of_sight_spec(b, a, obs),
{
    assert forall|i: int| 0 <= i < obs.len() implies (blocks_segment_spec(a, b, #[trigger] obs[i])
        == blocks_segment_spec(b, a, obs[i])) by {
        lemma_blocks_segment_symmetric(a, b, obs[i]);
    }
}

/// Calculate line-of-sight between two positions.
pub fn has_line_of_sight(from: &Position, to: &Position, obstacles: &[Obstacle]) -> (r: bool)
    requires
        pos_wf(*from),
        pos_wf(*to),
        obstacles_wf(obstacles@),
    ensures
        r == line_of_sight_spec(*from, *to, obstacles@),
{
    let sx = to.x - from.x;
    let sy = to.y - from.y;
    let n = obstacles.len();
    let mut i: usize = 0;
    while i < n
        invariant
            0 <= i <= n,
            n == obstacles@.len(),
            pos_wf(*from),
            pos_wf(*to),
            obstacles_wf(obstacles@),
            sx == to.x - from.x,
            sy == to.y - from.y,
            los_upto(*from, *to, obstacles@, i as int),
        decreases n - i,
    {
        let ob = &obstacles[i];
        if ob.blocks_vision {
            let ox = ob.position.x - from.x;
            let oy = ob.position.y - from.y;
            proof {
                lemma_square_bound(sx as int, 600_000_000);
                lemma_square_bound(sy as int, 600_000_000);
                lemma_square_bound(ox as int, 600_000_000);
                lemma_square_bound(oy as int, 600_000_000);
                lemma_abs_mul_le(ox as int, sx as int, 600_000_000, 600_000_000);
                lemma_abs_mul_le(oy as int, sy as int, 600_000_000, 600_000_000);
                assert(600_000_000int * 600_000_000int == 360_000_000_000_000_000int)
                    by (nonlinear_arith);
                lemma_square_bound(ob.radius as int, 100_000_000);
                assert(100_000_000int * 100_000_000int == 10_000_000_000_000_000int)
                    by (nonlinear_arith);
            }
            let ssq: i128 = (sx as i128) * (sx as i128) + (sy as i128) * (sy as i128);
            let d: i128 = (ox as i128) * (sx as i128) + (oy as i128) * (sy as i128);
            let osq: i128 = (ox as i128) * (ox as i128) + (oy as i128) * (oy as i128);
            let rsq: i128 = (ob.radius as i128) * (ob.radius as i128);
            proof {
                lemma_abs_mul_le(osq as int, ssq as int, 720_000_000_000_000_000, 720_000_000_000_000_000);
                lemma_abs_mul_le(d as int, d as int, 720_000_000_000_000_000, 720_000_000_000_000_000);
                lemma_abs_mul_le(rsq as int, ssq as int, 10_000_000_000_000_000, 720_000_000_000_000_000);
            }
            if 0 <= d && d <= ssq && osq * ssq - d * d < rsq * ssq {
                return false;
            }
        }
        i = i + 1;
    }
    true
}

/// Stance factor for visibility: a crouching or prone target is harder to
/// see.
pub open spec fn stance_visibility_factor(s: Stance) -> int {
    match s {
        Stance::Standing => 1000,
        Stance::Crouching => 600,
        Stance::Prone => 300,
    }
}

/// Whether an entity's speed exceeds the 0.1 movement threshold
/// (compared on squares, which is exact).
pub open spec fn moving_spec(e: Entity) -> bool {
    e.vel_x * e.vel_x + e.vel_y * e.vel_y > 10_000
}

/// A moving target is easier to spot.
pub open spec fn movement_visibility_factor(e: Entity) -> int {
    if moving_spec(e) {
        1200
    } else {
        1000
    }
}

/// How visible `target` is from `observer`: zero beyond the visibility
/// radius, outside the field of view, or without line of sight; otherwise
/// the product of linear distance falloff, the target's stance factor, its
/// light exposure and its movement factor, clamped to `[0, 1000]`.
pub open spec fn visibility_obs(observer: Entity, target: Entity, obs: Seq<Obstacle>) -> int {
    let dist = dist2d(observer.position, target.position);
    if dist > observer.visibility_radius {
        0
    } else if !in_fov_spec(observer, target.position) {
        0
    } else if !line_of_sight_spec(observer.position, target.position, obs) {
        0
    } else {
        let df = (observer.visibility_radius - dist) * 1000 / (observer.visibility_radius as int);
        let v1 = df * stance_visibility_factor(target.stance) / 1000;
        let v2 = v1 * target.light_exposure / 1000;
        clamp_unit_spec(v2 * movement_visibility_factor(target) / 1000)
    }
}

/// The same score, phrased over a whole world.
pub open spec fn visibility_spec(observer: Entity, target: Entity, w: World) -> int {
    visibility_obs(observer, target, w.obstacles@)
}

/// Calculate how visible an entity is from an observer's perspective.
pub fn calculate_visibility(observer: &Entity, target: &Entity, world: &World) -> (v: i64)
    requires
        entity_wf(*observer),
        entity_wf(*target),
        world_wf(*world),
    ensures
        v == visibility_spec(*observer, *target, *world),
        0 <= v <= 1000,
{
    let dist = observer.position.distance_2d(&target.position);
    if dist > observer.visibility_radius {
        return 0;
    }
    if !observer.is_facing(&target.position) {
        return 0;
    }
    if !has_line_of_sight(&observer.position, &target.position, world.obstacles.as_slice()) {
        return 0;
    }
    let r = observer.visibility_radius;
    proof {
        crate::math::lemma_mul_le_mono(r - dist, r as int, 1000);
        lemma_div_le((r - dist) * 1000, r as int, 1000);
    }
    let df = (r - dist) * 1000 / r;
    proof {
        lemma_abs_mul_le(df as int, stance_visibility_factor(target.stance), 1000, 1000);
        lemma_div_le(df * stance_visibility_factor(target.stance), 1000, 1000);
    }
    let v1 = df * stance_visibility_factor_exec(target.stance);
    let v1 = v1 / 1000;
    proof {
        lemma_abs_mul_le(v1 as int, target.light_exposure as int, 1000, 1000);
        lemma_div_le(v1 * target.light_exposure, 1000, 1000);
    }
    let v2 = v1 * target.light_exposure / 1000;
    proof {
        lemma_abs_mul_le(v2 as int, movement_visibility_factor(*target), 1000, 1200);
        lemma_div_le(v2 * movement_visibility_factor(*target), 1000, 1200);
        lemma_square_bound(target.vel_x as int, 200_000);
        lemma_square_bound(target.vel_y as int, 200_000);
        assert(200_000int * 200_000int == 40_000_000_000int) by (nonlinear_arith);
    }
    let mf: i64 = if target.vel_x * target.vel_x + target.vel_y * target.vel_y > 10_000 {
        1200
    } else {
        1000
    };
    crate::math::clamp_unit(v2 * mf / 1000)
}

/// Stance factor for visibility, executable form.
pub fn stance_visibility_factor_exec(s: Stance) -> (f: i64)
    ensures
        f == stance_visibility_factor(s),
{
    match s {
        Stance::Standing => 1000,
        Stance::Crouching => 600,
        Stance::Prone => 300,
    }
}

/// Contribution of one light source: zero beyond its radius or when an
/// obstacle shadows the segment from the light to the entity; otherwise
/// the intensity with linear distance falloff.  The 3D distance is used,
/// elevation included.
pub open spec fn light_contribution(e: Entity, l: LightSource, obs: Seq<Obstacle>) -> int {
    let d = dist3d(e.position, l.position);
    if d > l.radius {
        0
    } else if !line_of_sight_spec(l.position, e.position, obs) {
        0
    } else {
        l.intensity * (l.radius - d) / (l.radius as int)
    }
}

/// Sum of the contributions of the first `n` lights.
pub open spec fn light_sum_upto(e: Entity, lights: Seq<LightSource>, obs: Seq<Obstacle>, n: int) -> int
    decreases n,
{
    if n <= 0 {
        0
    } else {
        light_sum_upto(e, lights, obs, n - 1) + light_contribution(e, lights[n - 1], obs)
    }
}

/// Ambient light plus every light's contribution, clamped to `[0, 1000]`
/// once at the end.
pub open spec fn light_exposure_core(
    e: Entity,
    lights: Seq<LightSource>,
    obs: Seq<Obstacle>,
    ambient: int,
) -> int {
    clamp_unit_spec(ambient + light_sum_upto(e, lights, obs, lights.len() as int))
}

/// The same exposure, phrased over a whole world.
pub open spec fn light_exposure_spec(e: Entity, w: World) -> int {
    light_exposure_core(e, w.lights@, w.obstacles@, w.ambient_light as int)
}

/// Each contribution is between 0 and the light's intensity.
pub proof fn lemma_light_contribution_bounds(e: Entity, l: LightSource, obs: Seq<Obstacle>)
    requires
        entity_wf(e),
        light_wf(l),
    ensures
        0 <= light_contribution(e, l, obs) <= 1000,
{
    let d = dist3d(e.position, l.position);
    lemma_dist_sq_bounds(e.position, l.position);
    if d <= l.radius && line_of_sight_spec(l.position, e.position, obs) {
        crate::math::lemma_mul_le_mono(l.radius - d, l.radius as int, l.intensity as int);
        lemma_div_le((l.radius - d) * l.intensity, l.radius as int, l.intensity as int);
        assert((l.radius - d) * l.intensity == l.intensity * (l.radius - d)) by (nonlinear_arith);
    }
}

/// The partial sums are non-negative.
pub proof fn lemma_light_sum_nonneg(e: Entity, lights: Seq<LightSource>, obs: Seq<Obstacle>, n: int)
    requires
        entity_wf(e),
        lights_wf(lights),
        n <= lights.len(),
    ensures
        0 <= light_sum_upto(e, lights, obs, n),
    decreases n,
{
    if n > 0 {
        lemma_light_sum_nonneg(e, lights, obs, n - 1);
        lemma_light_contribution_bounds(e, lights[n - 1], obs);
    }
}

/// Calculate light exposure for an entity.
pub fn calculate_light_exposure(entity: &Entity, world: &World) -> (r: i64)
    requires
        entity_wf(*entity),
        world_wf(*world),
    ensures
        r == light_exposure_spec(*entity, *world),
        0 <= r <= 1000,
{
    let n = world.lights.len();
    let mut total: i64 = world.ambient_light;
    let mut i: usize = 0;
    while i < n
        invariant
            0 <= i <= n,
            n == world.lights@.len(),
            entity_wf(*entity),
            world_wf(*world),
            ({
                let s = world.ambient_light + light_sum_upto(
                    *entity,
                    world.lights@,
                    world.obstacles@,
                    i as int,
                );
                total == if s > 1000 { 1000int } else { s }
            }),
            0 <= total <= 1000,
        decreases n - i,
    {
        proof {
            lemma_light_sum_nonneg(*entity, world.lights@, world.obstacles@, i as int);
            lemma_light_contribution_bounds(*entity, world.lights@[i as int], world.obstacles@);
        }
        let light = &world.lights[i];
        let distance = entity.position.distance_to(&light.position);
        let mut c: i64 = 0;
        if distance <= light.radius {
            if has_line_of_sight(&light.position, &entity.position, world.obstacles.as_slice()) {
                proof {
                    lemma_light_contribution_bounds(*entity, world.lights@[i as int], world.obstacles@);
                    crate::math::lemma_mul_le_mono(
                        light.radius - distance,
                        light.radius as int,
                        light.intensity as int,
                    );
                    lemma_div_le(
                        (light.radius - distance) * light.intensity,
                        light.radius as int,
                        light.intensity as int,
                    );
                    assert((light.radius - distance) * light.intensity == light.intensity * (
                    light.radius - distance)) by (nonlinear_arith);
                    lemma_abs_mul_le(
                        light.intensity as int,
                        light.radius - distance,
                        1000,
                        100_000_000,
                    );
                }
                c = light.intensity * (light.radius - distance) / light.radius;
            }
        }
        total = total + c;
        if total > 1000 {
            total = 1000;
        }
        proof {
            lemma_light_sum_nonneg(*entity, world.lights@, world.obstacles@, i + 1 as int);
        }
        i = i + 1;
    }
    total
}

/// Whether one obstacle attenuates sound between a source and a listener:
/// it blocks sound, lies on the listener's side of the source (dot-product
/// test), and is closer to the source than the listener is (compared on
/// squared distances, which is exact).
pub open spec fn sound_blocks_spec(src: Position, lis: Position, ob: Obstacle) -> bool {
    let tox = ob.position.x - src.x;
    let toy = ob.position.y - src.y;
    let tlx = lis.x - src.x;
    let tly = lis.y - src.y;
    &&& ob.blocks_sound
    &&& tox * tlx + toy * tly > 0
    &&& dist2d_sq(src, ob.position) < dist2d_sq(src, lis)
}

/// Multiplicative attenuation from the first `n` obstacles: each blocking
/// obstacle keeps 0.7 of the sound.
pub open spec fn blocking_factor_upto(src: Position, lis: Position, obs: Seq<Obstacle>, n: int) -> int
    decreases n,
{
    if n <= 0 {
        1000
    } else {
        let f = blocking_factor_upto(src, lis, obs, n - 1);
        if sound_blocks_spec(src, lis, obs[n - 1]) {
            f * 700 / 1000
        } else {
            f
        }
    }
}

pub proof fn lemma_blocking_factor_bounds(src: Position, lis: Position, obs: Seq<Obstacle>, n: int)
    ensures
        0 <= blocking_factor_upto(src, lis, obs, n) <= 1000,
    decreases n,
{
    if n > 0 {
        lemma_blocking_factor_bounds(src, lis, obs, n - 1);
        let f = blocking_factor_upto(src, lis, obs, n - 1);
        lemma_abs_mul_le(f, 700, 1000, 700);
        lemma_div_le(f * 700, 1000, 1000);
    }
}

/// What one noise source contributes at a listener position: linear
/// falloff to zero at 30 units, scaled by the source's noise level, then
/// by the attenuation of every blocking obstacle.
pub open spec fn noise_from_source(
    lis: Position,
    src: Position,
    level: int,
    obs: Seq<Obstacle>,
) -> int {
    let d = dist2d(lis, src);
    let ratio = if d / 30 > 1000 {
        1000int
    } else {
        d / 30
    };
    let base = (1000 - ratio) * level / 1000;
    base * blocking_factor_upto(src, lis, obs, obs.len() as int) / 1000
}

pub proof fn lemma_noise_from_source_bounds(
    lis: Position,
    src: Position,
    level: int,
    obs: Seq<Obstacle>,
)
    requires
        pos_wf(lis),
        pos_wf(src),
        0 <= level <= 1000,
    ensures
        0 <= noise_from_source(lis, src, level, obs) <= 1000,
{
    let d = dist2d(lis, src);
    lemma_dist_sq_bounds(lis, src);
    let ratio = if d / 30 > 1000 {
        1000int
    } else {
        d / 30
    };
    lemma_div_le(d, 30, d);
    let base = (1000 - ratio) * level / 1000;
    lemma_abs_mul_le(1000 - ratio, level, 1000, 1000);
    lemma_div_le((1000 - ratio) * level, 1000, 1000);
    lemma_blocking_factor_bounds(src, lis, obs, obs.len() as int);
    lemma_abs_mul_le(base, blocking_factor_upto(src, lis, obs, obs.len() as int), 1000, 1000);
    lemma_div_le(base * blocking_factor_upto(src, lis, obs, obs.len() as int), 1000, 1000);
}

/// Sum of the contributions of the first `n` noise sources.
pub open spec fn noise_sum_upto(
    lis: Position,
    sources: Seq<(Position, i64)>,
    obs: Seq<Obstacle>,
    n: int,
) -> int
    decreases n,
{
    if n <= 0 {
        0
    } else {
        noise_sum_upto(lis, sources, obs, n - 1) + noise_from_source(
            lis,
            sources[n - 1].0,
            sources[n - 1].1 as int,
            obs,
        )
    }
}

/// Well-formed noise sources: bounded positions and levels in `[0, 1000]`.
pub open spec fn sources_wf(s: Seq<(Position, i64)>) -> bool {
    forall|i: int|
        0 <= i < s.len() ==> pos_wf((#[trigger] s[i]).0) && 0 <= s[i].1 <= 1000
}

pub proof fn lemma_noise_sum_nonneg(
    lis: Position,
    sources: Seq<(Position, i64)>,
    obs: Seq<Obstacle>,
    n: int,
)
    requires
        pos_wf(lis),
        sources_wf(sources),
        n <= sources.len(),
    ensures
        0 <= noise_sum_upto(lis, sources, obs, n),
    decreases n,
{
    if n > 0 {
        lemma_noise_sum_nonneg(lis, sources, obs, n - 1);
        lemma_noise_from_source_bounds(lis, sources[n - 1].0, sources[n - 1].1 as int, obs);
    }
}

/// Total noise at a position: the sum over all sources, clamped to
/// `[0, 1000]` once at the end.
pub open spec fn noise_at_spec(
    lis: Position,
    sources: Seq<(Position, i64)>,
    obs: Seq<Obstacle>,
) -> int {
    clamp_unit_spec(noise_sum_upto(lis, sources, obs, sources.len() as int))
}

/// Calculate noise propagation from every source to one listener position.
pub fn calculate_noise_at_position(
    position: &Position,
    noise_sources: &[(Position, i64)],
    obstacles: &[Obstacle],
) -> (r: i64)
    requires
        pos_wf(*position),
        sources_wf(noise_sources@),
        obstacles_wf(obstacles@),
    ensures
        r == noise_at_spec(*position, noise_sources@, obstacles@),
        0 <= r <= 1000,
{
    let n = noise_sources.len();
    let mut total: i64 = 0;
    let mut i: usize = 0;
    while i < n
        invariant
            0 <= i <= n,
            n == noise_sources@.len(),
            pos_wf(*position),
            sources_wf(noise_sources@),
            obstacles_wf(obstacles@),
            ({
                let s = noise_sum_upto(*position, noise_sources@, obstacles@, i as int);
                total == if s > 1000 { 1000int } else { s }
            }),
            0 <= total <= 1000,
        decreases n - i,
    {
        proof {
            lemma_noise_sum_nonneg(*position, noise_sources@, obstacles@, i as int);
            lemma_noise_from_source_bounds(
                *position,
                noise_sources@[i as int].0,
                noise_sources@[i as int].1 as int,
                obstacles@,
            );
        }
        let (source_pos, noise_level) = noise_sources[i];
        let distance = position.distance_2d(&source_pos);
        proof {
            lemma_dist_sq_bounds(*position, source_pos);
            lemma_div_le(distance as int, 30, distance as int);
        }
        let mut ratio = distance / 30;
        if ratio > 1000 {
            ratio = 1000;
        }
        proof {
            lemma_abs_mul_le(1000 - ratio, noise_level as int, 1000, 1000);
            lemma_div_le((1000 - ratio) * noise_level, 1000, 1000);
        }
        let base = (1000 - ratio) * noise_level / 1000;
        // Attenuation from obstacles between the source and the listener.
        let m = obstacles.len();
        let mut factor: i64 = 1000;
        let mut j: usize = 0;
        while j < m
            invariant
                0 <= j <= m,
                m == obstacles@.len(),
                pos_wf(*position),
                pos_wf(source_pos),
                obstacles_wf(obstacles@),
                factor == blocking_factor_upto(source_pos, *position, obstacles@, j as int),
                0 <= factor <= 1000,
            decreases m - j,
        {
            let ob = &obstacles[j];
            if ob.blocks_sound {
                let tox = ob.position.x - source_pos.x;
                let toy = ob.position.y - source_pos.y;
                let tlx = position.x - source_pos.x;
                let tly = position.y - source_pos.y;
                proof {
                    lemma_abs_mul_le(tox as int, tlx as int, 600_000_000, 600_000_000);
                    lemma_abs_mul_le(toy as int, tly as int, 600_000_000, 600_000_000);
                    lemma_square_bound(tox as int, 600_000_000);
                    lemma_square_bound(toy as int, 600_000_000);
                    lemma_square_bound(tlx as int, 600_000_000);
                    lemma_square_bound(tly as int, 600_000_000);
                    assert(600_000_000int * 600_000_000int == 360_000_000_000_000_000int)
                        by (nonlinear_arith);
                    lemma_abs_mul_le(factor as int, 700, 1000, 700);
                    lemma_div_le(factor * 700, 1000, 1000);
                }
                proof {
                    assert(tox * tox + toy * toy == dist2d_sq(source_pos, ob.position) && tlx * tlx
                        + tly * tly == dist2d_sq(source_pos, *position)) by (nonlinear_arith)
                        requires
                            tox == ob.position.x - source_pos.x,
                            toy == ob.position.y - source_pos.y,
                            tlx == position.x - source_pos.x,
                            tly == position.y - source_pos.y,
                            dist2d_sq(source_pos, ob.position) == (source_pos.x - ob.position.x) * (
                            source_pos.x - ob.position.x) + (source_pos.y - ob.position.y) * (
                            source_pos.y - ob.position.y),
                            dist2d_sq(source_pos, *position) == (source_pos.x - position.x) * (
                            source_pos.x - position.x) + (source_pos.y - position.y) * (
                            source_pos.y - position.y),
                    {}
                }
                if tox * tlx + toy * tly > 0 {
                    let obstacle_sq = tox * tox + toy * toy;
                    let listener_sq = tlx * tlx + tly * tly;
                    if obstacle_sq < listener_sq {
                        factor = factor * 700 / 1000;
                    }
                }
            }
            j = j + 1;
        }
        proof {
            lemma_abs_mul_le(base as int, factor as int, 1000, 1000);
            lemma_div_le(base * factor, 1000, 1000);
            lemma_noise_sum_nonneg(*position, noise_sources@, obstacles@, i + 1 as int);
        }
        let contribution = base * factor / 1000;
        total = total + contribution;
        if total > 1000 {
            total = 1000;
        }
        i = i + 1;
    }
    total
}

/// Stance factor for movement noise: crouching and prone movement is
/// quieter.
pub open spec fn stance_noise_factor(s: Stance) -> int {
    match s {
        Stance::Standing => 1000,
        Stance::Crouching => 500,
        Stance::Prone => 200,
    }
}

/// Noise an entity makes by moving: zero below the 0.1 speed threshold,
/// otherwise the speed relative to the base speed, scaled by stance, and
/// doubled while running; clamped to `[0, 1000]`.
pub open spec fn movement_noise_spec(e: Entity) -> int {
    let ssq = e.vel_x * e.vel_x + e.vel_y * e.vel_y;
    if ssq < 10_000 {
        0
    } else {
        let base = sqrt_floor(ssq) * 1000 / (e.speed as int);
        let b1 = base * stance_noise_factor(e.stance) / 1000;
        let b2 = b1 * (if e.state == ActorState::Running {
            2000int
        } else {
            1000int
        }) / 1000;
        clamp_unit_spec(b2)
    }
}

/// Calculate noise level based on movement and stance.
pub fn calculate_movement_noise(entity: &Entity) -> (r: i64)
    requires
        entity_wf(*entity),
    ensures
        r == movement_noise_spec(*entity),
        0 <= r <= 1000,
{
    proof {
        lemma_square_bound(entity.vel_x as int, 200_000);
        lemma_square_bound(entity.vel_y as int, 200_000);
        assert(200_000int * 200_000int == 40_000_000_000int) by (nonlinear_arith);
    }
    let ssq = entity.vel_x * entity.vel_x + entity.vel_y * entity.vel_y;
    if ssq < 10_000 {
        return 0;
    }
    let speed = isqrt(ssq);
    proof {
        crate::math::lemma_sqrt_monotone(ssq as int, 80_000_000_000);
        assert(283_000int * 283_000int == 80_089_000_000int) by (nonlinear_arith);
        crate::math::lemma_sqrt_monotone(80_000_000_000, 80_089_000_000);
        crate::math::lemma_sqrt_of_square(283_000);
        crate::math::lemma_mul_le_mono(1, entity.speed as int, speed * 1000);
        lemma_div_le(speed * 1000, entity.speed as int, speed * 1000);
    }
    let base = speed * 1000 / entity.speed;
    proof {
        lemma_abs_mul_le(base as int, stance_noise_factor(entity.stance), 283_000_000, 1000);
        lemma_div_le(base * stance_noise_factor(entity.stance), 1000, 283_000_000);
    }
    let b1 = base * stance_noise_factor_exec(entity.stance) / 1000;
    let mm: i64 = if entity.state == ActorState::Running {
        2000
    } else {
        1000
    };
    proof {
        lemma_abs_mul_le(b1 as int, mm as int, 283_000_000, 2000);
        lemma_div_le(b1 * mm, 1000, 566_000_000);
    }
    crate::math::clamp_unit(b1 * mm / 1000)
}

/// Stance factor for movement noise, executable form.
pub fn stance_noise_factor_exec(s: Stance) -> (f: i64)
    ensures
        f == stance_noise_factor(s),
{
    match s {
        Stance::Standing => 1000,
        Stance::Crouching => 500,
        Stance::Prone => 200,
    }
}

/// Whether one cover-providing obstacle shields an entity from an
/// observer: it lies on the entity's side of the observer, nearer to the
/// observer than the entity, and the entity stands within `radius + 1`
/// of its center.
pub open spec fn covers_spec(entity: Entity, observer: Entity, ob: Obstacle) -> bool {
    let tox = ob.position.x - observer.position.x;
    let toy = ob.position.y - observer.position.y;
    let tex = entity.position.x - observer.position.x;
    let tey = entity.position.y - observer.position.y;
    &&& ob.provides_cover
    &&& tox * tex + toy * tey > 0
    &&& tox * tox + toy * toy < tex * tex + tey * tey
    &&& dist2d_sq(entity.position, ob.position) < (ob.radius + 1000) * (ob.radius + 1000)
}

/// Some obstacle of the world covers the entity from the observer.
pub open spec fn in_cover_spec(entity: Entity, observer: Entity, w: World) -> bool {
    exists|i: int|
        0 <= i < w.obstacles@.len() && covers_spec(entity, observer, #[trigger] w.obstacles@[i])
}

/// Check if an entity is in cover relative to an observer.
pub fn is_in_cover(entity: &Entity, observer: &Entity, world: &World) -> (r: bool)
    requires
        entity_wf(*entity),
        entity_wf(*observer),
        world_wf(*world),
    ensures
        r == in_cover_spec(*entity, *observer, *world),
{
    let n = world.obstacles.len();
    let mut i: usize = 0;
    while i < n
        invariant
            0 <= i <= n,
            n == world.obstacles@.len(),
            entity_wf(*entity),
            entity_wf(*observer),
            world_wf(*world),
            forall|k: int|
                0 <= k < i ==> !covers_spec(*entity, *observer, #[trigger] world.obstacles@[k]),
        decreases n - i,
    {
        let ob = &world.obstacles[i];
        if ob.provides_cover {
            let tox = ob.position.x - observer.position.x;
            let toy = ob.position.y - observer.position.y;
            let tex = entity.position.x - observer.position.x;
            let tey = entity.position.y - observer.position.y;
            proof {
                lemma_abs_mul_le(tox as int, tex as int, 600_000_000, 600_000_000);
                lemma_abs_mul_le(toy as int, tey as int, 600_000_000, 600_000_000);
                lemma_square_bound(tox as int, 600_000_000);
                lemma_square_bound(toy as int, 600_000_000);
                lemma_square_bound(tex as int, 600_000_000);
                lemma_square_bound(tey as int, 600_000_000);
                assert(600_000_000int * 600_000_000int == 360_000_000_000_000_000int)
                    by (nonlinear_arith);
                lemma_square_bound(ob.radius + 1000, 100_001_000);
                assert(100_001_000int * 100_001_000int == 10_000_200_001_000_000int)
                    by (nonlinear_arith);
                lemma_dist_sq_bounds(entity.position, ob.position);
            }
            if tox * tex + toy * tey > 0 && tox * tox + toy * toy < tex * tex + tey * tey {
                let dex = entity.position.x - ob.position.x;
                let dey = entity.position.y - ob.position.y;
                proof {
                    lemma_square_bound(dex as int, 600_000_000);
                    lemma_square_bound(dey as int, 600_000_000);
                    assert(600_000_000int * 600_000_000int == 360_000_000_000_000_000int)
                        by (nonlinear_arith);
                }
                let reach = ob.radius + 1000;
                if dex * dex + dey * dey < reach * reach {
                    return true;
                }
            }
        }
        i = i + 1;
    }
    false
}

/// Next detection level: if visibility exceeds the 0.1 threshold the level
/// rises at half the visibility per second; otherwise it decays at 0.2 per
/// second; the result is clamped to `[0, 1000]` after every step.
pub open spec fn detect_spec(level: int, visibility: int, dt: int) -> int {
    if visibility > 100 {
        clamp_unit_spec(level + sdiv(visibility * 500 / 1000 * dt, 1000))
    } else {
        clamp_unit_spec(level - sdiv(200 * dt, 1000))
    }
}

/// Detection monotonic bounds: the integrated level stays in `[0, 1000]`
/// whatever the prior level, the visibility and the time step, zero and
/// negative steps included.
pub proof fn lemma_detection_level_bounded(level: int, visibility: int, dt: int)
    ensures
        0 <= detect_spec(level, visibility, dt) <= 1000,
{
}

/// Update an entity's detection level from its current visibility; every
/// other field is left unchanged.  Accepts any time step, zero and
/// negative included, and keeps the level inside `[0, 1000]`.
pub fn update_detection(target: &mut Entity, visibility: i64, delta_time: i64)
    requires
        visibility <= 1000,
    ensures
        *final(target) == (Entity {
            detection_level: detect_spec(
                old(target).detection_level as int,
                visibility as int,
                delta_time as int,
            ) as i64,
            ..*old(target)
        }),
        0 <= final(target).detection_level <= 1000,
{
    if visibility > 100 {
        let rate = visibility * 500 / 1000;
        proof {
            lemma_div_le(visibility * 500, 1000, 500);
            lemma_abs_mul_le(rate as int, delta_time as int, 500, 9_223_372_036_854_775_808);
        }
        let prod = (rate as i128) * (delta_time as i128);
        let inc: i128 = if prod >= 0 {
            prod / 1000
        } else {
            -((-prod) / 1000)
        };
        let nl = (target.detection_level as i128) + inc;
        proof {
            crate::math::lemma_sdiv_le(prod as int, 1000);
        }
        target.detection_level = if nl < 0 {
            0
        } else if nl > 1000 {
            1000
        } else {
            nl as i64
        };
    } else {
        proof {
            lemma_abs_mul_le(200, delta_time as int, 200, 9_223_372_036_854_775_808);
        }
        let prod = 200i128 * (delta_time as i128);
        let dec: i128 = if prod >= 0 {
            prod / 1000
        } else {
            -((-prod) / 1000)
        };
        let nl = (target.detection_level as i128) - dec;
        proof {
            crate::math::lemma_sdiv_le(prod as int, 1000);
        }
        target.detection_level = if nl < 0 {
            0
        } else if nl > 1000 {
            1000
        } else {
            nl as i64
        };
    }
}

} // verus!

