//! The state text format: a world is a flat sequence of integers, written
//! as space-separated decimals.  Serialization and parsing are verified
//! down to the characters, and a proved round-trip law ties them together.

use vstd::prelude::*;

use vstd::arithmetic::div_mod::lemma_fundamental_div_mod;

use crate::types::{
    entity_wf, ids_unique, light_wf, obstacle_wf, world_wf, ActorState, Entity, EntityType,
    LightSource, Obstacle, Position, Stance, World, DIM_MAX, POS_LIMIT, SPEED_MAX, VEL_LIMIT,
};
use crate::system::GameSystem;
use vstd::string::StrSliceExecFns;

verus! {

/// Error reported by the state codec: the text is not a sequence of
/// decimals, or the numbers do not frame a valid world.
#[derive(Clone, Copy, PartialEq, Eq, Structural, Debug)]
pub enum FormatError {
    BadNumber,
    BadStructure,
}

/// Wire tag of an entity type.
pub open spec fn type_tag(t: EntityType) -> i64 {
    match t {
        EntityType::Player => 0,
        EntityType::Guard => 1,
        EntityType::Camera => 2,
        EntityType::Door => 3,
        EntityType::LightSource => 4,
        EntityType::SoundEmitter => 5,
        EntityType::CoverObject => 6,
    }
}

pub open spec fn type_of_tag(v: i64) -> EntityType {
    if v == 0 {
        EntityType::Player
    } else if v == 1 {
        EntityType::Guard
    } else if v == 2 {
        EntityType::Camera
    } else if v == 3 {
        EntityType::Door
    } else if v == 4 {
        EntityType::LightSource
    } else if v == 5 {
        EntityType::SoundEmitter
    } else {
        EntityType::CoverObject
    }
}

/// Wire tag of a stance.
pub open spec fn stance_tag(s: Stance) -> i64 {
    match s {
        Stance::Standing => 0,
        Stance::Crouching => 1,
        Stance::Prone => 2,
    }
}

pub open spec fn stance_of_tag(v: i64) -> Stance {
    if v == 0 {
        Stance::Standing
    } else if v == 1 {
        Stance::Crouching
    } else {
        Stance::Prone
    }
}

/// Wire tag of a behavioral state.
pub open spec fn state_tag(s: ActorState) -> i64 {
    match s {
        ActorState::Idle => 0,
        ActorState::Walking => 1,
        ActorState::Running => 2,
        ActorState::Hiding => 3,
        ActorState::Investigating => 4,
        ActorState::Alerted => 5,
        ActorState::Hunting => 6,
    }
}

pub open spec fn state_of_tag(v: i64) -> ActorState {
    if v == 0 {
        ActorState::Idle
    } else if v == 1 {
        ActorState::Walking
    } else if v == 2 {
        ActorState::Running
    } else if v == 3 {
        ActorState::Hiding
    } else if v == 4 {
        ActorState::Investigating
    } else if v == 5 {
        ActorState::Alerted
    } else {
        ActorState::Hunting
    }
}

pub open spec fn bool_tag(b: bool) -> i64 {
    if b {
        1
    } else {
        0
    }
}

/// The nineteen numbers of one entity.
pub open spec fn encode_entity(e: Entity) -> Seq<i64> {
    seq![
        e.id as i64,
        type_tag(e.entity_type),
        e.position.x,
        e.position.y,
        e.position.height,
        e.facing_x,
        e.facing_y,
        e.vel_x,
        e.vel_y,
        stance_tag(e.stance),
        state_tag(e.state),
        bool_tag(e.visible),
        e.visibility_radius,
        e.fov_cos,
        e.noise_level,
        e.detection_level,
        e.light_exposure,
        e.speed,
        e.health,
    ]
}

/// The entity a nineteen-number chunk stands for.
pub open spec fn entity_of_chunk(c: Seq<i64>) -> Entity {
    Entity {
        id: c[0] as u32,
        entity_type: type_of_tag(c[1]),
        position: Position { x: c[2], y: c[3], height: c[4] },
        facing_x: c[5],
        facing_y: c[6],
        vel_x: c[7],
        vel_y: c[8],
        stance: stance_of_tag(c[9]),
        state: state_of_tag(c[10]),
        visible: c[11] == 1,
        visibility_radius: c[12],
        fov_cos: c[13],
        noise_level: c[14],
        detection_level: c[15],
        light_exposure: c[16],
        speed: c[17],
        health: c[18],
    }
}

/// A chunk the decoder accepts: canonical tags and a well-formed entity.
pub open spec fn entity_chunk_valid(c: Seq<i64>) -> bool {
    &&& c.len() == 19
    &&& 0 <= c[0] <= u32::MAX
    &&& 0 <= c[1] <= 6
    &&& 0 <= c[9] <= 2
    &&& 0 <= c[10] <= 6
    &&& (c[11] == 0 || c[11] == 1)
    &&& entity_wf(entity_of_chunk(c))
}

pub proof fn lemma_entity_roundtrip(e: Entity)
    requires
        entity_wf(e),
    ensures
        entity_chunk_valid(encode_entity(e)),
        entity_of_chunk(encode_entity(e)) == e,
{
}

pub proof fn lemma_entity_chunk_roundtrip(c: Seq<i64>)
    requires
        entity_chunk_valid(c),
    ensures
        encode_entity(entity_of_chunk(c)) =~= c,
{
}

/// The seven numbers of one obstacle.
pub open spec fn encode_obstacle(o: Obstacle) -> Seq<i64> {
    seq![
        o.position.x,
        o.position.y,
        o.position.height,
        o.radius,
        bool_tag(o.blocks_vision),
        bool_tag(o.blocks_sound),
        bool_tag(o.provides_cover),
    ]
}

pub open spec fn obstacle_of_chunk(c: Seq<i64>) -> Obstacle {
    Obstacle {
        position: Position { x: c[0], y: c[1], height: c[2] },
        radius: c[3],
        blocks_vision: c[4] == 1,
        blocks_sound: c[5] == 1,
        provides_cover: c[6] == 1,
    }
}

pub open spec fn obstacle_chunk_valid(c: Seq<i64>) -> bool {
    &&& c.len() == 7
    &&& (c[4] == 0 || c[4] == 1)
    &&& (c[5] == 0 || c[5] == 1)
    &&& (c[6] == 0 || c[6] == 1)
    &&& obstacle_wf(obstacle_of_chunk(c))
}

pub proof fn lemma_obstacle_roundtrip(o: Obstacle)
    requires
        obstacle_wf(o),
    ensures
        obstacle_chunk_valid(encode_obstacle(o)),
        obstacle_of_chunk(encode_obstacle(o)) == o,
{
}

pub proof fn lemma_obstacle_chunk_roundtrip(c: Seq<i64>)
    requires
        obstacle_chunk_valid(c),
    ensures
        encode_obstacle(obstacle_of_chunk(c)) =~= c,
{
}

/// The five numbers of one light source.
pub open spec fn encode_light(l: LightSource) -> Seq<i64> {
    seq![l.position.x, l.position.y, l.position.height, l.radius, l.intensity]
}

pub open spec fn light_of_chunk(c: Seq<i64>) -> LightSource {
    LightSource { position: Position { x: c[0], y: c[1], height: c[2] }, radius: c[3], intensity: c[4] }
}

pub open spec fn light_chunk_valid(c: Seq<i64>) -> bool {
    &&& c.len() == 5
    &&& light_wf(light_of_chunk(c))
}

pub proof fn lemma_light_roundtrip(l: LightSource)
    requires
        light_wf(l),
    ensures
        light_chunk_valid(encode_light(l)),
        light_of_chunk(encode_light(l)) == l,
{
}

pub proof fn lemma_light_chunk_roundtrip(c: Seq<i64>)
    requires
        light_chunk_valid(c),
    ensures
        encode_light(light_of_chunk(c)) =~= c,
{
}

/// The chunks of the first `n` entities, concatenated.
pub open spec fn encode_entities(es: Seq<Entity>, n: int) -> Seq<i64>
    decreases n,
{
    if n <= 0 {
        Seq::empty()
    } else {
        encode_entities(es, n - 1) + encode_entity(es[n - 1])
    }
}

pub open spec fn encode_obstacles(os: Seq<Obstacle>, n: int) -> Seq<i64>
    decreases n,
{
    if n <= 0 {
        Seq::empty()
    } else {
        encode_obstacles(os, n - 1) + encode_obstacle(os[n - 1])
    }
}

pub open spec fn encode_lights(ls: Seq<LightSource>, n: int) -> Seq<i64>
    decreases n,
{
    if n <= 0 {
        Seq::empty()
    } else {
        encode_lights(ls, n - 1) + encode_light(ls[n - 1])
    }
}

pub proof fn lemma_encode_entities_index(es: Seq<Entity>, n: int)
    requires
        0 <= n,
    ensures
        encode_entities(es, n).len() == 19 * n,
        forall|j: int, t: int|
            0 <= j < n && 0 <= t < 19 ==> #[trigger] encode_entities(es, n)[19 * j + t]
                == encode_entity(es[j])[t],
    decreases n,
{
    if n > 0 {
        lemma_encode_entities_index(es, n - 1);
    }
}

pub proof fn lemma_encode_obstacles_index(os: Seq<Obstacle>, n: int)
    requires
        0 <= n,
    ensures
        encode_obstacles(os, n).len() == 7 * n,
        forall|j: int, t: int|
            0 <= j < n && 0 <= t < 7 ==> #[trigger] encode_obstacles(os, n)[7 * j + t]
                == encode_obstacle(os[j])[t],
    decreases n,
{
    if n > 0 {
        lemma_encode_obstacles_index(os, n - 1);
    }
}

pub proof fn lemma_encode_lights_index(ls: Seq<LightSource>, n: int)
    requires
        0 <= n,
    ensures
        encode_lights(ls, n).len() == 5 * n,
        forall|j: int, t: int|
            0 <= j < n && 0 <= t < 5 ==> #[trigger] encode_lights(ls, n)[5 * j + t]
                == encode_light(ls[j])[t],
    decreases n,
{
    if n > 0 {
        lemma_encode_lights_index(ls, n - 1);
    }
}

/// The whole world as one flat sequence of numbers: the bounds and the
/// ambient light, then each collection behind its count.
pub open spec fn encode_world(w: World) -> Seq<i64> {
    seq![w.width, w.height, w.ambient_light, w.entities@.len() as i64] + encode_entities(
        w.entities@,
        w.entities@.len() as int,
    ) + seq![w.obstacles@.len() as i64] + encode_obstacles(
        w.obstacles@,
        w.obstacles@.len() as int,
    ) + seq![w.lights@.len() as i64] + encode_lights(w.lights@, w.lights@.len() as int)
}

/// What the decoder accepts: a correctly framed sequence of valid chunks
/// with distinct entity identities, all inside the well-formed bounds.
pub open spec fn decodable(v: Seq<i64>) -> bool {
    &&& v.len() >= 4
    &&& 0 <= v[0] <= DIM_MAX
    &&& 0 <= v[1] <= DIM_MAX
    &&& 0 <= v[2] <= 1000
    &&& 0 <= v[3]
    &&& ({
        let ne = v[3] as int;
        let ob_base = 4 + 19 * ne;
        &&& v.len() > ob_base
        &&& (forall|j: int|
            0 <= j < ne ==> entity_chunk_valid(
                #[trigger] v.subrange(4 + 19 * j, 4 + 19 * j + 19),
            ))
        &&& (forall|j1: int, j2: int|
            0 <= j1 < j2 < ne ==> (#[trigger] v[4 + 19 * j1]) != (#[trigger] v[4 + 19 * j2]))
        &&& 0 <= v[ob_base]
        &&& ({
            let no = v[ob_base] as int;
            let l_base = ob_base + 1 + 7 * no;
            &&& v.len() > l_base
            &&& (forall|j: int|
                0 <= j < no ==> obstacle_chunk_valid(
                    #[trigger] v.subrange(ob_base + 1 + 7 * j, ob_base + 1 + 7 * j + 7),
                ))
            &&& 0 <= v[l_base]
            &&& ({
                let nl = v[l_base] as int;
                &&& v.len() == l_base + 1 + 5 * nl
                &&& (forall|j: int|
                    0 <= j < nl ==> light_chunk_valid(
                        #[trigger] v.subrange(l_base + 1 + 5 * j, l_base + 1 + 5 * j + 5),
                    ))
            })
        })
    })
}

/// The digit character for a value in `[0, 9]`.
pub open spec fn digit_char(d: int) -> char {
    if d == 0 {
        '0'
    } else if d == 1 {
        '1'
    } else if d == 2 {
        '2'
    } else if d == 3 {
        '3'
    } else if d == 4 {
        '4'
    } else if d == 5 {
        '5'
    } else if d == 6 {
        '6'
    } else if d == 7 {
        '7'
    } else if d == 8 {
        '8'
    } else {
        '9'
    }
}

/// The value of a digit character, or 10 for any other character.
pub open spec fn digit_val(c: char) -> int {
    if c == '0' {
        0
    } else if c == '1' {
        1
    } else if c == '2' {
        2
    } else if c == '3' {
        3
    } else if c == '4' {
        4
    } else if c == '5' {
        5
    } else if c == '6' {
        6
    } else if c == '7' {
        7
    } else if c == '8' {
        8
    } else if c == '9' {
        9
    } else {
        10
    }
}

pub open spec fn is_digit(c: char) -> bool {
    digit_val(c) < 10
}

/// The digit characters carry their values and are not separators.
pub proof fn lemma_digit_char_val(d: int)
    requires
        0 <= d <= 9,
    ensures
        digit_val(digit_char(d)) == d,
        digit_char(d) != ' ',
        digit_char(d) != '-',
        d >= 1 ==> digit_char(d) != '0',
        is_digit(digit_char(d)),
{
}

/// Decimal digits of a non-negative number, most significant first.
pub open spec fn digits_of(n: int) -> Seq<char>
    decreases n,
{
    if n <= 9 {
        seq![digit_char(n)]
    } else {
        digits_of(n / 10).push(digit_char(n % 10))
    }
}

/// The number a digit string stands for.
pub open spec fn val_of(s: Seq<char>) -> int
    decreases s.len(),
{
    if s.len() == 0 {
        0
    } else {
        val_of(s.drop_last()) * 10 + digit_val(s.last())
    }
}

pub open spec fn all_digits(s: Seq<char>) -> bool {
    forall|i: int| 0 <= i < s.len() ==> is_digit(#[trigger] s[i])
}

/// Rendering a number gives non-empty digits without spaces or signs,
/// without a leading zero (except the number 0 itself), and parsing them
/// back gives the number.
pub proof fn lemma_digits_of_props(n: int)
    requires
        0 <= n,
    ensures
        digits_of(n).len() >= 1,
        all_digits(digits_of(n)),
        val_of(digits_of(n)) == n,
        digits_of(n)[0] != ' ',
        digits_of(n)[0] != '-',
        n >= 1 ==> digits_of(n)[0] != '0',
        n <= 9 ==> digits_of(n).len() == 1,
        forall|i: int| 0 <= i < digits_of(n).len() ==> (#[trigger] digits_of(n)[i]) != ' ' && digits_of(n)[i] != '-',
    decreases n,
{
    if n <= 9 {
        lemma_digit_char_val(n);
        let t = digits_of(n);
        assert(t == seq![digit_char(n)]);
        assert(t.len() == 1 && t.last() == digit_char(n));
        assert(t.drop_last() =~= Seq::<char>::empty());
        assert(val_of(t.drop_last()) == 0);
        assert(val_of(t) == val_of(t.drop_last()) * 10 + digit_val(t.last()));
    } else {
        lemma_digits_of_props(n / 10);
        lemma_fundamental_div_mod(n, 10);
        lemma_digit_char_val(n % 10);
        assert(digits_of(n).drop_last() =~= digits_of(n / 10));
        assert(digits_of(n).last() == digit_char(n % 10));
        assert(val_of(digits_of(n)) == (n / 10) * 10 + n % 10);
        assert(digits_of(n)[0] == digits_of(n / 10)[0]);
    }
}

/// The value of every digit string is non-negative.
pub proof fn lemma_val_of_nonneg(s: Seq<char>)
    requires
        all_digits(s),
    ensures
        val_of(s) >= 0,
    decreases s.len(),
{
    if s.len() > 0 {
        assert(forall|i: int|
            0 <= i < s.drop_last().len() ==> is_digit(#[trigger] s.drop_last()[i]));
        lemma_val_of_nonneg(s.drop_last());
        assert(val_of(s.drop_last()) * 10 >= 0) by (nonlinear_arith)
            requires
                val_of(s.drop_last()) >= 0,
        {}
    }
}

/// A token of the wire format: an optional minus sign, then digits with
/// no leading zero, standing for a value that fits `i64`.
pub open spec fn token_valid(t: Seq<char>) -> bool {
    if t.len() == 0 {
        false
    } else if t[0] == '-' {
        let d = t.drop_first();
        &&& d.len() >= 1
        &&& all_digits(d)
        &&& (d.len() > 1 ==> digit_val(d[0]) >= 1)
        &&& val_of(d) >= 1
        &&& val_of(d) <= 9_223_372_036_854_775_807
    } else {
        &&& all_digits(t)
        &&& (t.len() > 1 ==> digit_val(t[0]) >= 1)
        &&& val_of(t) <= 9_223_372_036_854_775_807
    }
}

pub open spec fn token_val(t: Seq<char>) -> int {
    if t.len() >= 1 && t[0] == '-' {
        -val_of(t.drop_first())
    } else {
        val_of(t)
    }
}

/// The rendering of one number.
pub open spec fn render_i64(n: int) -> Seq<char> {
    if n < 0 {
        seq!['-'] + digits_of(-n)
    } else {
        digits_of(n)
    }
}

/// Rendering a number in the `i64` range gives a valid token with that
/// value, free of spaces.
pub proof fn lemma_render_i64_props(n: int)
    requires
        -9_223_372_036_854_775_807 <= n <= 9_223_372_036_854_775_807,
    ensures
        render_i64(n).len() >= 1,
        token_valid(render_i64(n)),
        token_val(render_i64(n)) == n,
        forall|i: int| 0 <= i < render_i64(n).len() ==> (#[trigger] render_i64(n)[i]) != ' ',
{
    if n < 0 {
        lemma_digits_of_props(-n);
        assert(render_i64(n).drop_first() =~= digits_of(-n));
        assert(render_i64(n)[0] == '-');
    } else {
        lemma_digits_of_props(n);
    }
}

/// Index of the first space at or after `i`, or the length.
pub open spec fn first_space_from(s: Seq<char>, i: int) -> int
    decreases s.len() - i,
{
    if i < 0 || i >= s.len() {
        s.len() as int
    } else if s[i] == ' ' {
        i
    } else {
        first_space_from(s, i + 1)
    }
}

pub proof fn lemma_first_space_bounds(s: Seq<char>, i: int)
    requires
        0 <= i <= s.len(),
    ensures
        i <= first_space_from(s, i) <= s.len(),
        forall|j: int| i <= j < first_space_from(s, i) ==> s[j] != ' ',
        first_space_from(s, i) < s.len() ==> s[first_space_from(s, i)] == ' ',
    decreases s.len() - i,
{
    if i < s.len() && s[i] != ' ' {
        lemma_first_space_bounds(s, i + 1);
    }
}

/// If no space stands in `[i, m)` and `m` is the length or a space, then
/// `m` is the first space.
pub proof fn lemma_first_space_exact(s: Seq<char>, i: int, m: int)
    requires
        0 <= i <= m <= s.len(),
        forall|j: int| i <= j < m ==> s[j] != ' ',
        m == s.len() || s[m] == ' ',
    ensures
        first_space_from(s, i) == m,
    decreases m - i,
{
    if i < m {
        lemma_first_space_exact(s, i + 1, m);
    }
}

/// The tokens of the text from position `i` on: maximal space-free runs.
pub open spec fn split_from(s: Seq<char>, i: int) -> Seq<Seq<char>>
    decreases s.len() - i,
{
    if i < 0 || i >= s.len() {
        Seq::empty()
    } else {
        let k0 = first_space_from(s, i);
        let k = if k0 < i {
            i
        } else {
            k0
        };
        if k >= s.len() {
            seq![s.subrange(i, s.len() as int)]
        } else {
            seq![s.subrange(i, k)] + split_from(s, k + 1)
        }
    }
}

pub open spec fn split_tokens(s: Seq<char>) -> Seq<Seq<char>> {
    split_from(s, 0)
}

/// What a whole text stands for: every token must be valid.
pub open spec fn parse_seq(s: Seq<char>) -> Option<Seq<i64>> {
    let toks = split_tokens(s);
    if forall|i: int| 0 <= i < toks.len() ==> token_valid(#[trigger] toks[i]) {
        Option::Some(Seq::new(toks.len(), |i: int| token_val(toks[i]) as i64))
    } else {
        Option::None
    }
}

/// The rendering of a sequence of numbers: decimals joined by single
/// spaces.
pub open spec fn render_seq(v: Seq<i64>) -> Seq<char>
    decreases v.len(),
{
    if v.len() == 0 {
        Seq::empty()
    } else if v.len() == 1 {
        render_i64(v[0] as int)
    } else {
        render_seq(v.drop_last()) + seq![' '] + render_i64(v.last() as int)
    }
}

/// The same rendering, decomposed from the front.
pub proof fn lemma_render_seq_front(v: Seq<i64>)
    requires
        v.len() >= 2,
    ensures
        render_seq(v) =~= render_i64(v[0] as int) + seq![' '] + render_seq(v.drop_first()),
    decreases v.len(),
{
    if v.len() == 2 {
        assert(v.drop_last() =~= seq![v[0]]);
        assert(v.drop_first() =~= seq![v[1]]);
        assert(render_seq(v.drop_last()) == render_i64(v.drop_last()[0] as int));
        assert(v.drop_last()[0] == v[0] && v.last() == v[1]);
        assert(render_seq(v.drop_first()) == render_i64(v.drop_first()[0] as int));
        assert(render_seq(v) == render_seq(v.drop_last()) + seq![' '] + render_i64(
            v.last() as int,
        ));
    } else {
        lemma_render_seq_front(v.drop_last());
        assert(v.drop_last().drop_first() =~= v.drop_first().drop_last());
        assert(v.drop_first().last() == v.last());
        assert(v.drop_last()[0] == v[0]);
        assert(v.drop_first().len() >= 2);
        assert(render_seq(v) == render_seq(v.drop_last()) + seq![' '] + render_i64(
            v.last() as int,
        ));
        assert(render_seq(v.drop_first()) == render_seq(v.drop_first().drop_last()) + seq![' ']
            + render_i64(v.drop_first().last() as int));
        assert(render_seq(v.drop_last()) == render_i64(v[0] as int) + seq![' '] + render_seq(
            v.drop_last().drop_first(),
        ));
    }
}

/// Splitting what `render_seq` produced gives back exactly the renderings
/// of the numbers.
pub proof fn lemma_split_render(v: Seq<i64>)
    requires
        forall|i: int| 0 <= i < v.len() ==> (#[trigger] v[i]) > i64::MIN,
    ensures
        split_tokens(render_seq(v)).len() == v.len(),
        forall|i: int|
            0 <= i < v.len() ==> split_tokens(render_seq(v))[i] =~= render_i64(v[i] as int),
    decreases v.len(),
{
    let s = render_seq(v);
    if v.len() == 0 {
    } else if v.len() == 1 {
        lemma_render_i64_props(v[0] as int);
        lemma_first_space_exact(s, 0, s.len() as int);
        assert(split_tokens(s) =~= seq![s.subrange(0, s.len() as int)]);
        assert(s.subrange(0, s.len() as int) =~= render_i64(v[0] as int));
    } else {
        lemma_render_seq_front(v);
        let head = render_i64(v[0] as int);
        let rest = render_seq(v.drop_first());
        lemma_render_i64_props(v[0] as int);
        assert(forall|j: int| 0 <= j < head.len() ==> s[j] == head[j] && s[j] != ' ');
        assert(s[head.len() as int] == ' ');
        lemma_first_space_exact(s, 0, head.len() as int);
        assert(s.subrange(0, head.len() as int) =~= head);
        lemma_split_shift(s, head.len() as int + 1, rest);
        lemma_split_render(v.drop_first());
        assert(split_from(s, 0) == seq![s.subrange(0, head.len() as int)] + split_from(
            s,
            head.len() as int + 1,
        ));
        assert forall|i: int| 0 <= i < v.len() implies split_tokens(s)[i] =~= render_i64(
            v[i] as int,
        ) by {
            if i >= 1 {
                assert(split_from(s, head.len() as int + 1)[i - 1] =~= split_tokens(rest)[i - 1]);
                assert(v.drop_first()[i - 1] == v[i]);
            }
        }
    }
}

/// Splitting from a position whose suffix is `rest` splits like `rest`.
pub proof fn lemma_split_shift(s: Seq<char>, i: int, rest: Seq<char>)
    requires
        0 <= i <= s.len(),
        rest =~= s.subrange(i, s.len() as int),
    ensures
        split_from(s, i).len() == split_tokens(rest).len(),
        forall|j: int|
            0 <= j < split_from(s, i).len() ==> split_from(s, i)[j] =~= #[trigger] split_tokens(
                rest,
            )[j],
    decreases s.len() - i,
{
    if i >= s.len() {
        assert(rest.len() == 0);
    } else {
        let k = first_space_from(s, i);
        lemma_first_space_bounds(s, i);
        assert(forall|j: int| 0 <= j < rest.len() ==> rest[j] == s[i + j]);
        let k2 = k - i;
        lemma_first_space_exact(rest, 0, k2);
        if k >= s.len() {
            assert(split_from(s, i) == seq![s.subrange(i, s.len() as int)]);
            assert(split_from(rest, 0) == seq![rest.subrange(0, rest.len() as int)]);
            assert(rest.subrange(0, rest.len() as int) =~= s.subrange(i, s.len() as int));
        } else {
            let inner = rest.subrange(k2 + 1, rest.len() as int);
            assert(inner =~= s.subrange(k + 1, s.len() as int));
            lemma_split_shift(s, k + 1, inner);
            lemma_split_shift(rest, k2 + 1, inner);
            assert(rest.subrange(0, k2) =~= s.subrange(i, k));
            assert(split_from(s, i) == seq![s.subrange(i, k)] + split_from(s, k + 1));
            assert(split_from(rest, 0) == seq![rest.subrange(0, k2)] + split_from(rest, k2 + 1));
            assert forall|j: int| 0 <= j < split_from(s, i).len() implies split_from(s, i)[j]
                =~= split_tokens(rest)[j] by {
                if j > 0 {
                    assert(split_from(s, i)[j] == split_from(s, k + 1)[j - 1]);
                    assert(split_from(rest, 0)[j] == split_from(rest, k2 + 1)[j - 1]);
                    assert(split_from(s, k + 1)[j - 1] =~= split_tokens(inner)[j - 1]);
                    assert(split_from(rest, k2 + 1)[j - 1] =~= split_tokens(inner)[j - 1]);
                }
            }
        }
    }
}

/// Round-trip of the text layer: parsing a rendered sequence gives it
/// back.
pub proof fn lemma_parse_render(v: Seq<i64>)
    requires
        forall|i: int| 0 <= i < v.len() ==> (#[trigger] v[i]) > i64::MIN,
    ensures
        parse_seq(render_seq(v)) == Option::Some(v),
{
    lemma_split_render(v);
    let toks = split_tokens(render_seq(v));
    assert forall|i: int| 0 <= i < toks.len() implies token_valid(#[trigger] toks[i]) by {
        lemma_render_i64_props(v[i] as int);
    }
    assert forall|i: int| 0 <= i < toks.len() implies token_val(#[trigger] toks[i]) as i64 == v[i] by {
        lemma_render_i64_props(v[i] as int);
    }
    assert(Seq::new(toks.len(), |i: int| token_val(toks[i]) as i64) =~= v);
}

/// The value of a digit string never falls when digits are appended.
pub proof fn lemma_val_of_extend(t: Seq<char>, m: int)
    requires
        all_digits(t),
        0 <= m <= t.len(),
    ensures
        0 <= val_of(t.take(m)) <= val_of(t),
    decreases t.len(),
{
    assert(forall|i: int| 0 <= i < t.take(m).len() ==> is_digit(#[trigger] t.take(m)[i]));
    lemma_val_of_nonneg(t.take(m));
    if m < t.len() {
        assert(forall|i: int|
            0 <= i < t.drop_last().len() ==> is_digit(#[trigger] t.drop_last()[i]));
        lemma_val_of_extend(t.drop_last(), m);
        assert(t.drop_last().take(m) =~= t.take(m));
        lemma_val_of_nonneg(t.drop_last());
        assert(val_of(t.drop_last()) * 10 >= val_of(t.drop_last())) by (nonlinear_arith)
            requires
                val_of(t.drop_last()) >= 0,
        {}
        assert(digit_val(t.last()) >= 0);
    } else {
        assert(t.take(m) =~= t);
    }
}

/// Every element of the encoded entity chunks lies strictly above
/// `i64::MIN` (all fields of a well-formed entity are bounded).
pub proof fn lemma_encode_entities_values(es: Seq<Entity>, n: int)
    requires
        0 <= n <= es.len(),
        forall|j: int| 0 <= j < n ==> entity_wf(#[trigger] es[j]),
    ensures
        forall|i: int|
            0 <= i < encode_entities(es, n).len() ==> (#[trigger] encode_entities(es, n)[i])
                > i64::MIN,
    decreases n,
{
    if n > 0 {
        lemma_encode_entities_values(es, n - 1);
        lemma_encode_entities_index(es, n - 1);
        assert forall|i: int|
            0 <= i < encode_entities(es, n).len() implies (#[trigger] encode_entities(es, n)[i])
            > i64::MIN by {
            if i < 19 * (n - 1) {
                assert(encode_entities(es, n)[i] == encode_entities(es, n - 1)[i]);
            } else {
                assert(encode_entities(es, n)[i] == encode_entity(es[n - 1])[i - 19 * (n - 1)]);
            }
        }
    }
}

pub proof fn lemma_encode_obstacles_values(os: Seq<Obstacle>, n: int)
    requires
        0 <= n <= os.len(),
        forall|j: int| 0 <= j < n ==> obstacle_wf(#[trigger] os[j]),
    ensures
        forall|i: int|
            0 <= i < encode_obstacles(os, n).len() ==> (#[trigger] encode_obstacles(os, n)[i])
                > i64::MIN,
    decreases n,
{
    if n > 0 {
        lemma_encode_obstacles_values(os, n - 1);
        lemma_encode_obstacles_index(os, n - 1);
        assert forall|i: int|
            0 <= i < encode_obstacles(os, n).len() implies (#[trigger] encode_obstacles(os, n)[i])
            > i64::MIN by {
            if i < 7 * (n - 1) {
                assert(encode_obstacles(os, n)[i] == encode_obstacles(os, n - 1)[i]);
            } else {
                assert(encode_obstacles(os, n)[i] == encode_obstacle(os[n - 1])[i - 7 * (n - 1)]);
            }
        }
    }
}

pub proof fn lemma_encode_lights_values(ls: Seq<LightSource>, n: int)
    requires
        0 <= n <= ls.len(),
        forall|j: int| 0 <= j < n ==> light_wf(#[trigger] ls[j]),
    ensures
        forall|i: int|
            0 <= i < encode_lights(ls, n).len() ==> (#[trigger] encode_lights(ls, n)[i])
                > i64::MIN,
    decreases n,
{
    if n > 0 {
        lemma_encode_lights_values(ls, n - 1);
        lemma_encode_lights_index(ls, n - 1);
        assert forall|i: int|
            0 <= i < encode_lights(ls, n).len() implies (#[trigger] encode_lights(ls, n)[i])
            > i64::MIN by {
            if i < 5 * (n - 1) {
                assert(encode_lights(ls, n)[i] == encode_lights(ls, n - 1)[i]);
            } else {
                assert(encode_lights(ls, n)[i] == encode_light(ls[n - 1])[i - 5 * (n - 1)]);
            }
        }
    }
}

/// Every number of an encoded well-formed world lies strictly above
/// `i64::MIN`, so each can be rendered.
pub proof fn lemma_encode_world_values(w: World)
    requires
        world_wf(w),
        w.entities@.len() <= 100_000_000,
        w.obstacles@.len() <= 100_000_000,
        w.lights@.len() <= 100_000_000,
    ensures
        forall|i: int|
            0 <= i < encode_world(w).len() ==> (#[trigger] encode_world(w)[i]) > i64::MIN,
{
    let ne = w.entities@.len() as int;
    let no = w.obstacles@.len() as int;
    let nl = w.lights@.len() as int;
    lemma_encode_entities_values(w.entities@, ne);
    lemma_encode_obstacles_values(w.obstacles@, no);
    lemma_encode_lights_values(w.lights@, nl);
    lemma_encode_entities_index(w.entities@, ne);
    lemma_encode_obstacles_index(w.obstacles@, no);
    lemma_encode_lights_index(w.lights@, nl);
    let v = encode_world(w);
    assert forall|i: int| 0 <= i < v.len() implies (#[trigger] v[i]) > i64::MIN by {
        if i < 4 {
        } else if i < 4 + 19 * ne {
            assert(v[i] == encode_entities(w.entities@, ne)[i - 4]);
        } else if i == 4 + 19 * ne {
        } else if i < 4 + 19 * ne + 1 + 7 * no {
            assert(v[i] == encode_obstacles(w.obstacles@, no)[i - (4 + 19 * ne + 1)]);
        } else if i == 4 + 19 * ne + 1 + 7 * no {
        } else {
            assert(v[i] == encode_lights(w.lights@, nl)[i - (4 + 19 * ne + 1 + 7 * no + 1)]);
        }
    }
}

/// Relies on std's `String::push`: appends exactly the one character to
/// the end of the string.
#[verifier::external_body]
fn push_char(s: &mut String, c: char)
    ensures
        final(s)@ == old(s)@.push(c),
{
    s.push(c)
}

/// The digit character of a value, executable form.
fn digit_char_exec(d: i64) -> (c: char)
    requires
        0 <= d <= 9,
    ensures
        c == digit_char(d as int),
{
    if d == 0 {
        '0'
    } else if d == 1 {
        '1'
    } else if d == 2 {
        '2'
    } else if d == 3 {
        '3'
    } else if d == 4 {
        '4'
    } else if d == 5 {
        '5'
    } else if d == 6 {
        '6'
    } else if d == 7 {
        '7'
    } else if d == 8 {
        '8'
    } else {
        '9'
    }
}

/// The value of a digit character, executable form; 10 for any other
/// character.
fn digit_of_char(c: char) -> (d: i64)
    ensures
        d == digit_val(c),
{
    if c == '0' {
        0
    } else if c == '1' {
        1
    } else if c == '2' {
        2
    } else if c == '3' {
        3
    } else if c == '4' {
        4
    } else if c == '5' {
        5
    } else if c == '6' {
        6
    } else if c == '7' {
        7
    } else if c == '8' {
        8
    } else if c == '9' {
        9
    } else {
        10
    }
}

/// Append the decimal digits of a non-negative number.
fn render_nat(n: i64, out: &mut String)
    requires
        n >= 0,
    ensures
        final(out)@ == old(out)@ + digits_of(n as int),
    decreases n,
{
    if n <= 9 {
        push_char(out, digit_char_exec(n));
        proof {
            assert(old(out)@.push(digit_char(n as int)) =~= old(out)@ + digits_of(n as int));
        }
    } else {
        render_nat(n / 10, out);
        push_char(out, digit_char_exec(n % 10));
        proof {
            assert((old(out)@ + digits_of(n as int / 10)).push(digit_char(n as int % 10)) =~= old(
                out,
            )@ + digits_of(n as int));
        }
    }
}

/// Append the decimal rendering of a number.
fn render_i64_into(n: i64, out: &mut String)
    requires
        n > i64::MIN,
    ensures
        final(out)@ == old(out)@ + render_i64(n as int),
{
    if n < 0 {
        push_char(out, '-');
        render_nat(-n, out);
        proof {
            assert(old(out)@.push('-') + digits_of(-n as int) =~= old(out)@ + (seq!['-']
                + digits_of(-(n as int))));
        }
    } else {
        render_nat(n, out);
    }
}

/// Parse a whole text as space-separated decimals; `None` exactly when
/// the text is not a valid rendering.
fn parse_numbers(s: &str) -> (r: Option<Vec<i64>>)
    ensures
        match r {
            Option::Some(v) => parse_seq(s@) == Option::Some(v@),
            Option::None => parse_seq(s@) is None,
        },
{
    let n = s.unicode_len();
    let mut out: Vec<i64> = Vec::new();
    let ghost mut done: Seq<Seq<char>> = Seq::empty();
    let mut pos: usize = 0;
    while pos < n
        invariant
            0 <= pos <= n + 1,
            n == s@.len(),
            split_tokens(s@) == done + split_from(s@, pos as int),
            out@.len() == done.len(),
            forall|k: int|
                0 <= k < done.len() ==> token_valid(#[trigger] done[k]) && out@[k] == token_val(
                    done[k],
                ) as i64,
        decreases n - pos,
    {
        let ghost toks = split_tokens(s@);
        // scan the token to the next space
        let mut k: usize = pos;
        while k < n && s.get_char(k) != ' '
            invariant
                pos <= k <= n,
                n == s@.len(),
                forall|j: int| pos <= j < k ==> s@[j] != ' ',
            decreases n - k,
        {
            k = k + 1;
        }
        proof {
            lemma_first_space_exact(s@, pos as int, k as int);
        }
        let ghost tok = s@.subrange(pos as int, k as int);
        proof {
            if k < n {
                assert(split_from(s@, pos as int) == seq![tok] + split_from(s@, k as int + 1));
            } else {
                assert(tok =~= s@.subrange(pos as int, s@.len() as int));
                assert(split_from(s@, pos as int) == seq![tok]);
            }
            assert(toks[done.len() as int] == tok);
        }
        if k == pos {
            // an empty token: two spaces in a row, or a leading space
            proof {
                assert(!token_valid(tok));
                assert(!token_valid(split_tokens(s@)[done.len() as int]));
            }
            return Option::None;
        }
        let negative = s.get_char(pos) == '-';
        let dstart = if negative {
            pos + 1
        } else {
            pos
        };
        let ghost digits = s@.subrange(dstart as int, k as int);
        proof {
            if negative {
                assert(digits =~= tok.drop_first());
            } else {
                assert(digits =~= tok);
            }
        }
        if dstart == k {
            // a bare minus sign
            proof {
                assert(tok[0] == s@[pos as int]);
                assert(tok.drop_first().len() == 0);
                assert(!token_valid(tok));
                assert(!token_valid(split_tokens(s@)[done.len() as int]));
            }
            return Option::None;
        }
        if k - dstart > 1 && s.get_char(dstart) == '0' {
            // a leading zero is not canonical
            proof {
                assert(digits[0] == '0');
                if negative {
                    assert(tok.drop_first() =~= digits);
                } else {
                    assert(tok =~= digits);
                }
                assert(tok[0] == s@[pos as int]);
                assert(!token_valid(tok));
                assert(!token_valid(split_tokens(s@)[done.len() as int]));
            }
            return Option::None;
        }
        let mut acc: i128 = 0;
        let mut idx: usize = dstart;
        while idx < k
            invariant
                dstart <= idx <= k <= n,
                pos < k,
                pos <= dstart,
                n == s@.len(),
                digits == s@.subrange(dstart as int, k as int),
                dstart < k,
                tok == s@.subrange(pos as int, k as int),
                done.len() < split_tokens(s@).len(),
                split_tokens(s@)[done.len() as int] == tok,
                negative ==> s@[pos as int] == '-' && dstart == pos + 1,
                !negative ==> s@[pos as int] != '-' && dstart == pos,
                forall|j: int| dstart <= j < idx ==> is_digit(#[trigger] s@[j]),
                acc == val_of(s@.subrange(dstart as int, idx as int)),
                0 <= acc <= 9_223_372_036_854_775_807i128,
            decreases n - idx,
        {
            let c = s.get_char(idx);
            let d = digit_of_char(c);
            if d == 10 {
                // not a digit
                proof {
                    assert(digits[idx - dstart] == c);
                    assert(!all_digits(digits));
                    if negative {
                        assert(tok.drop_first() =~= digits);
                    } else {
                        assert(tok =~= digits);
                    }
                    assert(tok[0] == s@[pos as int]);
                    assert(!token_valid(tok));
                    assert(!token_valid(split_tokens(s@)[done.len() as int]));
                }
                return Option::None;
            }
            proof {
                assert(s@.subrange(dstart as int, idx as int + 1).drop_last() =~= s@.subrange(
                    dstart as int,
                    idx as int,
                ));
                assert(s@.subrange(dstart as int, idx as int + 1).last() == c);
            }
            let next = acc * 10 + (d as i128);
            if next > 9_223_372_036_854_775_807i128 {
                // the number does not fit a signed 64-bit value
                proof {
                    assert(forall|j: int|
                        0 <= j < digits.len() ==> digits[j] == s@[dstart + j]);
                    if all_digits(digits) {
                        lemma_val_of_extend(digits, idx - dstart + 1);
                        assert(digits.take(idx - dstart + 1) =~= s@.subrange(
                            dstart as int,
                            idx as int + 1,
                        ));
                        assert(val_of(digits) > 9_223_372_036_854_775_807);
                    }
                    if negative {
                        assert(tok.drop_first() =~= digits);
                    } else {
                        assert(tok =~= digits);
                    }
                    assert(tok[0] == s@[pos as int]);
                    assert(!token_valid(tok));
                    assert(!token_valid(split_tokens(s@)[done.len() as int]));
                }
                return Option::None;
            }
            acc = next;
            idx = idx + 1;
        }
        proof {
            assert(digits =~= s@.subrange(dstart as int, idx as int));
            assert(forall|j: int| 0 <= j < digits.len() ==> is_digit(#[trigger] digits[j]));
            assert(acc == val_of(digits));
        }
        let value: i64;
        if negative {
            if acc == 0 {
                // "-0" is not canonical
                proof {
                    assert(tok.drop_first() =~= digits);
                    assert(tok[0] == s@[pos as int]);
                    assert(!token_valid(tok));
                    assert(!token_valid(split_tokens(s@)[done.len() as int]));
                }
                return Option::None;
            }
            value = -(acc as i64);
        } else {
            value = acc as i64;
        }
        proof {
            if negative {
                assert(tok.drop_first() =~= digits);
            } else {
                assert(tok =~= digits);
            }
            assert(tok[0] == s@[pos as int]);
            assert(token_valid(tok));
            assert(token_val(tok) == value as int);
        }
        out.push(value);
        proof {
            done = done.push(tok);
            if k < n {
                assert(split_tokens(s@) == done + split_from(s@, k as int + 1)) by {
                    assert(toks =~= (done.drop_last() + (seq![tok] + split_from(
                        s@,
                        k as int + 1,
                    ))));
                    assert(done.drop_last() + (seq![tok] + split_from(s@, k as int + 1)) =~= done
                        + split_from(s@, k as int + 1));
                }
            } else {
                assert(split_tokens(s@) == done + split_from(s@, k as int + 1)) by {
                    assert(split_from(s@, k as int + 1) == Seq::<Seq<char>>::empty());
                    assert(toks =~= done + Seq::<Seq<char>>::empty());
                }
            }
        }
        if k < n {
            pos = k + 1;
        } else {
            pos = n;
            proof {
                assert(split_from(s@, n as int) == Seq::<Seq<char>>::empty());
                assert(done + split_from(s@, k as int + 1) =~= done + split_from(s@, n as int));
            }
        }
    }
    proof {
        assert(split_from(s@, pos as int) == Seq::<Seq<char>>::empty());
        assert(split_tokens(s@) =~= done);
        let toks = split_tokens(s@);
        assert(Seq::new(toks.len(), |i: int| token_val(toks[i]) as i64) =~= out@);
    }
    Option::Some(out)
}

/// Executable form of the entity-type tag decoding.
fn type_of_tag_exec(v: i64) -> (t: EntityType)
    ensures
        t == type_of_tag(v),
{
    if v == 0 {
        EntityType::Player
    } else if v == 1 {
        EntityType::Guard
    } else if v == 2 {
        EntityType::Camera
    } else if v == 3 {
        EntityType::Door
    } else if v == 4 {
        EntityType::LightSource
    } else if v == 5 {
        EntityType::SoundEmitter
    } else {
        EntityType::CoverObject
    }
}

fn stance_of_tag_exec(v: i64) -> (t: Stance)
    ensures
        t == stance_of_tag(v),
{
    if v == 0 {
        Stance::Standing
    } else if v == 1 {
        Stance::Crouching
    } else {
        Stance::Prone
    }
}

fn state_of_tag_exec(v: i64) -> (t: ActorState)
    ensures
        t == state_of_tag(v),
{
    if v == 0 {
        ActorState::Idle
    } else if v == 1 {
        ActorState::Walking
    } else if v == 2 {
        ActorState::Running
    } else if v == 3 {
        ActorState::Hiding
    } else if v == 4 {
        ActorState::Investigating
    } else if v == 5 {
        ActorState::Alerted
    } else {
        ActorState::Hunting
    }
}

/// Read and validate one nineteen-number entity chunk.
fn check_entity_chunk(v: &Vec<i64>, base: usize) -> (r: Option<Entity>)
    requires
        base + 19 <= v@.len(),
    ensures
        ({
            let c = v@.subrange(base as int, base as int + 19);
            match r {
                Option::Some(e) => entity_chunk_valid(c) && e == entity_of_chunk(c),
                Option::None => !entity_chunk_valid(c),
            }
        }),
{
    let n = v.len();
    let n = v.len();
    let n = v.len();
    proof {
        let c = v@.subrange(base as int, base as int + 19);
        assert(forall|t: int| 0 <= t < 19 ==> #[trigger] c[t] == v@[base + t]);
    }
    let c0 = v[base];
    let c1 = v[base + 1];
    let c2 = v[base + 2];
    let c3 = v[base + 3];
    let c4 = v[base + 4];
    let c5 = v[base + 5];
    let c6 = v[base + 6];
    let c7 = v[base + 7];
    let c8 = v[base + 8];
    let c9 = v[base + 9];
    let c10 = v[base + 10];
    let c11 = v[base + 11];
    let c12 = v[base + 12];
    let c13 = v[base + 13];
    let c14 = v[base + 14];
    let c15 = v[base + 15];
    let c16 = v[base + 16];
    let c17 = v[base + 17];
    let c18 = v[base + 18];
    if c0 < 0 || c0 > 0xffff_ffffi64 {
        return Option::None;
    }
    if c1 < 0 || c1 > 6 || c9 < 0 || c9 > 2 || c10 < 0 || c10 > 6 {
        return Option::None;
    }
    if c11 < 0 || c11 > 1 {
        return Option::None;
    }
    if c2 < -POS_LIMIT || c2 > POS_LIMIT || c3 < -POS_LIMIT || c3 > POS_LIMIT || c4 < -POS_LIMIT
        || c4 > POS_LIMIT {
        return Option::None;
    }
    if c5 < -1000 || c5 > 1000 || c6 < -1000 || c6 > 1000 {
        return Option::None;
    }
    if c7 < -VEL_LIMIT || c7 > VEL_LIMIT || c8 < -VEL_LIMIT || c8 > VEL_LIMIT {
        return Option::None;
    }
    if c12 < 1 || c12 > DIM_MAX || c13 < -1000 || c13 > 1000 {
        return Option::None;
    }
    if c14 < 0 || c14 > 1000 || c15 < 0 || c15 > 1000 || c16 < 0 || c16 > 1000 {
        return Option::None;
    }
    if c17 < 1 || c17 > SPEED_MAX || c18 < 0 || c18 > 1_000_000_000 {
        return Option::None;
    }
    let e = Entity {
        id: c0 as u32,
        entity_type: type_of_tag_exec(c1),
        position: Position { x: c2, y: c3, height: c4 },
        facing_x: c5,
        facing_y: c6,
        vel_x: c7,
        vel_y: c8,
        stance: stance_of_tag_exec(c9),
        state: state_of_tag_exec(c10),
        visible: c11 == 1,
        visibility_radius: c12,
        fov_cos: c13,
        noise_level: c14,
        detection_level: c15,
        light_exposure: c16,
        speed: c17,
        health: c18,
    };
    Option::Some(e)
}

/// Read and validate one seven-number obstacle chunk.
fn check_obstacle_chunk(v: &Vec<i64>, base: usize) -> (r: Option<Obstacle>)
    requires
        base + 7 <= v@.len(),
    ensures
        ({
            let c = v@.subrange(base as int, base as int + 7);
            match r {
                Option::Some(o) => obstacle_chunk_valid(c) && o == obstacle_of_chunk(c),
                Option::None => !obstacle_chunk_valid(c),
            }
        }),
{
    let n = v.len();
    let n = v.len();
    let n = v.len();
    proof {
        let c = v@.subrange(base as int, base as int + 7);
        assert(forall|t: int| 0 <= t < 7 ==> #[trigger] c[t] == v@[base + t]);
    }
    let c0 = v[base];
    let c1 = v[base + 1];
    let c2 = v[base + 2];
    let c3 = v[base + 3];
    let c4 = v[base + 4];
    let c5 = v[base + 5];
    let c6 = v[base + 6];
    if c0 < -DIM_MAX || c0 > DIM_MAX || c1 < -DIM_MAX || c1 > DIM_MAX || c2 < -DIM_MAX || c2
        > DIM_MAX {
        return Option::None;
    }
    if c3 < 0 || c3 > DIM_MAX {
        return Option::None;
    }
    if c4 < 0 || c4 > 1 || c5 < 0 || c5 > 1 || c6 < 0 || c6 > 1 {
        return Option::None;
    }
    Option::Some(
        Obstacle {
            position: Position { x: c0, y: c1, height: c2 },
            radius: c3,
            blocks_vision: c4 == 1,
            blocks_sound: c5 == 1,
            provides_cover: c6 == 1,
        },
    )
}

/// Read and validate one five-number light chunk.
fn check_light_chunk(v: &Vec<i64>, base: usize) -> (r: Option<LightSource>)
    requires
        base + 5 <= v@.len(),
    ensures
        ({
            let c = v@.subrange(base as int, base as int + 5);
            match r {
                Option::Some(l) => light_chunk_valid(c) && l == light_of_chunk(c),
                Option::None => !light_chunk_valid(c),
            }
        }),
{
    let n = v.len();
    let n = v.len();
    let n = v.len();
    proof {
        let c = v@.subrange(base as int, base as int + 5);
        assert(forall|t: int| 0 <= t < 5 ==> #[trigger] c[t] == v@[base + t]);
    }
    let c0 = v[base];
    let c1 = v[base + 1];
    let c2 = v[base + 2];
    let c3 = v[base + 3];
    let c4 = v[base + 4];
    if c0 < -DIM_MAX || c0 > DIM_MAX || c1 < -DIM_MAX || c1 > DIM_MAX || c2 < -DIM_MAX || c2
        > DIM_MAX {
        return Option::None;
    }
    if c3 < 1 || c3 > DIM_MAX {
        return Option::None;
    }
    if c4 < 0 || c4 > 1000 {
        return Option::None;
    }
    Option::Some(
        LightSource { position: Position { x: c0, y: c1, height: c2 }, radius: c3, intensity: c4 },
    )
}

/// Decode a number sequence into a world; `None` exactly when the
/// sequence is not a valid framing.
fn decode_world_vec(v: &Vec<i64>) -> (r: Option<World>)
    ensures
        match r {
            Option::Some(w) => {
                &&& decodable(v@)
                &&& world_wf(w)
                &&& ids_unique(w.entities@)
                &&& w.width == v@[0]
                &&& w.height == v@[1]
                &&& w.ambient_light == v@[2]
                &&& w.entities@.len() == v@[3]
                &&& (forall|j: int|
                    0 <= j < w.entities@.len() ==> #[trigger] w.entities@[j] == entity_of_chunk(
                        v@.subrange(4 + 19 * j, 4 + 19 * j + 19),
                    ))
                &&& ({
                    let ob_base = 4 + 19 * (v@[3] as int);
                    let no = v@[ob_base] as int;
                    let l_base = ob_base + 1 + 7 * no;
                    &&& w.obstacles@.len() == no
                    &&& (forall|j: int|
                        0 <= j < no ==> #[trigger] w.obstacles@[j] == obstacle_of_chunk(
                            v@.subrange(ob_base + 1 + 7 * j, ob_base + 1 + 7 * j + 7),
                        ))
                    &&& w.lights@.len() == v@[l_base]
                    &&& (forall|j: int|
                        0 <= j < w.lights@.len() ==> #[trigger] w.lights@[j] == light_of_chunk(
                            v@.subrange(l_base + 1 + 5 * j, l_base + 1 + 5 * j + 5),
                        ))
                })
            },
            Option::None => !decodable(v@),
        },
{
    let len = v.len();
    if len < 4 {
        return Option::None;
    }
    let width = v[0];
    let height = v[1];
    let ambient = v[2];
    let ne64 = v[3];
    if width < 0 || width > DIM_MAX || height < 0 || height > DIM_MAX || ambient < 0 || ambient
        > 1000 || ne64 < 0 {
        return Option::None;
    }
    let len_i: i128 = len as i128;
    let ob_base_i: i128 = 4 + 19 * (ne64 as i128);
    if ob_base_i >= len_i {
        return Option::None;
    }
    let ob_base: usize = ob_base_i as usize;
    let ne: usize = ne64 as usize;
    let mut entities: Vec<Entity> = Vec::new();
    let mut j: usize = 0;
    while j < ne
        invariant
            0 <= j <= ne,
            len == v@.len(),
            ne == ne64 as int,
            0 <= ne64,
            v@[3] == ne64,
            4 + 19 * (ne as int) < len as int,
            entities@.len() == j,
            forall|jj: int|
                0 <= jj < j ==> entity_chunk_valid(
                    #[trigger] v@.subrange(4 + 19 * jj, 4 + 19 * jj + 19),
                ) && entities@[jj] == entity_of_chunk(v@.subrange(4 + 19 * jj, 4 + 19 * jj + 19)),
        decreases ne - j,
    {
        let base = 4 + 19 * j;
        match check_entity_chunk(v, base) {
            Option::Some(e) => {
                entities.push(e);
            },
            Option::None => {
                return Option::None;
            },
        }
        j = j + 1;
    }
    // entity identities must be pairwise distinct
    let mut j1: usize = 0;
    while j1 < ne
        invariant
            0 <= j1 <= ne,
            len == v@.len(),
            ne == ne64 as int,
            0 <= ne64,
            v@[3] == ne64,
            4 + 19 * (ne as int) < len as int,
            entities@.len() == ne,
            forall|jj: int|
                0 <= jj < ne ==> entity_chunk_valid(
                    #[trigger] v@.subrange(4 + 19 * jj, 4 + 19 * jj + 19),
                ) && entities@[jj] == entity_of_chunk(v@.subrange(4 + 19 * jj, 4 + 19 * jj + 19)),
            forall|a: int, b: int|
                0 <= a < b < ne && a < j1 ==> (#[trigger] entities@[a].id) != (
                #[trigger] entities@[b].id),
        decreases ne - j1,
    {
        let mut j2: usize = j1 + 1;
        while j2 < ne
            invariant
                0 <= j1 < j2 <= ne,
                len == v@.len(),
                ne == ne64 as int,
                0 <= ne64,
                v@[3] == ne64,
                4 + 19 * (ne as int) < len as int,
                entities@.len() == ne,
                forall|jj: int|
                    0 <= jj < ne ==> entity_chunk_valid(
                        #[trigger] v@.subrange(4 + 19 * jj, 4 + 19 * jj + 19),
                    ) && entities@[jj] == entity_of_chunk(
                        v@.subrange(4 + 19 * jj, 4 + 19 * jj + 19),
                    ),
                forall|b: int|
                    j1 < b < j2 ==> entities@[j1 as int].id != (#[trigger] entities@[b].id),
            decreases ne - j2,
        {
            if entities[j1].id == entities[j2].id {
                proof {
                    let ca = v@.subrange(4 + 19 * (j1 as int), 4 + 19 * (j1 as int) + 19);
                    let cb = v@.subrange(4 + 19 * (j2 as int), 4 + 19 * (j2 as int) + 19);
                    assert(ca[0] == v@[4 + 19 * (j1 as int)]);
                    assert(cb[0] == v@[4 + 19 * (j2 as int)]);
                    assert(entities@[j1 as int].id == ca[0] as u32);
                    assert(entities@[j2 as int].id == cb[0] as u32);
                    assert(v@[4 + 19 * (j1 as int)] == v@[4 + 19 * (j2 as int)]);
                }
                return Option::None;
            }
            j2 = j2 + 1;
        }
        j1 = j1 + 1;
    }
    let no64 = v[ob_base];
    if no64 < 0 {
        return Option::None;
    }
    let l_base_i: i128 = ob_base_i + 1 + 7 * (no64 as i128);
    if l_base_i >= len_i {
        return Option::None;
    }
    let l_base: usize = l_base_i as usize;
    let no: usize = no64 as usize;
    let mut obstacles: Vec<Obstacle> = Vec::new();
    let mut j: usize = 0;
    while j < no
        invariant
            0 <= j <= no,
            len == v@.len(),
            no == no64 as int,
            0 <= no64,
            0 <= ne64,
            v@[3] == ne64,
            ob_base == 4 + 19 * (ne64 as int),
            v@[ob_base as int] == no64,
            (ob_base as int) + 1 + 7 * (no as int) < len as int,
            obstacles@.len() == j,
            forall|jj: int|
                0 <= jj < j ==> obstacle_chunk_valid(
                    #[trigger] v@.subrange(
                        ob_base as int + 1 + 7 * jj,
                        ob_base as int + 1 + 7 * jj + 7,
                    ),
                ) && obstacles@[jj] == obstacle_of_chunk(
                    v@.subrange(ob_base as int + 1 + 7 * jj, ob_base as int + 1 + 7 * jj + 7),
                ),
        decreases no - j,
    {
        let base = ob_base + 1 + 7 * j;
        match check_obstacle_chunk(v, base) {
            Option::Some(o) => {
                obstacles.push(o);
            },
            Option::None => {
                return Option::None;
            },
        }
        j = j + 1;
    }
    let nl64 = v[l_base];
    if nl64 < 0 {
        return Option::None;
    }
    if len_i != l_base_i + 1 + 5 * (nl64 as i128) {
        return Option::None;
    }
    let nl: usize = nl64 as usize;
    let mut lights: Vec<LightSource> = Vec::new();
    let mut j: usize = 0;
    while j < nl
        invariant
            0 <= j <= nl,
            len == v@.len(),
            nl == nl64 as int,
            0 <= nl64,
            0 <= ne64,
            0 <= no64,
            v@[3] == ne64,
            v@[(4 + 19 * (ne64 as int)) as int] == no64,
            l_base == 4 + 19 * (ne64 as int) + 1 + 7 * (no64 as int),
            v@[l_base as int] == nl64,
            (l_base as int) + 1 + 5 * (nl as int) == len as int,
            lights@.len() == j,
            forall|jj: int|
                0 <= jj < j ==> light_chunk_valid(
                    #[trigger] v@.subrange(
                        l_base as int + 1 + 5 * jj,
                        l_base as int + 1 + 5 * jj + 5,
                    ),
                ) && lights@[jj] == light_of_chunk(
                    v@.subrange(l_base as int + 1 + 5 * jj, l_base as int + 1 + 5 * jj + 5),
                ),
        decreases nl - j,
    {
        let base = l_base + 1 + 5 * j;
        match check_light_chunk(v, base) {
            Option::Some(l) => {
                lights.push(l);
            },
            Option::None => {
                return Option::None;
            },
        }
        j = j + 1;
    }
    let w = World { entities, obstacles, lights, width, height, ambient_light: ambient };
    proof {
        assert forall|a: int, b: int| 0 <= a < b < (v@[3] as int) implies (#[trigger] v@[4 + 19
            * a]) != (#[trigger] v@[4 + 19 * b]) by {
            let ca = v@.subrange(4 + 19 * a, 4 + 19 * a + 19);
            let cb = v@.subrange(4 + 19 * b, 4 + 19 * b + 19);
            assert(entity_chunk_valid(ca) && entity_chunk_valid(cb));
            assert(ca[0] == v@[4 + 19 * a] && cb[0] == v@[4 + 19 * b]);
            assert(w.entities@[a].id == ca[0] as u32 && w.entities@[b].id == cb[0] as u32);
            assert(w.entities@[a].id != w.entities@[b].id);
        }
        assert(decodable(v@));
        assert forall|i: int| 0 <= i < w.entities@.len() implies entity_wf(
            #[trigger] w.entities@[i],
        ) by {
            assert(entity_chunk_valid(v@.subrange(4 + 19 * i, 4 + 19 * i + 19)));
            assert(w.entities@[i] == entity_of_chunk(v@.subrange(4 + 19 * i, 4 + 19 * i + 19)));
        }
        assert forall|i: int| 0 <= i < w.obstacles@.len() implies obstacle_wf(
            #[trigger] w.obstacles@[i],
        ) by {
            assert(obstacle_chunk_valid(
                v@.subrange(ob_base as int + 1 + 7 * i, ob_base as int + 1 + 7 * i + 7),
            ));
            assert(w.obstacles@[i] == obstacle_of_chunk(
                v@.subrange(ob_base as int + 1 + 7 * i, ob_base as int + 1 + 7 * i + 7),
            ));
        }
        assert forall|i: int| 0 <= i < w.lights@.len() implies light_wf(
            #[trigger] w.lights@[i],
        ) by {
            assert(light_chunk_valid(
                v@.subrange(l_base as int + 1 + 5 * i, l_base as int + 1 + 5 * i + 5),
            ));
            assert(w.lights@[i] == light_of_chunk(
                v@.subrange(l_base as int + 1 + 5 * i, l_base as int + 1 + 5 * i + 5),
            ));
        }
    }
    Option::Some(w)
}

/// Append the nineteen numbers of one entity.
fn push_entity(v: &mut Vec<i64>, e: &Entity)
    ensures
        final(v)@ == old(v)@ + encode_entity(*e),
{
    let tt: i64 = match e.entity_type {
        EntityType::Player => 0,
        EntityType::Guard => 1,
        EntityType::Camera => 2,
        EntityType::Door => 3,
        EntityType::LightSource => 4,
        EntityType::SoundEmitter => 5,
        EntityType::CoverObject => 6,
    };
    let st: i64 = match e.stance {
        Stance::Standing => 0,
        Stance::Crouching => 1,
        Stance::Prone => 2,
    };
    let at: i64 = match e.state {
        ActorState::Idle => 0,
        ActorState::Walking => 1,
        ActorState::Running => 2,
        ActorState::Hiding => 3,
        ActorState::Investigating => 4,
        ActorState::Alerted => 5,
        ActorState::Hunting => 6,
    };
    let vis: i64 = if e.visible {
        1
    } else {
        0
    };
    v.push(e.id as i64);
    v.push(tt);
    v.push(e.position.x);
    v.push(e.position.y);
    v.push(e.position.height);
    v.push(e.facing_x);
    v.push(e.facing_y);
    v.push(e.vel_x);
    v.push(e.vel_y);
    v.push(st);
    v.push(at);
    v.push(vis);
    v.push(e.visibility_radius);
    v.push(e.fov_cos);
    v.push(e.noise_level);
    v.push(e.detection_level);
    v.push(e.light_exposure);
    v.push(e.speed);
    v.push(e.health);
    proof {
        assert(v@ =~= old(v)@ + encode_entity(*e));
    }
}

/// Append the seven numbers of one obstacle.
fn push_obstacle(v: &mut Vec<i64>, o: &Obstacle)
    ensures
        final(v)@ == old(v)@ + encode_obstacle(*o),
{
    v.push(o.position.x);
    v.push(o.position.y);
    v.push(o.position.height);
    v.push(o.radius);
    v.push(if o.blocks_vision { 1 } else { 0 });
    v.push(if o.blocks_sound { 1 } else { 0 });
    v.push(if o.provides_cover { 1 } else { 0 });
    proof {
        assert(v@ =~= old(v)@ + encode_obstacle(*o));
    }
}

/// Append the five numbers of one light source.
fn push_light(v: &mut Vec<i64>, l: &LightSource)
    ensures
        final(v)@ == old(v)@ + encode_light(*l),
{
    v.push(l.position.x);
    v.push(l.position.y);
    v.push(l.position.height);
    v.push(l.radius);
    v.push(l.intensity);
    proof {
        assert(v@ =~= old(v)@ + encode_light(*l));
    }
}

impl GameSystem {
    /// Serialize the whole world (not the identity counter nor the
    /// elapsed time) into the state text: every number of the encoding,
    /// written as space-separated decimals.  Total for a well-formed
    /// world, so it always returns the exact rendering.
    pub fn serialize_state(&self) -> (r: Result<String, FormatError>)
        requires
            world_wf(self.world),
            self.world.entities@.len() <= 100_000_000,
            self.world.obstacles@.len() <= 100_000_000,
            self.world.lights@.len() <= 100_000_000,
        ensures
            r is Ok,
            r->Ok_0@ == render_seq(encode_world(self.world)),
    {
        let ghost es = self.world.entities@;
        let ghost os = self.world.obstacles@;
        let ghost ls = self.world.lights@;
        let mut v: Vec<i64> = Vec::new();
        v.push(self.world.width);
        v.push(self.world.height);
        v.push(self.world.ambient_light);
        let ne = self.world.entities.len();
        v.push(ne as i64);
        let ghost header = seq![
            self.world.width,
            self.world.height,
            self.world.ambient_light,
            ne as i64,
        ];
        proof {
            assert(v@ =~= header);
        }
        let mut i: usize = 0;
        while i < ne
            invariant
                0 <= i <= ne,
                ne == es.len(),
                es == self.world.entities@,
                os == self.world.obstacles@,
                ls == self.world.lights@,
                header == seq![
                    self.world.width,
                    self.world.height,
                    self.world.ambient_light,
                    ne as i64,
                ],
                v@ == header + encode_entities(es, i as int),
            decreases ne - i,
        {
            push_entity(&mut v, &self.world.entities[i]);
            i = i + 1;
        }
        let no = self.world.obstacles.len();
        v.push(no as i64);
        let ghost mid = header + encode_entities(es, es.len() as int) + seq![no as i64];
        proof {
            assert(v@ =~= mid);
        }
        let mut i: usize = 0;
        while i < no
            invariant
                0 <= i <= no,
                no == os.len(),
                es == self.world.entities@,
                os == self.world.obstacles@,
                ls == self.world.lights@,
                mid == header + encode_entities(es, es.len() as int) + seq![no as i64],
                v@ == mid + encode_obstacles(os, i as int),
            decreases no - i,
        {
            push_obstacle(&mut v, &self.world.obstacles[i]);
            i = i + 1;
        }
        let nl = self.world.lights.len();
        v.push(nl as i64);
        let ghost mid2 = mid + encode_obstacles(os, os.len() as int) + seq![nl as i64];
        proof {
            assert(v@ =~= mid2);
        }
        let mut i: usize = 0;
        while i < nl
            invariant
                0 <= i <= nl,
                nl == ls.len(),
                es == self.world.entities@,
                os == self.world.obstacles@,
                ls == self.world.lights@,
                mid2 == header + encode_entities(es, es.len() as int) + seq![
                    os.len() as i64,
                ] + encode_obstacles(os, os.len() as int) + seq![nl as i64],
                v@ == mid2 + encode_lights(ls, i as int),
            decreases nl - i,
        {
            push_light(&mut v, &self.world.lights[i]);
            i = i + 1;
        }
        proof {
            assert(v@ =~= encode_world(self.world));
            lemma_encode_world_values(self.world);
        }
        // render the numbers as space-separated decimals
        let mut out = String::new();
        let n = v.len();
        let mut i: usize = 0;
        while i < n
            invariant
                0 <= i <= n,
                n == v@.len(),
                v@ == encode_world(self.world),
                forall|k: int| 0 <= k < v@.len() ==> (#[trigger] v@[k]) > i64::MIN,
                out@ == render_seq(v@.take(i as int)),
            decreases n - i,
        {
            if i > 0 {
                push_char(&mut out, ' ');
            }
            render_i64_into(v[i], &mut out);
            proof {
                let t = v@.take(i as int + 1);
                assert(t.drop_last() =~= v@.take(i as int));
                assert(t.last() == v@[i as int]);
                if i == 0 {
                    assert(out@ =~= render_seq(t));
                } else {
                    assert(out@ =~= render_seq(t.drop_last()) + seq![' '] + render_i64(
                        t.last() as int,
                    ));
                }
            }
            i = i + 1;
        }
        proof {
            assert(v@.take(n as int) =~= v@);
        }
        Result::Ok(out)
    }

    /// Deserialize the state text, replacing the world wholesale; the
    /// identity counter and the elapsed time are kept.  Fails with a
    /// format error exactly when the text is not a decimal sequence
    /// (`BadNumber`) or the numbers do not frame a valid world
    /// (`BadStructure`); on failure the prior state is left unchanged.
    pub fn deserialize_state(&mut self, state_text: &str) -> (r: Result<(), FormatError>)
        ensures
            final(self).next_entity_id == old(self).next_entity_id,
            final(self).time == old(self).time,
            (r is Ok) <==> (parse_seq(state_text@) is Some && decodable(
                parse_seq(state_text@)->Some_0,
            )),
            r is Err ==> *final(self) == *old(self),
            r is Err ==> ((r->Err_0 == FormatError::BadNumber) <==> parse_seq(state_text@) is None),
            r is Ok ==> ({
                let v = parse_seq(state_text@)->Some_0;
                let ob_base = 4 + 19 * (v[3] as int);
                let l_base = ob_base + 1 + 7 * (v[ob_base] as int);
                &&& world_wf(final(self).world)
                &&& ids_unique(final(self).world.entities@)
                &&& final(self).world.width == v[0]
                &&& final(self).world.height == v[1]
                &&& final(self).world.ambient_light == v[2]
                &&& final(self).world.entities@.len() == v[3]
                &&& (forall|j: int|
                    0 <= j < final(self).world.entities@.len()
                        ==> #[trigger] final(self).world.entities@[j] == entity_of_chunk(
                        v.subrange(4 + 19 * j, 4 + 19 * j + 19),
                    ))
                &&& final(self).world.obstacles@.len() == v[ob_base]
                &&& (forall|j: int|
                    0 <= j < final(self).world.obstacles@.len()
                        ==> #[trigger] final(self).world.obstacles@[j] == obstacle_of_chunk(
                        v.subrange(ob_base + 1 + 7 * j, ob_base + 1 + 7 * j + 7),
                    ))
                &&& final(self).world.lights@.len() == v[l_base]
                &&& (forall|j: int|
                    0 <= j < final(self).world.lights@.len()
                        ==> #[trigger] final(self).world.lights@[j] == light_of_chunk(
                        v.subrange(l_base + 1 + 5 * j, l_base + 1 + 5 * j + 5),
                    ))
            }),
    {
        let parsed = parse_numbers(state_text);
        match parsed {
            Option::None => Result::Err(FormatError::BadNumber),
            Option::Some(v) => {
                match decode_world_vec(&v) {
                    Option::None => Result::Err(FormatError::BadStructure),
                    Option::Some(w) => {
                        self.world = w;
                        Result::Ok(())
                    },
                }
            },
        }
    }
}

/// Where each piece of a world stands in its encoding.
pub proof fn lemma_encode_world_frame(w: World)
    requires
        w.entities@.len() <= 100_000_000,
        w.obstacles@.len() <= 100_000_000,
        w.lights@.len() <= 100_000_000,
    ensures
        ({
            let v = encode_world(w);
            let ne = w.entities@.len() as int;
            let no = w.obstacles@.len() as int;
            let nl = w.lights@.len() as int;
            let ob_base = 4 + 19 * ne;
            let l_base = ob_base + 1 + 7 * no;
            &&& v.len() == l_base + 1 + 5 * nl
            &&& v[0] == w.width
            &&& v[1] == w.height
            &&& v[2] == w.ambient_light
            &&& v[3] as int == ne
            &&& v[ob_base] as int == no
            &&& v[l_base] as int == nl
            &&& (forall|j: int|
                0 <= j < ne ==> #[trigger] v.subrange(4 + 19 * j, 4 + 19 * j + 19)
                    =~= encode_entity(w.entities@[j]))
            &&& (forall|j: int|
                0 <= j < no ==> #[trigger] v.subrange(ob_base + 1 + 7 * j, ob_base + 1 + 7 * j + 7)
                    =~= encode_obstacle(w.obstacles@[j]))
            &&& (forall|j: int|
                0 <= j < nl ==> #[trigger] v.subrange(l_base + 1 + 5 * j, l_base + 1 + 5 * j + 5)
                    =~= encode_light(w.lights@[j]))
        }),
{
    let v = encode_world(w);
    let ne = w.entities@.len() as int;
    let no = w.obstacles@.len() as int;
    let nl = w.lights@.len() as int;
    let ob_base = 4 + 19 * ne;
    let l_base = ob_base + 1 + 7 * no;
    lemma_encode_entities_index(w.entities@, ne);
    lemma_encode_obstacles_index(w.obstacles@, no);
    lemma_encode_lights_index(w.lights@, nl);
    assert forall|j: int| 0 <= j < ne implies #[trigger] v.subrange(4 + 19 * j, 4 + 19 * j + 19)
        =~= encode_entity(w.entities@[j]) by {
        assert(forall|t: int|
            0 <= t < 19 ==> #[trigger] v.subrange(4 + 19 * j, 4 + 19 * j + 19)[t] == v[4 + 19 * j + t]);
        assert(forall|t: int|
            0 <= t < 19 ==> #[trigger] v[4 + 19 * j + t] == encode_entities(w.entities@, ne)[19 * j
                + t]);
    }
    assert forall|j: int| 0 <= j < no implies #[trigger] v.subrange(
        ob_base + 1 + 7 * j,
        ob_base + 1 + 7 * j + 7,
    ) =~= encode_obstacle(w.obstacles@[j]) by {
        assert(forall|t: int|
            0 <= t < 7 ==> #[trigger] v.subrange(ob_base + 1 + 7 * j, ob_base + 1 + 7 * j + 7)[t] == v[ob_base
                + 1 + 7 * j + t]);
        assert(forall|t: int|
            0 <= t < 7 ==> #[trigger] v[ob_base + 1 + 7 * j + t] == encode_obstacles(
                w.obstacles@,
                no,
            )[7 * j + t]);
    }
    assert forall|j: int| 0 <= j < nl implies #[trigger] v.subrange(
        l_base + 1 + 5 * j,
        l_base + 1 + 5 * j + 5,
    ) =~= encode_light(w.lights@[j]) by {
        assert(forall|t: int|
            0 <= t < 5 ==> #[trigger] v.subrange(l_base + 1 + 5 * j, l_base + 1 + 5 * j + 5)[t] == v[l_base + 1
                + 5 * j + t]);
        assert(forall|t: int|
            0 <= t < 5 ==> #[trigger] v[l_base + 1 + 5 * j + t] == encode_lights(w.lights@, nl)[5
                * j + t]);
    }
}

/// Round-trip, first half: the serialized text of a well-formed world
/// with distinct identities parses back to exactly its encoding, and
/// that encoding is accepted by the decoder.
#[verifier::rlimit(60)]
pub proof fn lemma_round_trip(w: World)
    requires
        world_wf(w),
        ids_unique(w.entities@),
        w.entities@.len() <= 100_000_000,
        w.obstacles@.len() <= 100_000_000,
        w.lights@.len() <= 100_000_000,
    ensures
        parse_seq(render_seq(encode_world(w))) == Option::Some(encode_world(w)),
        decodable(encode_world(w)),
{
    lemma_encode_world_values(w);
    lemma_parse_render(encode_world(w));
    lemma_encode_world_frame(w);
    let v = encode_world(w);
    let ne = w.entities@.len() as int;
    let no = w.obstacles@.len() as int;
    let ob_base = 4 + 19 * ne;
    let l_base = ob_base + 1 + 7 * no;
    assert forall|j: int| 0 <= j < ne implies entity_chunk_valid(
        #[trigger] v.subrange(4 + 19 * j, 4 + 19 * j + 19),
    ) by {
        lemma_entity_roundtrip(w.entities@[j]);
    }
    assert forall|j1: int, j2: int| 0 <= j1 < j2 < ne implies (#[trigger] v[4 + 19 * j1]) != (
    #[trigger] v[4 + 19 * j2]) by {
        assert(v.subrange(4 + 19 * j1, 4 + 19 * j1 + 19)[0] == v[4 + 19 * j1]);
        assert(v.subrange(4 + 19 * j2, 4 + 19 * j2 + 19)[0] == v[4 + 19 * j2]);
        assert(v[4 + 19 * j1] == w.entities@[j1].id as i64);
        assert(v[4 + 19 * j2] == w.entities@[j2].id as i64);
        assert(w.entities@[j1].id != w.entities@[j2].id);
    }
    assert forall|j: int| 0 <= j < no implies obstacle_chunk_valid(
        #[trigger] v.subrange(ob_base + 1 + 7 * j, ob_base + 1 + 7 * j + 7),
    ) by {
        lemma_obstacle_roundtrip(w.obstacles@[j]);
    }
    assert forall|j: int| 0 <= j < (v[l_base] as int) implies light_chunk_valid(
        #[trigger] v.subrange(l_base + 1 + 5 * j, l_base + 1 + 5 * j + 5),
    ) by {
        lemma_light_roundtrip(w.lights@[j]);
    }
}

/// Round-trip, second half: a world that reports what the decoder found
/// in the encoding of `w` has exactly the contents of `w`.  Together
/// with the contracts of `serialize_state` and `deserialize_state` this
/// says: deserializing a serialized state restores the same world.
pub proof fn lemma_state_round_trip(w: World, w2: World)
    requires
        world_wf(w),
        ids_unique(w.entities@),
        w.entities@.len() <= 100_000_000,
        w.obstacles@.len() <= 100_000_000,
        w.lights@.len() <= 100_000_000,
        ({
            let v = encode_world(w);
            let ob_base = 4 + 19 * (v[3] as int);
            let l_base = ob_base + 1 + 7 * (v[ob_base] as int);
            &&& w2.width == v[0]
            &&& w2.height == v[1]
            &&& w2.ambient_light == v[2]
            &&& w2.entities@.len() == v[3]
            &&& (forall|j: int|
                0 <= j < w2.entities@.len() ==> #[trigger] w2.entities@[j] == entity_of_chunk(
                    v.subrange(4 + 19 * j, 4 + 19 * j + 19),
                ))
            &&& w2.obstacles@.len() == v[ob_base]
            &&& (forall|j: int|
                0 <= j < w2.obstacles@.len() ==> #[trigger] w2.obstacles@[j] == obstacle_of_chunk(
                    v.subrange(ob_base + 1 + 7 * j, ob_base + 1 + 7 * j + 7),
                ))
            &&& w2.lights@.len() == v[l_base]
            &&& (forall|j: int|
                0 <= j < w2.lights@.len() ==> #[trigger] w2.lights@[j] == light_of_chunk(
                    v.subrange(l_base + 1 + 5 * j, l_base + 1 + 5 * j + 5),
                ))
        }),
    ensures
        w2.entities@ == w.entities@,
        w2.obstacles@ == w.obstacles@,
        w2.lights@ == w.lights@,
        w2.width == w.width,
        w2.height == w.height,
        w2.ambient_light == w.ambient_light,
{
    lemma_encode_world_frame(w);
    let v = encode_world(w);
    let ne = w.entities@.len() as int;
    let no = w.obstacles@.len() as int;
    let ob_base = 4 + 19 * ne;
    let l_base = ob_base + 1 + 7 * no;
    assert forall|j: int| 0 <= j < ne implies #[trigger] w2.entities@[j] == w.entities@[j] by {
        lemma_entity_roundtrip(w.entities@[j]);
        assert(v.subrange(4 + 19 * j, 4 + 19 * j + 19) == encode_entity(w.entities@[j]));
    }
    assert(w2.entities@ =~= w.entities@);
    assert forall|j: int| 0 <= j < no implies #[trigger] w2.obstacles@[j] == w.obstacles@[j] by {
        lemma_obstacle_roundtrip(w.obstacles@[j]);
        assert(v.subrange(ob_base + 1 + 7 * j, ob_base + 1 + 7 * j + 7) == encode_obstacle(
            w.obstacles@[j],
        ));
    }
    assert(w2.obstacles@ =~= w.obstacles@);
    assert forall|j: int| 0 <= j < w.lights@.len() implies #[trigger] w2.lights@[j]
        == w.lights@[j] by {
        lemma_light_roundtrip(w.lights@[j]);
        assert(v.subrange(l_base + 1 + 5 * j, l_base + 1 + 5 * j + 5) == encode_light(
            w.lights@[j],
        ));
    }
    assert(w2.lights@ =~= w.lights@);
}

} // verus!
