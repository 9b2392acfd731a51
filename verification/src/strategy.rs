//! How the entities that nobody controls take their turns.
use vstd::prelude::*;

use crate::actions::public::BumpAction;
use crate::actions::public::StepAction;
use crate::actions::public::StepCommand;
use crate::actions::public::WaitAction;
use crate::actions::public::WaitCommand;
use crate::actions::public::ent;
use crate::actions::public::valid;
use crate::entity::EntityId;
use crate::entity::EntityModel;
use crate::entity::EntityState;
use crate::entity::StateModel;
use crate::floor::Floor;
use crate::floor::FloorUpdate;
use crate::floor::current_round;
use crate::floor::current_turn;
use crate::floor::lemma_stationary_allowed;
use crate::positional::AbsolutePosition;
use crate::positional::RelativePosition;

verus! {

/// The known strategies.
#[derive(Clone, Copy, Debug, PartialEq, Eq, Structural, Default)]
pub enum Strategy {
    #[default]
    Null,
    Wander(WanderStrategy),
    StandAndFight(StandAndFightStrategy),
    Follow(FollowStrategy),
    Rushdown(RushdownStrategy),
}

/// Steps in a direction picked from the round number.
#[derive(Clone, Copy, Debug, PartialEq, Eq, Structural)]
pub struct WanderStrategy;

/// Waits in place.
#[derive(Clone, Copy, Debug, PartialEq, Eq, Structural)]
pub struct StandAndFightStrategy;

/// Stays near an ally and hits enemies next to it.
#[derive(Clone, Copy, Debug, PartialEq, Eq, Structural)]
pub struct FollowStrategy;

/// Goes for the nearest enemy.
#[derive(Clone, Copy, Debug, PartialEq, Eq, Structural)]
pub struct RushdownStrategy;

/// What a strategy does with its turn.
pub enum Plan {
    Step(RelativePosition),
    Bump(RelativePosition),
    Wait,
}

/// What a turn needs: a sound floor, a subject standing on its tile, and room in the
/// counters that a turn may raise (the round by up to three, the subject's energy by one,
/// anyone's health down by one).
pub open spec fn turn_limits(floor: Floor, id: EntityId) -> bool {
    &&& floor.wf()
    &&& valid(floor, id)
    &&& ent(floor, id).state.occupies()
    &&& current_round(floor.entities@) + 3 <= u32::MAX
    &&& ent(floor, id).energy < i8::MAX
    &&& forall|i: int| 0 <= i < floor.entities@.len() ==> (#[trigger] floor.entities@[i]).health > i8::MIN
}

/// Whether the step action accepts a step along `dir`.
pub open spec fn step_ok(floor: Floor, id: EntityId, dir: RelativePosition) -> bool {
    StepAction.spec_verify(floor, id, dir) is Ok
}

/// Whether the bump action accepts a bump along `dir`.
pub open spec fn bump_ok(floor: Floor, id: EntityId, dir: RelativePosition) -> bool {
    BumpAction.spec_verify(floor, id, dir) is Ok
}

/// The offset from `from` to `to`.
pub open spec fn offset(from: AbsolutePosition, to: AbsolutePosition) -> RelativePosition {
    RelativePosition { dx: (to.x - from.x) as i32, dy: (to.y - from.y) as i32 }
}

/// Whether `next`, with `log`, is what the plan does to `floor`.
pub open spec fn plan_result(plan: Plan, floor: Floor, id: EntityId, next: Floor, log: Seq<FloorEvent>) -> bool {
    match plan {
        Plan::Step(dir) => (StepCommand { dir, subject_id: id }).result(floor, next, log),
        Plan::Bump(dir) => BumpAction.spec_verify(floor, id, dir) matches Ok(c) && c.result(floor, next, log),
        Plan::Wait => (WaitCommand { subject_id: id }).result(floor, next, log),
    }
}

use crate::actions::events::FloorEvent;

/// Waits.
fn wait_turn(floor: &Floor, id: EntityId) -> (r: FloorUpdate)
    requires
        turn_limits(*floor, id),
    ensures
        plan_result(Plan::Wait, *floor, id, r.value(), r.entries()),
{
    let c = WaitCommand { subject_id: id };
    proof {
        lemma_stationary_allowed(*floor, seq![(id, c.waited(*floor))]);
    }
    c.do_action(floor)
}

/// Steps along `dir` where the step action accepts it.
fn try_step(floor: &Floor, id: EntityId, dir: RelativePosition) -> (r: Option<FloorUpdate>)
    requires
        turn_limits(*floor, id),
    ensures
        r is Some == step_ok(*floor, id, dir),
        r matches Some(u) ==> plan_result(Plan::Step(dir), *floor, id, u.value(), u.entries()),
{
    match StepAction.verify_action(floor, id, dir) {
        Ok(c) => Some(c.do_action(floor)),
        Err(_) => None,
    }
}

/// Bumps along `dir` where the bump action accepts it.
fn try_bump(floor: &Floor, id: EntityId, dir: RelativePosition) -> (r: Option<FloorUpdate>)
    requires
        turn_limits(*floor, id),
    ensures
        r is Some == bump_ok(*floor, id, dir),
        r matches Some(u) ==> plan_result(Plan::Bump(dir), *floor, id, u.value(), u.entries()),
{
    match BumpAction.verify_action(floor, id, dir) {
        Ok(c) => {
            proof {
                let s = floor.entities@;
                let o = c.object_index;
                assert(s[o.index()].health > i8::MIN);
                assert(current_turn(s) == Some(c.now));
                let u = c.updates(*floor);
                assert(u[0].0 == o && u[1].0 == id);
                lemma_stationary_allowed(*floor, u);
            }
            Some(c.do_action(floor))
        },
        Err(_) => None,
    }
}

impl Strategy {
    /// The plan of the strategy; where it goes by a path, `path_step` is the first step of
    /// the path that the floor's map found, if it found one.
    pub open spec fn plan(self, floor: Floor, id: EntityId, path_step: Option<AbsolutePosition>) -> Plan {
        match self {
            Strategy::Null => Plan::Wait,
            Strategy::Wander(_) => wander_plan(floor, id),
            Strategy::StandAndFight(_) => Plan::Wait,
            Strategy::Follow(_) => follow_plan(floor, id, path_step),
            Strategy::Rushdown(_) => rushdown_plan(floor, id, path_step),
        }
    }

    /// Where the strategy goes by a path, `path_step` is what the map's step search gives
    /// towards its goal.
    pub open spec fn path_search(self, floor: Floor, id: EntityId, path_step: Option<AbsolutePosition>) -> bool {
        match self {
            Strategy::Follow(_) => follow_search(floor, id, path_step),
            Strategy::Rushdown(_) => rushdown_search(floor, id, path_step),
            _ => true,
        }
    }

    /// Takes the subject's turn by the strategy.
    pub fn take_turn(&self, original: &Floor, subject_id: EntityId) -> (r: FloorUpdate)
        requires
            turn_limits(*original, subject_id),
        ensures
            exists|path_step: Option<AbsolutePosition>|
                self.path_search(*original, subject_id, path_step) && #[trigger] plan_result(
                    self.plan(*original, subject_id, path_step),
                    *original,
                    subject_id,
                    r.value(),
                    r.entries(),
                ),
    {
        match self {
            Strategy::Null => {
                let r = wait_turn(original, subject_id);
                assert(plan_result(self.plan(*original, subject_id, None), *original, subject_id, r.value(), r.entries()));
                r
            },
            Strategy::Wander(x) => {
                let r = x.take_turn(original, subject_id);
                assert(plan_result(self.plan(*original, subject_id, None), *original, subject_id, r.value(), r.entries()));
                r
            },
            Strategy::StandAndFight(x) => {
                let r = x.take_turn(original, subject_id);
                assert(plan_result(self.plan(*original, subject_id, None), *original, subject_id, r.value(), r.entries()));
                r
            },
            Strategy::Follow(x) => {
                let r = x.take_turn(original, subject_id);
                proof {
                    let ps = choose|ps: Option<AbsolutePosition>|
                        follow_search(*original, subject_id, ps) && #[trigger] plan_result(
                            follow_plan(*original, subject_id, ps),
                            *original,
                            subject_id,
                            r.value(),
                            r.entries(),
                        );
                    assert(plan_result(self.plan(*original, subject_id, ps), *original, subject_id, r.value(), r.entries()));
                }
                r
            },
            Strategy::Rushdown(x) => {
                let r = x.take_turn(original, subject_id);
                proof {
                    let ps = choose|ps: Option<AbsolutePosition>|
                        rushdown_search(*original, subject_id, ps) && #[trigger] plan_result(
                            rushdown_plan(*original, subject_id, ps),
                            *original,
                            subject_id,
                            r.value(),
                            r.entries(),
                        );
                    assert(plan_result(self.plan(*original, subject_id, ps), *original, subject_id, r.value(), r.entries()));
                }
                r
            },
        }
    }
}

// ---------------------------------------------------------------- wander

/// The direction a wanderer tries in `round`: each axis in `-1..=1`, picked by scrambling
/// the round.
pub open spec fn wander_dir(round: u32) -> RelativePosition {
    RelativePosition {
        dx: (((round ^ 0xfedcbau32) % 3) as int - 1) as i32,
        dy: (((round ^ 0xabcdefu32) % 3) as int - 1) as i32,
    }
}

/// The wanderer's direction in round `round` is `((round ^ 0xfedcba) % 3 - 1, (round ^
/// 0xabcdef) % 3 - 1)`: a king move or none, and over the first sixteen rounds it tries each
/// of the nine.
pub proof fn law_wander_direction()
    ensures
        forall|round: u32|
            (#[trigger] wander_dir(round)).dx == ((round ^ 0xfedcbau32) % 3) - 1 && wander_dir(round).dy == ((round
                ^ 0xabcdefu32) % 3) - 1,
        forall|round: u32| -1 <= (#[trigger] wander_dir(round)).dx <= 1 && -1 <= wander_dir(round).dy <= 1,
        forall|d: RelativePosition|
            #![trigger d.dx, d.dy]
            -1 <= d.dx <= 1 && -1 <= d.dy <= 1 ==> exists|round: u32| round < 16 && #[trigger] wander_dir(round) == d,
{
    assert((0u32 ^ 0xfedcbau32) % 3 == 0 && (0u32 ^ 0xabcdefu32) % 3 == 0) by (bit_vector);
    assert((11u32 ^ 0xfedcbau32) % 3 == 0 && (11u32 ^ 0xabcdefu32) % 3 == 1) by (bit_vector);
    assert((7u32 ^ 0xfedcbau32) % 3 == 0 && (7u32 ^ 0xabcdefu32) % 3 == 2) by (bit_vector);
    assert((15u32 ^ 0xfedcbau32) % 3 == 1 && (15u32 ^ 0xabcdefu32) % 3 == 0) by (bit_vector);
    assert((2u32 ^ 0xfedcbau32) % 3 == 1 && (2u32 ^ 0xabcdefu32) % 3 == 1) by (bit_vector);
    assert((1u32 ^ 0xfedcbau32) % 3 == 1 && (1u32 ^ 0xabcdefu32) % 3 == 2) by (bit_vector);
    assert((3u32 ^ 0xfedcbau32) % 3 == 2 && (3u32 ^ 0xabcdefu32) % 3 == 0) by (bit_vector);
    assert((5u32 ^ 0xfedcbau32) % 3 == 2 && (5u32 ^ 0xabcdefu32) % 3 == 1) by (bit_vector);
    assert((10u32 ^ 0xfedcbau32) % 3 == 2 && (10u32 ^ 0xabcdefu32) % 3 == 2) by (bit_vector);
    assert forall|d: RelativePosition|
        #![trigger d.dx, d.dy]
        -1 <= d.dx <= 1 && -1 <= d.dy <= 1 implies exists|round: u32|
        round < 16 && #[trigger] wander_dir(round) == d by {
        let dx = d.dx;
        let dy = d.dy;
        let r: u32 = if dx == -1 {
            if dy == -1 { 0 } else if dy == 0 { 11 } else { 7 }
        } else if dx == 0 {
            if dy == -1 { 15 } else if dy == 0 { 2 } else { 1 }
        } else {
            if dy == -1 { 3 } else if dy == 0 { 5 } else { 10 }
        };
        assert(wander_dir(r) == d);
    }
}

/// A wanderer steps the way the round picks, or waits where it cannot.
pub open spec fn wander_plan(floor: Floor, id: EntityId) -> Plan {
    let dir = wander_dir(current_round(floor.entities@));
    if step_ok(floor, id, dir) {
        Plan::Step(dir)
    } else {
        Plan::Wait
    }
}

impl WanderStrategy {
    pub fn take_turn(&self, original: &Floor, subject_id: EntityId) -> (r: FloorUpdate)
        requires
            turn_limits(*original, subject_id),
        ensures
            plan_result(wander_plan(*original, subject_id), *original, subject_id, r.value(), r.entries()),
    {
        let round = original.get_current_round();
        let dx: i32 = ((round ^ 0xfedcba) % 3) as i32 - 1;
        let dy: i32 = ((round ^ 0xabcdef) % 3) as i32 - 1;
        let dir = RelativePosition::new(dx, dy);
        if let Some(u) = try_step(original, subject_id, dir) {
            return u;
        }
        wait_turn(original, subject_id)
    }
}

impl StandAndFightStrategy {
    pub fn take_turn(&self, original: &Floor, subject_id: EntityId) -> (r: FloorUpdate)
        requires
            turn_limits(*original, subject_id),
        ensures
            plan_result(Plan::Wait, *original, subject_id, r.value(), r.entries()),
    {
        wait_turn(original, subject_id)
    }
}

// ---------------------------------------------------------------- follow

/// Whether entity `i` is an ally of entity `id` within six tiles.
pub open spec fn ally_near(ents: Seq<EntityModel>, id: EntityId, i: int) -> bool {
    &&& i != id.index()
    &&& ents[i].pos.spec_distance(ents[id.index()].pos) <= 6
    &&& ents[i].is_player_friendly == ents[id.index()].is_player_friendly
}

/// Whether entity `i` is an enemy of entity `id` one tile away.
pub open spec fn enemy_adjacent(ents: Seq<EntityModel>, id: EntityId, i: int) -> bool {
    &&& i != id.index()
    &&& ents[i].pos.spec_distance(ents[id.index()].pos) == 1
    &&& ents[i].is_player_friendly != ents[id.index()].is_player_friendly
}

/// The first ally within six tiles, from index `from` on.
pub open spec fn first_ally(ents: Seq<EntityModel>, id: EntityId, from: int) -> Option<int>
    decreases ents.len() - from,
{
    if from < 0 || from >= ents.len() {
        None
    } else if ally_near(ents, id, from) {
        Some(from)
    } else {
        first_ally(ents, id, from + 1)
    }
}

/// The first enemy one tile away, from index `from` on.
pub open spec fn first_enemy(ents: Seq<EntityModel>, id: EntityId, from: int) -> Option<int>
    decreases ents.len() - from,
{
    if from < 0 || from >= ents.len() {
        None
    } else if enemy_adjacent(ents, id, from) {
        Some(from)
    } else {
        first_enemy(ents, id, from + 1)
    }
}

/// The first ally found is an ally, at or after `from`.
pub proof fn lemma_first_ally(ents: Seq<EntityModel>, id: EntityId, from: int)
    ensures
        first_ally(ents, id, from) matches Some(i) ==> from <= i < ents.len() && ally_near(ents, id, i),
    decreases ents.len() - from,
{
    if 0 <= from < ents.len() && !ally_near(ents, id, from) {
        lemma_first_ally(ents, id, from + 1);
    }
}

/// The ally a follower stays near is the first entity of the subject's own side within six
/// tiles, other than the subject; there is one whenever such an entity exists.
pub proof fn law_follow_ally_same_side(ents: Seq<EntityModel>, id: EntityId)
    ensures
        (exists|j: int|
            0 <= j < ents.len() && j != id.index() && ents[j].pos.spec_distance(ents[id.index()].pos) <= 6
                && #[trigger] ents[j].is_player_friendly == ents[id.index()].is_player_friendly)
            <==> first_ally(ents, id, 0) is Some,
        first_ally(ents, id, 0) matches Some(a) ==> {
            &&& 0 <= a < ents.len()
            &&& a != id.index()
            &&& ents[a].is_player_friendly == ents[id.index()].is_player_friendly
            &&& ents[a].pos.spec_distance(ents[id.index()].pos) <= 6
            &&& forall|j: int|
                0 <= j < a && j != id.index() && ents[j].pos.spec_distance(ents[id.index()].pos) <= 6 ==> #[trigger] ents[j].is_player_friendly
                    != ents[id.index()].is_player_friendly
        },
{
    lemma_first_ally_from(ents, id, 0);
}

proof fn lemma_first_ally_from(ents: Seq<EntityModel>, id: EntityId, from: int)
    requires
        0 <= from,
    ensures
        (exists|j: int|
            from <= j < ents.len() && j != id.index() && ents[j].pos.spec_distance(ents[id.index()].pos) <= 6
                && #[trigger] ents[j].is_player_friendly == ents[id.index()].is_player_friendly)
            <==> first_ally(ents, id, from) is Some,
        first_ally(ents, id, from) matches Some(a) ==> {
            &&& from <= a < ents.len()
            &&& a != id.index()
            &&& ents[a].is_player_friendly == ents[id.index()].is_player_friendly
            &&& ents[a].pos.spec_distance(ents[id.index()].pos) <= 6
            &&& forall|j: int|
                from <= j < a && j != id.index() && ents[j].pos.spec_distance(ents[id.index()].pos) <= 6 ==> #[trigger] ents[j].is_player_friendly
                    != ents[id.index()].is_player_friendly
        },
    decreases ents.len() - from,
{
    if from < ents.len() {
        lemma_first_ally_from(ents, id, from + 1);
        if from != id.index() && ents[from].pos.spec_distance(ents[id.index()].pos) <= 6
            && ents[from].is_player_friendly == ents[id.index()].is_player_friendly {
            assert(ally_near(ents, id, from));
        }
    }
}

/// The first enemy found is an enemy one tile away, at or after `from`.
pub proof fn lemma_first_enemy(ents: Seq<EntityModel>, id: EntityId, from: int)
    ensures
        first_enemy(ents, id, from) matches Some(i) ==> from <= i < ents.len() && enemy_adjacent(ents, id, i),
    decreases ents.len() - from,
{
    if 0 <= from < ents.len() && !enemy_adjacent(ents, id, from) {
        lemma_first_enemy(ents, id, from + 1);
    }
}

/// The eight directions, in the order a follower tries them to get off an ally.
pub open spec fn neighbor_dir(k: int) -> RelativePosition {
    if k == 0 {
        RelativePosition { dx: 1, dy: 0 }
    } else if k == 1 {
        RelativePosition { dx: 0, dy: 1 }
    } else if k == 2 {
        RelativePosition { dx: -1i32, dy: 0 }
    } else if k == 3 {
        RelativePosition { dx: 0, dy: -1i32 }
    } else if k == 4 {
        RelativePosition { dx: 1, dy: 1 }
    } else if k == 5 {
        RelativePosition { dx: 1, dy: -1i32 }
    } else if k == 6 {
        RelativePosition { dx: -1i32, dy: 1 }
    } else {
        RelativePosition { dx: -1i32, dy: -1i32 }
    }
}

/// The first of the eight directions, from the `k`th on, that the step action accepts.
pub open spec fn first_free_dir(floor: Floor, id: EntityId, k: int) -> Option<RelativePosition>
    decreases 8 - k,
{
    if k < 0 || k >= 8 {
        None
    } else if step_ok(floor, id, neighbor_dir(k)) {
        Some(neighbor_dir(k))
    } else {
        first_free_dir(floor, id, k + 1)
    }
}

/// The direction found is one the step action accepts.
pub proof fn lemma_first_free_dir(floor: Floor, id: EntityId, k: int)
    ensures
        first_free_dir(floor, id, k) matches Some(dir) ==> step_ok(floor, id, dir),
    decreases 8 - k,
{
    if 0 <= k < 8 && !step_ok(floor, id, neighbor_dir(k)) {
        lemma_first_free_dir(floor, id, k + 1);
    }
}

/// A step to `path_step`, where there is one and the step action accepts it.
pub open spec fn path_plan(floor: Floor, id: EntityId, path_step: Option<AbsolutePosition>) -> Option<Plan> {
    match path_step {
        Some(t) => if step_ok(floor, id, offset(ent(floor, id).pos, t)) {
            Some(Plan::Step(offset(ent(floor, id).pos, t)))
        } else {
            None
        },
        None => None,
    }
}

/// What a follower does about an enemy next to it: back off from one knocked down, else
/// bump it, where the action is accepted.
pub open spec fn engage_plan(floor: Floor, id: EntityId) -> Option<Plan> {
    let ents = floor.entities@;
    let pos = ents[id.index()].pos;
    match first_enemy(ents, id, 0) {
        Some(k) => if ents[k].state is Knockdown {
            let away = offset(ents[k].pos, pos);
            if step_ok(floor, id, away) {
                Some(Plan::Step(away))
            } else {
                None
            }
        } else if bump_ok(floor, id, offset(pos, ents[k].pos)) {
            Some(Plan::Bump(offset(pos, ents[k].pos)))
        } else {
            None
        },
        None => None,
    }
}

/// What the follower's step search gives towards its first ally, where it searches: more
/// than two tiles from it.
pub open spec fn follow_search(floor: Floor, id: EntityId, path_step: Option<AbsolutePosition>) -> bool {
    let ents = floor.entities@;
    let pos = ents[id.index()].pos;
    match first_ally(ents, id, 0) {
        Some(a) => pos.spec_distance(ents[a].pos) > 2 ==> floor.map.step_search(pos, ents[a].pos, path_step),
        None => true,
    }
}

/// A follower: off an ally it stands on; towards an ally more than four tiles away; at an
/// enemy next to it; towards an ally more than two tiles away; else it waits.
pub open spec fn follow_plan(floor: Floor, id: EntityId, path_step: Option<AbsolutePosition>) -> Plan {
    let ents = floor.entities@;
    let pos = ents[id.index()].pos;
    let ally = first_ally(ents, id, 0);
    let d = match ally {
        Some(a) => pos.spec_distance(ents[a].pos),
        None => 0,
    };
    if ally is Some && d == 0 && first_free_dir(floor, id, 0) is Some {
        Plan::Step(first_free_dir(floor, id, 0)->0)
    } else if ally is Some && d > 4 && path_plan(floor, id, path_step) is Some {
        path_plan(floor, id, path_step)->0
    } else if engage_plan(floor, id) is Some {
        engage_plan(floor, id)->0
    } else if ally is Some && d > 2 && path_plan(floor, id, path_step) is Some {
        path_plan(floor, id, path_step)->0
    } else {
        Plan::Wait
    }
}

/// The index of the first entity that `pick` picks, from `from` on.
fn find_first(floor: &Floor, id: EntityId, ally: bool) -> (r: Option<usize>)
    requires
        floor.wf(),
        valid(*floor, id),
    ensures
        ally ==> r == (match first_ally(floor.entities@, id, 0) {
            Some(i) => Some(i as usize),
            None => None::<usize>,
        }),
        !ally ==> r == (match first_enemy(floor.entities@, id, 0) {
            Some(i) => Some(i as usize),
            None => None::<usize>,
        }),
{
    let ghost ents = floor.entities@;
    proof {
        lemma_first_ally(ents, id, 0);
        lemma_first_enemy(ents, id, 0);
    }
    let n = floor.entities.len();
    let pos = floor.entities.get(id).pos;
    let friendly = floor.entities.get(id).is_player_friendly;
    let mut i: usize = 0;
    while i < n
        invariant
            ents == floor.entities@,
            n == ents.len(),
            i <= n,
            valid(*floor, id),
            pos == ents[id.index()].pos,
            friendly == ents[id.index()].is_player_friendly,
            ally ==> first_ally(ents, id, 0) == first_ally(ents, id, i as int),
            !ally ==> first_enemy(ents, id, 0) == first_enemy(ents, id, i as int),
        decreases n - i,
    {
        let e = floor.entities.get(EntityId(i));
        let d = e.pos.distance(pos);
        let hit = if ally {
            i != id.0 && d <= 6 && e.is_player_friendly == friendly
        } else {
            i != id.0 && d == 1 && e.is_player_friendly != friendly
        };
        if hit {
            return Some(i);
        }
        i = i + 1;
    }
    None
}

/// The first of the eight directions that the step action accepts.
fn find_free_dir(floor: &Floor, id: EntityId) -> (r: Option<RelativePosition>)
    requires
        floor.wf(),
    ensures
        r == first_free_dir(*floor, id, 0),
{
    let mut k: u32 = 0;
    while k < 8
        invariant
            k <= 8,
            floor.wf(),
            first_free_dir(*floor, id, 0) == first_free_dir(*floor, id, k as int),
        decreases 8 - k,
    {
        let dir = if k == 0 {
            RelativePosition::new(1, 0)
        } else if k == 1 {
            RelativePosition::new(0, 1)
        } else if k == 2 {
            RelativePosition::new(-1, 0)
        } else if k == 3 {
            RelativePosition::new(0, -1)
        } else if k == 4 {
            RelativePosition::new(1, 1)
        } else if k == 5 {
            RelativePosition::new(1, -1)
        } else if k == 6 {
            RelativePosition::new(-1, 1)
        } else {
            RelativePosition::new(-1, -1)
        };
        assert(dir == neighbor_dir(k as int));
        if StepAction.verify_action(floor, id, dir).is_ok() {
            return Some(dir);
        }
        k = k + 1;
    }
    None
}

/// Steps to `path_step`, where there is one and the step action accepts it.
fn try_path(floor: &Floor, id: EntityId, path_step: Option<AbsolutePosition>) -> (r: Option<FloorUpdate>)
    requires
        turn_limits(*floor, id),
        path_step matches Some(t) ==> ent(*floor, id).pos.spec_distance(t) <= 1,
    ensures
        r is Some == path_plan(*floor, id, path_step) is Some,
        r matches Some(u) ==> plan_result(path_plan(*floor, id, path_step)->0, *floor, id, u.value(), u.entries()),
{
    match path_step {
        Some(t) => {
            let pos = floor.entities.get(id).pos;
            let dir = t - pos;
            try_step(floor, id, dir)
        },
        None => None,
    }
}

impl FollowStrategy {
    pub fn take_turn(&self, original: &Floor, subject_id: EntityId) -> (r: FloorUpdate)
        requires
            turn_limits(*original, subject_id),
        ensures
            exists|path_step: Option<AbsolutePosition>|
                follow_search(*original, subject_id, path_step) && #[trigger] plan_result(
                    follow_plan(*original, subject_id, path_step),
                    *original,
                    subject_id,
                    r.value(),
                    r.entries(),
                ),
    {
        let ghost ents = original.entities@;
        proof {
            lemma_first_ally(ents, subject_id, 0);
            lemma_first_enemy(ents, subject_id, 0);
            lemma_first_free_dir(*original, subject_id, 0);
        }
        let pos = original.entities.get(subject_id).pos;
        let ally = find_first(original, subject_id, true);
        let mut d: u32 = 0;
        let mut path_step: Option<AbsolutePosition> = None;
        if let Some(a) = ally {
            let ally_pos = original.entities.get(EntityId(a)).pos;
            d = pos.distance(ally_pos);
            if d == 0 {
                if let Some(dir) = find_free_dir(original, subject_id) {
                    let u = try_step(original, subject_id, dir);
                    if let Some(u) = u {
                        assert(follow_search(*original, subject_id, None));
                        assert(plan_result(follow_plan(*original, subject_id, None), *original, subject_id, u.value(), u.entries()));
                        return u;
                    }
                }
            }
            if d > 2 {
                path_step = original.map.get_step(pos, ally_pos);
            }
        }
        let ghost ps = path_step;
        assert(follow_search(*original, subject_id, ps));
        if ally.is_some() && d > 4 {
            if let Some(u) = try_path(original, subject_id, path_step) {
                assert(plan_result(follow_plan(*original, subject_id, ps), *original, subject_id, u.value(), u.entries()));
                return u;
            }
        }
        if let Some(k) = find_first(original, subject_id, false) {
            let enemy = original.entities.get(EntityId(k));
            let engaged = match enemy.state {
                EntityState::Knockdown { .. } => try_step(original, subject_id, pos - enemy.pos),
                _ => try_bump(original, subject_id, enemy.pos - pos),
            };
            if let Some(u) = engaged {
                assert(plan_result(follow_plan(*original, subject_id, ps), *original, subject_id, u.value(), u.entries()));
                return u;
            }
        }
        if ally.is_some() && d > 2 {
            if let Some(u) = try_path(original, subject_id, path_step) {
                assert(plan_result(follow_plan(*original, subject_id, ps), *original, subject_id, u.value(), u.entries()));
                return u;
            }
        }
        let u = wait_turn(original, subject_id);
        assert(plan_result(follow_plan(*original, subject_id, ps), *original, subject_id, u.value(), u.entries()));
        u
    }
}

// ---------------------------------------------------------------- rushdown

/// Whether entity `i` is an enemy of entity `id`.
pub open spec fn enemy_of(ents: Seq<EntityModel>, id: EntityId, i: int) -> bool {
    i != id.index() && ents[i].is_player_friendly != ents[id.index()].is_player_friendly
}

/// The nearest enemy among the first `n` entities; ties go to the lower index.
pub open spec fn nearest_enemy(ents: Seq<EntityModel>, id: EntityId, n: int) -> Option<int>
    decreases n,
{
    if n <= 0 {
        None
    } else {
        let best = nearest_enemy(ents, id, n - 1);
        let pos = ents[id.index()].pos;
        if enemy_of(ents, id, n - 1) && (best is None || ents[n - 1].pos.spec_distance(pos) < ents[best->0].pos.spec_distance(pos)) {
            Some(n - 1)
        } else {
            best
        }
    }
}

/// The nearest enemy among the first `n` entities is one of them, and an enemy.
pub proof fn lemma_nearest_enemy(ents: Seq<EntityModel>, id: EntityId, n: int)
    ensures
        nearest_enemy(ents, id, n) matches Some(k) ==> 0 <= k < n && enemy_of(ents, id, k),
    decreases n,
{
    if n > 0 {
        lemma_nearest_enemy(ents, id, n - 1);
    }
}

/// The rusher's target is the nearest enemy: among the first `n` entities, it is one of the
/// other side (not the subject), no enemy is nearer to the subject, and there is a target
/// whenever there is an enemy.
pub proof fn law_rushdown_targets_nearest(ents: Seq<EntityModel>, id: EntityId, n: int)
    requires
        0 <= n <= ents.len(),
    ensures
        (exists|j: int|
            0 <= j < n && j != id.index() && #[trigger] ents[j].is_player_friendly != ents[id.index()].is_player_friendly)
            <==> nearest_enemy(ents, id, n) is Some,
        nearest_enemy(ents, id, n) matches Some(k) ==> {
            &&& 0 <= k < n
            &&& k != id.index()
            &&& ents[k].is_player_friendly != ents[id.index()].is_player_friendly
            &&& forall|j: int|
                0 <= j < n && j != id.index() && ents[j].is_player_friendly != ents[id.index()].is_player_friendly
                    ==> ents[k].pos.spec_distance(ents[id.index()].pos) <= #[trigger] ents[j].pos.spec_distance(
                    ents[id.index()].pos,
                )
        },
    decreases n,
{
    if n > 0 {
        law_rushdown_targets_nearest(ents, id, n - 1);
        let j = n - 1;
        if j != id.index() && ents[j].is_player_friendly != ents[id.index()].is_player_friendly {
            assert(enemy_of(ents, id, j));
        }
    }
}

/// What the rusher's step search gives towards the nearest enemy, where it searches: within
/// six tiles, and further than one.
pub open spec fn rushdown_search(floor: Floor, id: EntityId, path_step: Option<AbsolutePosition>) -> bool {
    let ents = floor.entities@;
    let pos = ents[id.index()].pos;
    match nearest_enemy(ents, id, ents.len() as int) {
        Some(k) => ents[k].pos.spec_distance(pos) <= 6 && pos.spec_distance(ents[k].pos) > 1
            ==> floor.map.step_search(pos, ents[k].pos, path_step),
        None => true,
    }
}

/// A rusher goes for the nearest enemy within six tiles: it steps towards one further than
/// a tile, bumps one closer, and else waits.
pub open spec fn rushdown_plan(floor: Floor, id: EntityId, path_step: Option<AbsolutePosition>) -> Plan {
    let ents = floor.entities@;
    let pos = ents[id.index()].pos;
    match nearest_enemy(ents, id, ents.len() as int) {
        Some(k) => if ents[k].pos.spec_distance(pos) > 6 {
            Plan::Wait
        } else if pos.spec_distance(ents[k].pos) > 1 {
            if path_plan(floor, id, path_step) is Some {
                path_plan(floor, id, path_step)->0
            } else {
                Plan::Wait
            }
        } else if bump_ok(floor, id, offset(pos, ents[k].pos)) {
            Plan::Bump(offset(pos, ents[k].pos))
        } else {
            Plan::Wait
        },
        None => Plan::Wait,
    }
}

impl RushdownStrategy {
    pub fn take_turn(&self, original: &Floor, subject_id: EntityId) -> (r: FloorUpdate)
        requires
            turn_limits(*original, subject_id),
        ensures
            exists|path_step: Option<AbsolutePosition>|
                rushdown_search(*original, subject_id, path_step) && #[trigger] plan_result(
                    rushdown_plan(*original, subject_id, path_step),
                    *original,
                    subject_id,
                    r.value(),
                    r.entries(),
                ),
    {
        let ghost ents = original.entities@;
        let n = original.entities.len();
        let pos = original.entities.get(subject_id).pos;
        let friendly = original.entities.get(subject_id).is_player_friendly;
        let mut best: Option<usize> = None;
        let mut best_d: u32 = 0;
        let mut i: usize = 0;
        while i < n
            invariant
                ents == original.entities@,
                n == ents.len(),
                i <= n,
                valid(*original, subject_id),
                pos == ents[subject_id.index()].pos,
                friendly == ents[subject_id.index()].is_player_friendly,
                best == (match nearest_enemy(ents, subject_id, i as int) {
                    Some(k) => Some(k as usize),
                    None => None::<usize>,
                }),
                best matches Some(b) ==> b < i && best_d == ents[b as int].pos.spec_distance(pos),
            decreases n - i,
        {
            proof {
                lemma_nearest_enemy(ents, subject_id, i as int);
                lemma_nearest_enemy(ents, subject_id, i as int + 1);
            }
            let e = original.entities.get(EntityId(i));
            let d = e.pos.distance(pos);
            if i != subject_id.0 && e.is_player_friendly != friendly && (best.is_none() || d < best_d) {
                best = Some(i);
                best_d = d;
            }
            i = i + 1;
        }
        let ghost none_step: Option<AbsolutePosition> = None;
        proof {
            lemma_nearest_enemy(ents, subject_id, n as int);
        }
        if let Some(k) = best {
            let other = original.entities.get(EntityId(k)).pos;
            if best_d <= 6 {
                if pos.distance(other) > 1 {
                    let path_step = original.map.get_step(pos, other);
                    if let Some(u) = try_path(original, subject_id, path_step) {
                        assert(rushdown_search(*original, subject_id, path_step));
                        assert(plan_result(rushdown_plan(*original, subject_id, path_step), *original, subject_id, u.value(), u.entries()));
                        return u;
                    }
                    let u = wait_turn(original, subject_id);
                    assert(rushdown_search(*original, subject_id, path_step));
                        assert(plan_result(rushdown_plan(*original, subject_id, path_step), *original, subject_id, u.value(), u.entries()));
                    return u;
                } else if let Some(u) = try_bump(original, subject_id, other - pos) {
                    assert(rushdown_search(*original, subject_id, none_step));
                    assert(plan_result(rushdown_plan(*original, subject_id, none_step), *original, subject_id, u.value(), u.entries()));
                    return u;
                }
            }
        }
        let u = wait_turn(original, subject_id);
        assert(rushdown_search(*original, subject_id, none_step));
                    assert(plan_result(rushdown_plan(*original, subject_id, none_step), *original, subject_id, u.value(), u.entries()));
        u
    }
}

} // verus!
