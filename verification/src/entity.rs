//! A bundle of data, usually in the context of a floor.
use std::rc::Rc;
use vstd::prelude::*;

use crate::actions::known::KnownInfallibleAction;
use crate::actions::known::KnownUnaimedAction;
use crate::positional::AbsolutePosition;
use crate::strategy::Strategy;

verus! {

/// An opaque index into an `EntitySet`.
#[derive(Clone, Copy, Debug, PartialEq, Eq, Structural, PartialOrd, Ord, Hash, Default)]
pub struct EntityId(pub usize);

impl EntityId {
    /// Where the entity stands in its set.
    pub open spec fn index(self) -> int {
        self.0 as int
    }
}

/// Logicless container of info.
#[derive(Debug)]
pub enum EntityState {
    Ready { next_round: u32 },
    /// On the entities next turn, run `queued_command` automatically.
    /// When the entity is hit, it becomes a counterhit.
    Committed { next_round: u32, queued_command: KnownInfallibleAction },
    /// On the entities next turn, the entity may choose to run this command.
    /// Does *NOT* grant counterhit status.
    ConfirmCommand { next_round: u32, to_confirm: KnownInfallibleAction },
    RestrictedActions {
        next_round: u32,
        // On the entities next turn, action must be chosen from a set.
        restricted_actions: Vec<KnownUnaimedAction>,
    },
    // Inactionable states below. Forces an automatic action handled automatically.
    /// On next turn, go into knockdown.
    /// If hit in this state, `next_round` gets extended.
    /// If there are no more extensions, go into knockdown immediately.
    Hitstun { next_round: u32, extensions: u32 },
    Knockdown { next_round: u32 },
    // Terminal states below.
    /// Incapacitated, but not dead.
    /// If any party member is downed, the mission is lost.
    Downed { round_downed: u32 },
    /// Exited the Floor. All party memebers need to all exit for the mission to continue.
    Exited { round_exited: u32 },
}

/// An `EntityState` as a value, with its list of actions as a sequence.
pub enum StateModel {
    Ready { next_round: u32 },
    Committed { next_round: u32, queued_command: KnownInfallibleAction },
    ConfirmCommand { next_round: u32, to_confirm: KnownInfallibleAction },
    RestrictedActions { next_round: u32, restricted_actions: Seq<KnownUnaimedAction> },
    Hitstun { next_round: u32, extensions: u32 },
    Knockdown { next_round: u32 },
    Downed { round_downed: u32 },
    Exited { round_exited: u32 },
}

impl View for EntityState {
    type V = StateModel;

    open spec fn view(&self) -> StateModel {
        match self {
            EntityState::Ready { next_round } => StateModel::Ready { next_round: *next_round },
            EntityState::Committed { next_round, queued_command } => StateModel::Committed {
                next_round: *next_round,
                queued_command: *queued_command,
            },
            EntityState::ConfirmCommand { next_round, to_confirm } => StateModel::ConfirmCommand {
                next_round: *next_round,
                to_confirm: *to_confirm,
            },
            EntityState::RestrictedActions { next_round, restricted_actions } =>
                StateModel::RestrictedActions {
                    next_round: *next_round,
                    restricted_actions: restricted_actions@,
                },
            EntityState::Hitstun { next_round, extensions } => StateModel::Hitstun {
                next_round: *next_round,
                extensions: *extensions,
            },
            EntityState::Knockdown { next_round } => StateModel::Knockdown { next_round: *next_round },
            EntityState::Downed { round_downed } => StateModel::Downed { round_downed: *round_downed },
            EntityState::Exited { round_exited } => StateModel::Exited { round_exited: *round_exited },
        }
    }
}

impl StateModel {
    /// The round of the entity's next turn; none for the terminal states.
    pub open spec fn next_round(self) -> Option<u32> {
        match self {
            StateModel::Ready { next_round } => Some(next_round),
            StateModel::Committed { next_round, .. } => Some(next_round),
            StateModel::ConfirmCommand { next_round, .. } => Some(next_round),
            StateModel::RestrictedActions { next_round, .. } => Some(next_round),
            StateModel::Hitstun { next_round, .. } => Some(next_round),
            StateModel::Knockdown { next_round } => Some(next_round),
            StateModel::Downed { .. } => None,
            StateModel::Exited { .. } => None,
        }
    }

    /// Whether an entity in this state stands on its tile.
    pub open spec fn occupies(self) -> bool {
        match self {
            StateModel::Knockdown { .. } => false,
            StateModel::Downed { .. } => false,
            StateModel::Exited { .. } => false,
            _ => true,
        }
    }
}

impl Clone for EntityState {
    fn clone(&self) -> (r: Self)
        ensures
            r@ == self@,
    {
        match self {
            EntityState::Ready { next_round } => EntityState::Ready { next_round: *next_round },
            EntityState::Committed { next_round, queued_command } => EntityState::Committed {
                next_round: *next_round,
                queued_command: *queued_command,
            },
            EntityState::ConfirmCommand { next_round, to_confirm } => EntityState::ConfirmCommand {
                next_round: *next_round,
                to_confirm: *to_confirm,
            },
            EntityState::RestrictedActions { next_round, restricted_actions } => {
                let copy = restricted_actions.clone();
                proof {
                    assert(copy@ =~= restricted_actions@);
                }
                EntityState::RestrictedActions { next_round: *next_round, restricted_actions: copy }
            },
            EntityState::Hitstun { next_round, extensions } => EntityState::Hitstun {
                next_round: *next_round,
                extensions: *extensions,
            },
            EntityState::Knockdown { next_round } => EntityState::Knockdown { next_round: *next_round },
            EntityState::Downed { round_downed } => EntityState::Downed { round_downed: *round_downed },
            EntityState::Exited { round_exited } => EntityState::Exited { round_exited: *round_exited },
        }
    }
}

impl Default for EntityState {
    fn default() -> (r: Self)
        ensures
            r@ == (StateModel::Ready { next_round: 0 }),
    {
        Self::Ready { next_round: 0 }
    }
}

/// An entity as it exists in a Floor.
/// Not aware of the floor (and therefore of other entities)
///
/// Outside a Floor, entities have a statline (`health`, etc.) and some constant data (`max_health`, etc.).
#[derive(Debug)]
pub struct Entity {
    // Turntaking and state are highly correlated, and changing one usually implies something about the other.
    // EG: Doing a move, queued or not, should usually unset the queued move.
    // EG: Being downed means you are not participating in turntaking.
    // EG: Taking a hit puts you in hitstun, (unqueues your move if in ok state) AND delays your next action.
    pub state: EntityState,
    pub pos: AbsolutePosition,
    pub health: i8,
    pub max_energy: i8,
    pub energy: i8,
    pub moveset: Vec<KnownUnaimedAction>,
    pub strategy: Strategy,
    // Not mutually exclusive with AI.
    // Eg you might switch between controlling entities, or temporarily take control of one.
    pub is_player_controlled: bool,
    // Controls aggression. Also controls vision.
    pub is_player_friendly: bool,
    // Some string we don't care about in logic.
    pub payload: String,
}

/// An `Entity` as a value.
pub struct EntityModel {
    pub state: StateModel,
    pub pos: AbsolutePosition,
    pub health: i8,
    pub max_energy: i8,
    pub energy: i8,
    pub moveset: Seq<KnownUnaimedAction>,
    pub strategy: Strategy,
    pub is_player_controlled: bool,
    pub is_player_friendly: bool,
    pub payload: Seq<char>,
}

impl View for Entity {
    type V = EntityModel;

    open spec fn view(&self) -> EntityModel {
        EntityModel {
            state: self.state@,
            pos: self.pos,
            health: self.health,
            max_energy: self.max_energy,
            energy: self.energy,
            moveset: self.moveset@,
            strategy: self.strategy,
            is_player_controlled: self.is_player_controlled,
            is_player_friendly: self.is_player_friendly,
            payload: self.payload@,
        }
    }
}

impl EntityModel {
    /// The tile the entity stands on, if it stands at all.
    pub open spec fn occupied_position(self) -> Option<AbsolutePosition> {
        if self.state.occupies() {
            Some(self.pos)
        } else {
            None
        }
    }

    /// The same entity, in another state.
    pub open spec fn with_state(self, state: StateModel) -> EntityModel {
        EntityModel { state, ..self }
    }
}

impl Clone for Entity {
    fn clone(&self) -> (r: Self)
        ensures
            r@ == self@,
    {
        let moveset = self.moveset.clone();
        proof {
            assert(moveset@ =~= self.moveset@);
        }
        Entity {
            state: self.state.clone(),
            pos: self.pos,
            health: self.health,
            max_energy: self.max_energy,
            energy: self.energy,
            moveset,
            strategy: self.strategy,
            is_player_controlled: self.is_player_controlled,
            is_player_friendly: self.is_player_friendly,
            payload: self.payload.clone(),
        }
    }
}

impl Default for Entity {
    fn default() -> (r: Self)
        ensures
            r@.state == (StateModel::Ready { next_round: 0 }),
            r@.pos == (AbsolutePosition { x: 0, y: 0 }),
            r@.health == 0 && r@.max_energy == 0 && r@.energy == 0,
            r@.moveset == Seq::<KnownUnaimedAction>::empty(),
            r@.strategy == Strategy::Null,
            !r@.is_player_controlled && !r@.is_player_friendly,
            r@.payload == Seq::<char>::empty(),
    {
        Entity {
            state: EntityState::Ready { next_round: 0 },
            pos: AbsolutePosition { x: 0, y: 0 },
            health: 0,
            max_energy: 0,
            energy: 0,
            moveset: Vec::new(),
            strategy: Strategy::Null,
            is_player_controlled: false,
            is_player_friendly: false,
            payload: String::new(),
        }
    }
}

impl Entity {
    /// The actions the entity may choose from: only the restricted ones, in that state,
    /// else its moveset.
    #[must_use]
    pub fn get_actions(&self) -> (r: Vec<KnownUnaimedAction>)
        ensures
            r@ == match self@.state {
                StateModel::RestrictedActions { restricted_actions, .. } => restricted_actions,
                _ => self@.moveset,
            },
    {
        // We might add more states, so consider using match instead of if let.
        match &self.state {
            EntityState::RestrictedActions { restricted_actions, .. } => {
                let r = restricted_actions.clone();
                proof {
                    assert(r@ =~= restricted_actions@);
                }
                r
            },
            _ => {
                let r = self.moveset.clone();
                proof {
                    assert(r@ =~= self.moveset@);
                }
                r
            },
        }
    }

    #[must_use]
    pub fn get_command_to_confirm(&self) -> (r: Option<KnownInfallibleAction>)
        ensures
            r == match self@.state {
                StateModel::ConfirmCommand { to_confirm, .. } => Some(to_confirm),
                _ => None,
            },
    {
        match &self.state {
            EntityState::ConfirmCommand { to_confirm, .. } => Some(*to_confirm),
            _ => None,
        }
    }

    #[must_use]
    pub fn get_next_round(&self) -> (r: Option<u32>)
        ensures
            r == self@.state.next_round(),
    {
        match self.state {
            EntityState::Ready { next_round, .. } => Some(next_round),
            EntityState::Committed { next_round, .. } => Some(next_round),
            EntityState::ConfirmCommand { next_round, .. } => Some(next_round),
            EntityState::RestrictedActions { next_round, .. } => Some(next_round),
            EntityState::Hitstun { next_round, .. } => Some(next_round),
            EntityState::Knockdown { next_round, .. } => Some(next_round),
            EntityState::Downed { .. } => None,
            EntityState::Exited { .. } => None,
        }
    }

    #[must_use]
    pub fn get_occupied_position(&self) -> (r: Option<AbsolutePosition>)
        ensures
            r == self@.occupied_position(),
    {
        match self.state {
            EntityState::Knockdown { .. } => None,
            EntityState::Downed { .. } => None,
            EntityState::Exited { .. } => None,
            _ => Some(self.pos),
        }
    }

    #[must_use]
    pub fn is_allied(&self, other: &Entity) -> (r: bool)
        ensures
            r == (self.is_player_friendly == other.is_player_friendly),
    {
        self.is_player_friendly == other.is_player_friendly
    }

    #[must_use]
    pub fn get_payload(&self) -> (r: &str)
        ensures
            r@ == self.payload@,
    {
        self.payload.as_str()
    }
}

/// An add only collection.
/// Elements are wrapped in Rc for efficient `Clone`ing.
//
// Remove should never be implemented. If something were to be removed,
// mark it as unalive or exited and remove it from turntaking.
#[derive(Debug)]
pub struct EntitySet(Vec<Rc<Entity>>);

impl View for EntitySet {
    type V = Seq<EntityModel>;

    closed spec fn view(&self) -> Seq<EntityModel> {
        Seq::new(self.0@.len(), |i: int| self.0@[i]@)
    }
}

impl Clone for EntitySet {
    fn clone(&self) -> (r: Self)
        ensures
            r@ == self@,
    {
        let mut out: Vec<Rc<Entity>> = Vec::new();
        let mut i: usize = 0;
        while i < self.0.len()
            invariant
                i <= self.0.len(),
                out.len() == i,
                forall|k: int| 0 <= k < i ==> (#[trigger] out@[k])@ == self.0@[k]@,
            decreases self.0.len() - i,
        {
            out.push(Rc::clone(&self.0[i]));
            i += 1;
        }
        let r = EntitySet(out);
        proof {
            assert(r@ =~= self@);
        }
        r
    }
}

impl Default for EntitySet {
    fn default() -> (r: Self)
        ensures
            r@ == Seq::<EntityModel>::empty(),
    {
        Self::new()
    }
}

impl EntitySet {
    #[must_use]
    pub fn new() -> (r: Self)
        ensures
            r@ == Seq::<EntityModel>::empty(),
    {
        let r = Self(Vec::new());
        proof {
            assert(r@ =~= Seq::<EntityModel>::empty());
        }
        r
    }

    pub fn len(&self) -> (r: usize)
        ensures
            r == self@.len(),
    {
        self.0.len()
    }

    /// Adds an entity; its id is where it stands, after all the others.
    pub fn add(&mut self, new: Entity) -> (r: EntityId)
        ensures
            final(self)@ == old(self)@.push(new@),
            r.index() == old(self)@.len(),
    {
        let id = EntityId(self.0.len());
        self.0.push(Rc::new(new));
        proof {
            assert(self@ =~= old(self)@.push(new@));
        }
        id
    }

    /// Replaces the entity with the given id.
    pub fn overwrite(&mut self, id: EntityId, value: Entity)
        requires
            id.index() < old(self)@.len(),
        ensures
            final(self)@ == old(self)@.update(id.index(), value@),
    {
        let ghost v = value@;
        self.0.set(id.0, Rc::new(value));
        proof {
            assert(self@ =~= old(self)@.update(id.index(), v));
        }
    }

    #[must_use]
    pub fn contains_id(&self, id: EntityId) -> (r: bool)
        ensures
            r == (id.index() < self@.len()),
    {
        id.0 < self.0.len()
    }

    /// The shared pointer to an entity.
    #[must_use]
    pub fn index_as_rc(&self, index: EntityId) -> (r: &Rc<Entity>)
        requires
            index.index() < self@.len(),
        ensures
            (**r)@ == self@[index.index()],
    {
        &self.0[index.0]
    }

    /// The entity with the given id.
    #[must_use]
    pub fn get(&self, index: EntityId) -> (r: &Entity)
        requires
            index.index() < self@.len(),
        ensures
            r@ == self@[index.index()],
    {
        &*self.0[index.0]
    }

    /// Every entity, in order of id.
    pub fn iter_entities(&self) -> (r: Vec<&Entity>)
        ensures
            r.len() == self@.len(),
            forall|i: int| 0 <= i < r.len() ==> (#[trigger] r@[i])@ == self@[i],
    {
        let mut out: Vec<&Entity> = Vec::new();
        let mut i: usize = 0;
        while i < self.0.len()
            invariant
                i <= self.0.len(),
                out.len() == i,
                forall|k: int| 0 <= k < i ==> (#[trigger] out@[k])@ == self@[k],
            decreases self.0.len() - i,
        {
            out.push(&*self.0[i]);
            i += 1;
        }
        out
    }

    /// Every id with its entity, in order.
    pub fn iter(&self) -> (r: Vec<(EntityId, &Entity)>)
        ensures
            r.len() == self@.len(),
            forall|i: int| 0 <= i < r.len() ==> (#[trigger] r@[i]).0.index() == i && r@[i].1@ == self@[i],
    {
        let mut out: Vec<(EntityId, &Entity)> = Vec::new();
        let mut i: usize = 0;
        while i < self.0.len()
            invariant
                i <= self.0.len(),
                out.len() == i,
                forall|k: int| 0 <= k < i ==> (#[trigger] out@[k]).0.index() == k && out@[k].1@ == self@[k],
            decreases self.0.len() - i,
        {
            out.push((EntityId(i), &*self.0[i]));
            i += 1;
        }
        out
    }

    /// Every id, in order.
    pub fn iter_ids(&self) -> (r: Vec<EntityId>)
        ensures
            r.len() == self@.len(),
            forall|i: int| 0 <= i < r.len() ==> (#[trigger] r@[i]).index() == i,
    {
        let mut out: Vec<EntityId> = Vec::new();
        let mut i: usize = 0;
        while i < self.0.len()
            invariant
                i <= self.0.len(),
                out.len() == i,
                forall|k: int| 0 <= k < i ==> (#[trigger] out@[k]).index() == k,
            decreases self.0.len() - i,
        {
            out.push(EntityId(i));
            i += 1;
        }
        out
    }
}

#[derive(Debug)]
pub struct AlreadyPresent;

/// Whether no id occurs twice among the updates.
pub open spec fn ids_unique(s: Seq<(EntityId, EntityModel)>) -> bool {
    forall|i: int, j: int| 0 <= i < s.len() && 0 <= j < s.len() && i != j ==> s[i].0 != s[j].0
}

/// Whether the updates hold one for `id`.
pub open spec fn updates_id(s: Seq<(EntityId, EntityModel)>, id: EntityId) -> bool {
    exists|i: int| 0 <= i < s.len() && #[trigger] s[i].0 == id
}

/// The update for `id`.
pub open spec fn update_for(s: Seq<(EntityId, EntityModel)>, id: EntityId) -> EntityModel {
    s[choose|i: int| 0 <= i < s.len() && #[trigger] s[i].0 == id].1
}

/// Whether the updates hold one for the entity at index `i`.
pub open spec fn updates_index(s: Seq<(EntityId, EntityModel)>, i: int) -> bool {
    exists|w: int| 0 <= w < s.len() && #[trigger] s[w].0.index() == i
}

/// The update for the entity at index `i`.
pub open spec fn update_at(s: Seq<(EntityId, EntityModel)>, i: int) -> EntityModel {
    s[choose|w: int| 0 <= w < s.len() && #[trigger] s[w].0.index() == i].1
}

/// The entities with the updates applied.
pub open spec fn apply_updates(ents: Seq<EntityModel>, s: Seq<(EntityId, EntityModel)>) -> Seq<EntityModel> {
    Seq::new(ents.len(), |i: int| if updates_index(s, i) { update_at(s, i) } else { ents[i] })
}

/// Write only map from ids to their new entities. Cannot replace keys.
#[derive(Debug)]
pub struct BatchEntityUpdateContextless(pub Vec<(EntityId, Entity)>);

impl BatchEntityUpdateContextless {
    /// The updates, in the order they were first made.
    pub open spec fn updates(&self) -> Seq<(EntityId, EntityModel)> {
        self.0@.map_values(|p: (EntityId, Entity)| (p.0, p.1@))
    }

    pub open spec fn wf(&self) -> bool {
        ids_unique(self.updates())
    }

    #[must_use]
    pub fn new() -> (r: Self)
        ensures
            r.wf(),
            r.updates() == Seq::<(EntityId, EntityModel)>::empty(),
    {
        let r = Self(Vec::new());
        proof {
            assert(r.updates() =~= Seq::<(EntityId, EntityModel)>::empty());
        }
        r
    }

    fn find(&self, k: EntityId) -> (r: Option<usize>)
        ensures
            match r {
                Some(i) => i < self.0.len() && self.0@[i as int].0 == k,
                None => !updates_id(self.updates(), k),
            },
    {
        let mut i: usize = 0;
        while i < self.0.len()
            invariant
                i <= self.0.len(),
                forall|j: int| 0 <= j < i ==> (#[trigger] self.0@[j]).0 != k,
            decreases self.0.len() - i,
        {
            if self.0[i].0.0 == k.0 {
                return Some(i);
            }
            i += 1;
        }
        proof {
            assert forall|j: int| 0 <= j < self.updates().len() implies #[trigger] self.updates()[j].0 != k by {
                assert(self.0@[j].0 != k);
            }
        }
        None
    }

    /// Stores an `Entity` with an existing `EntityId` to be updated.
    ///
    /// Since it is possible to access raw entities from an `EntitySet`,
    /// care is taken to prevent accessing the same `(EntityId, Entity)` twice, editing them
    /// differently, and adding them to the batch. So, it returns Result.
    pub fn insert(&mut self, k: EntityId, v: Entity) -> (r: Result<(), AlreadyPresent>)
        requires
            old(self).wf(),
        ensures
            final(self).wf(),
            r is Err <==> updates_id(old(self).updates(), k),
            r is Err ==> final(self).updates() == old(self).updates(),
            r is Ok ==> final(self).updates() == old(self).updates().push((k, v@)),
    {
        match self.find(k) {
            Some(i) => {
                proof {
                    assert(self.updates()[i as int].0 == k);
                }
                Err(AlreadyPresent)
            },
            None => {
                let ghost before = self.updates();
                let ghost vm = v@;
                self.0.push((k, v));
                proof {
                    assert(self.updates() =~= before.push((k, vm)));
                }
                Ok(())
            },
        }
    }

    /// Stores the new entity for `k`, replacing one stored before.
    pub fn set(&mut self, k: EntityId, v: Entity)
        requires
            old(self).wf(),
        ensures
            final(self).wf(),
            updates_id(old(self).updates(), k) ==> exists|i: int|
                0 <= i < old(self).updates().len() && old(self).updates()[i].0 == k
                    && final(self).updates() == old(self).updates().update(i, (k, v@)),
            !updates_id(old(self).updates(), k) ==> final(self).updates() == old(self).updates().push((k, v@)),
    {
        let ghost before = self.updates();
        let ghost vm = v@;
        match self.find(k) {
            Some(i) => {
                self.0.set(i, (k, v));
                proof {
                    assert(before[i as int].0 == k);
                    assert(self.updates() =~= before.update(i as int, (k, vm)));
                }
            },
            None => {
                self.0.push((k, v));
                proof {
                    assert(self.updates() =~= before.push((k, vm)));
                }
            },
        }
    }

    /// The updated ids, in order.
    pub fn iter_ids(&self) -> (r: Vec<EntityId>)
        ensures
            r.len() == self.updates().len(),
            forall|i: int| 0 <= i < r.len() ==> r@[i] == self.updates()[i].0,
    {
        let mut out: Vec<EntityId> = Vec::new();
        let mut i: usize = 0;
        while i < self.0.len()
            invariant
                i <= self.0.len(),
                out.len() == i,
                forall|k: int| 0 <= k < i ==> out@[k] == self.0@[k].0,
            decreases self.0.len() - i,
        {
            out.push(self.0[i].0);
            i += 1;
        }
        out
    }
}

/// A batch of updates against the entities they replace.
pub struct BatchEntityUpdate<'a> {
    pub contextless: BatchEntityUpdateContextless,
    pub context: &'a EntitySet,
}

impl<'a> BatchEntityUpdate<'a> {
    pub open spec fn wf(&self) -> bool {
        &&& self.contextless.wf()
        &&& forall|i: int|
            0 <= i < self.contextless.updates().len() ==> (#[trigger] self.contextless.updates()[i]).0.index()
                < self.context@.len()
    }

    /// The entities once the batch is committed.
    pub open spec fn latest(&self) -> Seq<EntityModel> {
        apply_updates(self.context@, self.contextless.updates())
    }

    #[must_use]
    pub fn new(context: &'a EntitySet) -> (r: Self)
        ensures
            r.wf(),
            r.context == context,
            r.contextless.updates() == Seq::<(EntityId, EntityModel)>::empty(),
    {
        Self { contextless: BatchEntityUpdateContextless::new(), context }
    }

    /// The entity with id `k` as it will be once the batch is committed.
    #[must_use]
    pub fn get_latest(&self, k: EntityId) -> (r: &Entity)
        requires
            self.wf(),
            k.index() < self.context@.len(),
        ensures
            r@ == self.latest()[k.index()],
    {
        match self.contextless.find(k) {
            Some(i) => {
                proof {
                    let u = self.contextless.updates();
                    assert(u[i as int].0 == k);
                    let j = choose|j: int| 0 <= j < u.len() && #[trigger] u[j].0 == k;
                    assert(j == i as int);
                }
                &self.contextless.0[i].1
            },
            None => self.context.get(k),
        }
    }

    /// Stores `v` as the new entity of `k`.
    pub fn apply(&mut self, k: EntityId, v: Entity)
        requires
            old(self).wf(),
            k.index() < old(self).context@.len(),
        ensures
            final(self).wf(),
            final(self).context == old(self).context,
            final(self).latest() == old(self).latest().update(k.index(), v@),
            updates_id(old(self).contextless.updates(), k) ==> exists|i: int|
                0 <= i < old(self).contextless.updates().len() && old(self).contextless.updates()[i].0 == k
                    && final(self).contextless.updates() == old(self).contextless.updates().update(i, (k, v@)),
            !updates_id(old(self).contextless.updates(), k) ==> final(self).contextless.updates() == old(
                self,
            ).contextless.updates().push((k, v@)),
            forall|id: EntityId|
                updates_id(final(self).contextless.updates(), id) <==> (id == k || updates_id(
                    old(self).contextless.updates(),
                    id,
                )),
    {
        let ghost before = self.contextless.updates();
        self.contextless.set(k, v);
        proof {
            let after = self.contextless.updates();
            lemma_set_updates(before, after, k, v@, self.context@);
        }
    }

    /// The entities with the updates applied.
    #[must_use]
    pub fn commit(self) -> (r: EntitySet)
        requires
            self.wf(),
        ensures
            r@ == self.latest(),
    {
        let mut out = self.context.clone();
        let ghost u = self.contextless.updates();
        let mut i: usize = 0;
        while i < self.contextless.0.len()
            invariant
                self.wf(),
                u == self.contextless.updates(),
                i <= u.len(),
                out@.len() == self.context@.len(),
                forall|j: int|
                    0 <= j < out@.len() ==> #[trigger] out@[j] == if updates_index(u.subrange(0, i as int), j) {
                        update_at(u, j)
                    } else {
                        self.context@[j]
                    },
            decreases u.len() - i,
        {
            let (id, e) = (self.contextless.0[i].0, self.contextless.0[i].1.clone());
            proof {
                assert(u[i as int].0 == id);
                assert(id.index() < self.context@.len());
            }
            let ghost before = out@;
            out.overwrite(id, e);
            proof {
                assert forall|j: int| 0 <= j < out@.len() implies #[trigger] out@[j] == if updates_index(
                    u.subrange(0, i + 1),
                    j,
                ) {
                    update_at(u, j)
                } else {
                    self.context@[j]
                } by {
                    if j == id.index() {
                        assert(u.subrange(0, i + 1)[i as int].0.index() == j);
                        let w = choose|w: int| 0 <= w < u.len() && #[trigger] u[w].0.index() == j;
                        assert(u[i as int].0.index() == j);
                        assert(u[w].0 == u[i as int].0);
                        assert(w == i as int);
                    } else {
                        if updates_index(u.subrange(0, i + 1), j) {
                            let w = choose|w: int| 0 <= w < i + 1 && #[trigger] u.subrange(0, i + 1)[w].0.index() == j;
                            assert(w != i);
                            assert(u.subrange(0, i as int)[w].0.index() == j);
                        }
                        if updates_index(u.subrange(0, i as int), j) {
                            let w = choose|w: int| 0 <= w < i && #[trigger] u.subrange(0, i as int)[w].0.index() == j;
                            assert(u.subrange(0, i + 1)[w].0.index() == j);
                        }
                    }
                }
            }
            i += 1;
        }
        proof {
            assert(u.subrange(0, u.len() as int) =~= u);
            assert(out@ =~= self.latest());
        }
        out
    }
}

proof fn lemma_set_updates(
    before: Seq<(EntityId, EntityModel)>,
    after: Seq<(EntityId, EntityModel)>,
    k: EntityId,
    v: EntityModel,
    ents: Seq<EntityModel>,
)
    requires
        ids_unique(before),
        updates_id(before, k) ==> exists|i: int|
            0 <= i < before.len() && before[i].0 == k && after == before.update(i, (k, v)),
        !updates_id(before, k) ==> after == before.push((k, v)),
        forall|i: int| 0 <= i < before.len() ==> (#[trigger] before[i]).0.index() < ents.len(),
        k.index() < ents.len(),
    ensures
        ids_unique(after),
        forall|i: int| 0 <= i < after.len() ==> (#[trigger] after[i]).0.index() < ents.len(),
        apply_updates(ents, after) == apply_updates(ents, before).update(k.index(), v),
        forall|id: EntityId| updates_id(after, id) <==> (id == k || updates_id(before, id)),
{
    if updates_id(before, k) {
        let i = choose|i: int| 0 <= i < before.len() && before[i].0 == k && after == before.update(i, (k, v));
        assert forall|a: int, b: int| 0 <= a < after.len() && 0 <= b < after.len() && a != b implies after[a].0
            != after[b].0 by {
            assert(after[a].0 == before[a].0);
            assert(after[b].0 == before[b].0);
        }
        assert forall|id: EntityId| updates_id(after, id) <==> (id == k || updates_id(before, id)) by {
            if updates_id(after, id) {
                let w = choose|w: int| 0 <= w < after.len() && #[trigger] after[w].0 == id;
                assert(before[w].0 == id);
            }
            if updates_id(before, id) {
                let w = choose|w: int| 0 <= w < before.len() && #[trigger] before[w].0 == id;
                assert(after[w].0 == id);
            }
            if id == k {
                assert(after[i].0 == id);
            }
        }
        let l = apply_updates(ents, after);
        let r = apply_updates(ents, before).update(k.index(), v);
        assert forall|j: int| 0 <= j < ents.len() implies l[j] == r[j] by {
            if j == k.index() {
                assert(after[i].0.index() == j);
                let w = choose|w: int| 0 <= w < after.len() && #[trigger] after[w].0.index() == j;
                assert(after[w].0 == before[w].0);
                assert(after[w].0 == k);
                assert(w == i);
            } else if updates_index(before, j) {
                let w = choose|w: int| 0 <= w < before.len() && #[trigger] before[w].0.index() == j;
                assert(after[w].0.index() == j);
                let w2 = choose|w: int| 0 <= w < after.len() && #[trigger] after[w].0.index() == j;
                assert(after[w2].0 == before[w2].0);
                assert(before[w2].0 == before[w].0);
                assert(w2 == w);
            } else {
                if updates_index(after, j) {
                    let w2 = choose|w: int| 0 <= w < after.len() && #[trigger] after[w].0.index() == j;
                    assert(before[w2].0.index() == j);
                }
            }
        }
        assert(l =~= r);
    } else {
        assert forall|a: int, b: int| 0 <= a < after.len() && 0 <= b < after.len() && a != b implies after[a].0
            != after[b].0 by {
            if a == before.len() {
                assert(after[b] == before[b]);
            } else if b == before.len() {
                assert(after[a] == before[a]);
            } else {
                assert(after[a] == before[a]);
                assert(after[b] == before[b]);
            }
        }
        assert forall|id: EntityId| updates_id(after, id) <==> (id == k || updates_id(before, id)) by {
            if updates_id(after, id) {
                let w = choose|w: int| 0 <= w < after.len() && #[trigger] after[w].0 == id;
                if w < before.len() {
                    assert(before[w].0 == id);
                }
            }
            if updates_id(before, id) {
                let w = choose|w: int| 0 <= w < before.len() && #[trigger] before[w].0 == id;
                assert(after[w].0 == id);
            }
            if id == k {
                assert(after[before.len() as int].0 == id);
            }
        }
        assert forall|i: int| 0 <= i < after.len() implies (#[trigger] after[i]).0.index() < ents.len() by {
            if i < before.len() {
                assert(after[i] == before[i]);
            }
        }
        let l = apply_updates(ents, after);
        let r = apply_updates(ents, before).update(k.index(), v);
        assert forall|j: int| 0 <= j < ents.len() implies l[j] == r[j] by {
            if j == k.index() {
                assert(after[before.len() as int].0.index() == j);
                let w = choose|w: int| 0 <= w < after.len() && #[trigger] after[w].0.index() == j;
                if w < before.len() {
                    assert(after[w] == before[w]);
                    assert(before[w].0 == k);
                }
                assert(w == before.len());
            } else if updates_index(before, j) {
                let w = choose|w: int| 0 <= w < before.len() && #[trigger] before[w].0.index() == j;
                assert(after[w].0.index() == j);
                let w2 = choose|w: int| 0 <= w < after.len() && #[trigger] after[w].0.index() == j;
                if w2 < before.len() {
                    assert(after[w2] == before[w2]);
                    assert(before[w2].0 == before[w].0);
                } else {
                    assert(after[w2].0 == k);
                }
                assert(w2 == w);
            } else {
                if updates_index(after, j) {
                    let w2 = choose|w: int| 0 <= w < after.len() && #[trigger] after[w].0.index() == j;
                    if w2 < before.len() {
                        assert(after[w2] == before[w2]);
                    } else {
                        assert(after[w2].0 == k);
                    }
                }
            }
        }
        assert(l =~= r);
    }
}

} // verus!
