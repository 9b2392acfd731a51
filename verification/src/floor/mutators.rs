//! Systems that edit entities after every update, and log what they did.
use vstd::prelude::*;

use crate::actions::events::EventModel;
use crate::actions::events::FloorEvent;
use crate::actions::events::GetDownedEvent;
use crate::actions::events::MissionFailedEvent;
use crate::actions::events::log_models;
use crate::entity::BatchEntityUpdate;
use crate::entity::EntityId;
use crate::entity::EntityModel;
use crate::entity::EntityState;
use crate::entity::StateModel;
use crate::entity::apply_updates;
use crate::entity::update_for;
use crate::entity::updates_id;
use crate::writer::Writer;

verus! {

/// Whether the downing system takes this entity down: it has no health left and is not
/// down yet.
pub open spec fn should_down(e: EntityModel) -> bool {
    e.health <= 0 && !(e.state is Downed)
}

/// The entity, taken down in `round` where it should be.
pub open spec fn settle_one(e: EntityModel, round: u32) -> EntityModel {
    if should_down(e) {
        e.with_state(StateModel::Downed { round_downed: round })
    } else {
        e
    }
}

/// Every entity, taken down where it should be.
pub open spec fn settle_all(ents: Seq<EntityModel>, round: u32) -> Seq<EntityModel> {
    Seq::new(ents.len(), |i: int| settle_one(ents[i], round))
}

/// Stores `v` for `k`: in place where `k` has an update, else at the end.
pub open spec fn set_update(u: Seq<(EntityId, EntityModel)>, k: EntityId, v: EntityModel) -> Seq<(EntityId, EntityModel)> {
    if updates_id(u, k) {
        u.update(choose|i: int| 0 <= i < u.len() && #[trigger] u[i].0 == k, (k, v))
    } else {
        u.push((k, v))
    }
}

/// The updates once the entities among the first `i` that should go down are down.
pub open spec fn settle_updates(u: Seq<(EntityId, EntityModel)>, latest: Seq<EntityModel>, round: u32, i: nat) -> Seq<(EntityId, EntityModel)>
    decreases i,
{
    if i == 0 {
        u
    } else {
        let prev = settle_updates(u, latest, round, (i - 1) as nat);
        let e = latest[i - 1];
        if should_down(e) {
            set_update(prev, EntityId((i - 1) as usize), settle_one(e, round))
        } else {
            prev
        }
    }
}

/// The events of the entities among the first `i` that go down.
pub open spec fn downed_events(latest: Seq<EntityModel>, i: nat) -> Seq<EventModel>
    decreases i,
{
    if i == 0 {
        Seq::empty()
    } else {
        let prev = downed_events(latest, (i - 1) as nat);
        if should_down(latest[i - 1]) {
            prev.push(EventModel::GetDowned(GetDownedEvent { subject: EntityId((i - 1) as usize) }))
        } else {
            prev
        }
    }
}

/// The updated party members who are down, in the order of the updates.
pub open spec fn downed_party(u: Seq<(EntityId, EntityModel)>) -> Seq<EntityId> {
    u.filter(|p: (EntityId, EntityModel)| p.1.is_player_friendly && p.1.state is Downed).map_values(
        |p: (EntityId, EntityModel)| p.0,
    )
}

/// The party members, by id, that are not in `downed`.
pub open spec fn alive_party(latest: Seq<EntityModel>, downed: Seq<EntityId>) -> Seq<EntityId> {
    Seq::new(latest.len(), |i: int| EntityId(i as usize)).filter(
        |id: EntityId| latest[id.index()].is_player_friendly && !downed.contains(id),
    )
}

/// The mission is lost when a party member goes down: each party member still up is told,
/// the first of them with the list of those down.
pub open spec fn mission_failed_events(u: Seq<(EntityId, EntityModel)>, latest: Seq<EntityModel>) -> Seq<EventModel> {
    let downed = downed_party(u);
    let alive = alive_party(latest, downed);
    if downed.len() == 0 || alive.len() == 0 {
        Seq::empty()
    } else {
        Seq::new(
            alive.len(),
            |i: int|
                EventModel::MissionFailed {
                    subject: alive[i],
                    downed_party: if i == 0 { downed } else { Seq::empty() },
                },
        )
    }
}

/// Takes down entities with no health left, and fails the mission when a party member
/// goes down.
#[derive(Clone, Copy, Debug)]
pub struct DownedStateMutator;

impl DownedStateMutator {
    pub fn mutate_entities(&self, current_round: u32, batch: &mut BatchEntityUpdate) -> (r: Writer<Self, FloorEvent>)
        requires
            old(batch).wf(),
            old(batch).context@.len() <= usize::MAX,
        ensures
            final(batch).wf(),
            final(batch).context == old(batch).context,
            final(batch).latest() == settle_all(old(batch).latest(), current_round),
            final(batch).contextless.updates() == settle_updates(
                old(batch).contextless.updates(),
                old(batch).latest(),
                current_round,
                old(batch).latest().len(),
            ),
            log_models(r.entries()) == downed_events(old(batch).latest(), old(batch).latest().len())
                + mission_failed_events(final(batch).contextless.updates(), final(batch).latest()),
    {
        let log = DownedStateMutator::set_downed_state(current_round, batch);
        let fail = DownedStateMutator::lose_the_game(batch);
        Writer::new(*self).zip_nothing(log).zip_nothing(fail)
    }

    fn set_downed_state(current_round: u32, batch: &mut BatchEntityUpdate) -> (r: Writer<(), FloorEvent>)
        requires
            old(batch).wf(),
            old(batch).context@.len() <= usize::MAX,
        ensures
            final(batch).wf(),
            final(batch).context == old(batch).context,
            final(batch).latest() == settle_all(old(batch).latest(), current_round),
            final(batch).contextless.updates() == settle_updates(
                old(batch).contextless.updates(),
                old(batch).latest(),
                current_round,
                old(batch).latest().len(),
            ),
            log_models(r.entries()) == downed_events(old(batch).latest(), old(batch).latest().len()),
    {
        let ghost latest0 = batch.latest();
        let ghost u0 = batch.contextless.updates();
        let n = batch.context.len();
        let mut out: Writer<(), FloorEvent> = Writer::new(());
        let mut i: usize = 0;
        proof {
            assert(log_models(out.entries()) =~= downed_events(latest0, 0));
        }
        while i < n
            invariant
                batch.wf(),
                batch.context == old(batch).context,
                latest0 == old(batch).latest(),
                u0 == old(batch).contextless.updates(),
                n == latest0.len(),
                i <= n,
                n <= usize::MAX,
                batch.latest() == Seq::new(
                    n as nat,
                    |k: int| if k < i { settle_one(latest0[k], current_round) } else { latest0[k] },
                ),
                batch.contextless.updates() == settle_updates(u0, latest0, current_round, i as nat),
                log_models(out.entries()) == downed_events(latest0, i as nat),
            decreases n - i,
        {
            let id = EntityId(i);
            let e = batch.get_latest(id);
            if e.health > 0 || matches!(e.state, EntityState::Downed { .. }) {
            } else {
                let mut downed = e.clone();
                downed.state = EntityState::Downed { round_downed: current_round };
                let ghost before = batch.contextless.updates();
                let ghost dm = downed@;
                batch.apply(id, downed);
                proof {
                    assert(dm == settle_one(latest0[i as int], current_round));
                    lemma_set_is_set_update(before, batch.contextless.updates(), id, dm);
                }
                let ghost before_log = out.entries();
                out = out.log(FloorEvent::GetDowned(GetDownedEvent { subject: id }));
                proof {
                    assert(log_models(out.entries()) =~= log_models(before_log).push(
                        EventModel::GetDowned(GetDownedEvent { subject: id }),
                    ));
                }
            }
            proof {
                assert(batch.latest() =~= Seq::new(
                    n as nat,
                    |k: int| if k < i + 1 { settle_one(latest0[k], current_round) } else { latest0[k] },
                ));
            }
            i += 1;
        }
        proof {
            assert(batch.latest() =~= settle_all(latest0, current_round));
        }
        out
    }

    fn lose_the_game(batch: &BatchEntityUpdate) -> (r: Writer<(), FloorEvent>)
        requires
            batch.wf(),
            batch.context@.len() <= usize::MAX,
        ensures
            log_models(r.entries()) == mission_failed_events(batch.contextless.updates(), batch.latest()),
    {
        let ghost u = batch.contextless.updates();
        let ghost latest = batch.latest();
        // The updated party members who are down.
        let mut downed: Vec<EntityId> = Vec::new();
        let mut i: usize = 0;
        while i < batch.contextless.0.len()
            invariant
                batch.wf(),
                u == batch.contextless.updates(),
                i <= u.len(),
                downed@ == downed_party(u.subrange(0, i as int)),
            decreases u.len() - i,
        {
            let (id, e) = (batch.contextless.0[i].0, &batch.contextless.0[i].1);
            proof {
                let pre = u.subrange(0, i as int);
                assert(u.subrange(0, i + 1) =~= pre.push(u[i as int]));
                lemma_downed_party_push(pre, u[i as int]);
            }
            if e.is_player_friendly && matches!(e.state, EntityState::Downed { .. }) {
                downed.push(id);
            }
            i += 1;
        }
        proof {
            assert(u.subrange(0, u.len() as int) =~= u);
        }
        if downed.len() == 0 {
            proof {
                assert(log_models(Seq::<FloorEvent>::empty()) =~= Seq::<EventModel>::empty());
            }
            return Writer::new(());
        }
        // Who was already down before this update.
        let n = batch.context.len();
        let mut alive: Vec<EntityId> = Vec::new();
        let mut k: usize = 0;
        while k < n
            invariant
                batch.wf(),
                latest == batch.latest(),
                n == latest.len(),
                n <= usize::MAX,
                k <= n,
                alive@ == alive_party(latest.subrange(0, k as int), downed@),
            decreases n - k,
        {
            let e = batch.get_latest(EntityId(k));
            let mut is_downed = false;
            let mut j: usize = 0;
            while j < downed.len()
                invariant
                    j <= downed.len(),
                    is_downed == downed@.subrange(0, j as int).contains(EntityId(k)),
                decreases downed.len() - j,
            {
                let ghost pre = downed@.subrange(0, j as int);
                proof {
                    assert(downed@.subrange(0, j + 1) =~= pre.push(downed@[j as int]));
                }
                if downed[j].0 == k {
                    is_downed = true;
                    proof {
                        assert(downed@.subrange(0, j + 1)[j as int] == EntityId(k));
                    }
                } else {
                    proof {
                        let post = downed@.subrange(0, j + 1);
                        if post.contains(EntityId(k)) {
                            let w = choose|w: int| 0 <= w < post.len() && post[w] == EntityId(k);
                            assert(w != j);
                            assert(pre[w] == EntityId(k));
                        }
                        if pre.contains(EntityId(k)) {
                            let w = choose|w: int| 0 <= w < pre.len() && pre[w] == EntityId(k);
                            assert(post[w] == EntityId(k));
                        }
                    }
                }
                j += 1;
            }
            proof {
                assert(downed@.subrange(0, downed.len() as int) =~= downed@);
                lemma_alive_party_push(latest, downed@, k as int);
            }
            if e.is_player_friendly && !is_downed {
                alive.push(EntityId(k));
            }
            k += 1;
        }
        proof {
            assert(latest.subrange(0, n as int) =~= latest);
        }
        let mut out = Writer::<(), FloorEvent>::new(());
        if alive.len() > 0 {
            let downed_len = downed.len();
            out = out.log(FloorEvent::MissionFailed(MissionFailedEvent { subject: alive[0], downed_party: downed }));
            let mut t: usize = 1;
            while t < alive.len()
                invariant
                    1 <= t <= alive.len(),
                    log_models(out.entries()).len() == t,
                    forall|w: int| 0 <= w < t ==> #[trigger] log_models(out.entries())[w] == (EventModel::MissionFailed {
                        subject: alive@[w],
                        downed_party: if w == 0 { downed_party(u) } else { Seq::empty() },
                    }),
                decreases alive.len() - t,
            {
                let ghost before = out.entries();
                out = out.log(FloorEvent::MissionFailed(MissionFailedEvent { subject: alive[t], downed_party: Vec::new() }));
                proof {
                    assert forall|w: int| 0 <= w < t + 1 implies #[trigger] log_models(out.entries())[w] == (EventModel::MissionFailed {
                        subject: alive@[w],
                        downed_party: if w == 0 { downed_party(u) } else { Seq::empty() },
                    }) by {
                        if w < t {
                            assert(out.entries()[w] == before[w]);
                            assert(log_models(before)[w] == log_models(out.entries())[w]);
                        }
                    }
                }
                t += 1;
            }
            proof {
                assert(log_models(out.entries()) =~= mission_failed_events(u, latest));
            }
        } else {
            proof {
                assert(log_models(out.entries()) =~= mission_failed_events(u, latest));
            }
        }
        out
    }
}

proof fn lemma_set_is_set_update(
    before: Seq<(EntityId, EntityModel)>,
    after: Seq<(EntityId, EntityModel)>,
    k: EntityId,
    v: EntityModel,
)
    requires
        crate::entity::ids_unique(before),
        updates_id(before, k) ==> exists|i: int|
            0 <= i < before.len() && before[i].0 == k && after == before.update(i, (k, v)),
        !updates_id(before, k) ==> after == before.push((k, v)),
    ensures
        after == set_update(before, k, v),
{
    if updates_id(before, k) {
        let i = choose|i: int| 0 <= i < before.len() && before[i].0 == k && after == before.update(i, (k, v));
        let j = choose|j: int| 0 <= j < before.len() && #[trigger] before[j].0 == k;
        assert(before[i].0 == k);
        assert(i == j);
    }
}

proof fn lemma_downed_party_push(u: Seq<(EntityId, EntityModel)>, p: (EntityId, EntityModel))
    ensures
        downed_party(u.push(p)) == if p.1.is_player_friendly && p.1.state is Downed {
            downed_party(u).push(p.0)
        } else {
            downed_party(u)
        },
{
    let f = |q: (EntityId, EntityModel)| q.1.is_player_friendly && q.1.state is Downed;
    let g = |q: (EntityId, EntityModel)| q.0;
    assert(u.push(p).filter(f) == if f(p) { u.filter(f).push(p) } else { u.filter(f) }) by {
        reveal(Seq::filter);
        assert(u.push(p).drop_last() =~= u);
    }
    if f(p) {
        assert(u.filter(f).push(p).map_values(g) =~= u.filter(f).map_values(g).push(p.0));
    }
}

proof fn lemma_alive_party_push(latest: Seq<EntityModel>, downed: Seq<EntityId>, k: int)
    requires
        0 <= k < latest.len(),
        latest.len() <= usize::MAX,
    ensures
        alive_party(latest.subrange(0, k + 1), downed) == if latest[k].is_player_friendly && !downed.contains(
            EntityId(k as usize),
        ) {
            alive_party(latest.subrange(0, k), downed).push(EntityId(k as usize))
        } else {
            alive_party(latest.subrange(0, k), downed)
        },
{
    let pre = latest.subrange(0, k);
    let post = latest.subrange(0, k + 1);
    let ids_pre = Seq::new(pre.len(), |i: int| EntityId(i as usize));
    let ids_post = Seq::new(post.len(), |i: int| EntityId(i as usize));
    assert(ids_post =~= ids_pre.push(EntityId(k as usize)));
    let fpre = |id: EntityId| pre[id.index()].is_player_friendly && !downed.contains(id);
    let fpost = |id: EntityId| post[id.index()].is_player_friendly && !downed.contains(id);
    assert(ids_pre.filter(fpre) =~= ids_pre.filter(fpost)) by {
        assert forall|i: int| 0 <= i < ids_pre.len() implies fpre(ids_pre[i]) == fpost(ids_pre[i]) by {
            assert(ids_pre[i].index() == i);
        }
        lemma_filter_congruent(ids_pre, fpre, fpost);
    }
    assert(ids_post.filter(fpost) == if fpost(EntityId(k as usize)) {
        ids_pre.filter(fpost).push(EntityId(k as usize))
    } else {
        ids_pre.filter(fpost)
    }) by {
        reveal(Seq::filter);
        assert(ids_post.drop_last() =~= ids_pre);
    }
}

proof fn lemma_filter_congruent(s: Seq<EntityId>, f: spec_fn(EntityId) -> bool, g: spec_fn(EntityId) -> bool)
    requires
        forall|i: int| 0 <= i < s.len() ==> f(s[i]) == g(s[i]),
    ensures
        s.filter(f) == s.filter(g),
    decreases s.len(),
{
    reveal(Seq::filter);
    if s.len() > 0 {
        lemma_filter_congruent(s.drop_last(), f, g);
        assert(f(s.last()) == g(s.last()));
    }
}

} // verus!
