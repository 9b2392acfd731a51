//! Which entity stands on which tile.
use vstd::prelude::*;

use crate::entity::BatchEntityUpdate;
use crate::entity::Entity;
use crate::entity::EntityId;
use crate::entity::EntityModel;
use crate::posmap::PosMap;
use crate::positional::AbsolutePosition;

verus! {

/// Whether the entity at index `i` stands on `p`.
pub open spec fn occupied_by(ents: Seq<EntityModel>, p: AbsolutePosition, i: int) -> bool {
    0 <= i < ents.len() && ents[i].occupied_position() == Some(p)
}

/// Whether no two entities stand on the same tile.
pub open spec fn occupancy_unique(ents: Seq<EntityModel>) -> bool {
    forall|i: int, j: int|
        0 <= i < ents.len() && 0 <= j < ents.len() && i != j && (#[trigger] ents[i]).occupied_position() is Some
            ==> ents[i].occupied_position() != (#[trigger] ents[j]).occupied_position()
}

/// Each tile that an entity stands on, with that entity.
pub open spec fn occupancy_map(ents: Seq<EntityModel>) -> Map<AbsolutePosition, EntityId> {
    Map::new(
        |p: AbsolutePosition| exists|i: int| #[trigger] occupied_by(ents, p, i),
        |p: AbsolutePosition| EntityId((choose|i: int| #[trigger] occupied_by(ents, p, i)) as usize),
    )
}

pub proof fn lemma_occupancy_push(s: Seq<EntityModel>, e: EntityModel)
    requires
        occupancy_unique(s.push(e)),
        s.len() < usize::MAX,
    ensures
        occupancy_map(s.push(e)) == match e.occupied_position() {
            Some(p) => occupancy_map(s).insert(p, EntityId(s.len() as usize)),
            None => occupancy_map(s),
        },
{
    let t = s.push(e);
    let n = s.len() as int;
    let m = occupancy_map(t);
    let x = match e.occupied_position() {
        Some(p) => occupancy_map(s).insert(p, EntityId(s.len() as usize)),
        None => occupancy_map(s),
    };
    assert forall|q: AbsolutePosition| m.contains_key(q) <==> x.contains_key(q) by {
        if m.contains_key(q) {
            let i = choose|i: int| #[trigger] occupied_by(t, q, i);
            if i < n {
                assert(occupied_by(s, q, i));
            }
        }
        if x.contains_key(q) {
            if e.occupied_position() == Some(q) {
                assert(occupied_by(t, q, n));
            } else {
                let i = choose|i: int| #[trigger] occupied_by(s, q, i);
                assert(occupied_by(t, q, i));
            }
        }
    }
    assert forall|q: AbsolutePosition| m.contains_key(q) implies m[q] == x[q] by {
        let i = choose|i: int| #[trigger] occupied_by(t, q, i);
        if e.occupied_position() == Some(q) {
            assert(occupied_by(t, q, n));
            if i != n {
                assert(t[i].occupied_position() != t[n].occupied_position());
            }
        } else {
            assert(i != n);
            assert(occupied_by(s, q, i));
            let k = choose|k: int| #[trigger] occupied_by(s, q, k);
            assert(occupied_by(t, q, k));
            if k != i {
                assert(t[i].occupied_position() != t[k].occupied_position());
            }
        }
    }
    assert(m =~= x);
}

/// The tiles that entities stand on.
#[derive(Debug)]
pub struct Occupiers(PosMap<EntityId>);

impl Clone for Occupiers {
    fn clone(&self) -> (r: Self)
        ensures
            r@ == self@,
            r.wf() == self.wf(),
    {
        Occupiers(self.0.clone())
    }
}

impl View for Occupiers {
    type V = Map<AbsolutePosition, EntityId>;

    closed spec fn view(&self) -> Map<AbsolutePosition, EntityId> {
        self.0@
    }
}

impl Default for Occupiers {
    fn default() -> (r: Self)
        ensures
            r.wf(),
            r@ == Map::<AbsolutePosition, EntityId>::empty(),
    {
        Self::new()
    }
}

impl Occupiers {
    pub closed spec fn wf(&self) -> bool {
        self.0.wf()
    }

    #[must_use]
    pub fn new() -> (r: Self)
        ensures
            r.wf(),
            r@ == Map::<AbsolutePosition, EntityId>::empty(),
    {
        Self(PosMap::new())
    }

    /// Records a new entity, where it stands on a tile; that tile must be free.
    #[must_use]
    pub fn add_entity(&self, new: (EntityId, &Entity)) -> (r: Self)
        requires
            self.wf(),
            new.1@.occupied_position() matches Some(p) ==> !self@.contains_key(p),
        ensures
            r.wf(),
            r@ == match new.1@.occupied_position() {
                Some(p) => self@.insert(p, new.0),
                None => self@,
            },
    {
        let mut clone = self.clone();
        if let Some(occupied) = new.1.get_occupied_position() {
            clone.0.insert(occupied, new.0);
        }
        clone
    }

    /// The occupiers once the batch is committed, rebuilt from the updated entities.
    #[must_use]
    pub fn update_entities(&self, batch: &BatchEntityUpdate) -> (r: Self)
        requires
            batch.wf(),
            occupancy_unique(batch.latest()),
        ensures
            r.wf(),
            r@ == occupancy_map(batch.latest()),
    {
        let mut out = Occupiers::new();
        let n = batch.context.len();
        let ghost latest = batch.latest();
        let mut i: usize = 0;
        proof {
            assert(occupancy_map(latest.subrange(0, 0)) =~= Map::<AbsolutePosition, EntityId>::empty());
        }
        while i < n
            invariant
                batch.wf(),
                latest == batch.latest(),
                n == latest.len(),
                occupancy_unique(latest),
                i <= n,
                out.wf(),
                out@ == occupancy_map(latest.subrange(0, i as int)),
            decreases n - i,
        {
            let e = batch.get_latest(EntityId(i));
            proof {
                let pre = latest.subrange(0, i as int);
                let post = latest.subrange(0, i + 1);
                assert(post =~= pre.push(latest[i as int]));
                assert(occupancy_unique(post)) by {
                    assert forall|a: int, b: int|
                        0 <= a < post.len() && 0 <= b < post.len() && a != b && (#[trigger] post[a]).occupied_position() is Some
                            implies post[a].occupied_position() != (#[trigger] post[b]).occupied_position() by {
                        assert(post[a] == latest[a] && post[b] == latest[b]);
                    }
                }
                lemma_occupancy_push(pre, latest[i as int]);
                if let Some(p) = latest[i as int].occupied_position() {
                    if out@.contains_key(p) {
                        let k = choose|k: int| #[trigger] occupied_by(pre, p, k);
                        assert(latest[k].occupied_position() == latest[i as int].occupied_position());
                    }
                }
            }
            if let Some(p) = e.get_occupied_position() {
                out.0.insert(p, EntityId(i));
            }
            i += 1;
        }
        proof {
            assert(latest.subrange(0, n as int) =~= latest);
        }
        out
    }

    #[must_use]
    pub fn get(&self, tile: AbsolutePosition) -> (r: Option<EntityId>)
        requires
            self.wf(),
        ensures
            r == if self@.contains_key(tile) { Some(self@[tile]) } else { None::<EntityId> },
    {
        self.0.get(tile)
    }
}

} // verus!
