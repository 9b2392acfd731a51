use lizstate::entity::BatchEntityUpdate;
use lizstate::entity::Entity;
use lizstate::entity::EntitySet;
use lizstate::entity::EntityState;
use lizstate::floor::occupiers::Occupiers;
use lizstate::positional::AbsolutePosition;

#[test]
fn entity_set_iters() {
    let mut entities = EntitySet::new();
    entities.add(Entity::default());
    entities.add(Entity::default());

    for (pair, other) in entities
        .iter()
        .into_iter()
        .zip(entities.iter_ids().into_iter().zip(entities.iter_entities()))
    {
        assert_eq!(pair.0, other.0);
        assert!(std::ptr::eq(pair.1, other.1));
    }
}

#[test]
fn update_knockdown() {
    let mut entities = EntitySet::new();
    let occupiers = Occupiers::new();

    let first = entities.add(Entity {
        state: EntityState::Ready { next_round: 1 },
        pos: AbsolutePosition::new(10, 10),
        ..Default::default()
    });
    let occupiers = occupiers.add_entity((first, entities.get(first)));

    let second = entities.add(Entity {
        state: EntityState::Ready { next_round: 1 },
        pos: AbsolutePosition::new(15, 15),
        ..Default::default()
    });
    let occupiers = occupiers.add_entity((second, entities.get(second)));

    let mut batch = BatchEntityUpdate::new(&entities);
    let mut second_update = batch.get_latest(second).clone();
    second_update.pos = entities.get(first).pos;
    second_update.state = EntityState::Knockdown { next_round: 1 };
    assert!(second_update.get_occupied_position().is_none());
    batch.apply(second, second_update);

    let occupiers = occupiers.update_entities(&batch);
    assert_eq!(occupiers.get(AbsolutePosition::new(10, 10)), Some(first));
    assert_eq!(occupiers.get(AbsolutePosition::new(15, 15)), None);
}
