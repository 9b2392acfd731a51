use lizstate::actions::events::AttackHitEvent;
use lizstate::actions::events::FloorEvent;
use lizstate::actions::events::KnockbackEvent;
use lizstate::actions::events::KnockdownEvent;
use lizstate::actions::events::PrepareAttackEvent;
use lizstate::actions::events::StartAttackEvent;
use lizstate::actions::example::DoubleHitAction;
use lizstate::actions::characters::max_tegu::ForwardHeavyAction;
use lizstate::actions::public::BumpAction;
use lizstate::actions::public::StepAction;
use lizstate::actions::public::StepMacroAction;
use lizstate::actions::public::TryToStandUpAction;
use lizstate::actions::public::GotoAction;
use lizstate::actions::utils::MultiKnockbackUtil;
use lizstate::actions::utils::TakeKnockbackUtil;
use lizstate::actions::ActionError;
use lizstate::entity::Entity;
use lizstate::entity::EntityId;
use lizstate::entity::EntityState;
use lizstate::floor::map::FloorMap;
use lizstate::floor::map::FloorTile;
use lizstate::floor::Floor;
use lizstate::floor::FloorUpdate;
use lizstate::floor::TurntakingError;
use lizstate::positional::AbsolutePosition;
use lizstate::positional::RelativePosition;

/// Adds an entity to the floor of `update`, keeping the log.
fn add(update: FloorUpdate, entity: Entity) -> (FloorUpdate, EntityId) {
    let (floor, mut log) = update.into_both();
    let (added, id) = floor.add_entity(entity);
    let (floor, mut more) = added.into_both();
    log.append(&mut more);
    (FloorUpdate::new_with_log(floor, log), id)
}

#[test]
fn double_hit() {
    let update = FloorUpdate::new(Floor::new_minimal());
    let (update, player_id) = add(
        update,
        Entity {
            state: EntityState::Ready { next_round: 0 },
            pos: AbsolutePosition::new(0, 0),
            is_player_controlled: true,
            ..Default::default()
        },
    );
    let (update, other_id) = add(
        update,
        Entity {
            state: EntityState::Ready { next_round: 100 },
            pos: AbsolutePosition::new(1, 0),
            ..Default::default()
        },
    );
    let update = update
        .bind(|floor| {
            DoubleHitAction
                .verify_action(&floor, player_id, RelativePosition::new(1, 0))
                .unwrap()
                .do_action(&floor)
        })
        .bind(|floor| floor.take_npc_turn().unwrap()); // Second hit.

    let (contents, log) = update.into_both();
    assert_eq!(
        contents.take_npc_turn().err(),
        Some(TurntakingError::PlayerTurn { who: player_id })
    );
    assert_eq!(
        log.into_iter()
            .filter(|x| matches!(x, FloorEvent::StartAttack(_) | FloorEvent::AttackHit(_)))
            .collect::<Vec<FloorEvent>>(),
        vec![
            FloorEvent::StartAttack(StartAttackEvent {
                subject: player_id,
                tile: AbsolutePosition::new(1, 0)
            }),
            FloorEvent::AttackHit(AttackHitEvent {
                subject: player_id,
                target: other_id,
                damage: 1,
            }),
            FloorEvent::StartAttack(StartAttackEvent {
                subject: player_id,
                tile: AbsolutePosition::new(1, 0)
            }),
            FloorEvent::AttackHit(AttackHitEvent {
                subject: player_id,
                target: other_id,
                damage: 1,
            }),
        ]
    );
}

#[test]
fn double_hit_commits_and_announces() {
    let update = FloorUpdate::new(Floor::new_minimal());
    let (update, player_id) = add(
        update,
        Entity {
            state: EntityState::Ready { next_round: 3 },
            pos: AbsolutePosition::new(0, 0),
            health: 5,
            ..Default::default()
        },
    );
    let (floor, _) = update.into_both();
    assert_eq!(
        DoubleHitAction
            .verify_action(&floor, player_id, RelativePosition::new(2, 0))
            .err(),
        Some(ActionError::TargetOutOfRange)
    );
    assert_eq!(
        DoubleHitAction
            .verify_action(&floor, EntityId(7), RelativePosition::new(1, 0))
            .err(),
        Some(ActionError::DataMismatch)
    );
    let (floor, log) = DoubleHitAction
        .verify_action(&floor, player_id, RelativePosition::new(0, 1))
        .unwrap()
        .do_action(&floor)
        .into_both();
    assert!(matches!(
        floor.entities.get(player_id).state,
        EntityState::Committed { next_round: 4, .. }
    ));
    assert_eq!(
        log,
        vec![
            FloorEvent::StartAttack(StartAttackEvent {
                subject: player_id,
                tile: AbsolutePosition::new(0, 1)
            }),
            FloorEvent::PrepareAttack(PrepareAttackEvent {
                subject: player_id,
                tile: AbsolutePosition::new(0, 1)
            }),
        ]
    );
}

#[test]
fn bump_test() {
    let update = FloorUpdate::new(Floor::new_minimal());
    let (update, player_id) = add(
        update,
        Entity {
            state: EntityState::Ready { next_round: 0 },
            pos: AbsolutePosition::new(0, 0),
            ..Default::default()
        },
    );
    let (update, other_id) = add(
        update,
        Entity {
            state: EntityState::Ready { next_round: 0 },
            pos: AbsolutePosition::new(1, 0),
            ..Default::default()
        },
    );
    let update = update.bind(|floor| {
        BumpAction
            .verify_action(&floor, player_id, RelativePosition::new(1, 0))
            .unwrap()
            .do_action(&floor)
    });

    let (floor, log) = update.into_both();
    println!("{:?}", floor);
    assert_eq!(
        log.into_iter()
            .filter(|x| matches!(x, FloorEvent::StartAttack(_) | FloorEvent::AttackHit(_)))
            .collect::<Vec<FloorEvent>>(),
        vec![
            FloorEvent::StartAttack(StartAttackEvent {
                subject: player_id,
                tile: AbsolutePosition::new(1, 0)
            }),
            FloorEvent::AttackHit(AttackHitEvent {
                subject: player_id,
                target: other_id,
                damage: 1,
            })
        ]
    );
}

/// Runs the command that the player was left to confirm.
fn confirm_command(floor: Floor, player_id: EntityId) -> FloorUpdate {
    match &floor.entities.get(player_id).state {
        EntityState::ConfirmCommand { to_confirm, .. } => {
            to_confirm.verify_action(&floor, player_id).do_action(&floor)
        }
        _ => panic!(
            "Expected ConfirmCommand state. Got value: {:?}",
            floor.entities.get(player_id).state
        ),
    }
}

#[test]
fn goto_test() {
    let update = FloorUpdate::new(Floor::new_minimal());
    let (update, player_id) = add(
        update,
        Entity {
            state: EntityState::Ready { next_round: 0 },
            pos: AbsolutePosition::new(0, 0),
            ..Default::default()
        },
    );
    let update = update.bind(|floor| {
        GotoAction {}
            .verify_action(&floor, player_id, AbsolutePosition::new(5, 3))
            .unwrap()
            .do_action(&floor)
    });

    let update = update
        .bind(|f| confirm_command(f, player_id))
        .bind(|f| confirm_command(f, player_id))
        .bind(|f| confirm_command(f, player_id))
        .bind(|f| confirm_command(f, player_id));

    let (floor, _) = update.into_both();
    assert!(matches!(
        floor.entities.get(player_id).state,
        EntityState::Ready { next_round: 5 }
    ));
    assert_eq!(floor.entities.get(player_id).pos, AbsolutePosition::new(5, 3));
}

#[test]
fn goto_blocked_test() {
    let update = FloorUpdate::new(Floor::new_minimal());
    let (update, player_id) = add(
        update,
        Entity {
            state: EntityState::Ready { next_round: 0 },
            pos: AbsolutePosition::new(0, 0),
            ..Default::default()
        },
    );
    let (update, _) = add(
        update,
        Entity {
            state: EntityState::Ready { next_round: 9999 },
            pos: AbsolutePosition::new(1, 1),
            ..Default::default()
        },
    );
    let update = update.bind(|floor| {
        GotoAction {}
            .verify_action(&floor, player_id, AbsolutePosition::new(5, 5))
            .unwrap()
            .do_action(&floor)
    });

    let update = update
        .bind(|f| confirm_command(f, player_id))
        .bind(|f| confirm_command(f, player_id))
        .bind(|f| confirm_command(f, player_id))
        .bind(|f| confirm_command(f, player_id))
        .bind(|f| confirm_command(f, player_id));

    let (floor, _) = update.into_both();
    assert!(matches!(
        floor.entities.get(player_id).state,
        EntityState::Ready { next_round: 6 }
    ));
    assert_eq!(floor.entities.get(player_id).pos, AbsolutePosition::new(5, 5));
}

#[test]
fn knockback_basic() {
    let floor = Floor::new_minimal();
    let (update, id) = floor.add_entity(Entity::default());

    let update = update.bind(|floor| {
        TakeKnockbackUtil {
            entity: id,
            vector: RelativePosition::new(1, 0),
        }
        .do_action(&floor)
    });
    assert_eq!(
        update.get_contents().entities.get(id).pos,
        AbsolutePosition::new(1, 0)
    );
    assert_eq!(
        update.get_log()[0],
        FloorEvent::KnockbackEvent(KnockbackEvent {
            subject: id,
            tile: AbsolutePosition::new(1, 0)
        })
    );

    let update = update.bind(|floor| {
        TakeKnockbackUtil {
            entity: id,
            vector: RelativePosition::new(0, 1),
        }
        .do_action(&floor)
    });
    assert_eq!(
        update.get_contents().entities.get(id).pos,
        AbsolutePosition::new(1, 1)
    );
    assert_eq!(
        update.get_log()[1],
        FloorEvent::KnockbackEvent(KnockbackEvent {
            subject: id,
            tile: AbsolutePosition::new(1, 1)
        })
    );
}

#[test]
fn knockback_intheway() {
    let floor = Floor::new_minimal();
    let (update, id) = floor.add_entity(Entity::default());
    let (update, other) = add(
        update,
        Entity {
            pos: AbsolutePosition::new(1, 0),
            ..Entity::default()
        },
    );

    let update = update.bind(|floor| {
        TakeKnockbackUtil {
            entity: id,
            vector: RelativePosition::new(1, 0),
        }
        .do_action(&floor)
    });
    assert_eq!(
        update.get_contents().entities.get(id).pos,
        AbsolutePosition::new(1, 0)
    );
    assert_eq!(
        update.get_log()[0],
        FloorEvent::KnockbackEvent(KnockbackEvent {
            subject: id,
            tile: AbsolutePosition::new(1, 0)
        })
    );
    assert!(matches!(
        update.get_contents().entities.get(other).state,
        EntityState::Knockdown { next_round: 0 }
    ));
    assert_eq!(
        update.get_log()[1],
        FloorEvent::KnockdownEvent(KnockdownEvent { subject: other })
    );
}

#[test]
fn knockback_stops_at_wall() {
    let floor = Floor::new_minimal().set_map(FloorMap::new_with_tiles(vec![
        (AbsolutePosition::new(0, 0), FloorTile::Floor),
        (AbsolutePosition::new(1, 0), FloorTile::Floor),
    ]));
    let (update, id) = floor.add_entity(Entity::default());
    let update = update.bind(|floor| {
        TakeKnockbackUtil {
            entity: id,
            vector: RelativePosition::new(5, 0),
        }
        .do_action(&floor)
    });
    assert_eq!(
        update.get_contents().entities.get(id).pos,
        AbsolutePosition::new(1, 0)
    );
}

#[test]
fn multiknockback_basic() {
    let floor = Floor::new_minimal();
    let (update, id) = floor.add_entity(Entity::default());
    let (update, other) = add(
        update,
        Entity {
            pos: AbsolutePosition::new(1, 0),
            ..Entity::default()
        },
    );

    let update = update.bind(|floor| {
        MultiKnockbackUtil {
            all_displacements: vec![
                (id, RelativePosition::new(1, 0)),
                (other, RelativePosition::new(1, 0)),
            ],
        }
        .do_action(&floor)
    });
    assert_eq!(
        update.get_contents().entities.get(id).pos,
        AbsolutePosition::new(1, 0)
    );
    assert_eq!(
        update.get_contents().entities.get(other).pos,
        AbsolutePosition::new(2, 0)
    );
    assert!(
        update
            .get_log()
            .contains(&FloorEvent::KnockbackEvent(KnockbackEvent {
                subject: id,
                tile: AbsolutePosition::new(1, 0)
            }))
    );
    assert!(
        update
            .get_log()
            .contains(&FloorEvent::KnockbackEvent(KnockbackEvent {
                subject: other,
                tile: AbsolutePosition::new(2, 0)
            }))
    );
}

#[test]
fn multiknockback_intheway() {
    let floor = Floor::new_minimal();
    let (update, id) = floor.add_entity(Entity::default());
    let (update, other) = add(
        update,
        Entity {
            pos: AbsolutePosition::new(1, 0),
            ..Entity::default()
        },
    );

    let update = update.bind(|floor| {
        MultiKnockbackUtil {
            all_displacements: vec![(id, RelativePosition::new(1, 0))],
        }
        .do_action(&floor)
    });
    assert_eq!(
        update.get_contents().entities.get(id).pos,
        AbsolutePosition::new(1, 0)
    );
    assert_eq!(
        update.get_log()[0],
        FloorEvent::KnockbackEvent(KnockbackEvent {
            subject: id,
            tile: AbsolutePosition::new(1, 0)
        })
    );
    assert!(matches!(
        update.get_contents().entities.get(other).state,
        EntityState::Knockdown { next_round: 0 }
    ));
    assert_eq!(
        update.get_log()[1],
        FloorEvent::KnockdownEvent(KnockdownEvent { subject: other })
    );
}

#[test]
fn multiknockback_conflicts() {
    let floor = Floor::new_minimal();
    let floor = floor.set_map(FloorMap::new_with_tiles(vec![
        (AbsolutePosition::new(0, 0), FloorTile::Floor),
        (AbsolutePosition::new(1, 0), FloorTile::Floor),
    ]));

    let (update, id) = floor.add_entity(Entity::default());
    let (update, other) = add(
        update,
        Entity {
            pos: AbsolutePosition::new(1, 0),
            ..Entity::default()
        },
    );

    let update = update.bind(|floor| {
        MultiKnockbackUtil {
            all_displacements: vec![
                (id, RelativePosition::new(1, 0)),
                (other, RelativePosition::new(1, 0)),
            ],
        }
        .do_action(&floor)
    });
    assert_eq!(
        update.get_contents().entities.get(id).pos,
        AbsolutePosition::new(1, 0)
    );
    assert!(
        update
            .get_log()
            .contains(&FloorEvent::KnockbackEvent(KnockbackEvent {
                subject: id,
                tile: AbsolutePosition::new(1, 0)
            }))
    );
    assert_eq!(
        update.get_contents().entities.get(other).pos,
        AbsolutePosition::new(1, 0)
    );
    assert!(
        update
            .get_log()
            .contains(&FloorEvent::KnockbackEvent(KnockbackEvent {
                subject: other,
                tile: AbsolutePosition::new(1, 0)
            }))
    );
    assert!(matches!(
        update.get_contents().entities.get(other).state,
        EntityState::Knockdown { next_round: 0 }
    ));
    assert_eq!(
        update.get_log()[2],
        FloorEvent::KnockdownEvent(KnockdownEvent { subject: other })
    );
}

#[test]
fn refused_actions_name_their_reason() {
    let map = FloorMap::new_with_tiles(vec![(AbsolutePosition::new(0, 0), FloorTile::Floor)]);
    let floor = Floor::new_minimal().set_map(map);
    let (update, id) = floor.add_entity(Entity {
        state: EntityState::Ready { next_round: 0 },
        pos: AbsolutePosition::new(0, 0),
        health: 5,
        energy: 0,
        ..Default::default()
    });
    let (floor, _) = update.into_both();
    let east = RelativePosition::new(1, 0);
    assert_eq!(
        StepAction.verify_action(&floor, id, east).err(),
        Some(ActionError::InvalidTarget)
    );
    assert_eq!(
        BumpAction.verify_action(&floor, id, east).err(),
        Some(ActionError::InvalidTarget)
    );
    assert_eq!(
        StepMacroAction.verify_action(&floor, id, east).err(),
        Some(ActionError::MacroFallthrough)
    );
    assert_eq!(
        TryToStandUpAction.verify_action(&floor, id).err(),
        Some(ActionError::InvalidState)
    );
    assert_eq!(
        ForwardHeavyAction.verify_action(&floor, id, east).err(),
        Some(ActionError::NotEnoughEnergy)
    );
}

#[test]
fn a_floor_neighbor_is_the_first_step() {
    let map = FloorMap::new_with_tiles(vec![
        (AbsolutePosition::new(0, 0), FloorTile::Floor),
        (AbsolutePosition::new(1, 1), FloorTile::Floor),
        (AbsolutePosition::new(1, 0), FloorTile::Wall),
    ]);
    let start = AbsolutePosition::new(0, 0);
    assert_eq!(
        map.get_step(start, AbsolutePosition::new(1, 1)),
        Some(AbsolutePosition::new(1, 1))
    );
    assert_eq!(map.get_step(start, start), Some(start));
    assert_eq!(map.get_step(start, AbsolutePosition::new(1, 0)), None);
}
