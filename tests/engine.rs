use zero_percent::construction::ConstructionVariant;
use zero_percent::engine::{AutoActions, Engine, GameStatus, Ship, TurnCount};
use zero_percent::map::{GroupId, NodeId, NodeOccupant, StarMap};
use zero_percent::resource::ResourceVariant;
use zero_percent::turn::AutoAction;

fn pile(var: ResourceVariant, amt: u32) -> NodeOccupant {
    NodeOccupant::Stockpile { var, amt }
}

/// Group 0 (the ship's own, nodes 0..3) is joined to group 1 (nodes 3..6), which is joined to
/// group 2 (nodes 6..9); group 2 is joined to group 3 (node 9). The ship orbits group 1.
fn engine() -> Engine {
    let map = StarMap::new(
        &vec![3, 3, 3, 1],
        vec![
            (GroupId(0), GroupId(1)),
            (GroupId(1), GroupId(2)),
            (GroupId(2), GroupId(3)),
        ],
    );
    Engine {
        map,
        ship: Ship { orbiting_group: GroupId(1), own_group: GroupId(0), planned_move: None },
        turns: TurnCount::default(),
        status: GameStatus::Playing,
        autoactions: AutoActions::default(),
    }
}

fn drain_playback(e: &mut Engine) {
    while !e.autoactions.done() {
        e.autoactions.step();
    }
}

fn count_produce(log: &[AutoAction]) -> usize {
    log.iter().filter(|a| matches!(a, AutoAction::ProduceResource { .. })).count()
}

fn count_moves(log: &[AutoAction]) -> usize {
    log.iter().filter(|a| matches!(a, AutoAction::ShipMove { .. })).count()
}

#[test]
fn solar_field_produces_into_existing_pile() {
    let mut e = engine();
    e.map.set_at(&NodeId(0), pile(ResourceVariant::Food, 50));
    e.map.set_at(&NodeId(3), pile(ResourceVariant::Power, 3));
    e.map.set_at(
        &NodeId(4),
        NodeOccupant::Construction { var: ConstructionVariant::SolarField, cooldown: 1 },
    );
    assert!(e.end_turn());
    assert_eq!(e.map.get_group_bunch(&GroupId(1)).get(ResourceVariant::Power), 6);
    assert_eq!(
        e.map.get_at(&NodeId(4)),
        Some(NodeOccupant::Construction { var: ConstructionVariant::SolarField, cooldown: 1 })
    );
    assert_eq!(count_produce(&e.autoactions.actions), 1);
    assert_eq!(
        e.autoactions.actions[0],
        AutoAction::ProduceResource {
            from: NodeId(4),
            to: NodeId(3),
            var: ResourceVariant::Power,
            abs: 6,
            diff: 3,
        }
    );
    assert_eq!(e.turns.count, 2);
    assert_eq!(e.status, GameStatus::Playing);
}

#[test]
fn starved_construction_does_not_run() {
    let mut e = engine();
    e.map.set_at(&NodeId(0), pile(ResourceVariant::Food, 50));
    e.map.set_at(&NodeId(3), pile(ResourceVariant::Power, 3));
    e.map.set_at(
        &NodeId(4),
        NodeOccupant::Construction { var: ConstructionVariant::Quarry, cooldown: 0 },
    );
    assert!(e.end_turn());
    assert_eq!(e.map.get_at(&NodeId(3)), Some(pile(ResourceVariant::Power, 3)));
    assert_eq!(
        e.map.get_at(&NodeId(4)),
        Some(NodeOccupant::Construction { var: ConstructionVariant::Quarry, cooldown: 0 })
    );
    assert_eq!(e.autoactions.actions.len(), 1);
    assert!(matches!(
        e.autoactions.actions[0],
        AutoAction::ConsumeResource { var: ResourceVariant::Food, .. }
    ));
}

#[test]
fn consumption_records_whole_request() {
    let mut e = engine();
    e.map.set_at(&NodeId(0), pile(ResourceVariant::Food, 50));
    e.map.set_at(&NodeId(3), pile(ResourceVariant::Material, 1));
    e.map.set_at(&NodeId(4), pile(ResourceVariant::Material, 5));
    e.map.set_at(
        &NodeId(5),
        NodeOccupant::Construction { var: ConstructionVariant::ChemicalPlant, cooldown: 0 },
    );
    assert!(e.end_turn());
    let log = e.autoactions.actions.clone();
    assert_eq!(
        log[0],
        AutoAction::ConsumeResource {
            from: NodeId(3),
            to: NodeId(5),
            var: ResourceVariant::Material,
            abs: 0,
            diff: 2,
        }
    );
    assert_eq!(
        log[1],
        AutoAction::ConsumeResource {
            from: NodeId(4),
            to: NodeId(5),
            var: ResourceVariant::Material,
            abs: 4,
            diff: 2,
        }
    );
    assert_eq!(
        log[2],
        AutoAction::ProduceResource {
            from: NodeId(5),
            to: NodeId(3),
            var: ResourceVariant::RocketFuel,
            abs: 4,
            diff: 4,
        }
    );
    assert_eq!(e.map.get_at(&NodeId(4)), Some(pile(ResourceVariant::Material, 4)));
}

#[test]
fn candidates_run_in_node_order_and_feed_each_other() {
    let mut e = engine();
    e.map.set_at(&NodeId(0), pile(ResourceVariant::Food, 50));
    // Node 4 comes first: the chemical plant turns the 2 material into 4 rocket fuel, which lands
    // on node 3 (emptied by the consumption). Then the power plant at node 5 can run on 2 of it;
    // its 10 power find neither a pile nor an empty node and are lost.
    e.map.set_at(&NodeId(3), pile(ResourceVariant::Material, 2));
    e.map.set_at(
        &NodeId(5),
        NodeOccupant::Construction { var: ConstructionVariant::PowerPlant, cooldown: 0 },
    );
    e.map.set_at(
        &NodeId(4),
        NodeOccupant::Construction { var: ConstructionVariant::ChemicalPlant, cooldown: 0 },
    );
    assert!(e.end_turn());
    assert_eq!(
        e.map.get_at(&NodeId(4)),
        Some(NodeOccupant::Construction { var: ConstructionVariant::ChemicalPlant, cooldown: 1 })
    );
    assert_eq!(
        e.map.get_at(&NodeId(5)),
        Some(NodeOccupant::Construction { var: ConstructionVariant::PowerPlant, cooldown: 1 })
    );
    assert_eq!(e.map.get_at(&NodeId(3)), Some(pile(ResourceVariant::RocketFuel, 2)));
}

#[test]
fn food_runs_out_then_run_is_lost() {
    let mut e = engine();
    e.map.set_at(&NodeId(0), pile(ResourceVariant::Food, 1));
    assert!(e.end_turn());
    assert_eq!(e.map.get_at(&NodeId(0)), None);
    assert_eq!(e.status, GameStatus::Playing);
    assert_eq!(
        e.autoactions.actions,
        vec![AutoAction::ConsumeResource {
            from: NodeId(0),
            to: NodeId(0),
            var: ResourceVariant::Food,
            abs: 0,
            diff: -1,
        }]
    );
    drain_playback(&mut e);
    assert!(e.end_turn());
    assert_eq!(e.status, GameStatus::Lost);
    drain_playback(&mut e);
    assert!(!e.end_turn());
    assert_eq!(e.turns.count, 3);
}

#[test]
fn busy_playback_drops_the_signal() {
    let mut e = engine();
    e.map.set_at(&NodeId(0), pile(ResourceVariant::Food, 10));
    assert!(e.end_turn());
    assert!(!e.autoactions.done());
    assert!(!e.end_turn());
    assert_eq!(e.turns.count, 2);
    assert_eq!(e.map.get_at(&NodeId(0)), Some(pile(ResourceVariant::Food, 9)));
    e.autoactions.step();
    assert!(!e.autoactions.done());
    e.autoactions.step();
    assert!(e.autoactions.done());
    assert!(e.end_turn());
    assert_eq!(e.map.get_at(&NodeId(0)), Some(pile(ResourceVariant::Food, 8)));
}

#[test]
fn playback_steps_in_order() {
    let mut q = AutoActions::default();
    let a = AutoAction::ShipMove { from: GroupId(1), to: GroupId(2) };
    let b = AutoAction::ShipMove { from: GroupId(2), to: GroupId(3) };
    q.actions = vec![a, b];
    assert_eq!(q.step(), (None, Some(a)));
    assert_eq!(q.step(), (Some(a), Some(b)));
    assert_eq!(q.step(), (Some(b), None));
    assert!(q.done());
    assert_eq!(q.step(), (None, None));
}

#[test]
fn ship_moves_and_rewires_home() {
    let mut e = engine();
    e.map.set_at(&NodeId(0), pile(ResourceVariant::Food, 50));
    e.map.set_at(&NodeId(1), pile(ResourceVariant::FusionFuel, 1));
    assert!(e.select_destination(&GroupId(2)));
    assert_eq!(e.ship.planned_move, Some(GroupId(2)));
    assert!(e.end_turn());
    assert_eq!(e.map.get_group_bunch(&GroupId(0)).get(ResourceVariant::FusionFuel), 0);
    assert_eq!(e.map.get_at(&NodeId(1)), None);
    assert_eq!(e.ship.orbiting_group, GroupId(2));
    assert_eq!(e.ship.planned_move, None);
    assert_eq!(
        e.map.edges,
        vec![(GroupId(1), GroupId(2)), (GroupId(2), GroupId(3)), (GroupId(0), GroupId(2))]
    );
    assert_eq!(count_moves(&e.autoactions.actions), 1);
    let n = e.autoactions.actions.len();
    assert_eq!(
        e.autoactions.actions[n - 1],
        AutoAction::ShipMove { from: GroupId(1), to: GroupId(2) }
    );
    assert_eq!(
        e.autoactions.actions[n - 2],
        AutoAction::ConsumeResource {
            from: NodeId(1),
            to: NodeId(1),
            var: ResourceVariant::FusionFuel,
            abs: 0,
            diff: -1,
        }
    );
}

#[test]
fn no_fuel_no_move_and_plan_cleared() {
    let mut e = engine();
    e.map.set_at(&NodeId(0), pile(ResourceVariant::Food, 50));
    assert!(e.select_destination(&GroupId(2)));
    assert_eq!(e.ship.planned_move, Some(GroupId(2)));
    assert!(e.end_turn());
    assert_eq!(e.ship.orbiting_group, GroupId(1));
    assert_eq!(e.ship.planned_move, None);
    assert_eq!(count_moves(&e.autoactions.actions), 0);
    assert_eq!(e.map.edges.len(), 3);
}

#[test]
fn destination_must_be_near() {
    let mut e = engine();
    e.map.set_at(&NodeId(1), pile(ResourceVariant::FusionFuel, 3));
    assert!(!e.select_destination(&GroupId(3)));
    assert!(!e.select_destination(&GroupId(0)));
    assert!(!e.select_destination(&GroupId(1)));
    assert_eq!(e.ship.planned_move, None);
    assert!(e.select_destination(&GroupId(2)));
    assert_eq!(e.ship.planned_move, Some(GroupId(2)));
}

#[test]
fn run_is_won_with_plenty() {
    let mut e = engine();
    e.map.set_at(&NodeId(0), pile(ResourceVariant::Food, 101));
    e.map.set_at(&NodeId(1), pile(ResourceVariant::FusionFuel, 101));
    assert!(e.end_turn());
    assert_eq!(e.status, GameStatus::Won);
    drain_playback(&mut e);
    assert!(!e.end_turn());
}

#[test]
fn run_not_won_at_threshold() {
    let mut e = engine();
    e.map.set_at(&NodeId(0), pile(ResourceVariant::Food, 100));
    e.map.set_at(&NodeId(1), pile(ResourceVariant::FusionFuel, 101));
    assert!(e.end_turn());
    assert_eq!(e.status, GameStatus::Playing);
}

#[test]
fn no_empty_stockpile_after_turns() {
    let mut e = Engine::new();
    for _ in 0..12 {
        drain_playback(&mut e);
        e.end_turn();
        for o in e.map.occupation.iter() {
            if let Some(NodeOccupant::Stockpile { amt, .. }) = o {
                assert!(*amt >= 1);
            }
        }
    }
}

#[test]
fn new_run_starting_state() {
    let e = Engine::new();
    assert_eq!(e.turns.count, 1);
    assert_eq!(e.status, GameStatus::Playing);
    assert!(e.autoactions.done());
    assert_eq!(e.ship.own_group, GroupId(0));
    assert_eq!(e.ship.orbiting_group, GroupId(1));
    assert_eq!(
        e.map.get_at(&NodeId(0)),
        Some(NodeOccupant::Construction { var: ConstructionVariant::SolarField, cooldown: 0 })
    );
    assert_eq!(e.map.get_at(&NodeId(1)), Some(pile(ResourceVariant::FusionFuel, 20)));
    assert_eq!(e.map.get_at(&NodeId(2)), Some(pile(ResourceVariant::Material, 20)));
    assert_eq!(e.map.get_at(&NodeId(3)), Some(pile(ResourceVariant::Food, 20)));
    assert_eq!(e.map.get_at(&NodeId(4)), None);
}

#[test]
fn reset_restores_new_run() {
    let mut e = Engine::new();
    e.end_turn();
    e.status = GameStatus::Lost;
    e.reset();
    assert_eq!(e.turns.count, 1);
    assert_eq!(e.status, GameStatus::Playing);
    assert!(e.autoactions.done());
    assert_eq!(e.map.get_at(&NodeId(3)), Some(pile(ResourceVariant::Food, 20)));
}

#[test]
fn build_takes_material_cost() {
    let mut e = engine();
    e.map.set_at(&NodeId(3), pile(ResourceVariant::Material, 3));
    e.map.set_at(&NodeId(4), pile(ResourceVariant::Material, 4));
    assert!(e.build(&NodeId(5), &ConstructionVariant::SolarField));
    assert_eq!(
        e.map.get_at(&NodeId(5)),
        Some(NodeOccupant::Construction { var: ConstructionVariant::SolarField, cooldown: 0 })
    );
    assert_eq!(e.map.get_at(&NodeId(3)), None);
    assert_eq!(e.map.get_at(&NodeId(4)), Some(pile(ResourceVariant::Material, 2)));
    assert_eq!(e.autoactions.actions.len(), 2);
    assert!(!e.build(&NodeId(5), &ConstructionVariant::SolarField));
    assert!(!e.build(&NodeId(3), &ConstructionVariant::AtmosphereHarvester));
}

#[test]
fn demolish_clears_node() {
    let mut e = engine();
    e.map.set_at(
        &NodeId(4),
        NodeOccupant::Construction { var: ConstructionVariant::Quarry, cooldown: 2 },
    );
    e.demolish(&NodeId(4));
    assert_eq!(e.map.get_at(&NodeId(4)), None);
}

#[test]
fn transfer_whole_to_empty_node() {
    let mut e = engine();
    e.map.set_at(&NodeId(3), pile(ResourceVariant::Food, 30));
    assert!(e.transfer(&NodeId(3), &NodeId(1), false));
    assert_eq!(e.map.get_at(&NodeId(3)), None);
    assert_eq!(e.map.get_at(&NodeId(1)), Some(pile(ResourceVariant::Food, 30)));
    assert_eq!(
        e.autoactions.actions,
        vec![
            AutoAction::ConsumeResource {
                from: NodeId(3),
                to: NodeId(1),
                var: ResourceVariant::Food,
                abs: 0,
                diff: 30,
            },
            AutoAction::ProduceResource {
                from: NodeId(1),
                to: NodeId(1),
                var: ResourceVariant::Food,
                abs: 30,
                diff: 30,
            },
        ]
    );
}

#[test]
fn transfer_split_caps_at_hundred() {
    let mut e = engine();
    e.map.set_at(&NodeId(0), pile(ResourceVariant::Food, 61));
    e.map.set_at(&NodeId(3), pile(ResourceVariant::Food, 80));
    assert!(e.transfer(&NodeId(0), &NodeId(3), true));
    assert_eq!(e.map.get_at(&NodeId(0)), Some(pile(ResourceVariant::Food, 31)));
    assert_eq!(e.map.get_at(&NodeId(3)), Some(pile(ResourceVariant::Food, 100)));
}

#[test]
fn transfer_refused_cases() {
    let mut e = engine();
    e.map.set_at(&NodeId(0), pile(ResourceVariant::Food, 1));
    e.map.set_at(&NodeId(3), pile(ResourceVariant::Power, 5));
    e.map.set_at(&NodeId(6), pile(ResourceVariant::Power, 5));
    // different kinds
    assert!(!e.transfer(&NodeId(0), &NodeId(3), false));
    // half of one is nothing
    assert!(!e.transfer(&NodeId(0), &NodeId(1), true));
    // group 2 is not toward the ship's group from group 1
    assert!(!e.transfer(&NodeId(3), &NodeId(6), false));
    // same node
    assert!(!e.transfer(&NodeId(3), &NodeId(3), false));
    // no stockpile on the source
    assert!(!e.transfer(&NodeId(4), &NodeId(1), false));
    assert!(e.autoactions.actions.is_empty());
}

#[test]
fn build_takes_whole_cost_from_many_piles() {
    let map = StarMap::new(&vec![21, 1], vec![(GroupId(0), GroupId(1))]);
    let mut e = Engine {
        map,
        ship: Ship { orbiting_group: GroupId(1), own_group: GroupId(0), planned_move: None },
        turns: TurnCount::default(),
        status: GameStatus::Playing,
        autoactions: AutoActions::default(),
    };
    for i in 0..20 {
        e.map.set_at(&NodeId(i), pile(ResourceVariant::Material, 1));
    }
    e.map.set_at(&NodeId(21), pile(ResourceVariant::Food, 5));
    assert!(e.build(&NodeId(20), &ConstructionVariant::AtmosphereHarvester));
    assert_eq!(e.map.get_group_bunch(&GroupId(0)).get(ResourceVariant::Material), 0);
    assert_eq!(e.autoactions.actions.len(), 20);
    assert_eq!(e.map.get_at(&NodeId(21)), Some(pile(ResourceVariant::Food, 5)));
    assert!(e.autoactions.actions.iter().all(|a| matches!(
        a,
        AutoAction::ConsumeResource { to: NodeId(20), diff: 20, var: ResourceVariant::Material, .. }
    )));
}

#[test]
fn demolish_keeps_queue() {
    let mut e = engine();
    e.autoactions.actions = vec![AutoAction::ShipMove { from: GroupId(1), to: GroupId(2) }];
    e.map.set_at(&NodeId(4), pile(ResourceVariant::Food, 3));
    e.demolish(&NodeId(4));
    assert_eq!(e.autoactions.actions.len(), 1);
}
