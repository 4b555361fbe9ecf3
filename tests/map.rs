use zero_percent::construction::ConstructionVariant;
use zero_percent::map::{GroupId, NodeId, NodeOccupant, StarMap};
use zero_percent::resource::ResourceVariant;

fn pile(var: ResourceVariant, amt: u32) -> NodeOccupant {
    NodeOccupant::Stockpile { var, amt }
}

/// Group 0 holds nodes 0..3, group 1 nodes 3..5, group 2 node 5.
fn small() -> StarMap {
    StarMap::new(
        &vec![3, 2, 1],
        vec![(GroupId(0), GroupId(1)), (GroupId(1), GroupId(2))],
    )
}

#[test]
fn new_lays_out_groups_in_order() {
    let m = small();
    assert_eq!(m.groups[0], vec![NodeId(0), NodeId(1), NodeId(2)]);
    assert_eq!(m.groups[1], vec![NodeId(3), NodeId(4)]);
    assert_eq!(m.groups[2], vec![NodeId(5)]);
    assert_eq!(m.occupation.len(), 6);
    assert!(m.occupation.iter().all(|o| o.is_none()));
}

#[test]
fn standard_layout() {
    let m = StarMap::standard();
    assert_eq!(m.groups.len(), 8);
    assert_eq!(m.occupation.len(), 34);
    assert_eq!(m.group_from_node(&NodeId(4)), GroupId(0));
    assert_eq!(m.group_from_node(&NodeId(5)), GroupId(1));
    assert_eq!(m.group_from_node(&NodeId(33)), GroupId(7));
    assert_eq!(m.star(&GroupId(1)), vec![GroupId(0), GroupId(2), GroupId(5), GroupId(6)]);
    assert_eq!(m.groups[4], (16..24).map(NodeId).collect::<Vec<_>>());
    assert_eq!(m.groups[7], (29..34).map(NodeId).collect::<Vec<_>>());
    assert!(m.is_neighbor(&GroupId(7), &GroupId(6)));
    assert!(!m.is_neighbor(&GroupId(7), &GroupId(1)));
}

#[test]
fn group_of_node() {
    let m = small();
    assert_eq!(m.group_from_node(&NodeId(0)), GroupId(0));
    assert_eq!(m.group_from_node(&NodeId(4)), GroupId(1));
    assert_eq!(m.group_from_node(&NodeId(5)), GroupId(2));
}

#[test]
fn star_is_symmetric() {
    let m = small();
    assert_eq!(m.star(&GroupId(0)), vec![GroupId(1)]);
    assert_eq!(m.star(&GroupId(1)), vec![GroupId(0), GroupId(2)]);
    assert_eq!(m.star(&GroupId(2)), vec![GroupId(1)]);
}

#[test]
fn pooled_bunch_counts_stockpiles_only() {
    let mut m = small();
    m.set_at(&NodeId(0), pile(ResourceVariant::Power, 3));
    m.set_at(&NodeId(1), pile(ResourceVariant::Power, 150));
    m.set_at(
        &NodeId(2),
        NodeOccupant::Construction { var: ConstructionVariant::Quarry, cooldown: 0 },
    );
    m.set_at(&NodeId(3), pile(ResourceVariant::Power, 9));
    let b = m.get_group_bunch(&GroupId(0));
    assert_eq!(b.get(ResourceVariant::Power), 153);
    assert_eq!(b.get(ResourceVariant::Food), 0);
    assert_eq!(m.get_group_bunch(&GroupId(1)).get(ResourceVariant::Power), 9);
}

#[test]
fn lowest_takes_first_on_ties() {
    let mut m = small();
    m.set_at(&NodeId(0), pile(ResourceVariant::Food, 7));
    m.set_at(&NodeId(1), pile(ResourceVariant::Food, 4));
    m.set_at(&NodeId(2), pile(ResourceVariant::Food, 4));
    assert_eq!(m.get_lowest_stockpile(&GroupId(0), &ResourceVariant::Food), NodeId(1));
    assert_eq!(m.get_lowest_stockpile(&GroupId(0), &ResourceVariant::Food), NodeId(1));
    assert_eq!(m.find_lowest_stockpile(&GroupId(0), &ResourceVariant::Power), None);
}

#[test]
fn highest_open_takes_last_on_ties_and_skips_full() {
    let mut m = small();
    m.set_at(&NodeId(0), pile(ResourceVariant::Food, 40));
    m.set_at(&NodeId(1), pile(ResourceVariant::Food, 40));
    m.set_at(&NodeId(2), pile(ResourceVariant::Food, 100));
    assert_eq!(
        m.get_highest_open_stockpile(&GroupId(0), &ResourceVariant::Food),
        Some(NodeId(1))
    );
    m.set_at(&NodeId(1), pile(ResourceVariant::Food, 100));
    m.set_at(&NodeId(0), pile(ResourceVariant::Food, 100));
    assert_eq!(m.get_highest_open_stockpile(&GroupId(0), &ResourceVariant::Food), None);
}

#[test]
fn first_empty_node() {
    let mut m = small();
    assert_eq!(m.get_first_empty(&GroupId(0)), Some(NodeId(0)));
    m.set_at(&NodeId(0), pile(ResourceVariant::Food, 1));
    assert_eq!(m.get_first_empty(&GroupId(0)), Some(NodeId(1)));
    m.set_at(&NodeId(5), pile(ResourceVariant::Food, 1));
    assert_eq!(m.get_first_empty(&GroupId(2)), None);
}

#[test]
fn add_resource_tops_up_fullest_first() {
    let mut m = small();
    m.set_at(&NodeId(0), pile(ResourceVariant::Material, 90));
    m.set_at(&NodeId(1), pile(ResourceVariant::Material, 30));
    let r = m.add_resource_in_group(&GroupId(0), &ResourceVariant::Material, 25);
    assert_eq!(r, vec![(NodeId(0), 100, 10), (NodeId(1), 45, 15)]);
    assert_eq!(m.get_at(&NodeId(0)), Some(pile(ResourceVariant::Material, 100)));
    assert_eq!(m.get_at(&NodeId(1)), Some(pile(ResourceVariant::Material, 45)));
    assert_eq!(m.get_at(&NodeId(2)), None);
}

#[test]
fn add_resource_overflow_goes_to_empty_node() {
    let mut m = small();
    m.set_at(&NodeId(0), pile(ResourceVariant::Material, 50));
    m.set_at(&NodeId(1), pile(ResourceVariant::Material, 50));
    let r = m.add_resource_in_group(&GroupId(0), &ResourceVariant::Material, 150);
    assert_eq!(r, vec![(NodeId(1), 100, 50), (NodeId(0), 100, 50), (NodeId(2), 50, 50)]);
    assert_eq!(r.iter().map(|a| a.2).sum::<u32>(), 150);
    assert_eq!(m.get_group_bunch(&GroupId(0)).get(ResourceVariant::Material), 250);
}

#[test]
fn add_resource_empty_node_is_not_capped() {
    let mut m = small();
    m.set_at(&NodeId(0), pile(ResourceVariant::Material, 50));
    m.set_at(
        &NodeId(1),
        NodeOccupant::Construction { var: ConstructionVariant::Quarry, cooldown: 0 },
    );
    let r = m.add_resource_in_group(&GroupId(0), &ResourceVariant::Material, 250);
    assert_eq!(r, vec![(NodeId(0), 100, 50), (NodeId(2), 200, 200)]);
    assert_eq!(m.get_at(&NodeId(2)), Some(pile(ResourceVariant::Material, 200)));
    for (node, amount, _) in &r {
        if *node != NodeId(2) {
            assert!(*amount <= 100);
        }
    }
}

#[test]
fn add_resource_without_room_is_lost() {
    let mut m = small();
    m.set_at(&NodeId(3), pile(ResourceVariant::Food, 100));
    m.set_at(&NodeId(4), pile(ResourceVariant::Food, 95));
    let r = m.add_resource_in_group(&GroupId(1), &ResourceVariant::Food, 20);
    assert_eq!(r, vec![(NodeId(4), 100, 5)]);
    assert_eq!(m.get_group_bunch(&GroupId(1)).get(ResourceVariant::Food), 200);
}

#[test]
fn add_resource_of_nothing_changes_nothing() {
    let mut m = small();
    let r = m.add_resource_in_group(&GroupId(0), &ResourceVariant::Food, 0);
    assert!(r.is_empty());
    assert!(m.occupation.iter().all(|o| o.is_none()));
}

#[test]
fn consume_takes_from_lowest_and_prunes() {
    let mut m = small();
    m.set_at(&NodeId(0), pile(ResourceVariant::Power, 3));
    m.set_at(&NodeId(1), pile(ResourceVariant::Power, 10));
    let log = m.consume_in_group(&GroupId(0), &ResourceVariant::Power, 5, 10000, &NodeId(2), 5);
    assert_eq!(log.len(), 2);
    assert_eq!(m.get_at(&NodeId(0)), None);
    assert_eq!(m.get_at(&NodeId(1)), Some(pile(ResourceVariant::Power, 8)));
    match log[0] {
        zero_percent::turn::AutoAction::ConsumeResource { from, to, abs, diff, .. } => {
            assert_eq!((from, to, abs, diff), (NodeId(0), NodeId(2), 0, 5));
        }
        _ => panic!("expected a consumption"),
    }
    match log[1] {
        zero_percent::turn::AutoAction::ConsumeResource { from, abs, diff, .. } => {
            assert_eq!((from, abs, diff), (NodeId(1), 8, 5));
        }
        _ => panic!("expected a consumption"),
    }
}

#[test]
fn ship_reach_and_move_targets() {
    let m = small();
    assert!(m.ship_in_reach(&GroupId(0), &GroupId(0)));
    assert!(m.ship_in_reach(&GroupId(1), &GroupId(0)));
    assert!(!m.ship_in_reach(&GroupId(2), &GroupId(0)));
    assert_eq!(
        m.move_targets(&NodeId(0), &GroupId(0)),
        vec![NodeId(3), NodeId(4), NodeId(0), NodeId(1), NodeId(2)]
    );
    assert_eq!(
        m.move_targets(&NodeId(3), &GroupId(0)),
        vec![NodeId(0), NodeId(1), NodeId(2), NodeId(3), NodeId(4)]
    );
    assert_eq!(m.move_targets(&NodeId(5), &GroupId(0)), vec![NodeId(5)]);
}

#[test]
fn relocate_rewires_home_once() {
    let mut m = StarMap::new(
        &vec![1, 1, 1, 1],
        vec![
            (GroupId(0), GroupId(1)),
            (GroupId(1), GroupId(2)),
            (GroupId(3), GroupId(0)),
            (GroupId(2), GroupId(3)),
        ],
    );
    m.relocate(&GroupId(0), &GroupId(2));
    let once = m.edges.clone();
    assert_eq!(
        once,
        vec![(GroupId(1), GroupId(2)), (GroupId(2), GroupId(3)), (GroupId(0), GroupId(2))]
    );
    m.relocate(&GroupId(0), &GroupId(2));
    assert_eq!(m.edges, once);
    assert_eq!(m.star(&GroupId(0)), vec![GroupId(2)]);
}

#[test]
fn cooldowns_tick_and_candidates_in_node_order() {
    let mut m = small();
    m.set_at(&NodeId(4), NodeOccupant::Construction { var: ConstructionVariant::Quarry, cooldown: 1 });
    m.set_at(&NodeId(1), NodeOccupant::Construction { var: ConstructionVariant::PlanetFarm, cooldown: 0 });
    m.set_at(&NodeId(5), NodeOccupant::Construction { var: ConstructionVariant::SolarField, cooldown: 2 });
    m.tick_cooldowns();
    assert_eq!(
        m.get_at(&NodeId(5)),
        Some(NodeOccupant::Construction { var: ConstructionVariant::SolarField, cooldown: 1 })
    );
    assert_eq!(
        m.ready_constructions(),
        vec![(NodeId(1), ConstructionVariant::PlanetFarm), (NodeId(4), ConstructionVariant::Quarry)]
    );
}
