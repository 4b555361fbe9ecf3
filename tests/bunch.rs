use zero_percent::construction::ConstructionVariant;
use zero_percent::deploy::Param;
use zero_percent::resource::{Bunch, ResourceVariant};

fn bunch(entries: &[(ResourceVariant, u32)]) -> Bunch {
    let mut b = Bunch::empty();
    for (k, n) in entries {
        b = b.add(Bunch::single(*k, *n));
    }
    b
}

#[test]
fn single_holds_one_kind() {
    let b = Bunch::single(ResourceVariant::Food, 7);
    assert_eq!(b.get(ResourceVariant::Food), 7);
    assert_eq!(b.get(ResourceVariant::Power), 0);
    assert_eq!(b.get(ResourceVariant::FusionFuel), 0);
}

#[test]
fn add_sums_pointwise() {
    let a = bunch(&[(ResourceVariant::Power, 3), (ResourceVariant::Food, 2)]);
    let b = bunch(&[(ResourceVariant::Power, 4), (ResourceVariant::Material, 9)]);
    let c = a.add(b);
    assert_eq!(c.get(ResourceVariant::Power), 7);
    assert_eq!(c.get(ResourceVariant::Food), 2);
    assert_eq!(c.get(ResourceVariant::Material), 9);
    assert_eq!(c.get(ResourceVariant::RocketFuel), 0);
}

#[test]
fn add_commutes_and_associates() {
    let a = bunch(&[(ResourceVariant::Power, 3), (ResourceVariant::Food, 2)]);
    let b = bunch(&[(ResourceVariant::Power, 4), (ResourceVariant::Material, 9)]);
    let c = bunch(&[(ResourceVariant::FusionFuel, 1), (ResourceVariant::Food, 5)]);
    assert_eq!(a.add(b), b.add(a));
    assert_eq!(a.add(b).add(c), a.add(b.add(c)));
}

#[test]
fn contains_single_at_boundary() {
    let a = bunch(&[(ResourceVariant::Power, 5)]);
    assert!(a.contains(&Bunch::single(ResourceVariant::Power, 4)));
    assert!(a.contains(&Bunch::single(ResourceVariant::Power, 5)));
    assert!(!a.contains(&Bunch::single(ResourceVariant::Power, 6)));
    assert!(!a.contains(&Bunch::single(ResourceVariant::Food, 1)));
    assert!(a.contains(&Bunch::single(ResourceVariant::Food, 0)));
}

#[test]
fn contains_needs_every_kind() {
    let a = bunch(&[(ResourceVariant::Power, 5), (ResourceVariant::Food, 1)]);
    let need = bunch(&[(ResourceVariant::Power, 5), (ResourceVariant::Food, 2)]);
    assert!(!a.contains(&need));
    assert!(a.contains(&Bunch::empty()));
    assert!(Bunch::empty().contains(&Bunch::empty()));
}

#[test]
fn resource_names_and_sprites() {
    assert_eq!(ResourceVariant::RocketFuel.to_string(), "Rocket Fuel");
    assert_eq!(ResourceVariant::FusionFuel.to_string(), "Fusion Fuel");
    assert_eq!(ResourceVariant::Power.get_sprite_index(), 8);
    assert_eq!(ResourceVariant::FusionFuel.get_sprite_index(), 12);
}

#[test]
fn catalog_rows() {
    let q = ConstructionVariant::Quarry;
    assert_eq!(q.get_material_cost(), 5);
    assert_eq!(q.request_resources().get(ResourceVariant::Power), 45);
    assert_eq!(q.produce_resources().get(ResourceVariant::Material), 30);
    assert_eq!(q.get_cooldown(), 3);
    let s = ConstructionVariant::SolarField;
    assert_eq!(s.request_resources(), Bunch::empty());
    assert_eq!(s.produce_resources().get(ResourceVariant::Power), 3);
    assert_eq!(s.get_cooldown(), 1);
    assert_eq!(ConstructionVariant::PlanetFarm.get_cooldown(), 2);
    assert_eq!(ConstructionVariant::AtmosphereHarvester.get_material_cost(), 20);
    assert_eq!(ConstructionVariant::PlanetFarm.to_string(), "Farm");
    assert_eq!(ConstructionVariant::AsteroidMine.to_string(), "Asteroid Miner");
    assert_eq!(ConstructionVariant::PowerPlant.get_sprite_index(), 22);
    assert_eq!(ConstructionVariant::SolarField.get_sprite_index(), 16);
    assert_eq!(ConstructionVariant::PlanetFarm.get_sprite_index(), 19);
    let all = ConstructionVariant::iter();
    assert_eq!(all.len(), 7);
    assert_eq!(all[0], ConstructionVariant::SolarField);
    assert_eq!(all[6], ConstructionVariant::PowerPlant);
}

#[test]
fn deploy_switch_spellings() {
    assert_eq!(
        Param::Optimize.to_short_long_string(),
        ("-o".to_string(), "--optimize".to_string())
    );
    assert_eq!(
        Param::PushToItch.to_short_long_string(),
        ("-p".to_string(), "--push-to-itch".to_string())
    );
    let args = vec!["tool".to_string(), "--optimize".to_string()];
    assert!(Param::Optimize.is_set_in(&args));
    assert!(!Param::PushToItch.is_set_in(&args));
    assert!(Param::PushToItch.is_set_in(&vec!["-p".to_string()]));
    assert!(!Param::Optimize.is_set_in(&vec![]));
}
