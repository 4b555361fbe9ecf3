use vstd::prelude::*;
use crate::resource::{Bunch, ResourceVariant};

verus! {

/// A kind of construction that can be built on a node.
#[derive(Debug, Clone, Copy, PartialEq, Eq, Structural, Hash)]
pub enum ConstructionVariant {
    SolarField,
    AtmosphereHarvester,
    ChemicalPlant,
    PlanetFarm,
    AsteroidMine,
    Quarry,
    PowerPlant,
}

impl ConstructionVariant {
    /// Position of the kind in the catalog order.
    pub open spec fn spec_position(self) -> int {
        match self {
            ConstructionVariant::SolarField => 0,
            ConstructionVariant::AtmosphereHarvester => 1,
            ConstructionVariant::ChemicalPlant => 2,
            ConstructionVariant::PlanetFarm => 3,
            ConstructionVariant::AsteroidMine => 4,
            ConstructionVariant::Quarry => 5,
            ConstructionVariant::PowerPlant => 6,
        }
    }

    /// Material needed to build one.
    pub open spec fn spec_material_cost(self) -> u32 {
        match self {
            ConstructionVariant::SolarField => 5,
            ConstructionVariant::AtmosphereHarvester => 20,
            ConstructionVariant::ChemicalPlant => 3,
            ConstructionVariant::PlanetFarm => 10,
            ConstructionVariant::AsteroidMine => 2,
            ConstructionVariant::Quarry => 5,
            ConstructionVariant::PowerPlant => 5,
        }
    }

    /// What one production cycle consumes: a kind and an amount (zero for none).
    pub open spec fn spec_request(self) -> (ResourceVariant, u32) {
        match self {
            ConstructionVariant::SolarField => (ResourceVariant::Power, 0),
            ConstructionVariant::AtmosphereHarvester => (ResourceVariant::Power, 50),
            ConstructionVariant::ChemicalPlant => (ResourceVariant::Material, 2),
            ConstructionVariant::PlanetFarm => (ResourceVariant::Material, 12),
            ConstructionVariant::AsteroidMine => (ResourceVariant::RocketFuel, 2),
            ConstructionVariant::Quarry => (ResourceVariant::Power, 45),
            ConstructionVariant::PowerPlant => (ResourceVariant::RocketFuel, 2),
        }
    }

    /// What one production cycle yields: a kind and an amount.
    pub open spec fn spec_produce(self) -> (ResourceVariant, u32) {
        match self {
            ConstructionVariant::SolarField => (ResourceVariant::Power, 3),
            ConstructionVariant::AtmosphereHarvester => (ResourceVariant::FusionFuel, 10),
            ConstructionVariant::ChemicalPlant => (ResourceVariant::RocketFuel, 4),
            ConstructionVariant::PlanetFarm => (ResourceVariant::Food, 10),
            ConstructionVariant::AsteroidMine => (ResourceVariant::Material, 5),
            ConstructionVariant::Quarry => (ResourceVariant::Material, 30),
            ConstructionVariant::PowerPlant => (ResourceVariant::Power, 10),
        }
    }

    /// Turns to wait between two production cycles.
    pub open spec fn spec_cooldown(self) -> u32 {
        match self {
            ConstructionVariant::AtmosphereHarvester => 3,
            ConstructionVariant::PlanetFarm => 2,
            ConstructionVariant::Quarry => 3,
            _ => 1,
        }
    }

    /// Display name of the kind.
    pub open spec fn spec_name(self) -> Seq<char> {
        match self {
            ConstructionVariant::SolarField => "Solar Field"@,
            ConstructionVariant::AtmosphereHarvester => "Atmosphere Harvester"@,
            ConstructionVariant::ChemicalPlant => "Chemical Plant"@,
            ConstructionVariant::PlanetFarm => "Farm"@,
            ConstructionVariant::AsteroidMine => "Asteroid Miner"@,
            ConstructionVariant::Quarry => "Quarry"@,
            ConstructionVariant::PowerPlant => "Power Plant"@,
        }
    }

    /// Index of the sprite that shows this kind.
    pub fn get_sprite_index(&self) -> (r: usize)
        ensures
            r == 16 + self.spec_position(),
    {
        match self {
            ConstructionVariant::SolarField => 16,
            ConstructionVariant::AtmosphereHarvester => 17,
            ConstructionVariant::ChemicalPlant => 18,
            ConstructionVariant::PlanetFarm => 19,
            ConstructionVariant::AsteroidMine => 20,
            ConstructionVariant::Quarry => 21,
            ConstructionVariant::PowerPlant => 22,
        }
    }

    pub fn get_material_cost(&self) -> (r: u32)
        ensures
            r == self.spec_material_cost(),
    {
        match self {
            ConstructionVariant::SolarField => 5,
            ConstructionVariant::AtmosphereHarvester => 20,
            ConstructionVariant::ChemicalPlant => 3,
            ConstructionVariant::PlanetFarm => 10,
            ConstructionVariant::AsteroidMine => 2,
            ConstructionVariant::Quarry => 5,
            ConstructionVariant::PowerPlant => 5,
        }
    }

    /// The kind and amount one cycle consumes.
    pub fn request(&self) -> (r: (ResourceVariant, u32))
        ensures
            r == self.spec_request(),
    {
        match self {
            ConstructionVariant::SolarField => (ResourceVariant::Power, 0),
            ConstructionVariant::AtmosphereHarvester => (ResourceVariant::Power, 50),
            ConstructionVariant::ChemicalPlant => (ResourceVariant::Material, 2),
            ConstructionVariant::PlanetFarm => (ResourceVariant::Material, 12),
            ConstructionVariant::AsteroidMine => (ResourceVariant::RocketFuel, 2),
            ConstructionVariant::Quarry => (ResourceVariant::Power, 45),
            ConstructionVariant::PowerPlant => (ResourceVariant::RocketFuel, 2),
        }
    }

    /// The kind and amount one cycle yields.
    pub fn produce(&self) -> (r: (ResourceVariant, u32))
        ensures
            r == self.spec_produce(),
    {
        match self {
            ConstructionVariant::SolarField => (ResourceVariant::Power, 3),
            ConstructionVariant::AtmosphereHarvester => (ResourceVariant::FusionFuel, 10),
            ConstructionVariant::ChemicalPlant => (ResourceVariant::RocketFuel, 4),
            ConstructionVariant::PlanetFarm => (ResourceVariant::Food, 10),
            ConstructionVariant::AsteroidMine => (ResourceVariant::Material, 5),
            ConstructionVariant::Quarry => (ResourceVariant::Material, 30),
            ConstructionVariant::PowerPlant => (ResourceVariant::Power, 10),
        }
    }

    /// Resources requested per production cycle.
    pub fn request_resources(&self) -> (r: Bunch)
        ensures
            r@[self.spec_request().0] == self.spec_request().1,
            forall|k: ResourceVariant| k != self.spec_request().0 ==> #[trigger] r@[k] == 0,
    {
        let (k, n) = self.request();
        Bunch::single(k, n)
    }

    /// Resources produced per production cycle.
    pub fn produce_resources(&self) -> (r: Bunch)
        ensures
            r@[self.spec_produce().0] == self.spec_produce().1,
            forall|k: ResourceVariant| k != self.spec_produce().0 ==> #[trigger] r@[k] == 0,
    {
        let (k, n) = self.produce();
        Bunch::single(k, n)
    }

    pub fn get_cooldown(&self) -> (r: u32)
        ensures
            r == self.spec_cooldown(),
    {
        match self {
            ConstructionVariant::AtmosphereHarvester => 3,
            ConstructionVariant::PlanetFarm => 2,
            ConstructionVariant::Quarry => 3,
            _ => 1,
        }
    }

    /// Every construction kind, in catalog order.
    pub fn iter() -> (r: Vec<ConstructionVariant>)
        ensures
            r@ == seq![
                ConstructionVariant::SolarField,
                ConstructionVariant::AtmosphereHarvester,
                ConstructionVariant::ChemicalPlant,
                ConstructionVariant::PlanetFarm,
                ConstructionVariant::AsteroidMine,
                ConstructionVariant::Quarry,
                ConstructionVariant::PowerPlant,
            ],
    {
        let r = vec![
            ConstructionVariant::SolarField,
            ConstructionVariant::AtmosphereHarvester,
            ConstructionVariant::ChemicalPlant,
            ConstructionVariant::PlanetFarm,
            ConstructionVariant::AsteroidMine,
            ConstructionVariant::Quarry,
            ConstructionVariant::PowerPlant,
        ];
        assert(r@ =~= seq![
            ConstructionVariant::SolarField,
            ConstructionVariant::AtmosphereHarvester,
            ConstructionVariant::ChemicalPlant,
            ConstructionVariant::PlanetFarm,
            ConstructionVariant::AsteroidMine,
            ConstructionVariant::Quarry,
            ConstructionVariant::PowerPlant,
        ]);
        r
    }

    pub fn to_string(&self) -> (r: String)
        ensures
            r@ == self.spec_name(),
    {
        let s = match self {
            ConstructionVariant::SolarField => "Solar Field",
            ConstructionVariant::AtmosphereHarvester => "Atmosphere Harvester",
            ConstructionVariant::ChemicalPlant => "Chemical Plant",
            ConstructionVariant::PlanetFarm => "Farm",
            ConstructionVariant::AsteroidMine => "Asteroid Miner",
            ConstructionVariant::Quarry => "Quarry",
            ConstructionVariant::PowerPlant => "Power Plant",
        };
        s.to_string()
    }
}

} // verus!
