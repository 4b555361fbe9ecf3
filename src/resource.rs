use vstd::prelude::*;

verus! {

broadcast use vstd::array::group_array_axioms;

/// A kind of resource that stockpiles hold and constructions trade in.
#[derive(Debug, Clone, Copy, PartialEq, Eq, Structural, Hash)]
pub enum ResourceVariant {
    Power,
    RocketFuel,
    Food,
    Material,
    FusionFuel,
}

/// Number of resource kinds.
pub const N_RESOURCES: usize = 5;

impl ResourceVariant {
    /// Position of the kind in the fixed kind order.
    pub open spec fn spec_index(self) -> int {
        match self {
            ResourceVariant::Power => 0,
            ResourceVariant::RocketFuel => 1,
            ResourceVariant::Food => 2,
            ResourceVariant::Material => 3,
            ResourceVariant::FusionFuel => 4,
        }
    }

    /// The kind at a position of the fixed kind order.
    pub open spec fn spec_from_index(i: int) -> ResourceVariant {
        if i == 0 {
            ResourceVariant::Power
        } else if i == 1 {
            ResourceVariant::RocketFuel
        } else if i == 2 {
            ResourceVariant::Food
        } else if i == 3 {
            ResourceVariant::Material
        } else {
            ResourceVariant::FusionFuel
        }
    }

    pub fn index(&self) -> (r: usize)
        ensures
            r == self.spec_index(),
            r < N_RESOURCES,
    {
        match self {
            ResourceVariant::Power => 0,
            ResourceVariant::RocketFuel => 1,
            ResourceVariant::Food => 2,
            ResourceVariant::Material => 3,
            ResourceVariant::FusionFuel => 4,
        }
    }

    /// Index of the sprite that shows this kind.
    pub fn get_sprite_index(&self) -> (r: usize)
        ensures
            r == 8 + self.spec_index(),
    {
        match self {
            ResourceVariant::Power => 8,
            ResourceVariant::RocketFuel => 9,
            ResourceVariant::Food => 10,
            ResourceVariant::Material => 11,
            ResourceVariant::FusionFuel => 12,
        }
    }

    /// Display name of the kind.
    pub open spec fn spec_name(self) -> Seq<char> {
        match self {
            ResourceVariant::Power => "Power"@,
            ResourceVariant::RocketFuel => "Rocket Fuel"@,
            ResourceVariant::Food => "Food"@,
            ResourceVariant::Material => "Material"@,
            ResourceVariant::FusionFuel => "Fusion Fuel"@,
        }
    }

    pub fn to_string(&self) -> (r: String)
        ensures
            r@ == self.spec_name(),
    {
        let s = match self {
            ResourceVariant::Power => "Power",
            ResourceVariant::RocketFuel => "Rocket Fuel",
            ResourceVariant::Food => "Food",
            ResourceVariant::Material => "Material",
            ResourceVariant::FusionFuel => "Fusion Fuel",
        };
        s.to_string()
    }
}

pub proof fn lemma_index_round_trip(k: ResourceVariant)
    ensures
        0 <= k.spec_index() < N_RESOURCES,
        ResourceVariant::spec_from_index(k.spec_index()) == k,
{
}

/// A quantity of each resource kind; a kind that was never named holds zero.
#[derive(Debug, Clone, Copy, PartialEq, Eq)]
pub struct Bunch {
    amounts: [u64; 5],
}

/// Pointwise sum of two bunch models.
pub open spec fn bunch_sum(
    a: Map<ResourceVariant, nat>,
    b: Map<ResourceVariant, nat>,
) -> Map<ResourceVariant, nat> {
    Map::new(|k: ResourceVariant| true, |k: ResourceVariant| a[k] + b[k])
}

/// Whether `a` holds at least as much of every kind as `b`.
pub open spec fn bunch_covers(a: Map<ResourceVariant, nat>, b: Map<ResourceVariant, nat>) -> bool {
    forall|k: ResourceVariant| #[trigger] a[k] >= b[k]
}

/// Whether every pointwise sum of `a` and `b` fits in a `u64`.
pub open spec fn sum_fits(a: Map<ResourceVariant, nat>, b: Map<ResourceVariant, nat>) -> bool {
    forall|k: ResourceVariant| #[trigger] a[k] + b[k] <= u64::MAX
}

impl View for Bunch {
    type V = Map<ResourceVariant, nat>;

    /// The amount held of each kind (every kind is in the domain).
    closed spec fn view(&self) -> Map<ResourceVariant, nat> {
        Map::new(
            |k: ResourceVariant| true,
            |k: ResourceVariant| self.amounts[k.spec_index()] as nat,
        )
    }
}

impl Bunch {
    /// The bunch holding nothing.
    pub fn empty() -> (r: Bunch)
        ensures
            forall|k: ResourceVariant| #[trigger] r@[k] == 0,
    {
        Bunch { amounts: [0, 0, 0, 0, 0] }
    }

    /// A bunch holding `amt` of `var` and nothing else.
    pub fn single(var: ResourceVariant, amt: u32) -> (r: Bunch)
        ensures
            r@[var] == amt,
            forall|k: ResourceVariant| k != var ==> #[trigger] r@[k] == 0,
    {
        let mut amounts: [u64; 5] = [0, 0, 0, 0, 0];
        amounts[var.index()] = amt as u64;
        Bunch { amounts }
    }

    /// The amount held of one kind.
    pub fn get(&self, var: ResourceVariant) -> (r: u64)
        ensures
            r == self@[var],
    {
        self.amounts[var.index()]
    }

    /// Whether this bunch holds at least as much of every kind as `oth`.
    pub fn contains(&self, oth: &Bunch) -> (r: bool)
        ensures
            r == bunch_covers(self@, oth@),
    {
        let mut i: usize = 0;
        while i < N_RESOURCES
            invariant
                0 <= i <= N_RESOURCES,
                forall|j: int|
                    0 <= j < i ==> self.amounts[j] >= oth.amounts[j],
            decreases N_RESOURCES - i,
        {
            if self.amounts[i] < oth.amounts[i] {
                proof {
                    let k = ResourceVariant::spec_from_index(i as int);
                    assert(k.spec_index() == i);
                    assert(self@[k] < oth@[k]);
                }
                return false;
            }
            i += 1;
        }
        proof {
            assert forall|k: ResourceVariant| #[trigger] self@[k] >= oth@[k] by {
                lemma_index_round_trip(k);
            }
        }
        true
    }

    /// Pointwise sum of two bunches.
    pub fn add(self, rhs: Bunch) -> (r: Bunch)
        requires
            sum_fits(self@, rhs@),
        ensures
            r@ == bunch_sum(self@, rhs@),
    {
        let mut out = self;
        let mut i: usize = 0;
        while i < N_RESOURCES
            invariant
                0 <= i <= N_RESOURCES,
                sum_fits(self@, rhs@),
                forall|j: int| 0 <= j < i ==> out.amounts[j] == self.amounts[j] + rhs.amounts[j],
                forall|j: int| i <= j < N_RESOURCES ==> out.amounts[j] == self.amounts[j],
            decreases N_RESOURCES - i,
        {
            proof {
                let k = ResourceVariant::spec_from_index(i as int);
                assert(k.spec_index() == i);
                assert(self@[k] + rhs@[k] <= u64::MAX);
            }
            let s = out.amounts[i] + rhs.amounts[i];
            out.amounts[i] = s;
            i += 1;
        }
        proof {
            assert forall|k: ResourceVariant| #[trigger] out@[k] == bunch_sum(self@, rhs@)[k] by {
                lemma_index_round_trip(k);
            }
            assert(out@ =~= bunch_sum(self@, rhs@));
        }
        out
    }
}

/// Adding bunches does not depend on the order of the operands.
pub proof fn lemma_add_commutative(a: Bunch, b: Bunch)
    ensures
        bunch_sum(a@, b@) == bunch_sum(b@, a@),
{
    assert(bunch_sum(a@, b@) =~= bunch_sum(b@, a@));
}

/// Adding bunches does not depend on how the operands are grouped.
pub proof fn lemma_add_associative(a: Bunch, b: Bunch, c: Bunch)
    ensures
        bunch_sum(bunch_sum(a@, b@), c@) == bunch_sum(a@, bunch_sum(b@, c@)),
{
    assert(bunch_sum(bunch_sum(a@, b@), c@) =~= bunch_sum(a@, bunch_sum(b@, c@)));
}

/// A bunch contains a one-kind bunch exactly when it holds at least that much of the kind.
pub proof fn lemma_contains_single(a: Bunch, s: Bunch, k: ResourceVariant, n: u32)
    requires
        s@[k] == n,
        forall|j: ResourceVariant| j != k ==> #[trigger] s@[j] == 0,
    ensures
        bunch_covers(a@, s@) <==> a@[k] >= n,
{
    if a@[k] >= n {
        assert forall|j: ResourceVariant| #[trigger] a@[j] >= s@[j] by {
            if j != k {
                assert(s@[j] == 0);
            }
        }
    }
}

} // verus!
