use vstd::prelude::*;
use crate::construction::ConstructionVariant;
use crate::resource::{Bunch, ResourceVariant};

verus! {

/// Identity of one occupiable slot; it indexes the map's occupation table.
#[derive(Debug, Clone, Copy, PartialEq, Eq, Structural, Hash)]
pub struct NodeId(pub usize);

/// Identity of a group of nodes (a sector); it indexes the map's group table.
#[derive(Debug, Clone, Copy, PartialEq, Eq, Structural, Hash)]
pub struct GroupId(pub usize);

/// Largest amount that the top-up path puts in one stockpile.
pub const MAX_STOCKPILE: u32 = 100;

/// What a node holds.
#[derive(Debug, Clone, Copy, PartialEq, Eq, Structural)]
#[allow(inconsistent_fields)]
pub enum NodeOccupant {
    Construction { var: ConstructionVariant, cooldown: u32 },
    Stockpile { var: ResourceVariant, amt: u32 },
}

/// The map: groups of nodes, the adjacency between groups, and what each node holds.
pub struct StarMap {
    /// The nodes of each group, in their fixed scan order.
    pub groups: Vec<Vec<NodeId>>,
    /// Undirected edges between groups.
    pub edges: Vec<(GroupId, GroupId)>,
    /// The occupant of each node, if any.
    pub occupation: Vec<Option<NodeOccupant>>,
}

/// The occupant of node `n` in an occupation table (none outside the table).
pub open spec fn occ_at(occ: Seq<Option<NodeOccupant>>, n: NodeId) -> Option<NodeOccupant> {
    if n.0 < occ.len() {
        occ[n.0 as int]
    } else {
        None
    }
}

/// Whether an occupant is a stockpile of kind `k`.
pub open spec fn is_pile(o: Option<NodeOccupant>, k: ResourceVariant) -> bool {
    match o {
        Some(NodeOccupant::Stockpile { var, amt }) => var == k,
        _ => false,
    }
}

/// The amount of kind `k` that an occupant stores (zero unless it is such a stockpile).
pub open spec fn pile_amount(o: Option<NodeOccupant>, k: ResourceVariant) -> nat {
    match o {
        Some(NodeOccupant::Stockpile { var, amt }) => if var == k {
            amt as nat
        } else {
            0
        },
        _ => 0,
    }
}

/// Total amount of kind `k` in the stockpiles of `nodes`.
pub open spec fn pooled(occ: Seq<Option<NodeOccupant>>, nodes: Seq<NodeId>, k: ResourceVariant) -> nat
    decreases nodes.len(),
{
    if nodes.len() == 0 {
        0
    } else {
        pooled(occ, nodes.drop_last(), k) + pile_amount(occ_at(occ, nodes.last()), k)
    }
}

/// The stockpile of kind `k` with the smallest amount among `nodes`; the first one on ties.
pub open spec fn lowest(occ: Seq<Option<NodeOccupant>>, nodes: Seq<NodeId>, k: ResourceVariant) -> Option<NodeId>
    decreases nodes.len(),
{
    if nodes.len() == 0 {
        None
    } else {
        let best = lowest(occ, nodes.drop_last(), k);
        let n = nodes.last();
        if is_pile(occ_at(occ, n), k) {
            match best {
                None => Some(n),
                Some(b) => if pile_amount(occ_at(occ, n), k) < pile_amount(occ_at(occ, b), k) {
                    Some(n)
                } else {
                    best
                },
            }
        } else {
            best
        }
    }
}

/// Whether an occupant is a stockpile of kind `k` that the top-up path may still fill.
pub open spec fn is_open_pile(o: Option<NodeOccupant>, k: ResourceVariant) -> bool {
    is_pile(o, k) && pile_amount(o, k) < MAX_STOCKPILE
}

/// The stockpile of kind `k` below the cap with the largest amount among `nodes`; the last one
/// on ties.
pub open spec fn highest_open(occ: Seq<Option<NodeOccupant>>, nodes: Seq<NodeId>, k: ResourceVariant) -> Option<NodeId>
    decreases nodes.len(),
{
    if nodes.len() == 0 {
        None
    } else {
        let best = highest_open(occ, nodes.drop_last(), k);
        let n = nodes.last();
        if is_open_pile(occ_at(occ, n), k) {
            match best {
                None => Some(n),
                Some(b) => if pile_amount(occ_at(occ, n), k) >= pile_amount(occ_at(occ, b), k) {
                    Some(n)
                } else {
                    best
                },
            }
        } else {
            best
        }
    }
}

/// The first node of `nodes` with no occupant.
pub open spec fn first_empty(occ: Seq<Option<NodeOccupant>>, nodes: Seq<NodeId>) -> Option<NodeId>
    decreases nodes.len(),
{
    if nodes.len() == 0 {
        None
    } else {
        let best = first_empty(occ, nodes.drop_last());
        if best is Some {
            best
        } else if occ_at(occ, nodes.last()) is None {
            Some(nodes.last())
        } else {
            None
        }
    }
}

/// The groups adjacent to `g` through `edges`, one entry per touching edge, in edge order.
pub open spec fn star_of(edges: Seq<(GroupId, GroupId)>, g: GroupId) -> Seq<GroupId>
    decreases edges.len(),
{
    if edges.len() == 0 {
        seq![]
    } else {
        let rest = star_of(edges.drop_last(), g);
        let e = edges.last();
        if e.0 == g {
            rest.push(e.1)
        } else if e.1 == g {
            rest.push(e.0)
        } else {
            rest
        }
    }
}

/// Every stockpile in the table holds at least one unit.
pub open spec fn piles_positive(occ: Seq<Option<NodeOccupant>>) -> bool {
    forall|i: int|
        0 <= i < occ.len() ==> match #[trigger] occ[i] {
            Some(NodeOccupant::Stockpile { var, amt }) => amt >= 1,
            _ => true,
        }
}

/// Whether node `n` is listed in group `g` of a group table.
pub open spec fn listed_in(groups: Seq<Vec<NodeId>>, n: NodeId, g: int) -> bool {
    0 <= g < groups.len() && groups[g]@.contains(n)
}

/// The index of a group of the table that lists node `n`.
pub open spec fn group_index(groups: Seq<Vec<NodeId>>, n: NodeId) -> int {
    choose|g: int| listed_in(groups, n, g)
}

/// The nodes of the group that lists node `n`.
pub open spec fn group_nodes(groups: Seq<Vec<NodeId>>, n: NodeId) -> Seq<NodeId> {
    groups[group_index(groups, n)]@
}

impl StarMap {
    /// Whether node `n` is listed in group `g`.
    pub open spec fn in_group(&self, n: NodeId, g: int) -> bool {
        listed_in(self.groups@, n, g)
    }

    /// Whether node `n` is listed in some group.
    pub open spec fn has_group(&self, n: int) -> bool {
        exists|g: int| #[trigger] self.in_group(NodeId(n as usize), g)
    }

    /// The nodes of group `g`.
    pub open spec fn nodes_of(&self, g: GroupId) -> Seq<NodeId> {
        self.groups@[g.0 as int]@
    }

    /// The groups, nodes and edges are consistent and every stockpile is non-empty.
    pub open spec fn wf(&self) -> bool {
        &&& forall|g: int, i: int|
            0 <= g < self.groups.len() && 0 <= i < self.groups@[g].len()
                ==> (#[trigger] self.groups@[g]@[i]).0 < self.occupation.len()
        &&& forall|g1: int, i1: int, g2: int, i2: int|
            0 <= g1 < self.groups.len() && 0 <= i1 < self.groups@[g1].len() && 0 <= g2
                < self.groups.len() && 0 <= i2 < self.groups@[g2].len()
                && #[trigger] self.groups@[g1]@[i1] == #[trigger] self.groups@[g2]@[i2]
                ==> g1 == g2 && i1 == i2
        &&& forall|n: int| 0 <= n < self.occupation.len() ==> #[trigger] self.has_group(n)
        &&& forall|g: int| 0 <= g < self.groups.len() ==> #[trigger] self.groups@[g].len() <= u32::MAX
        &&& forall|e: int|
            0 <= e < self.edges.len() ==> (#[trigger] self.edges@[e]).0 .0 < self.groups.len()
                && self.edges@[e].1 .0 < self.groups.len()
        &&& piles_positive(self.occupation@)
    }

    /// Whether `g` names a group of the map.
    pub open spec fn valid_group(&self, g: GroupId) -> bool {
        g.0 < self.groups.len()
    }

    /// Whether `n` names a node of the map.
    pub open spec fn valid_node(&self, n: NodeId) -> bool {
        n.0 < self.occupation.len()
    }

    /// The group that lists node `n`.
    pub open spec fn group_of(&self, n: NodeId) -> GroupId {
        GroupId(group_index(self.groups@, n) as usize)
    }

    /// The group that holds node `id`.
    pub fn group_from_node(&self, id: &NodeId) -> (r: GroupId)
        requires
            self.wf(),
            self.valid_node(*id),
        ensures
            self.in_group(*id, r.0 as int),
            r == self.group_of(*id),
            self.valid_group(r),
            self.nodes_of(r) == group_nodes(self.groups@, *id),
    {
        let ghost n = *id;
        let mut g: usize = 0;
        while g < self.groups.len()
            invariant
                self.wf(),
                self.valid_node(n),
                n == *id,
                0 <= g <= self.groups.len(),
                forall|h: int| 0 <= h < g ==> !#[trigger] self.in_group(n, h),
            decreases self.groups.len() - g,
        {
            let nodes = &self.groups[g];
            let mut i: usize = 0;
            while i < nodes.len()
                invariant
                    self.wf(),
                    n == *id,
                    0 <= g < self.groups.len(),
                    nodes == self.groups@[g as int],
                    0 <= i <= nodes.len(),
                    forall|j: int| 0 <= j < i ==> nodes@[j] != n,
                decreases nodes.len() - i,
            {
                if nodes[i] == *id {
                    proof {
                        assert(nodes@[i as int] == n);
                        assert(self.in_group(n, g as int));
                        self.lemma_group_unique(n, g as int);
                    }
                    return GroupId(g);
                }
                i += 1;
            }
            assert(!self.in_group(n, g as int));
            g += 1;
        }
        proof {
            assert(self.has_group(n.0 as int));
            let h = choose|h: int| #[trigger] self.in_group(NodeId(n.0 as usize), h);
            assert(self.in_group(n, h));
        }
        GroupId(0)
    }

    /// A node is listed in one group only.
    pub proof fn lemma_group_unique(&self, n: NodeId, g: int)
        requires
            self.wf(),
            self.in_group(n, g),
        ensures
            self.group_of(n) == GroupId(g as usize),
            group_nodes(self.groups@, n) == self.groups@[g]@,
    {
        let h = group_index(self.groups@, n);
        assert(listed_in(self.groups@, n, g));
        assert(listed_in(self.groups@, n, h));
        let i = choose|i: int| 0 <= i < self.groups@[g]@.len() && self.groups@[g]@[i] == n;
        let j = choose|j: int| 0 <= j < self.groups@[h]@.len() && self.groups@[h]@[j] == n;
        assert(self.groups@[g]@[i] == self.groups@[h]@[j]);
    }

    /// The groups adjacent to `group_id`, one entry per touching edge, in edge order.
    pub fn star(&self, group_id: &GroupId) -> (r: Vec<GroupId>)
        ensures
            r@ == star_of(self.edges@, *group_id),
    {
        let mut r: Vec<GroupId> = Vec::new();
        let mut i: usize = 0;
        while i < self.edges.len()
            invariant
                0 <= i <= self.edges.len(),
                r@ == star_of(self.edges@.take(i as int), *group_id),
            decreases self.edges.len() - i,
        {
            let e = self.edges[i];
            proof {
                assert(self.edges@.take(i + 1).drop_last() =~= self.edges@.take(i as int));
            }
            if e.0 == *group_id {
                r.push(e.1);
            } else if e.1 == *group_id {
                r.push(e.0);
            }
            i += 1;
        }
        assert(self.edges@.take(i as int) =~= self.edges@);
        r
    }

    /// Places `occ` on node `id`, replacing whatever was there.
    pub fn set_at(&mut self, id: &NodeId, occ: NodeOccupant)
        requires
            old(self).wf(),
            old(self).valid_node(*id),
            match occ {
                NodeOccupant::Stockpile { var, amt } => amt >= 1,
                _ => true,
            },
        ensures
            final(self).wf(),
            final(self).groups == old(self).groups,
            final(self).edges == old(self).edges,
            final(self).occupation@ == old(self).occupation@.update(id.0 as int, Some(occ)),
    {
        self.occupation.set(id.0, Some(occ));
        proof {
            assert forall|n: int| 0 <= n < self.occupation.len() implies #[trigger] self.has_group(
                n,
            ) by {
                assert(old(self).has_group(n));
                let g = choose|g: int| #[trigger] old(self).in_group(NodeId(n as usize), g);
                assert(self.in_group(NodeId(n as usize), g));
            }
        }
    }
}

/// The pooled amount of `nodes` is at most one `u32` per node.
pub proof fn lemma_pooled_bound(occ: Seq<Option<NodeOccupant>>, nodes: Seq<NodeId>, k: ResourceVariant)
    ensures
        pooled(occ, nodes, k) <= nodes.len() * (u32::MAX as nat),
    decreases nodes.len(),
{
    if nodes.len() > 0 {
        lemma_pooled_bound(occ, nodes.drop_last(), k);
    }
}

impl StarMap {
    /// The pooled stockpiles of group `id`, kind by kind.
    pub fn get_group_bunch(&self, id: &GroupId) -> (r: Bunch)
        requires
            self.wf(),
            self.valid_group(*id),
        ensures
            forall|k: ResourceVariant| #[trigger] r@[k] == pooled(self.occupation@, self.nodes_of(*id), k),
    {
        let nodes = &self.groups[id.0];
        let mut out = Bunch::empty();
        let mut i: usize = 0;
        while i < nodes.len()
            invariant
                self.wf(),
                self.valid_group(*id),
                nodes@ == self.nodes_of(*id),
                0 <= i <= nodes.len(),
                forall|k: ResourceVariant| #[trigger] out@[k] == pooled(self.occupation@, nodes@.take(i as int), k),
            decreases nodes.len() - i,
        {
            proof {
                assert(nodes@.take(i + 1).drop_last() =~= nodes@.take(i as int));
                assert(nodes@.take(i + 1).last() == nodes@[i as int]);
                assert(nodes.len() <= u32::MAX);
            }
            let n = nodes[i];
            match self.occupation[n.0] {
                Some(NodeOccupant::Stockpile { var, amt }) => {
                    let one = Bunch::single(var, amt);
                    proof {
                        assert forall|k: ResourceVariant| #[trigger] out@[k] + one@[k] <= u64::MAX by {
                            lemma_pooled_bound(self.occupation@, nodes@.take(i as int), k);
                            assert(i * (u32::MAX as nat) <= u32::MAX * u32::MAX) by (nonlinear_arith)
                                requires i <= u32::MAX;
                        }
                    }
                    out = out.add(one);
                },
                _ => {},
            }
            i += 1;
        }
        assert(nodes@.take(i as int) =~= nodes@);
        out
    }

    /// The stockpile of kind `v` with the smallest amount in group `id`, if there is one.
    pub fn find_lowest_stockpile(&self, id: &GroupId, v: &ResourceVariant) -> (r: Option<NodeId>)
        requires
            self.wf(),
            self.valid_group(*id),
        ensures
            r == lowest(self.occupation@, self.nodes_of(*id), *v),
    {
        let nodes = &self.groups[id.0];
        let mut best: Option<NodeId> = None;
        let mut best_amt: u32 = 0;
        let mut i: usize = 0;
        while i < nodes.len()
            invariant
                self.wf(),
                self.valid_group(*id),
                nodes@ == self.nodes_of(*id),
                0 <= i <= nodes.len(),
                best == lowest(self.occupation@, nodes@.take(i as int), *v),
                best matches Some(b) ==> best_amt == pile_amount(occ_at(self.occupation@, b), *v),
            decreases nodes.len() - i,
        {
            proof {
                assert(nodes@.take(i + 1).drop_last() =~= nodes@.take(i as int));
                assert(nodes@.take(i + 1).last() == nodes@[i as int]);
            }
            let n = nodes[i];
            match self.occupation[n.0] {
                Some(NodeOccupant::Stockpile { var, amt }) => {
                    if var == *v {
                        if best.is_none() || amt < best_amt {
                            best = Some(n);
                            best_amt = amt;
                        }
                    }
                },
                _ => {},
            }
            i += 1;
        }
        assert(nodes@.take(i as int) =~= nodes@);
        best
    }

    /// The stockpile of kind `v` with the smallest amount in group `id`; on ties the one that
    /// comes first in the group's node order.
    pub fn get_lowest_stockpile(&self, id: &GroupId, v: &ResourceVariant) -> (r: NodeId)
        requires
            self.wf(),
            self.valid_group(*id),
            lowest(self.occupation@, self.nodes_of(*id), *v) is Some,
        ensures
            Some(r) == lowest(self.occupation@, self.nodes_of(*id), *v),
    {
        match self.find_lowest_stockpile(id, v) {
            Some(n) => n,
            None => NodeId(0),
        }
    }

    /// The stockpile of kind `v` below the cap with the largest amount in group `id`; on ties the
    /// one that comes last in the group's node order.
    pub fn get_highest_open_stockpile(&self, id: &GroupId, v: &ResourceVariant) -> (r: Option<NodeId>)
        requires
            self.wf(),
            self.valid_group(*id),
        ensures
            r == highest_open(self.occupation@, self.nodes_of(*id), *v),
    {
        let nodes = &self.groups[id.0];
        let mut best: Option<NodeId> = None;
        let mut best_amt: u32 = 0;
        let mut i: usize = 0;
        while i < nodes.len()
            invariant
                self.wf(),
                self.valid_group(*id),
                nodes@ == self.nodes_of(*id),
                0 <= i <= nodes.len(),
                best == highest_open(self.occupation@, nodes@.take(i as int), *v),
                best matches Some(b) ==> best_amt == pile_amount(occ_at(self.occupation@, b), *v),
            decreases nodes.len() - i,
        {
            proof {
                assert(nodes@.take(i + 1).drop_last() =~= nodes@.take(i as int));
                assert(nodes@.take(i + 1).last() == nodes@[i as int]);
            }
            let n = nodes[i];
            match self.occupation[n.0] {
                Some(NodeOccupant::Stockpile { var, amt }) => {
                    if var == *v && amt < MAX_STOCKPILE {
                        if best.is_none() || amt >= best_amt {
                            best = Some(n);
                            best_amt = amt;
                        }
                    }
                },
                _ => {},
            }
            i += 1;
        }
        assert(nodes@.take(i as int) =~= nodes@);
        best
    }

    /// The first node of group `id` with no occupant, if there is one.
    pub fn get_first_empty(&self, id: &GroupId) -> (r: Option<NodeId>)
        requires
            self.wf(),
            self.valid_group(*id),
        ensures
            r == first_empty(self.occupation@, self.nodes_of(*id)),
    {
        let nodes = &self.groups[id.0];
        let mut i: usize = 0;
        while i < nodes.len()
            invariant
                self.wf(),
                self.valid_group(*id),
                nodes@ == self.nodes_of(*id),
                0 <= i <= nodes.len(),
                first_empty(self.occupation@, nodes@.take(i as int)) is None,
            decreases nodes.len() - i,
        {
            proof {
                assert(nodes@.take(i + 1).drop_last() =~= nodes@.take(i as int));
                assert(nodes@.take(i + 1).last() == nodes@[i as int]);
            }
            let n = nodes[i];
            if self.occupation[n.0].is_none() {
                proof {
                    lemma_first_empty_extend(self.occupation@, nodes@, i as int);
                }
                return Some(n);
            }
            i += 1;
        }
        assert(nodes@.take(i as int) =~= nodes@);
        None
    }
}

/// Once a prefix holds an empty node, longer prefixes find the same one.
pub proof fn lemma_first_empty_extend(occ: Seq<Option<NodeOccupant>>, nodes: Seq<NodeId>, i: int)
    requires
        0 <= i < nodes.len(),
        first_empty(occ, nodes.take(i)) is None,
        occ_at(occ, nodes[i]) is None,
    ensures
        first_empty(occ, nodes) == Some(nodes[i]),
    decreases nodes.len(),
{
    assert(nodes.take(i + 1).drop_last() =~= nodes.take(i));
    assert(first_empty(occ, nodes.take(i + 1)) == Some(nodes[i]));
    if nodes.len() > i + 1 {
        assert(nodes.drop_last().take(i) =~= nodes.take(i));
        assert(nodes.drop_last()[i] == nodes[i]);
        lemma_first_empty_extend(occ, nodes.drop_last(), i);
    } else {
        assert(nodes.take(i + 1) =~= nodes);
    }
}

/// An allocation record: the node, the amount it holds afterwards, and the amount added.
pub type Allocation = (NodeId, u32, u32);

/// Number of passes of the allocation policy.
pub const FILL_PASSES: usize = 16;

/// How much of `left` the top-up path puts on a pile that holds `a`.
pub open spec fn top_up(a: nat, left: nat) -> nat {
    if left < MAX_STOCKPILE - a {
        left
    } else {
        (MAX_STOCKPILE - a) as nat
    }
}

/// The allocation policy: each pass tops up the fullest pile of `k` below the cap; when there is
/// none, everything left goes to the first empty node, or is lost when there is no empty node.
pub open spec fn fill(
    occ: Seq<Option<NodeOccupant>>,
    nodes: Seq<NodeId>,
    k: ResourceVariant,
    left: u32,
    passes: nat,
) -> (Seq<Option<NodeOccupant>>, Seq<Allocation>)
    decreases passes,
{
    if passes == 0 || left == 0 {
        (occ, seq![])
    } else {
        match highest_open(occ, nodes, k) {
            Some(n) => {
                let a = pile_amount(occ_at(occ, n), k);
                let c = top_up(a, left as nat);
                let occ2 = occ.update(n.0 as int, Some(NodeOccupant::Stockpile { var: k, amt: (a + c) as u32 }));
                let rest = fill(occ2, nodes, k, (left - c) as u32, (passes - 1) as nat);
                (rest.0, seq![(n, (a + c) as u32, c as u32)] + rest.1)
            },
            None => match first_empty(occ, nodes) {
                Some(e) => (
                    occ.update(e.0 as int, Some(NodeOccupant::Stockpile { var: k, amt: left })),
                    seq![(e, left, left)],
                ),
                None => (occ, seq![]),
            },
        }
    }
}

/// The fullest open pile is an open pile of `nodes`.
pub proof fn lemma_highest_open_in(occ: Seq<Option<NodeOccupant>>, nodes: Seq<NodeId>, k: ResourceVariant)
    ensures
        highest_open(occ, nodes, k) matches Some(n) ==> nodes.contains(n) && is_open_pile(occ_at(occ, n), k),
    decreases nodes.len(),
{
    if nodes.len() > 0 {
        lemma_highest_open_in(occ, nodes.drop_last(), k);
        if let Some(n) = highest_open(occ, nodes.drop_last(), k) {
            let j = choose|j: int| 0 <= j < nodes.drop_last().len() && nodes.drop_last()[j] == n;
            assert(nodes[j] == n);
        }
        assert(nodes[nodes.len() - 1] == nodes.last());
    }
}

/// The lowest pile is a pile of `nodes`.
pub proof fn lemma_lowest_in(occ: Seq<Option<NodeOccupant>>, nodes: Seq<NodeId>, k: ResourceVariant)
    ensures
        lowest(occ, nodes, k) matches Some(n) ==> nodes.contains(n) && is_pile(occ_at(occ, n), k),
    decreases nodes.len(),
{
    if nodes.len() > 0 {
        lemma_lowest_in(occ, nodes.drop_last(), k);
        if let Some(n) = lowest(occ, nodes.drop_last(), k) {
            let j = choose|j: int| 0 <= j < nodes.drop_last().len() && nodes.drop_last()[j] == n;
            assert(nodes[j] == n);
        }
        assert(nodes[nodes.len() - 1] == nodes.last());
    }
}

/// The first empty node is an empty node of `nodes`.
pub proof fn lemma_first_empty_in(occ: Seq<Option<NodeOccupant>>, nodes: Seq<NodeId>)
    ensures
        first_empty(occ, nodes) matches Some(n) ==> nodes.contains(n) && occ_at(occ, n) is None,
    decreases nodes.len(),
{
    if nodes.len() > 0 {
        lemma_first_empty_in(occ, nodes.drop_last());
        if let Some(n) = first_empty(occ, nodes.drop_last()) {
            let j = choose|j: int| 0 <= j < nodes.drop_last().len() && nodes.drop_last()[j] == n;
            assert(nodes[j] == n);
        }
        assert(nodes[nodes.len() - 1] == nodes.last());
    }
}

/// The top-up path never takes a pile above the cap: a record on a node that held a pile of `k`
/// ends at most at `MAX_STOCKPILE`, and a record on any other node is the last one and was an
/// empty node.
pub proof fn lemma_fill_caps_top_up(
    occ: Seq<Option<NodeOccupant>>,
    nodes: Seq<NodeId>,
    k: ResourceVariant,
    left: u32,
    passes: nat,
)
    ensures
        ({
            let recs = fill(occ, nodes, k, left, passes).1;
            forall|j: int|
                0 <= j < recs.len() ==> (is_pile(occ_at(occ, (#[trigger] recs[j]).0), k) ==> recs[j].1
                    <= MAX_STOCKPILE) && (!is_pile(occ_at(occ, recs[j].0), k) ==> j == recs.len() - 1
                    && occ_at(occ, recs[j].0) is None)
        }),
    decreases passes,
{
    if passes == 0 || left == 0 {
    } else {
        lemma_highest_open_in(occ, nodes, k);
        lemma_first_empty_in(occ, nodes);
        match highest_open(occ, nodes, k) {
            Some(n) => {
                let a = pile_amount(occ_at(occ, n), k);
                let c = top_up(a, left as nat);
                let occ2 = occ.update(n.0 as int, Some(NodeOccupant::Stockpile { var: k, amt: (a + c) as u32 }));
                lemma_fill_caps_top_up(occ2, nodes, k, (left - c) as u32, (passes - 1) as nat);
                let rest = fill(occ2, nodes, k, (left - c) as u32, (passes - 1) as nat);
                let recs = fill(occ, nodes, k, left, passes).1;
                assert(recs == seq![(n, (a + c) as u32, c as u32)] + rest.1);
                assert forall|j: int| 0 <= j < recs.len() implies (is_pile(occ_at(occ, (#[trigger] recs[j]).0), k)
                    ==> recs[j].1 <= MAX_STOCKPILE) && (!is_pile(occ_at(occ, recs[j].0), k) ==> j == recs.len() - 1
                    && occ_at(occ, recs[j].0) is None) by {
                    if j > 0 {
                        assert(recs[j] == rest.1[j - 1]);
                        let m = recs[j].0;
                        if m == n {
                            assert(is_pile(occ_at(occ2, m), k));
                        } else {
                            assert(occ_at(occ2, m) == occ_at(occ, m));
                        }
                    }
                }
            },
            None => {},
        }
    }
}

impl StarMap {
    /// Adds `amt` of `v` to group `group_id` by the allocation policy `fill` over sixteen passes
    /// and returns the allocation records in order.
    pub fn add_resource_in_group(&mut self, group_id: &GroupId, v: &ResourceVariant, amt: u32) -> (r: Vec<Allocation>)
        requires
            old(self).wf(),
            old(self).valid_group(*group_id),
        ensures
            final(self).wf(),
            final(self).groups == old(self).groups,
            final(self).edges == old(self).edges,
            final(self).occupation.len() == old(self).occupation.len(),
            (final(self).occupation@, r@) == fill(
                old(self).occupation@,
                old(self).nodes_of(*group_id),
                *v,
                amt,
                FILL_PASSES as nat,
            ),
    {
        let ghost nodes = self.nodes_of(*group_id);
        let ghost target = fill(self.occupation@, nodes, *v, amt, FILL_PASSES as nat);
        let mut left = amt;
        let mut actions: Vec<Allocation> = Vec::new();
        let mut i: usize = 0;
        while i < FILL_PASSES && left > 0
            invariant
                self.wf(),
                self.valid_group(*group_id),
                self.groups == old(self).groups,
                self.edges == old(self).edges,
                self.occupation.len() == old(self).occupation.len(),
                nodes == self.nodes_of(*group_id),
                0 <= i <= FILL_PASSES,
                target.0 == fill(self.occupation@, nodes, *v, left, (FILL_PASSES - i) as nat).0,
                target.1 == actions@ + fill(self.occupation@, nodes, *v, left, (FILL_PASSES - i) as nat).1,
            decreases FILL_PASSES - i,
        {
            let ghost occ = self.occupation@;
            proof {
                lemma_highest_open_in(occ, nodes, *v);
                lemma_first_empty_in(occ, nodes);
            }
            match self.get_highest_open_stockpile(group_id, v) {
                Some(n) => {
                    proof {
                        let j = choose|j: int| 0 <= j < nodes.len() && nodes[j] == n;
                        assert(self.groups@[group_id.0 as int]@[j] == n);
                    }
                    if let Some(NodeOccupant::Stockpile { var, amt: stock_amt }) = self.occupation[n.0] {
                        let room = MAX_STOCKPILE - stock_amt;
                        let clamped = if left < room { left } else { room };
                        actions.push((n, clamped + stock_amt, clamped));
                        self.set_at(&n, NodeOccupant::Stockpile { var, amt: clamped + stock_amt });
                        left -= clamped;
                        proof {
                            assert(seq![(n, (stock_amt + clamped) as u32, clamped)] + fill(self.occupation@, nodes, *v, left, (FILL_PASSES - i - 1) as nat).1
                                =~= fill(occ, nodes, *v, (left + clamped) as u32, (FILL_PASSES - i) as nat).1);
                        }
                    }
                },
                None => {
                    match self.get_first_empty(group_id) {
                        Some(e) => {
                            proof {
                                let j = choose|j: int| 0 <= j < nodes.len() && nodes[j] == e;
                                assert(self.groups@[group_id.0 as int]@[j] == e);
                            }
                            actions.push((e, left, left));
                            self.set_at(&e, NodeOccupant::Stockpile { var: *v, amt: left });
                        },
                        None => {},
                    }
                    left = 0;
                },
            }
            i += 1;
        }
        proof {
            assert(fill(self.occupation@, nodes, *v, left, (FILL_PASSES - i) as nat).1 =~= seq![]);
            assert(actions@ + seq![] =~= actions@);
        }
        actions
    }
}

impl StarMap {
    /// Removes whatever node `id` holds.
    pub fn clear_at(&mut self, id: &NodeId)
        requires
            old(self).wf(),
            old(self).valid_node(*id),
        ensures
            final(self).wf(),
            final(self).groups == old(self).groups,
            final(self).edges == old(self).edges,
            final(self).occupation@ == old(self).occupation@.update(id.0 as int, None),
    {
        self.occupation.set(id.0, None);
        proof {
            assert forall|n: int| 0 <= n < self.occupation.len() implies #[trigger] self.has_group(
                n,
            ) by {
                assert(old(self).has_group(n));
                let g = choose|g: int| #[trigger] old(self).in_group(NodeId(n as usize), g);
                assert(self.in_group(NodeId(n as usize), g));
            }
        }
    }

    /// The occupant of node `id`.
    pub fn get_at(&self, id: &NodeId) -> (r: Option<NodeOccupant>)
        requires
            self.valid_node(*id),
        ensures
            r == self.occupation@[id.0 as int],
    {
        self.occupation[id.0]
    }
}

/// A node listed in a group of a well-formed map is a node of the map.
pub proof fn lemma_listed_node_valid(m: &StarMap, g: GroupId, n: NodeId)
    requires
        m.wf(),
        m.valid_group(g),
        m.nodes_of(g).contains(n),
    ensures
        m.valid_node(n),
        m.in_group(n, g.0 as int),
        m.group_of(n) == g,
        group_nodes(m.groups@, n) == m.nodes_of(g),
{
    let j = choose|j: int| 0 <= j < m.nodes_of(g).len() && m.nodes_of(g)[j] == n;
    assert(m.groups@[g.0 as int]@[j] == n);
    m.lemma_group_unique(n, g.0 as int);
}

/// The number of nodes in the first `sizes.len()` groups.
pub open spec fn total(sizes: Seq<usize>) -> nat
    decreases sizes.len(),
{
    if sizes.len() == 0 {
        0
    } else {
        total(sizes.drop_last()) + sizes.last() as nat
    }
}

/// The nodes `start`, `start + 1`, ..., `start + len - 1`.
pub open spec fn node_range(start: nat, len: nat) -> Seq<NodeId> {
    Seq::new(len, |i: int| NodeId((start + i) as usize))
}

impl StarMap {
    /// A map with one group per entry of `sizes`, numbered from zero; the nodes are numbered
    /// from zero too, group after group; nothing occupies them.
    pub fn new(sizes: &Vec<usize>, edges: Vec<(GroupId, GroupId)>) -> (r: StarMap)
        requires
            total(sizes@) <= usize::MAX,
            forall|g: int| 0 <= g < sizes.len() ==> #[trigger] sizes@[g] <= u32::MAX,
            forall|e: int|
                0 <= e < edges.len() ==> (#[trigger] edges@[e]).0 .0 < sizes.len() && edges@[e].1 .0
                    < sizes.len(),
        ensures
            r.wf(),
            r.groups.len() == sizes.len(),
            forall|g: int|
                0 <= g < sizes.len() ==> #[trigger] r.groups@[g]@ == node_range(
                    total(sizes@.take(g)),
                    sizes@[g] as nat,
                ),
            r.occupation.len() == total(sizes@),
            forall|n: int| 0 <= n < r.occupation.len() ==> #[trigger] r.occupation@[n] is None,
            r.edges == edges,
    {
        let mut groups: Vec<Vec<NodeId>> = Vec::new();
        let mut next: usize = 0;
        let mut g: usize = 0;
        while g < sizes.len()
            invariant
                0 <= g <= sizes.len(),
                total(sizes@) <= usize::MAX,
                forall|h: int| 0 <= h < sizes.len() ==> #[trigger] sizes@[h] <= u32::MAX,
                next == total(sizes@.take(g as int)),
                groups.len() == g,
                forall|h: int|
                    0 <= h < g ==> #[trigger] groups@[h]@ == node_range(total(sizes@.take(h)), sizes@[h] as nat),
            decreases sizes.len() - g,
        {
            proof {
                assert(sizes@.take(g + 1).drop_last() =~= sizes@.take(g as int));
                lemma_total_prefix(sizes@, g + 1);
            }
            let size = sizes[g];
            let mut nodes: Vec<NodeId> = Vec::new();
            let mut i: usize = 0;
            while i < size
                invariant
                    0 <= i <= size,
                    size == sizes@[g as int],
                    next + size <= usize::MAX,
                    nodes@ == node_range(next as nat, i as nat),
                decreases size - i,
            {
                nodes.push(NodeId(next + i));
                proof {
                    assert(nodes@ =~= node_range(next as nat, (i + 1) as nat));
                }
                i += 1;
            }
            groups.push(nodes);
            next = next + size;
            g += 1;
        }
        assert(sizes@.take(g as int) =~= sizes@);
        let mut occupation: Vec<Option<NodeOccupant>> = Vec::new();
        let mut n: usize = 0;
        while n < next
            invariant
                0 <= n <= next,
                occupation.len() == n,
                forall|j: int| 0 <= j < n ==> #[trigger] occupation@[j] is None,
            decreases next - n,
        {
            occupation.push(None);
            n += 1;
        }
        let r = StarMap { groups, edges, occupation };
        proof {
            lemma_new_wf(&r, sizes@);
        }
        r
    }
}

/// A prefix of the sizes holds no more nodes than the whole.
pub proof fn lemma_total_prefix(sizes: Seq<usize>, i: int)
    requires
        0 <= i <= sizes.len(),
    ensures
        total(sizes.take(i)) <= total(sizes),
        i < sizes.len() ==> total(sizes.take(i)) + sizes[i] <= total(sizes),
    decreases sizes.len() - i,
{
    if i < sizes.len() {
        lemma_total_prefix(sizes, i + 1);
        assert(sizes.take(i + 1).drop_last() =~= sizes.take(i));
    } else {
        assert(sizes.take(i) =~= sizes);
    }
}

/// Node `n` lies in the range of the group whose prefix total is the largest not above `n`.
pub proof fn lemma_total_locate(sizes: Seq<usize>, n: int)
    requires
        0 <= n < total(sizes),
    ensures
        exists|g: int|
            0 <= g < sizes.len() && total(#[trigger] sizes.take(g)) <= n < total(sizes.take(g)) + sizes[g],
    decreases sizes.len(),
{
    let last = sizes.len() - 1;
    assert(sizes.take(last) =~= sizes.drop_last());
    if n >= total(sizes.drop_last()) {
        assert(total(sizes.take(last)) <= n < total(sizes.take(last)) + sizes[last]);
    } else {
        lemma_total_locate(sizes.drop_last(), n);
        let g = choose|g: int|
            0 <= g < sizes.drop_last().len() && total(#[trigger] sizes.drop_last().take(g)) <= n < total(
                sizes.drop_last().take(g),
            ) + sizes.drop_last()[g];
        assert(sizes.drop_last().take(g) =~= sizes.take(g));
        assert(total(sizes.take(g)) <= n < total(sizes.take(g)) + sizes[g]);
    }
}

/// Prefix totals grow with the prefix.
pub proof fn lemma_total_monotone(sizes: Seq<usize>, i: int, j: int)
    requires
        0 <= i < j <= sizes.len(),
    ensures
        total(sizes.take(i)) + sizes[i] <= total(sizes.take(j)),
    decreases j - i,
{
    assert(sizes.take(i + 1).drop_last() =~= sizes.take(i));
    if j > i + 1 {
        lemma_total_monotone(sizes, i + 1, j);
    }
}

/// A map laid out group after group from `sizes` is well formed.
pub proof fn lemma_new_wf(m: &StarMap, sizes: Seq<usize>)
    requires
        m.groups.len() == sizes.len(),
        forall|g: int| 0 <= g < sizes.len() ==> #[trigger] sizes[g] <= u32::MAX,
        forall|g: int|
            0 <= g < sizes.len() ==> #[trigger] m.groups@[g]@ == node_range(total(sizes.take(g)), sizes[g] as nat),
        m.occupation.len() == total(sizes),
        total(sizes) <= usize::MAX,
        forall|n: int| 0 <= n < m.occupation.len() ==> #[trigger] m.occupation@[n] is None,
        forall|e: int|
            0 <= e < m.edges.len() ==> (#[trigger] m.edges@[e]).0 .0 < sizes.len() && m.edges@[e].1 .0 < sizes.len(),
    ensures
        m.wf(),
{
    assert forall|g: int, i: int|
        0 <= g < m.groups.len() && 0 <= i < m.groups@[g].len() implies (#[trigger] m.groups@[g]@[i]).0
        < m.occupation.len() by {
        lemma_total_prefix(sizes, g);
        assert(m.groups@[g]@ == node_range(total(sizes.take(g)), sizes[g] as nat));
    }
    assert forall|g1: int, i1: int, g2: int, i2: int|
        0 <= g1 < m.groups.len() && 0 <= i1 < m.groups@[g1].len() && 0 <= g2 < m.groups.len() && 0 <= i2
            < m.groups@[g2].len() && #[trigger] m.groups@[g1]@[i1] == #[trigger] m.groups@[g2]@[i2] implies g1
        == g2 && i1 == i2 by {
        assert(m.groups@[g1]@ == node_range(total(sizes.take(g1)), sizes[g1] as nat));
        assert(m.groups@[g2]@ == node_range(total(sizes.take(g2)), sizes[g2] as nat));
        lemma_total_prefix(sizes, g1);
        lemma_total_prefix(sizes, g2);
        if g1 < g2 {
            lemma_total_monotone(sizes, g1, g2);
        } else if g2 < g1 {
            lemma_total_monotone(sizes, g2, g1);
        }
    }
    assert forall|n: int| 0 <= n < m.occupation.len() implies #[trigger] m.has_group(n) by {
        lemma_total_locate(sizes, n);
        let g = choose|g: int|
            0 <= g < sizes.len() && total(#[trigger] sizes.take(g)) <= n < total(sizes.take(g)) + sizes[g];
        let i = n - total(sizes.take(g));
        assert(m.groups@[g]@ == node_range(total(sizes.take(g)), sizes[g] as nat));
        assert(m.groups@[g]@[i] == NodeId(n as usize));
        assert(m.in_group(NodeId(n as usize), g));
    }
    assert forall|g: int| 0 <= g < m.groups.len() implies #[trigger] m.groups@[g].len() <= u32::MAX by {
        assert(m.groups@[g]@ == node_range(total(sizes.take(g)), sizes[g] as nat));
    }
}

/// The node lists of the standard layout: groups of 5, 3, 4, 4, 8, 2, 3 and 5 consecutive nodes.
pub open spec fn standard_groups() -> Seq<Seq<NodeId>> {
    seq![
        node_range(0, 5),
        node_range(5, 3),
        node_range(8, 4),
        node_range(12, 4),
        node_range(16, 8),
        node_range(24, 2),
        node_range(26, 3),
        node_range(29, 5),
    ]
}

/// The edges of the standard layout.
pub open spec fn standard_edges() -> Seq<(GroupId, GroupId)> {
    seq![
        (GroupId(0), GroupId(1)),
        (GroupId(1), GroupId(2)),
        (GroupId(1), GroupId(5)),
        (GroupId(1), GroupId(6)),
        (GroupId(2), GroupId(3)),
        (GroupId(3), GroupId(4)),
        (GroupId(4), GroupId(5)),
        (GroupId(5), GroupId(6)),
        (GroupId(6), GroupId(7)),
    ]
}

/// Whether `m` is the standard layout with nothing on it.
pub open spec fn is_standard(m: StarMap) -> bool {
    &&& m.groups.len() == 8
    &&& forall|g: int| 0 <= g < 8 ==> #[trigger] m.groups@[g]@ == standard_groups()[g]
    &&& m.occupation.len() == 34
    &&& forall|n: int| 0 <= n < m.occupation.len() ==> #[trigger] m.occupation@[n] is None
    &&& m.edges@ == standard_edges()
}

impl StarMap {
    /// The standard layout (`standard_groups`, `standard_edges`): eight groups, 34 nodes, group 0
    /// being the ship's own, and nothing on any node.
    pub fn standard() -> (r: StarMap)
        ensures
            r.wf(),
            is_standard(r),
    {
        let sizes: Vec<usize> = vec![5, 3, 4, 4, 8, 2, 3, 5];
        let edges: Vec<(GroupId, GroupId)> = vec![
            (GroupId(0), GroupId(1)),
            (GroupId(1), GroupId(2)),
            (GroupId(1), GroupId(5)),
            (GroupId(1), GroupId(6)),
            (GroupId(2), GroupId(3)),
            (GroupId(3), GroupId(4)),
            (GroupId(4), GroupId(5)),
            (GroupId(5), GroupId(6)),
            (GroupId(6), GroupId(7)),
        ];
        proof {
            reveal_with_fuel(total, 9);
            let sz = sizes@;
            assert(total(sz) == 34);
            assert(total(sz.take(0)) == 0);
            assert(total(sz.take(1)) == 5) by { assert(sz.take(1).drop_last() =~= sz.take(0)); }
            assert(total(sz.take(2)) == 8) by { assert(sz.take(2).drop_last() =~= sz.take(1)); }
            assert(total(sz.take(3)) == 12) by { assert(sz.take(3).drop_last() =~= sz.take(2)); }
            assert(total(sz.take(4)) == 16) by { assert(sz.take(4).drop_last() =~= sz.take(3)); }
            assert(total(sz.take(5)) == 24) by { assert(sz.take(5).drop_last() =~= sz.take(4)); }
            assert(total(sz.take(6)) == 26) by { assert(sz.take(6).drop_last() =~= sz.take(5)); }
            assert(total(sz.take(7)) == 29) by { assert(sz.take(7).drop_last() =~= sz.take(6)); }
        }
        let r = StarMap::new(&sizes, edges);
        assert(r.edges@ =~= standard_edges());
        r
    }
}

/// Every group adjacent through valid edges is a valid group.
pub proof fn lemma_star_valid(edges: Seq<(GroupId, GroupId)>, g: GroupId, n_groups: nat)
    requires
        forall|e: int| 0 <= e < edges.len() ==> (#[trigger] edges[e]).0 .0 < n_groups && edges[e].1 .0 < n_groups,
    ensures
        forall|j: int| 0 <= j < star_of(edges, g).len() ==> (#[trigger] star_of(edges, g)[j]).0 < n_groups,
    decreases edges.len(),
{
    if edges.len() > 0 {
        let d = edges.drop_last();
        assert(edges.last() == edges[edges.len() - 1]);
        assert forall|e: int| 0 <= e < d.len() implies (#[trigger] d[e]).0 .0 < n_groups && d[e].1 .0 < n_groups by {
            assert(d[e] == edges[e]);
        }
        lemma_star_valid(d, g, n_groups);
        let rest = star_of(d, g);
        assert forall|j: int| 0 <= j < star_of(edges, g).len() implies (#[trigger] star_of(edges, g)[j]).0
            < n_groups by {
            if j < rest.len() {
                assert(star_of(edges, g)[j] == rest[j]);
            }
        }
    }
}

/// The groups of `gs` that lead toward `home`: all of them when `g` is `home` itself.
pub open spec fn toward_home(gs: Seq<GroupId>, g: GroupId, home: GroupId) -> Seq<GroupId>
    decreases gs.len(),
{
    if gs.len() == 0 {
        seq![]
    } else {
        let rest = toward_home(gs.drop_last(), g, home);
        if g == home || gs.last() == home {
            rest.push(gs.last())
        } else {
            rest
        }
    }
}

/// The groups whose nodes can receive a stockpile moved out of group `g`: the neighbours of `g`
/// toward `home` (all of them when `g` is `home`), then `g` itself.
pub open spec fn move_groups(edges: Seq<(GroupId, GroupId)>, g: GroupId, home: GroupId) -> Seq<GroupId> {
    toward_home(star_of(edges, g), g, home).push(g)
}

/// The nodes of the groups `gs`, group after group.
pub open spec fn nodes_of_groups(groups: Seq<Vec<NodeId>>, gs: Seq<GroupId>) -> Seq<NodeId>
    decreases gs.len(),
{
    if gs.len() == 0 {
        seq![]
    } else {
        nodes_of_groups(groups, gs.drop_last()) + groups[gs.last().0 as int]@
    }
}

impl StarMap {
    /// Whether an edge joins group `of` to group `group_id`.
    pub fn is_neighbor(&self, group_id: &GroupId, of: &GroupId) -> (r: bool)
        ensures
            r == star_of(self.edges@, *of).contains(*group_id),
    {
        let star = self.star(of);
        let mut i: usize = 0;
        while i < star.len()
            invariant
                0 <= i <= star.len(),
                star@ == star_of(self.edges@, *of),
                forall|j: int| 0 <= j < i ==> star@[j] != *group_id,
            decreases star.len() - i,
        {
            if star[i] == *group_id {
                assert(star@[i as int] == *group_id);
                return true;
            }
            i += 1;
        }
        false
    }

    /// Whether the ship, carrying group `home`, is at or next to group `group_id`.
    pub fn ship_in_reach(&self, group_id: &GroupId, home: &GroupId) -> (r: bool)
        ensures
            r == (*group_id == *home || star_of(self.edges@, *home).contains(*group_id)),
    {
        *group_id == *home || self.is_neighbor(group_id, home)
    }

    /// The nodes to which a stockpile on node `id` can be moved (`move_groups`), group after group.
    pub fn move_targets(&self, id: &NodeId, home: &GroupId) -> (r: Vec<NodeId>)
        requires
            self.wf(),
            self.valid_node(*id),
        ensures
            r@ == nodes_of_groups(self.groups@, move_groups(self.edges@, self.group_of(*id), *home)),
    {
        let group_id = self.group_from_node(id);
        let star = self.star(&group_id);
        proof {
            lemma_star_valid(self.edges@, group_id, self.groups.len() as nat);
        }
        let mut gs: Vec<GroupId> = Vec::new();
        let mut i: usize = 0;
        while i < star.len()
            invariant
                0 <= i <= star.len(),
                star@ == star_of(self.edges@, group_id),
                forall|j: int| 0 <= j < star.len() ==> (#[trigger] star@[j]).0 < self.groups.len(),
                gs@ == toward_home(star@.take(i as int), group_id, *home),
                forall|j: int| 0 <= j < gs.len() ==> (#[trigger] gs@[j]).0 < self.groups.len(),
            decreases star.len() - i,
        {
            proof {
                assert(star@.take(i + 1).drop_last() =~= star@.take(i as int));
                assert(star@.take(i + 1).last() == star@[i as int]);
            }
            if group_id == *home || star[i] == *home {
                gs.push(star[i]);
            }
            i += 1;
        }
        assert(star@.take(i as int) =~= star@);
        gs.push(group_id);
        let mut r: Vec<NodeId> = Vec::new();
        let mut k: usize = 0;
        while k < gs.len()
            invariant
                0 <= k <= gs.len(),
                forall|j: int| 0 <= j < gs.len() ==> (#[trigger] gs@[j]).0 < self.groups.len(),
                r@ == nodes_of_groups(self.groups@, gs@.take(k as int)),
            decreases gs.len() - k,
        {
            let nodes = &self.groups[gs[k].0];
            let ghost base = r@;
            let mut i: usize = 0;
            while i < nodes.len()
                invariant
                    0 <= i <= nodes.len(),
                    r@ == base + nodes@.take(i as int),
                decreases nodes.len() - i,
            {
                r.push(nodes[i]);
                proof {
                    assert(nodes@.take(i + 1) =~= nodes@.take(i as int).push(nodes@[i as int]));
                    assert(r@ =~= base + nodes@.take(i + 1));
                }
                i += 1;
            }
            proof {
                assert(nodes@.take(i as int) =~= nodes@);
                assert(gs@.take(k + 1).drop_last() =~= gs@.take(k as int));
                assert(gs@.take(k + 1).last() == gs@[k as int]);
            }
            k += 1;
        }
        assert(gs@.take(k as int) =~= gs@);
        r
    }
}

/// The lowest pile is the first pile of `k` in `nodes` whose amount no pile of `k` undercuts:
/// every pile of `k` holds at least as much, and every pile of `k` listed before it holds more.
/// There is none exactly when `nodes` holds no pile of `k`.
pub proof fn lemma_lowest_first_minimum(occ: Seq<Option<NodeOccupant>>, nodes: Seq<NodeId>, k: ResourceVariant)
    ensures
        lowest(occ, nodes, k) is None <==> forall|j: int|
            0 <= j < nodes.len() ==> !is_pile(occ_at(occ, #[trigger] nodes[j]), k),
        lowest(occ, nodes, k) matches Some(n) ==> exists|i: int|
            0 <= i < nodes.len() && nodes[i] == n && is_pile(occ_at(occ, n), k) && (forall|j: int|
                0 <= j < nodes.len() && is_pile(occ_at(occ, #[trigger] nodes[j]), k) ==> pile_amount(
                    occ_at(occ, n),
                    k,
                ) <= pile_amount(occ_at(occ, nodes[j]), k)) && (forall|j: int|
                0 <= j < i && is_pile(occ_at(occ, #[trigger] nodes[j]), k) ==> pile_amount(occ_at(occ, nodes[j]), k)
                    > pile_amount(occ_at(occ, n), k)),
    decreases nodes.len(),
{
    if nodes.len() > 0 {
        let d = nodes.drop_last();
        let x = nodes.last();
        let last = nodes.len() - 1;
        assert(nodes[last] == x);
        assert forall|j: int| 0 <= j < d.len() implies nodes[j] == #[trigger] d[j] by {}
        lemma_lowest_first_minimum(occ, d, k);
        let ax = pile_amount(occ_at(occ, x), k);
        match lowest(occ, d, k) {
            None => {
                if is_pile(occ_at(occ, x), k) {
                    assert forall|j: int| 0 <= j < last implies !is_pile(occ_at(occ, #[trigger] nodes[j]), k) by {
                        assert(nodes[j] == d[j]);
                    }
                    assert(nodes[last] == x && is_pile(occ_at(occ, x), k));
                } else {
                    assert forall|j: int| 0 <= j < nodes.len() implies !is_pile(occ_at(occ, #[trigger] nodes[j]), k) by {
                        if j < last {
                            assert(nodes[j] == d[j]);
                        }
                    }
                }
            },
            Some(b) => {
                let ab = pile_amount(occ_at(occ, b), k);
                let ib = choose|i: int|
                    0 <= i < d.len() && d[i] == b && is_pile(occ_at(occ, b), k) && (forall|j: int|
                        0 <= j < d.len() && is_pile(occ_at(occ, #[trigger] d[j]), k) ==> ab <= pile_amount(
                            occ_at(occ, d[j]),
                            k,
                        )) && (forall|j: int|
                        0 <= j < i && is_pile(occ_at(occ, #[trigger] d[j]), k) ==> pile_amount(occ_at(occ, d[j]), k)
                            > ab);
                assert(nodes[ib] == b);
                if is_pile(occ_at(occ, x), k) && ax < ab {
                    assert forall|j: int|
                        0 <= j < nodes.len() && is_pile(occ_at(occ, #[trigger] nodes[j]), k) implies ax <= pile_amount(
                        occ_at(occ, nodes[j]),
                        k,
                    ) by {
                        if j < last {
                            assert(nodes[j] == d[j]);
                        }
                    }
                    assert forall|j: int|
                        0 <= j < last && is_pile(occ_at(occ, #[trigger] nodes[j]), k) implies pile_amount(
                        occ_at(occ, nodes[j]),
                        k,
                    ) > ax by {
                        assert(nodes[j] == d[j]);
                    }
                } else {
                    assert forall|j: int|
                        0 <= j < nodes.len() && is_pile(occ_at(occ, #[trigger] nodes[j]), k) implies ab <= pile_amount(
                        occ_at(occ, nodes[j]),
                        k,
                    ) by {
                        if j < last {
                            assert(nodes[j] == d[j]);
                        }
                    }
                    assert forall|j: int|
                        0 <= j < ib && is_pile(occ_at(occ, #[trigger] nodes[j]), k) implies pile_amount(
                        occ_at(occ, nodes[j]),
                        k,
                    ) > ab by {
                        assert(nodes[j] == d[j]);
                    }
                }
                assert(!(forall|j: int| 0 <= j < nodes.len() ==> !is_pile(occ_at(occ, #[trigger] nodes[j]), k)));
            },
        }
    }
}

/// The fullest open pile is the last open pile of `k` in `nodes` that no open pile of `k` exceeds:
/// every open pile of `k` holds at most as much, and every open pile of `k` listed after it holds
/// less. There is none exactly when `nodes` holds no open pile of `k`.
pub proof fn lemma_highest_open_last_maximum(occ: Seq<Option<NodeOccupant>>, nodes: Seq<NodeId>, k: ResourceVariant)
    ensures
        highest_open(occ, nodes, k) is None <==> forall|j: int|
            0 <= j < nodes.len() ==> !is_open_pile(occ_at(occ, #[trigger] nodes[j]), k),
        highest_open(occ, nodes, k) matches Some(n) ==> exists|i: int|
            0 <= i < nodes.len() && nodes[i] == n && is_open_pile(occ_at(occ, n), k) && (forall|j: int|
                0 <= j < nodes.len() && is_open_pile(occ_at(occ, #[trigger] nodes[j]), k) ==> pile_amount(
                    occ_at(occ, nodes[j]),
                    k,
                ) <= pile_amount(occ_at(occ, n), k)) && (forall|j: int|
                i < j < nodes.len() && is_open_pile(occ_at(occ, #[trigger] nodes[j]), k) ==> pile_amount(
                    occ_at(occ, nodes[j]),
                    k,
                ) < pile_amount(occ_at(occ, n), k)),
    decreases nodes.len(),
{
    if nodes.len() > 0 {
        let d = nodes.drop_last();
        let x = nodes.last();
        let last = nodes.len() - 1;
        assert(nodes[last] == x);
        assert forall|j: int| 0 <= j < d.len() implies nodes[j] == #[trigger] d[j] by {}
        lemma_highest_open_last_maximum(occ, d, k);
        let ax = pile_amount(occ_at(occ, x), k);
        match highest_open(occ, d, k) {
            None => {
                if is_open_pile(occ_at(occ, x), k) {
                    assert forall|j: int|
                        0 <= j < nodes.len() && is_open_pile(occ_at(occ, #[trigger] nodes[j]), k) implies pile_amount(
                        occ_at(occ, nodes[j]),
                        k,
                    ) <= ax by {
                        if j < last {
                            assert(nodes[j] == d[j]);
                        }
                    }
                } else {
                    assert forall|j: int| 0 <= j < nodes.len() implies !is_open_pile(
                        occ_at(occ, #[trigger] nodes[j]),
                        k,
                    ) by {
                        if j < last {
                            assert(nodes[j] == d[j]);
                        }
                    }
                }
            },
            Some(b) => {
                let ab = pile_amount(occ_at(occ, b), k);
                let ib = choose|i: int|
                    0 <= i < d.len() && d[i] == b && is_open_pile(occ_at(occ, b), k) && (forall|j: int|
                        0 <= j < d.len() && is_open_pile(occ_at(occ, #[trigger] d[j]), k) ==> pile_amount(
                            occ_at(occ, d[j]),
                            k,
                        ) <= ab) && (forall|j: int|
                        i < j < d.len() && is_open_pile(occ_at(occ, #[trigger] d[j]), k) ==> pile_amount(
                            occ_at(occ, d[j]),
                            k,
                        ) < ab);
                assert(nodes[ib] == b);
                if is_open_pile(occ_at(occ, x), k) && ax >= ab {
                    assert forall|j: int|
                        0 <= j < nodes.len() && is_open_pile(occ_at(occ, #[trigger] nodes[j]), k) implies pile_amount(
                        occ_at(occ, nodes[j]),
                        k,
                    ) <= ax by {
                        if j < last {
                            assert(nodes[j] == d[j]);
                        }
                    }
                } else {
                    assert forall|j: int|
                        0 <= j < nodes.len() && is_open_pile(occ_at(occ, #[trigger] nodes[j]), k) implies pile_amount(
                        occ_at(occ, nodes[j]),
                        k,
                    ) <= ab by {
                        if j < last {
                            assert(nodes[j] == d[j]);
                        }
                    }
                    assert forall|j: int|
                        ib < j < nodes.len() && is_open_pile(occ_at(occ, #[trigger] nodes[j]), k) implies pile_amount(
                        occ_at(occ, nodes[j]),
                        k,
                    ) < ab by {
                        if j < last {
                            assert(nodes[j] == d[j]);
                        }
                    }
                }
                assert(!(forall|j: int| 0 <= j < nodes.len() ==> !is_open_pile(occ_at(occ, #[trigger] nodes[j]), k)));
            },
        }
    }
}

} // verus!
