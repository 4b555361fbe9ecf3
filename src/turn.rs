use vstd::prelude::*;
use crate::construction::ConstructionVariant;
use crate::map::{
    Allocation, FILL_PASSES, GroupId, MAX_STOCKPILE, NodeId, NodeOccupant, StarMap, fill,
    first_empty, group_index, group_nodes, highest_open, is_pile, lemma_first_empty_in,
    lemma_highest_open_in, lemma_listed_node_valid, lemma_lowest_first_minimum, lemma_lowest_in,
    listed_in, lowest, occ_at, pile_amount, piles_positive, pooled, top_up,
};
use crate::resource::ResourceVariant;

verus! {

/// One committed change, in the order in which it was made.
#[derive(Debug, Clone, Copy, PartialEq, Eq, Structural)]
#[allow(inconsistent_fields)]
pub enum AutoAction {
    /// Resource taken from the stockpile at `from` for `to`; `abs` is what `from` holds afterwards.
    ConsumeResource { from: NodeId, to: NodeId, var: ResourceVariant, abs: u32, diff: i64 },
    /// Resource put on the stockpile at `to` by `from`; `abs` is what `to` holds afterwards.
    ProduceResource { from: NodeId, to: NodeId, var: ResourceVariant, abs: u32, diff: i64 },
    /// The ship went from one group to another.
    ShipMove { from: GroupId, to: GroupId },
}

/// Bound on the passes of one consumption and on the productions of one turn.
pub const MAX_TURN_ITERS: usize = 10000;

/// The occupant left on a pile of kind `k` that held `a` after `c` is taken.
pub open spec fn after_take(k: ResourceVariant, a: nat, c: nat) -> Option<NodeOccupant> {
    if a - c == 0 {
        None
    } else {
        Some(NodeOccupant::Stockpile { var: k, amt: (a - c) as u32 })
    }
}

/// The consumption policy: each pass takes what is still needed, up to its whole amount, from the
/// lowest pile of `k`, and removes a pile that reaches zero. Each pass records the pile, what it
/// holds afterwards, and `diff`.
pub open spec fn drain(
    occ: Seq<Option<NodeOccupant>>,
    nodes: Seq<NodeId>,
    k: ResourceVariant,
    left: u32,
    passes: nat,
    to: NodeId,
    diff: i64,
) -> (Seq<Option<NodeOccupant>>, Seq<AutoAction>)
    decreases passes,
{
    if passes == 0 || left == 0 {
        (occ, seq![])
    } else {
        match lowest(occ, nodes, k) {
            None => (occ, seq![]),
            Some(n) => {
                let a = pile_amount(occ_at(occ, n), k);
                let c = if (left as nat) < a {
                    left as nat
                } else {
                    a
                };
                let occ2 = occ.update(n.0 as int, after_take(k, a, c));
                let rest = drain(occ2, nodes, k, (left - c) as u32, (passes - 1) as nat, to, diff);
                (
                    rest.0,
                    seq![
                        AutoAction::ConsumeResource {
                            from: n,
                            to,
                            var: k,
                            abs: (a - c) as u32,
                            diff,
                        },
                    ] + rest.1,
                )
            },
        }
    }
}

impl StarMap {
    /// Takes `amt` of `v` from group `group_id` by the consumption policy `drain`, over at most
    /// `passes` passes, for node `to`; every record carries `diff`.
    pub fn consume_in_group(
        &mut self,
        group_id: &GroupId,
        v: &ResourceVariant,
        amt: u32,
        passes: usize,
        to: &NodeId,
        diff: i64,
    ) -> (r: Vec<AutoAction>)
        requires
            old(self).wf(),
            old(self).valid_group(*group_id),
        ensures
            final(self).wf(),
            final(self).groups == old(self).groups,
            final(self).edges == old(self).edges,
            final(self).occupation.len() == old(self).occupation.len(),
            (final(self).occupation@, r@) == drain(
                old(self).occupation@,
                old(self).nodes_of(*group_id),
                *v,
                amt,
                passes as nat,
                *to,
                diff,
            ),
    {
        let ghost nodes = self.nodes_of(*group_id);
        let ghost target = drain(self.occupation@, nodes, *v, amt, passes as nat, *to, diff);
        let mut left = amt;
        let mut actions: Vec<AutoAction> = Vec::new();
        let mut j: usize = 0;
        let mut starved = false;
        while j < passes && left > 0 && !starved
            invariant
                self.wf(),
                self.valid_group(*group_id),
                self.groups == old(self).groups,
                self.edges == old(self).edges,
                self.occupation.len() == old(self).occupation.len(),
                nodes == self.nodes_of(*group_id),
                0 <= j <= passes,
                starved ==> drain(self.occupation@, nodes, *v, left, (passes - j) as nat, *to, diff).1
                    =~= seq![] && drain(self.occupation@, nodes, *v, left, (passes - j) as nat, *to, diff).0
                    == self.occupation@,
                target.0 == drain(self.occupation@, nodes, *v, left, (passes - j) as nat, *to, diff).0,
                target.1 == actions@ + drain(self.occupation@, nodes, *v, left, (passes - j) as nat, *to, diff).1,
            decreases 2 * (passes - j) + if starved {
                0int
            } else {
                1int
            },
        {
            let ghost occ = self.occupation@;
            proof {
                lemma_lowest_in(occ, nodes, *v);
            }
            match self.find_lowest_stockpile(group_id, v) {
                None => {
                    starved = true;
                },
                Some(n) => {
                    proof {
                        lemma_listed_node_valid(self, *group_id, n);
                    }
                    if let Some(NodeOccupant::Stockpile { var, amt: stock_amt }) = self.occupation[n.0] {
                        let clamped = if left < stock_amt { left } else { stock_amt };
                        let rest_amt = stock_amt - clamped;
                        actions.push(AutoAction::ConsumeResource { from: n, to: *to, var, abs: rest_amt, diff });
                        if rest_amt == 0 {
                            self.clear_at(&n);
                        } else {
                            self.set_at(&n, NodeOccupant::Stockpile { var, amt: rest_amt });
                        }
                        left -= clamped;
                        proof {
                            assert(self.occupation@ == occ.update(n.0 as int, after_take(*v, stock_amt as nat, clamped as nat)));
                            assert(seq![AutoAction::ConsumeResource { from: n, to: *to, var: *v, abs: rest_amt, diff }]
                                + drain(self.occupation@, nodes, *v, left, (passes - j - 1) as nat, *to, diff).1
                                =~= drain(occ, nodes, *v, (left + clamped) as u32, (passes - j) as nat, *to, diff).1);
                        }
                    }
                    j += 1;
                },
            }
        }
        proof {
            assert(drain(self.occupation@, nodes, *v, left, (passes - j) as nat, *to, diff).1 =~= seq![]);
            assert(actions@ + seq![] =~= actions@);
        }
        actions
    }
}

/// The table after the construction at `id` starts its cooldown over.
pub open spec fn reset_cooldown(occ: Seq<Option<NodeOccupant>>, id: NodeId) -> Seq<Option<NodeOccupant>> {
    match occ_at(occ, id) {
        Some(NodeOccupant::Construction { var, cooldown }) => occ.update(
            id.0 as int,
            Some(NodeOccupant::Construction { var, cooldown: var.spec_cooldown() }),
        ),
        _ => occ,
    }
}

/// The log entry for one allocation made by the construction at `from`.
pub open spec fn produce_entry(from: NodeId, k: ResourceVariant, a: Allocation) -> AutoAction {
    AutoAction::ProduceResource { from, to: a.0, var: k, abs: a.1, diff: a.2 as i64 }
}

/// The log entries for the allocations made by the construction at `from`.
pub open spec fn produce_log(from: NodeId, k: ResourceVariant, recs: Seq<Allocation>) -> Seq<AutoAction> {
    recs.map_values(|a: Allocation| produce_entry(from, k, a))
}

/// One production cycle of the construction of kind `var` at `id`: its cooldown starts over, its
/// request is taken from its group by `drain` (each record carrying the whole request), and its
/// output is put into its group by `fill`.
pub open spec fn cycle(
    groups: Seq<Vec<NodeId>>,
    occ: Seq<Option<NodeOccupant>>,
    id: NodeId,
    var: ConstructionVariant,
) -> (Seq<Option<NodeOccupant>>, Seq<AutoAction>) {
    let nodes = group_nodes(groups, id);
    let req = var.spec_request();
    let d = drain(reset_cooldown(occ, id), nodes, req.0, req.1, MAX_TURN_ITERS as nat, id, req.1 as i64);
    let out = var.spec_produce();
    let f = fill(d.0, nodes, out.0, out.1, FILL_PASSES as nat);
    (f.0, d.1 + produce_log(id, out.0, f.1))
}

/// What a construction of kind `var` requests of kind `k` per cycle.
pub open spec fn request_of(var: ConstructionVariant, k: ResourceVariant) -> nat {
    if k == var.spec_request().0 {
        var.spec_request().1 as nat
    } else {
        0
    }
}

/// Whether the group of `id` pools at least what a construction of kind `var` requests.
pub open spec fn can_run(
    groups: Seq<Vec<NodeId>>,
    occ: Seq<Option<NodeOccupant>>,
    id: NodeId,
    var: ConstructionVariant,
) -> bool {
    forall|k: ResourceVariant| #[trigger] pooled(occ, group_nodes(groups, id), k) >= request_of(var, k)
}

impl StarMap {
    /// Runs one production cycle (`cycle`) of the construction of kind `var` at `id`.
    pub fn run_construction(&mut self, id: &NodeId, var: &ConstructionVariant) -> (r: Vec<AutoAction>)
        requires
            old(self).wf(),
            old(self).valid_node(*id),
        ensures
            final(self).wf(),
            final(self).groups == old(self).groups,
            final(self).edges == old(self).edges,
            final(self).occupation.len() == old(self).occupation.len(),
            (final(self).occupation@, r@) == cycle(old(self).groups@, old(self).occupation@, *id, *var),
    {
        let group_id = self.group_from_node(id);
        if let Some(NodeOccupant::Construction { var: v, cooldown }) = self.occupation[id.0] {
            self.set_at(id, NodeOccupant::Construction { var: v, cooldown: v.get_cooldown() });
        }
        let (rk, rn) = var.request();
        let mut log = self.consume_in_group(&group_id, &rk, rn, MAX_TURN_ITERS, id, rn as i64);
        let (pk, pn) = var.produce();
        let allocs = self.add_resource_in_group(&group_id, &pk, pn);
        let ghost base = log@;
        let mut i: usize = 0;
        while i < allocs.len()
            invariant
                0 <= i <= allocs.len(),
                log@ == base + produce_log(*id, pk, allocs@.take(i as int)),
            decreases allocs.len() - i,
        {
            let a = allocs[i];
            log.push(AutoAction::ProduceResource { from: *id, to: a.0, var: pk, abs: a.1, diff: a.2 as i64 });
            proof {
                assert(allocs@.take(i + 1) =~= allocs@.take(i as int).push(a));
                assert(produce_log(*id, pk, allocs@.take(i + 1)) =~= produce_log(*id, pk, allocs@.take(i as int)).push(
                    produce_entry(*id, pk, a),
                ));
            }
            i += 1;
        }
        assert(allocs@.take(i as int) =~= allocs@);
        log
    }

    /// Whether the group of `id` pools at least what a construction of kind `var` requests.
    pub fn can_run(&self, id: &NodeId, var: &ConstructionVariant) -> (r: bool)
        requires
            self.wf(),
            self.valid_node(*id),
        ensures
            r == can_run(self.groups@, self.occupation@, *id, *var),
    {
        let group_id = self.group_from_node(id);
        let available = self.get_group_bunch(&group_id);
        let requested = var.request_resources();
        let r = available.contains(&requested);
        proof {
            if r {
                assert forall|k: ResourceVariant| #[trigger] pooled(self.occupation@, group_nodes(self.groups@, *id), k)
                    >= request_of(*var, k) by {
                    assert(available@[k] >= requested@[k]);
                }
            } else {
                let k = choose|k: ResourceVariant| !(#[trigger] available@[k] >= requested@[k]);
                assert(pooled(self.occupation@, group_nodes(self.groups@, *id), k) < request_of(*var, k));
            }
        }
        r
    }
}

/// A construction's occupant after one turn passes: a positive cooldown goes down by one.
pub open spec fn tick(o: Option<NodeOccupant>) -> Option<NodeOccupant> {
    match o {
        Some(NodeOccupant::Construction { var, cooldown }) => if cooldown > 0 {
            Some(NodeOccupant::Construction { var, cooldown: (cooldown - 1) as u32 })
        } else {
            o
        },
        _ => o,
    }
}

/// The constructions whose cooldown is over, in node order.
pub open spec fn candidates_of(occ: Seq<Option<NodeOccupant>>) -> Seq<(NodeId, ConstructionVariant)>
    decreases occ.len(),
{
    if occ.len() == 0 {
        seq![]
    } else {
        let rest = candidates_of(occ.drop_last());
        match occ.last() {
            Some(NodeOccupant::Construction { var, cooldown }) => if cooldown == 0 {
                rest.push((NodeId((occ.len() - 1) as usize), var))
            } else {
                rest
            },
            _ => rest,
        }
    }
}

/// The position of the first candidate whose group pools what it requests.
pub open spec fn first_ready(
    groups: Seq<Vec<NodeId>>,
    occ: Seq<Option<NodeOccupant>>,
    cands: Seq<(NodeId, ConstructionVariant)>,
) -> Option<int>
    decreases cands.len(),
{
    if cands.len() == 0 {
        None
    } else {
        let r = first_ready(groups, occ, cands.drop_last());
        if r is Some {
            r
        } else if can_run(groups, occ, cands.last().0, cands.last().1) {
            Some(cands.len() - 1)
        } else {
            None
        }
    }
}

/// The resolution loop: at most `iters` times, the first candidate that can run runs one
/// `cycle` and leaves the list; it stops as soon as no candidate can run.
pub open spec fn resolve(
    groups: Seq<Vec<NodeId>>,
    occ: Seq<Option<NodeOccupant>>,
    cands: Seq<(NodeId, ConstructionVariant)>,
    iters: nat,
) -> (Seq<Option<NodeOccupant>>, Seq<AutoAction>)
    decreases iters,
{
    if iters == 0 {
        (occ, seq![])
    } else {
        match first_ready(groups, occ, cands) {
            None => (occ, seq![]),
            Some(i) => {
                let s = cycle(groups, occ, cands[i].0, cands[i].1);
                let r = resolve(groups, s.0, cands.remove(i), (iters - 1) as nat);
                (r.0, s.1 + r.1)
            },
        }
    }
}

/// Once a prefix has no ready candidate, the first ready candidate after it is the first overall.
pub proof fn lemma_first_ready_extend(
    groups: Seq<Vec<NodeId>>,
    occ: Seq<Option<NodeOccupant>>,
    cands: Seq<(NodeId, ConstructionVariant)>,
    i: int,
)
    requires
        0 <= i <= cands.len(),
        first_ready(groups, occ, cands.take(i)) is None,
    ensures
        i < cands.len() && can_run(groups, occ, cands[i].0, cands[i].1) ==> first_ready(groups, occ, cands) == Some(i),
        i == cands.len() ==> first_ready(groups, occ, cands) is None,
    decreases cands.len(),
{
    if i == cands.len() {
        assert(cands.take(i) =~= cands);
    } else if can_run(groups, occ, cands[i].0, cands[i].1) {
        assert(cands.take(i + 1).drop_last() =~= cands.take(i));
        assert(first_ready(groups, occ, cands.take(i + 1)) == Some(i));
        if cands.len() > i + 1 {
            assert(cands.drop_last().take(i) =~= cands.take(i));
            assert(cands.drop_last()[i] == cands[i]);
            lemma_first_ready_extend(groups, occ, cands.drop_last(), i);
        } else {
            assert(cands.take(i + 1) =~= cands);
        }
    }
}

impl StarMap {
    /// Every construction with a positive cooldown counts one turn down (`tick`).
    pub fn tick_cooldowns(&mut self)
        requires
            old(self).wf(),
        ensures
            final(self).wf(),
            final(self).groups == old(self).groups,
            final(self).edges == old(self).edges,
            final(self).occupation@ == old(self).occupation@.map_values(|o: Option<NodeOccupant>| tick(o)),
    {
        let mut i: usize = 0;
        while i < self.occupation.len()
            invariant
                self.wf(),
                self.groups == old(self).groups,
                self.edges == old(self).edges,
                self.occupation.len() == old(self).occupation.len(),
                0 <= i <= self.occupation.len(),
                forall|j: int| 0 <= j < i ==> self.occupation@[j] == tick(old(self).occupation@[j]),
                forall|j: int| i <= j < self.occupation.len() ==> self.occupation@[j] == old(self).occupation@[j],
            decreases self.occupation.len() - i,
        {
            if let Some(NodeOccupant::Construction { var, cooldown }) = self.occupation[i] {
                if cooldown > 0 {
                    self.set_at(&NodeId(i), NodeOccupant::Construction { var, cooldown: cooldown - 1 });
                }
            }
            i += 1;
        }
        assert(self.occupation@ =~= old(self).occupation@.map_values(|o: Option<NodeOccupant>| tick(o)));
    }

    /// The constructions whose cooldown is over, in node order (`candidates_of`).
    pub fn ready_constructions(&self) -> (r: Vec<(NodeId, ConstructionVariant)>)
        ensures
            r@ == candidates_of(self.occupation@),
            forall|j: int| 0 <= j < r.len() ==> #[trigger] r@[j].0 .0 < self.occupation.len(),
    {
        let mut r: Vec<(NodeId, ConstructionVariant)> = Vec::new();
        let mut i: usize = 0;
        while i < self.occupation.len()
            invariant
                0 <= i <= self.occupation.len(),
                r@ == candidates_of(self.occupation@.take(i as int)),
                forall|j: int| 0 <= j < r.len() ==> #[trigger] r@[j].0 .0 < i,
            decreases self.occupation.len() - i,
        {
            proof {
                assert(self.occupation@.take(i + 1).drop_last() =~= self.occupation@.take(i as int));
            }
            if let Some(NodeOccupant::Construction { var, cooldown }) = self.occupation[i] {
                if cooldown == 0 {
                    r.push((NodeId(i), var));
                }
            }
            i += 1;
        }
        assert(self.occupation@.take(i as int) =~= self.occupation@);
        r
    }

    /// The position of the first candidate whose group pools what it requests (`first_ready`).
    pub fn find_ready(&self, cands: &Vec<(NodeId, ConstructionVariant)>) -> (r: Option<usize>)
        requires
            self.wf(),
            forall|j: int| 0 <= j < cands.len() ==> #[trigger] cands@[j].0 .0 < self.occupation.len(),
        ensures
            r matches Some(i) ==> i < cands.len() && first_ready(self.groups@, self.occupation@, cands@) == Some(i as int),
            r is None ==> first_ready(self.groups@, self.occupation@, cands@) is None,
    {
        let mut i: usize = 0;
        while i < cands.len()
            invariant
                self.wf(),
                forall|j: int| 0 <= j < cands.len() ==> #[trigger] cands@[j].0 .0 < self.occupation.len(),
                0 <= i <= cands.len(),
                first_ready(self.groups@, self.occupation@, cands@.take(i as int)) is None,
            decreases cands.len() - i,
        {
            let (id, var) = cands[i];
            proof {
                assert(cands@[i as int].0 .0 < self.occupation.len());
            }
            if self.can_run(&id, &var) {
                proof {
                    lemma_first_ready_extend(self.groups@, self.occupation@, cands@, i as int);
                }
                return Some(i);
            }
            proof {
                assert(cands@.take(i + 1).drop_last() =~= cands@.take(i as int));
            }
            i += 1;
        }
        proof {
            lemma_first_ready_extend(self.groups@, self.occupation@, cands@, i as int);
        }
        None
    }

    /// Runs the resolution loop (`resolve`) over `cands` with the bound `MAX_TURN_ITERS`.
    pub fn resolve_constructions(&mut self, cands: Vec<(NodeId, ConstructionVariant)>) -> (r: Vec<AutoAction>)
        requires
            old(self).wf(),
            forall|j: int| 0 <= j < cands.len() ==> #[trigger] cands@[j].0 .0 < old(self).occupation.len(),
        ensures
            final(self).wf(),
            final(self).groups == old(self).groups,
            final(self).edges == old(self).edges,
            final(self).occupation.len() == old(self).occupation.len(),
            (final(self).occupation@, r@) == resolve(
                old(self).groups@,
                old(self).occupation@,
                cands@,
                MAX_TURN_ITERS as nat,
            ),
    {
        let ghost groups = self.groups@;
        let ghost target = resolve(groups, self.occupation@, cands@, MAX_TURN_ITERS as nat);
        let mut cands = cands;
        let mut log: Vec<AutoAction> = Vec::new();
        let mut i: usize = 0;
        let mut starved = false;
        while i < MAX_TURN_ITERS && !starved
            invariant
                self.wf(),
                self.groups == old(self).groups,
                self.edges == old(self).edges,
                groups == self.groups@,
                self.occupation.len() == old(self).occupation.len(),
                forall|j: int| 0 <= j < cands.len() ==> #[trigger] cands@[j].0 .0 < self.occupation.len(),
                0 <= i <= MAX_TURN_ITERS,
                starved ==> first_ready(groups, self.occupation@, cands@) is None,
                target.0 == resolve(groups, self.occupation@, cands@, (MAX_TURN_ITERS - i) as nat).0,
                target.1 == log@ + resolve(groups, self.occupation@, cands@, (MAX_TURN_ITERS - i) as nat).1,
            decreases 2 * (MAX_TURN_ITERS - i) + if starved {
                0int
            } else {
                1int
            },
        {
            match self.find_ready(&cands) {
                None => {
                    starved = true;
                },
                Some(k) => {
                    let ghost occ = self.occupation@;
                    let ghost cs = cands@;
                    let (id, var) = cands[k];
                    proof {
                        assert(cands@[k as int].0 .0 < self.occupation.len());
                    }
                    let mut out = self.run_construction(&id, &var);
                    log.append(&mut out);
                    cands.remove(k);
                    proof {
                        assert forall|j: int| 0 <= j < cands.len() implies #[trigger] cands@[j].0 .0
                            < self.occupation.len() by {
                            if j < k {
                                assert(cands@[j] == cs[j]);
                            } else {
                                assert(cands@[j] == cs[j + 1]);
                            }
                        }
                        let s = cycle(groups, occ, id, var);
                        assert(log@ + resolve(groups, self.occupation@, cands@, (MAX_TURN_ITERS - i - 1) as nat).1
                            =~= (log@.take(log@.len() - s.1.len())) + resolve(groups, occ, cs, (MAX_TURN_ITERS - i) as nat).1);
                    }
                    i += 1;
                },
            }
        }
        proof {
            assert(resolve(groups, self.occupation@, cands@, (MAX_TURN_ITERS - i) as nat).1 =~= seq![]);
            assert(log@ + seq![] =~= log@);
        }
        log
    }
}

/// Changing the occupant of one node of a duplicate-free node list changes the pooled amount by
/// the difference of the two occupants' amounts.
pub proof fn lemma_pooled_update(
    occ: Seq<Option<NodeOccupant>>,
    nodes: Seq<NodeId>,
    k: ResourceVariant,
    n: NodeId,
    o: Option<NodeOccupant>,
)
    requires
        n.0 < occ.len(),
        forall|i: int, j: int| 0 <= i < j < nodes.len() ==> nodes[i] != nodes[j],
    ensures
        nodes.contains(n) ==> pooled(occ.update(n.0 as int, o), nodes, k) + pile_amount(occ_at(occ, n), k)
            == pooled(occ, nodes, k) + pile_amount(o, k),
        !nodes.contains(n) ==> pooled(occ.update(n.0 as int, o), nodes, k) == pooled(occ, nodes, k),
    decreases nodes.len(),
{
    if nodes.len() > 0 {
        let d = nodes.drop_last();
        let x = nodes.last();
        assert(nodes[nodes.len() - 1] == x);
        lemma_pooled_update(occ, d, k, n, o);
        if x == n {
            assert(!d.contains(n)) by {
                if d.contains(n) {
                    let i = choose|i: int| 0 <= i < d.len() && d[i] == n;
                    assert(nodes[i] == nodes[nodes.len() - 1]);
                }
            }
        } else {
            assert(occ_at(occ.update(n.0 as int, o), x) == occ_at(occ, x));
            if nodes.contains(n) {
                let i = choose|i: int| 0 <= i < nodes.len() && nodes[i] == n;
                assert(d[i] == n);
            }
            if d.contains(n) {
                let i = choose|i: int| 0 <= i < d.len() && d[i] == n;
                assert(nodes[i] == n);
            }
        }
    }
}

/// When `nodes` pools at least `left` of `k` and there are at least `left` passes, the consumption
/// policy takes exactly `left` of `k` from `nodes`.
pub proof fn lemma_drain_takes_all(
    occ: Seq<Option<NodeOccupant>>,
    nodes: Seq<NodeId>,
    k: ResourceVariant,
    left: u32,
    passes: nat,
    to: NodeId,
    diff: i64,
)
    requires
        piles_positive(occ),
        forall|i: int| 0 <= i < nodes.len() ==> (#[trigger] nodes[i]).0 < occ.len(),
        forall|i: int, j: int| 0 <= i < j < nodes.len() ==> nodes[i] != nodes[j],
        pooled(occ, nodes, k) >= left,
        passes >= left,
    ensures
        pooled(drain(occ, nodes, k, left, passes, to, diff).0, nodes, k) == pooled(occ, nodes, k) - left,
    decreases passes,
{
    if left > 0 {
        lemma_lowest_first_minimum(occ, nodes, k);
        if lowest(occ, nodes, k) is None {
            lemma_pooled_zero_without_piles(occ, nodes, k);
        }
        let n = lowest(occ, nodes, k).unwrap();
        lemma_lowest_in(occ, nodes, k);
        let i = choose|i: int| 0 <= i < nodes.len() && nodes[i] == n;
        assert(nodes[i].0 < occ.len());
        let a = pile_amount(occ_at(occ, n), k);
        assert(a >= 1) by {
            assert(occ[n.0 as int] == occ_at(occ, n));
        }
        let c = if (left as nat) < a {
            left as nat
        } else {
            a
        };
        let o = after_take(k, a, c);
        let occ2 = occ.update(n.0 as int, o);
        lemma_pooled_update(occ, nodes, k, n, o);
        assert(piles_positive(occ2)) by {
            assert forall|j: int| 0 <= j < occ2.len() implies match #[trigger] occ2[j] {
                Some(NodeOccupant::Stockpile { var, amt }) => amt >= 1,
                _ => true,
            } by {
                if j != n.0 as int {
                    assert(occ2[j] == occ[j]);
                }
            }
        }
        lemma_drain_takes_all(occ2, nodes, k, (left - c) as u32, (passes - 1) as nat, to, diff);
    }
}

/// Nodes that hold no pile of `k` pool none of it.
pub proof fn lemma_pooled_zero_without_piles(occ: Seq<Option<NodeOccupant>>, nodes: Seq<NodeId>, k: ResourceVariant)
    requires
        forall|j: int| 0 <= j < nodes.len() ==> !is_pile(occ_at(occ, #[trigger] nodes[j]), k),
    ensures
        pooled(occ, nodes, k) == 0,
    decreases nodes.len(),
{
    if nodes.len() > 0 {
        let d = nodes.drop_last();
        assert(nodes[nodes.len() - 1] == nodes.last());
        assert forall|j: int| 0 <= j < d.len() implies !is_pile(occ_at(occ, #[trigger] d[j]), k) by {
            assert(d[j] == nodes[j]);
        }
        lemma_pooled_zero_without_piles(occ, d, k);
    }
}

/// The consumption policy leaves the pooled amount of every other kind as it was.
pub proof fn lemma_drain_other_kinds(
    occ: Seq<Option<NodeOccupant>>,
    nodes: Seq<NodeId>,
    k: ResourceVariant,
    k2: ResourceVariant,
    left: u32,
    passes: nat,
    to: NodeId,
    diff: i64,
)
    requires
        k2 != k,
        forall|i: int| 0 <= i < nodes.len() ==> (#[trigger] nodes[i]).0 < occ.len(),
        forall|i: int, j: int| 0 <= i < j < nodes.len() ==> nodes[i] != nodes[j],
    ensures
        pooled(drain(occ, nodes, k, left, passes, to, diff).0, nodes, k2) == pooled(occ, nodes, k2),
    decreases passes,
{
    if passes > 0 && left > 0 {
        lemma_lowest_in(occ, nodes, k);
        if let Some(n) = lowest(occ, nodes, k) {
            let i = choose|i: int| 0 <= i < nodes.len() && nodes[i] == n;
            assert(nodes[i].0 < occ.len());
            let a = pile_amount(occ_at(occ, n), k);
            let c = if (left as nat) < a {
                left as nat
            } else {
                a
            };
            let o = after_take(k, a, c);
            lemma_pooled_update(occ, nodes, k2, n, o);
            lemma_drain_other_kinds(occ.update(n.0 as int, o), nodes, k, k2, (left - c) as u32, (passes - 1) as nat, to, diff);
        }
    }
}

/// The consumption policy touches only piles of `k`: a node that holds no pile of `k` keeps its
/// occupant.
pub proof fn lemma_drain_keeps_other_nodes(
    occ: Seq<Option<NodeOccupant>>,
    nodes: Seq<NodeId>,
    k: ResourceVariant,
    left: u32,
    passes: nat,
    to: NodeId,
    diff: i64,
    x: NodeId,
)
    requires
        x.0 < occ.len(),
        !is_pile(occ_at(occ, x), k),
    ensures
        drain(occ, nodes, k, left, passes, to, diff).0[x.0 as int] == occ[x.0 as int],
    decreases passes,
{
    if passes > 0 && left > 0 {
        lemma_lowest_in(occ, nodes, k);
        if let Some(n) = lowest(occ, nodes, k) {
            let a = pile_amount(occ_at(occ, n), k);
            let c = if (left as nat) < a {
                left as nat
            } else {
                a
            };
            let occ2 = occ.update(n.0 as int, after_take(k, a, c));
            assert(n != x);
            assert(occ2[x.0 as int] == occ[x.0 as int]);
            lemma_drain_keeps_other_nodes(occ2, nodes, k, (left - c) as u32, (passes - 1) as nat, to, diff, x);
        }
    }
}

/// Consuming from a group of a well-formed map that pools enough takes exactly the amount asked,
/// given at least as many passes as units, and no other kind.
pub proof fn lemma_consume_exact(
    m: &StarMap,
    g: GroupId,
    k: ResourceVariant,
    amt: u32,
    passes: nat,
    to: NodeId,
    diff: i64,
)
    requires
        m.wf(),
        m.valid_group(g),
        pooled(m.occupation@, m.nodes_of(g), k) >= amt,
        passes >= amt,
    ensures
        pooled(drain(m.occupation@, m.nodes_of(g), k, amt, passes, to, diff).0, m.nodes_of(g), k) == pooled(
            m.occupation@,
            m.nodes_of(g),
            k,
        ) - amt,
        forall|k2: ResourceVariant|
            k2 != k ==> #[trigger] pooled(drain(m.occupation@, m.nodes_of(g), k, amt, passes, to, diff).0, m.nodes_of(g), k2)
                == pooled(m.occupation@, m.nodes_of(g), k2),
{
    let nodes = m.nodes_of(g);
    assert forall|i: int| 0 <= i < nodes.len() implies (#[trigger] nodes[i]).0 < m.occupation.len() by {
        assert(m.groups@[g.0 as int]@[i] == nodes[i]);
    }
    assert forall|i: int, j: int| 0 <= i < j < nodes.len() implies nodes[i] != nodes[j] by {
        assert(m.groups@[g.0 as int]@[i] == nodes[i]);
        assert(m.groups@[g.0 as int]@[j] == nodes[j]);
    }
    lemma_drain_takes_all(m.occupation@, nodes, k, amt, passes, to, diff);
    assert forall|k2: ResourceVariant| k2 != k implies #[trigger] pooled(
        drain(m.occupation@, nodes, k, amt, passes, to, diff).0,
        nodes,
        k2,
    ) == pooled(m.occupation@, nodes, k2) by {
        lemma_drain_other_kinds(m.occupation@, nodes, k, k2, amt, passes, to, diff);
    }
}

/// Every node of `nodes` is a node of the table `occ`.
pub open spec fn nodes_in(occ: Seq<Option<NodeOccupant>>, nodes: Seq<NodeId>) -> bool {
    forall|i: int| 0 <= i < nodes.len() ==> (#[trigger] nodes[i]).0 < occ.len()
}

/// Every node of every group of the table `groups` is a node of `occ`.
pub open spec fn groups_in(occ: Seq<Option<NodeOccupant>>, groups: Seq<Vec<NodeId>>) -> bool {
    forall|g: int, i: int| 0 <= g < groups.len() && 0 <= i < groups[g]@.len() ==> (#[trigger] groups[g]@[i]).0 < occ.len()
}

/// Whether some group of the table lists node `n`.
pub open spec fn is_listed(groups: Seq<Vec<NodeId>>, n: NodeId) -> bool {
    exists|g: int| listed_in(groups, n, g)
}

/// Putting an occupant that is no empty pile on a node keeps every pile non-empty.
pub proof fn lemma_update_positive(occ: Seq<Option<NodeOccupant>>, n: int, o: Option<NodeOccupant>)
    requires
        piles_positive(occ),
        0 <= n < occ.len(),
        match o {
            Some(NodeOccupant::Stockpile { var, amt }) => amt >= 1,
            _ => true,
        },
    ensures
        piles_positive(occ.update(n, o)),
        occ.update(n, o).len() == occ.len(),
{
    assert forall|j: int| 0 <= j < occ.update(n, o).len() implies match #[trigger] occ.update(n, o)[j] {
        Some(NodeOccupant::Stockpile { var, amt }) => amt >= 1,
        _ => true,
    } by {
        if j != n {
            assert(occ.update(n, o)[j] == occ[j]);
        }
    }
}

/// The consumption policy leaves no empty pile and keeps the table's length.
pub proof fn lemma_drain_positive(
    occ: Seq<Option<NodeOccupant>>,
    nodes: Seq<NodeId>,
    k: ResourceVariant,
    left: u32,
    passes: nat,
    to: NodeId,
    diff: i64,
)
    requires
        piles_positive(occ),
        nodes_in(occ, nodes),
    ensures
        piles_positive(drain(occ, nodes, k, left, passes, to, diff).0),
        drain(occ, nodes, k, left, passes, to, diff).0.len() == occ.len(),
    decreases passes,
{
    if passes > 0 && left > 0 {
        lemma_lowest_in(occ, nodes, k);
        if let Some(n) = lowest(occ, nodes, k) {
            let i = choose|i: int| 0 <= i < nodes.len() && nodes[i] == n;
            assert(nodes[i].0 < occ.len());
            let a = pile_amount(occ_at(occ, n), k);
            let c = if (left as nat) < a {
                left as nat
            } else {
                a
            };
            lemma_update_positive(occ, n.0 as int, after_take(k, a, c));
            lemma_drain_positive(occ.update(n.0 as int, after_take(k, a, c)), nodes, k, (left - c) as u32, (passes - 1) as nat, to, diff);
        }
    }
}

/// The allocation policy leaves no empty pile and keeps the table's length.
pub proof fn lemma_fill_positive(
    occ: Seq<Option<NodeOccupant>>,
    nodes: Seq<NodeId>,
    k: ResourceVariant,
    left: u32,
    passes: nat,
)
    requires
        piles_positive(occ),
        nodes_in(occ, nodes),
    ensures
        piles_positive(fill(occ, nodes, k, left, passes).0),
        fill(occ, nodes, k, left, passes).0.len() == occ.len(),
    decreases passes,
{
    if passes > 0 && left > 0 {
        lemma_highest_open_in(occ, nodes, k);
        lemma_first_empty_in(occ, nodes);
        match highest_open(occ, nodes, k) {
            Some(n) => {
                let i = choose|i: int| 0 <= i < nodes.len() && nodes[i] == n;
                assert(nodes[i].0 < occ.len());
                let a = pile_amount(occ_at(occ, n), k);
                let c = top_up(a, left as nat);
                let o = Some(NodeOccupant::Stockpile { var: k, amt: (a + c) as u32 });
                lemma_update_positive(occ, n.0 as int, o);
                lemma_fill_positive(occ.update(n.0 as int, o), nodes, k, (left - c) as u32, (passes - 1) as nat);
            },
            None => {
                if let Some(e) = first_empty(occ, nodes) {
                    let i = choose|i: int| 0 <= i < nodes.len() && nodes[i] == e;
                    assert(nodes[i].0 < occ.len());
                    lemma_update_positive(occ, e.0 as int, Some(NodeOccupant::Stockpile { var: k, amt: left }));
                }
            },
        }
    }
}

/// One production cycle leaves no empty pile and keeps the table's length.
pub proof fn lemma_cycle_positive(
    groups: Seq<Vec<NodeId>>,
    occ: Seq<Option<NodeOccupant>>,
    id: NodeId,
    var: ConstructionVariant,
)
    requires
        piles_positive(occ),
        groups_in(occ, groups),
        is_listed(groups, id),
    ensures
        piles_positive(cycle(groups, occ, id, var).0),
        cycle(groups, occ, id, var).0.len() == occ.len(),
{
    let g = group_index(groups, id);
    assert(listed_in(groups, id, g));
    let nodes = group_nodes(groups, id);
    let occ1 = reset_cooldown(occ, id);
    if let Some(NodeOccupant::Construction { var: v, cooldown }) = occ_at(occ, id) {
        lemma_update_positive(
            occ,
            id.0 as int,
            Some(NodeOccupant::Construction { var: v, cooldown: v.spec_cooldown() }),
        );
    }
    assert(nodes_in(occ1, nodes)) by {
        assert forall|i: int| 0 <= i < nodes.len() implies (#[trigger] nodes[i]).0 < occ1.len() by {
            assert(groups[g]@[i] == nodes[i]);
        }
    }
    let req = var.spec_request();
    lemma_drain_positive(occ1, nodes, req.0, req.1, MAX_TURN_ITERS as nat, id, req.1 as i64);
    let d = drain(occ1, nodes, req.0, req.1, MAX_TURN_ITERS as nat, id, req.1 as i64);
    let out = var.spec_produce();
    lemma_fill_positive(d.0, nodes, out.0, out.1, FILL_PASSES as nat);
}

/// The resolution loop leaves no empty pile and keeps the table's length.
pub proof fn lemma_resolve_positive(
    groups: Seq<Vec<NodeId>>,
    occ: Seq<Option<NodeOccupant>>,
    cands: Seq<(NodeId, ConstructionVariant)>,
    iters: nat,
)
    requires
        piles_positive(occ),
        groups_in(occ, groups),
        forall|j: int| 0 <= j < cands.len() ==> is_listed(groups, (#[trigger] cands[j]).0),
    ensures
        piles_positive(resolve(groups, occ, cands, iters).0),
        resolve(groups, occ, cands, iters).0.len() == occ.len(),
    decreases iters,
{
    if iters > 0 {
        if let Some(i) = first_ready(groups, occ, cands) {
            lemma_first_ready_in(groups, occ, cands);
            assert(is_listed(groups, cands[i].0));
            lemma_cycle_positive(groups, occ, cands[i].0, cands[i].1);
            let s = cycle(groups, occ, cands[i].0, cands[i].1);
            let rest = cands.remove(i);
            assert forall|j: int| 0 <= j < rest.len() implies is_listed(groups, (#[trigger] rest[j]).0) by {
                if j < i {
                    assert(rest[j] == cands[j]);
                } else {
                    assert(rest[j] == cands[j + 1]);
                }
            }
            lemma_resolve_positive(groups, s.0, rest, (iters - 1) as nat);
        }
    }
}

/// The first ready candidate is a position of the list.
pub proof fn lemma_first_ready_in(
    groups: Seq<Vec<NodeId>>,
    occ: Seq<Option<NodeOccupant>>,
    cands: Seq<(NodeId, ConstructionVariant)>,
)
    ensures
        first_ready(groups, occ, cands) matches Some(i) ==> 0 <= i < cands.len(),
    decreases cands.len(),
{
    if cands.len() > 0 {
        lemma_first_ready_in(groups, occ, cands.drop_last());
    }
}

/// The constructions found ready are nodes of the table.
pub proof fn lemma_candidates_in(occ: Seq<Option<NodeOccupant>>)
    ensures
        forall|j: int| 0 <= j < candidates_of(occ).len() ==> (#[trigger] candidates_of(occ)[j]).0 .0 < occ.len(),
    decreases occ.len(),
{
    if occ.len() > 0 {
        lemma_candidates_in(occ.drop_last());
        let rest = candidates_of(occ.drop_last());
        assert forall|j: int| 0 <= j < candidates_of(occ).len() implies (#[trigger] candidates_of(occ)[j]).0 .0 < occ.len() by {
            if j < rest.len() {
                assert(candidates_of(occ)[j] == rest[j]);
            }
        }
    }
}

} // verus!
