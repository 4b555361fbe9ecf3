use vstd::prelude::*;
use crate::construction::ConstructionVariant;
use crate::map::{
    FILL_PASSES, GroupId, MAX_STOCKPILE, NodeId, NodeOccupant, StarMap, fill, group_nodes,
    lemma_listed_node_valid, lemma_lowest_in, lemma_star_valid, lowest, move_groups,
    first_empty, highest_open, listed_in, nodes_of_groups, occ_at, pile_amount, piles_positive, pooled, standard_edges,
    standard_groups, star_of,
};
use crate::resource::ResourceVariant;
use crate::turn::{
    AutoAction, MAX_TURN_ITERS, after_take, candidates_of, drain, groups_in, is_listed,
    lemma_candidates_in, lemma_consume_exact, lemma_drain_keeps_other_nodes, lemma_pooled_update,
    lemma_resolve_positive, lemma_update_positive, nodes_in, resolve, tick,
};

verus! {

/// The mobile unit: where it is, the group it carries, and where it is to go next turn.
#[derive(Debug, Clone, Copy, PartialEq, Eq, Structural)]
pub struct Ship {
    pub orbiting_group: GroupId,
    pub own_group: GroupId,
    pub planned_move: Option<GroupId>,
}

/// The turn counter.
#[derive(Debug, Clone, Copy, PartialEq, Eq, Structural)]
pub struct TurnCount {
    pub count: u32,
}

impl Default for TurnCount {
    fn default() -> (r: Self)
        ensures
            r.count == 1,
    {
        TurnCount { count: 1 }
    }
}

/// Whether the run goes on, or has ended.
#[derive(Debug, Clone, Copy, PartialEq, Eq, Structural)]
pub enum GameStatus {
    Playing,
    Lost,
    Won,
}

/// The committed changes still to be played back, and the one being played.
#[derive(Debug, Clone)]
pub struct AutoActions {
    pub actions: Vec<AutoAction>,
    pub current: Option<AutoAction>,
}

impl Default for AutoActions {
    fn default() -> (r: Self)
        ensures
            r.actions@ == Seq::<AutoAction>::empty(),
            r.current is None,
    {
        AutoActions { actions: Vec::new(), current: None }
    }
}

impl AutoActions {
    /// Whether playback has nothing left.
    pub open spec fn spec_done(&self) -> bool {
        self.actions.len() == 0 && self.current is None
    }

    pub fn done(&self) -> (r: bool)
        ensures
            r == self.spec_done(),
    {
        self.actions.len() == 0 && self.current.is_none()
    }

    /// Ends the action being played and starts the next one; returns both.
    pub fn step(&mut self) -> (r: (Option<AutoAction>, Option<AutoAction>))
        ensures
            r.0 == old(self).current,
            old(self).actions.len() == 0 ==> r.1 is None && final(self).actions@ == old(self).actions@,
            old(self).actions.len() > 0 ==> r.1 == Some(old(self).actions@[0]) && final(self).actions@
                == old(self).actions@.subrange(1, old(self).actions.len() as int),
            final(self).current == r.1,
    {
        let finished = self.current;
        if self.actions.len() == 0 {
            self.current = None;
            (finished, None)
        } else {
            let next = self.actions.remove(0);
            self.current = Some(next);
            assert(self.actions@ =~= old(self).actions@.subrange(1, old(self).actions.len() as int));
            (finished, Some(next))
        }
    }
}

/// One unit of `k` taken from the lowest pile of `k` in `nodes`, recorded as taken by that pile
/// itself; nothing when there is no such pile.
pub open spec fn take_one(occ: Seq<Option<NodeOccupant>>, nodes: Seq<NodeId>, k: ResourceVariant) -> (
    Seq<Option<NodeOccupant>>,
    Seq<AutoAction>,
) {
    match lowest(occ, nodes, k) {
        None => (occ, seq![]),
        Some(n) => {
            let a = pile_amount(occ_at(occ, n), k);
            (
                occ.update(n.0 as int, after_take(k, a, 1)),
                seq![AutoAction::ConsumeResource { from: n, to: n, var: k, abs: (a - 1) as u32, diff: -1i64 }],
            )
        },
    }
}

/// The edges that do not touch group `home`, in order.
pub open spec fn edges_away_from(edges: Seq<(GroupId, GroupId)>, home: GroupId) -> Seq<(GroupId, GroupId)>
    decreases edges.len(),
{
    if edges.len() == 0 {
        seq![]
    } else {
        let rest = edges_away_from(edges.drop_last(), home);
        if edges.last().0 != home && edges.last().1 != home {
            rest.push(edges.last())
        } else {
            rest
        }
    }
}

/// The edge list after group `home` is moved next to `dest`: every edge touching `home` goes,
/// and the edge `(home, dest)` is added at the end.
pub open spec fn relocate(edges: Seq<(GroupId, GroupId)>, home: GroupId, dest: GroupId) -> Seq<(GroupId, GroupId)> {
    edges_away_from(edges, home).push((home, dest))
}

/// Dropping the edges that touch `home` twice drops no more than once.
pub proof fn lemma_edges_away_idempotent(edges: Seq<(GroupId, GroupId)>, home: GroupId)
    ensures
        edges_away_from(edges_away_from(edges, home), home) == edges_away_from(edges, home),
    decreases edges.len(),
{
    if edges.len() > 0 {
        lemma_edges_away_idempotent(edges.drop_last(), home);
        let rest = edges_away_from(edges.drop_last(), home);
        let e = edges.last();
        if e.0 != home && e.1 != home {
            assert(rest.push(e).drop_last() =~= rest);
        }
    }
}

/// No edge kept away from `home` touches `home`.
pub proof fn lemma_edges_away_untouched(edges: Seq<(GroupId, GroupId)>, home: GroupId)
    ensures
        forall|i: int|
            0 <= i < edges_away_from(edges, home).len() ==> (#[trigger] edges_away_from(edges, home)[i]).0 != home
                && edges_away_from(edges, home)[i].1 != home,
    decreases edges.len(),
{
    if edges.len() > 0 {
        lemma_edges_away_untouched(edges.drop_last(), home);
        let rest = edges_away_from(edges.drop_last(), home);
        assert forall|i: int| 0 <= i < edges_away_from(edges, home).len() implies (#[trigger] edges_away_from(
            edges,
            home,
        )[i]).0 != home && edges_away_from(edges, home)[i].1 != home by {
            if i < rest.len() {
                assert(edges_away_from(edges, home)[i] == rest[i]);
            }
        }
    }
}

/// Moving the ship's group next to `dest` leaves `(home, dest)` as the one edge that touches
/// `home`, as the last edge.
pub proof fn lemma_relocate_single_home_edge(edges: Seq<(GroupId, GroupId)>, home: GroupId, dest: GroupId)
    ensures
        relocate(edges, home, dest).last() == (home, dest),
        forall|i: int|
            0 <= i < relocate(edges, home, dest).len() && ((#[trigger] relocate(edges, home, dest)[i]).0 == home
                || relocate(edges, home, dest)[i].1 == home) ==> i == relocate(edges, home, dest).len() - 1,
{
    lemma_edges_away_untouched(edges, home);
    let kept = edges_away_from(edges, home);
    assert forall|i: int|
        0 <= i < relocate(edges, home, dest).len() && ((#[trigger] relocate(edges, home, dest)[i]).0 == home
            || relocate(edges, home, dest)[i].1 == home) implies i == relocate(edges, home, dest).len() - 1 by {
        if i < kept.len() {
            assert(relocate(edges, home, dest)[i] == kept[i]);
        }
    }
}

/// Moving the ship's group next to the same destination twice gives the edges of moving it once.
pub proof fn lemma_relocate_idempotent(edges: Seq<(GroupId, GroupId)>, home: GroupId, dest: GroupId)
    ensures
        relocate(relocate(edges, home, dest), home, dest) == relocate(edges, home, dest),
{
    let kept = edges_away_from(edges, home);
    lemma_edges_away_idempotent(edges, home);
    assert(kept.push((home, dest)).drop_last() =~= kept);
    assert(edges_away_from(kept.push((home, dest)), home) == edges_away_from(kept, home));
}

impl StarMap {
    /// Takes one unit of `v` from the lowest pile of `v` in group `group_id` (`take_one`).
    pub fn take_one(&mut self, group_id: &GroupId, v: &ResourceVariant) -> (r: Vec<AutoAction>)
        requires
            old(self).wf(),
            old(self).valid_group(*group_id),
        ensures
            final(self).wf(),
            final(self).groups == old(self).groups,
            final(self).edges == old(self).edges,
            final(self).occupation.len() == old(self).occupation.len(),
            (final(self).occupation@, r@) == take_one(old(self).occupation@, old(self).nodes_of(*group_id), *v),
    {
        proof {
            lemma_lowest_in(self.occupation@, self.nodes_of(*group_id), *v);
        }
        match self.find_lowest_stockpile(group_id, v) {
            None => Vec::new(),
            Some(n) => {
                proof {
                    lemma_listed_node_valid(self, *group_id, n);
                }
                match self.occupation[n.0] {
                    Some(NodeOccupant::Stockpile { var, amt }) => {
                        let rest = amt - 1;
                        if rest == 0 {
                            self.clear_at(&n);
                        } else {
                            self.set_at(&n, NodeOccupant::Stockpile { var, amt: rest });
                        }
                        let r = vec![AutoAction::ConsumeResource { from: n, to: n, var, abs: rest, diff: -1 }];
                        assert(r@ =~= take_one(old(self).occupation@, old(self).nodes_of(*group_id), *v).1);
                        r
                    },
                    _ => Vec::new(),
                }
            },
        }
    }

    /// Moves group `home` next to `dest` (`relocate`).
    pub fn relocate(&mut self, home: &GroupId, dest: &GroupId)
        requires
            old(self).wf(),
            old(self).valid_group(*home),
            old(self).valid_group(*dest),
        ensures
            final(self).wf(),
            final(self).groups == old(self).groups,
            final(self).occupation == old(self).occupation,
            final(self).edges@ == relocate(old(self).edges@, *home, *dest),
    {
        let mut kept: Vec<(GroupId, GroupId)> = Vec::new();
        let mut i: usize = 0;
        while i < self.edges.len()
            invariant
                self.wf(),
                self.valid_group(*home),
                self.valid_group(*dest),
                self.groups == old(self).groups,
                self.occupation == old(self).occupation,
                self.edges == old(self).edges,
                0 <= i <= self.edges.len(),
                kept@ == edges_away_from(self.edges@.take(i as int), *home),
                forall|e: int| 0 <= e < kept.len() ==> (#[trigger] kept@[e]).0 .0 < self.groups.len()
                    && kept@[e].1 .0 < self.groups.len(),
            decreases self.edges.len() - i,
        {
            let e = self.edges[i];
            proof {
                assert(self.edges@.take(i + 1).drop_last() =~= self.edges@.take(i as int));
                assert(self.edges@[i as int] == e);
            }
            if e.0 != *home && e.1 != *home {
                kept.push(e);
            }
            i += 1;
        }
        assert(self.edges@.take(i as int) =~= self.edges@);
        kept.push((*home, *dest));
        self.edges = kept;
        proof {
            assert forall|n: int| 0 <= n < self.occupation.len() implies #[trigger] self.has_group(
                n,
            ) by {
                assert(old(self).has_group(n));
                let g = choose|g: int| #[trigger] old(self).in_group(NodeId(n as usize), g);
                assert(self.in_group(NodeId(n as usize), g));
            }
        }
    }
}

/// The game: the map, the ship, the turn counter, the run's status and the playback queue.
pub struct Engine {
    pub map: StarMap,
    pub ship: Ship,
    pub turns: TurnCount,
    pub status: GameStatus,
    pub autoactions: AutoActions,
}

/// The table and the log after cooldowns count down and the resolution loop runs.
pub open spec fn produced(m: StarMap) -> (Seq<Option<NodeOccupant>>, Seq<AutoAction>) {
    let occ = m.occupation@.map_values(|o: Option<NodeOccupant>| tick(o));
    resolve(m.groups@, occ, candidates_of(occ), MAX_TURN_ITERS as nat)
}

/// Whether the ship moves this turn, given the fuel pooled in its own group.
pub open spec fn will_move(ship: Ship, fuel: nat) -> bool {
    ship.planned_move matches Some(p) && p != ship.orbiting_group && fuel > 0
}

/// The occupation after a resolved turn from `e`: cooldowns and the resolution loop (`produced`),
/// then one unit of food from the ship's own group when it pools any, then one unit of fusion fuel
/// when the ship moves.
pub open spec fn turn_occupation(e: Engine) -> Seq<Option<NodeOccupant>> {
    let res = produced(e.map);
    let hn = e.map.nodes_of(e.ship.own_group);
    let food = pooled(res.0, hn, ResourceVariant::Food);
    let fuel = pooled(res.0, hn, ResourceVariant::FusionFuel);
    let eaten = if food > 0 {
        take_one(res.0, hn, ResourceVariant::Food).0
    } else {
        res.0
    };
    if will_move(e.ship, fuel) {
        take_one(eaten, hn, ResourceVariant::FusionFuel).0
    } else {
        eaten
    }
}

/// Amount of the survival resource above which, together with the fuel, the run is won.
pub const WIN_THRESHOLD: u64 = 100;

impl Engine {
    /// The map is well formed and the ship's groups are groups of the map.
    pub open spec fn wf(&self) -> bool {
        &&& self.map.wf()
        &&& self.map.valid_group(self.ship.orbiting_group)
        &&& self.map.valid_group(self.ship.own_group)
        &&& self.ship.planned_move matches Some(g) ==> self.map.valid_group(g)
    }

    /// Resolves one end-of-turn signal, unless playback is busy or the run has ended (then nothing
    /// changes and the result is false). A resolved turn counts the turn, lets cooldowns count
    /// down, runs the resolution loop, feeds the crew one unit of food from the ship's own group
    /// (the run is lost when that group has none), moves the ship when a destination is planned,
    /// differs from where it is and its group has fuel (one unit, taken after the food), clears the
    /// plan, marks the run won when food and fuel both exceed the threshold, and queues the log.
    pub fn end_turn(&mut self) -> (ran: bool)
        requires
            old(self).wf(),
            old(self).turns.count < u32::MAX,
        ensures
            final(self).wf(),
            piles_positive(final(self).map.occupation@),
            ran == (old(self).autoactions.spec_done() && old(self).status == GameStatus::Playing),
            !ran ==> *final(self) == *old(self),
            ran ==> ({
                let res = produced(old(self).map);
                let home = old(self).ship.own_group;
                let hn = old(self).map.nodes_of(home);
                let food = pooled(res.0, hn, ResourceVariant::Food);
                let fuel = pooled(res.0, hn, ResourceVariant::FusionFuel);
                let eat = if food > 0 {
                    take_one(res.0, hn, ResourceVariant::Food)
                } else {
                    (res.0, seq![])
                };
                let mv = will_move(old(self).ship, fuel);
                let burn = if mv {
                    take_one(eat.0, hn, ResourceVariant::FusionFuel)
                } else {
                    (eat.0, seq![])
                };
                let plan = old(self).ship.planned_move.unwrap();
                &&& final(self).turns.count == old(self).turns.count + 1
                &&& final(self).map.groups == old(self).map.groups
                &&& final(self).map.occupation@ == burn.0
                &&& final(self).map.occupation@ == turn_occupation(*old(self))
                &&& final(self).autoactions.actions@ == res.1 + eat.1 + burn.1 + if mv {
                    seq![AutoAction::ShipMove { from: old(self).ship.orbiting_group, to: plan }]
                } else {
                    seq![]
                }
                &&& final(self).autoactions.current is None
                &&& final(self).map.edges@ == if mv {
                    crate::engine::relocate(old(self).map.edges@, home, plan)
                } else {
                    old(self).map.edges@
                }
                &&& final(self).ship.orbiting_group == if mv {
                    plan
                } else {
                    old(self).ship.orbiting_group
                }
                &&& final(self).ship.own_group == home
                &&& final(self).ship.planned_move is None
                &&& final(self).status == if food == 0 {
                    GameStatus::Lost
                } else if fuel > WIN_THRESHOLD && food > WIN_THRESHOLD {
                    GameStatus::Won
                } else {
                    GameStatus::Playing
                }
            }),
    {
        if !self.autoactions.done() || self.status != GameStatus::Playing {
            return false;
        }
        self.turns.count = self.turns.count + 1;
        self.map.tick_cooldowns();
        let cands = self.map.ready_constructions();
        let mut log = self.map.resolve_constructions(cands);
        let home = self.ship.own_group;
        let bunch = self.map.get_group_bunch(&home);
        let food = bunch.get(ResourceVariant::Food);
        let fuel = bunch.get(ResourceVariant::FusionFuel);
        if food > 0 {
            let mut eaten = self.map.take_one(&home, &ResourceVariant::Food);
            log.append(&mut eaten);
        } else {
            self.status = GameStatus::Lost;
        }
        if let Some(plan) = self.ship.planned_move {
            if fuel > 0 && plan != self.ship.orbiting_group {
                let mut burnt = self.map.take_one(&home, &ResourceVariant::FusionFuel);
                log.append(&mut burnt);
                log.push(AutoAction::ShipMove { from: self.ship.orbiting_group, to: plan });
                self.map.relocate(&home, &plan);
                self.ship.orbiting_group = plan;
            }
        }
        self.ship.planned_move = None;
        if fuel > WIN_THRESHOLD && food > WIN_THRESHOLD {
            self.status = GameStatus::Won;
        }
        self.autoactions.actions = log;
        true
    }
}

/// The occupation of the standard layout before any resource is added: a solar field, ready to
/// produce, on node 0, and nothing elsewhere.
pub open spec fn start_occupation() -> Seq<Option<NodeOccupant>> {
    Seq::new(34, |i: int| None).update(
        0,
        Some(NodeOccupant::Construction { var: ConstructionVariant::SolarField, cooldown: 0 }),
    )
}

/// Amount of fusion fuel, material and food that a new run starts with in the ship's group.
pub const START_STOCK: u32 = 20;

/// The occupation at the start of a run: `start_occupation`, then the starting fusion fuel,
/// material and food put into group 0 by the allocation policy, in that order.
pub open spec fn start_stocks() -> Seq<Option<NodeOccupant>> {
    let n0 = standard_groups()[0];
    let f1 = fill(start_occupation(), n0, ResourceVariant::FusionFuel, START_STOCK, FILL_PASSES as nat);
    let f2 = fill(f1.0, n0, ResourceVariant::Material, START_STOCK, FILL_PASSES as nat);
    fill(f2.0, n0, ResourceVariant::Food, START_STOCK, FILL_PASSES as nat).0
}

/// Whether `e` is the state in which a run starts: the standard layout holding `start_stocks`,
/// the ship carrying group 0 and orbiting group 1 with no plan, turn 1, the run going on, and
/// nothing to play back.
pub open spec fn is_new_run(e: Engine) -> bool {
    &&& e.map.groups.len() == 8
    &&& forall|g: int| 0 <= g < 8 ==> #[trigger] e.map.groups@[g]@ == standard_groups()[g]
    &&& e.map.edges@ == standard_edges()
    &&& e.map.occupation@ == start_stocks()
    &&& e.ship == (Ship { orbiting_group: GroupId(1), own_group: GroupId(0), planned_move: None })
    &&& e.turns.count == 1
    &&& e.status == GameStatus::Playing
    &&& e.autoactions.spec_done()
}

/// Where a stockpile moved from `from` to `to` ends, and the two log entries, or none when the move
/// does not apply: `from` must hold a stockpile, of which half (rounded down, when `split`) or all
/// moves; a pile of the same kind at `to` takes it up to `MAX_STOCKPILE` (the rest is lost), an
/// empty `to` takes all of it (when it is not nothing).
pub open spec fn transfer_outcome(
    occ: Seq<Option<NodeOccupant>>,
    from: NodeId,
    to: NodeId,
    split: bool,
) -> Option<(Seq<Option<NodeOccupant>>, Seq<AutoAction>)> {
    match occ_at(occ, from) {
        Some(NodeOccupant::Stockpile { var, amt: full }) => {
            let moved: nat = if split {
                (full / 2) as nat
            } else {
                full as nat
            };
            let kept: nat = (full - moved) as nat;
            let src = if kept == 0 {
                None
            } else {
                Some(NodeOccupant::Stockpile { var, amt: kept as u32 })
            };
            let out = AutoAction::ConsumeResource { from, to, var, abs: kept as u32, diff: moved as i64 };
            match occ_at(occ, to) {
                Some(NodeOccupant::Stockpile { var: tv, amt: ta }) => if tv == var {
                    let c: nat = if moved + ta < MAX_STOCKPILE {
                        (moved + ta) as nat
                    } else {
                        MAX_STOCKPILE as nat
                    };
                    Some((
                        occ.update(from.0 as int, src).update(
                            to.0 as int,
                            Some(NodeOccupant::Stockpile { var, amt: c as u32 }),
                        ),
                        seq![out, AutoAction::ProduceResource { from: to, to, var, abs: c as u32, diff: moved as i64 }],
                    ))
                } else {
                    None
                },
                None => if moved == 0 {
                    None
                } else {
                    Some((
                        occ.update(from.0 as int, src).update(
                            to.0 as int,
                            Some(NodeOccupant::Stockpile { var, amt: moved as u32 }),
                        ),
                        seq![
                            out,
                            AutoAction::ProduceResource { from: to, to, var, abs: moved as u32, diff: moved as i64 },
                        ],
                    ))
                },
                _ => None,
            }
        },
        _ => None,
    }
}

impl Engine {
    /// A new run (`is_new_run`).
    pub fn new() -> (r: Engine)
        ensures
            r.wf(),
            is_new_run(r),
    {
        let mut map = StarMap::standard();
        assert(map.nodes_of(GroupId(0)) == standard_groups()[0]);
        map.set_at(&NodeId(0), NodeOccupant::Construction { var: ConstructionVariant::SolarField, cooldown: 0 });
        assert(map.occupation@ =~= start_occupation());
        let _ = map.add_resource_in_group(&GroupId(0), &ResourceVariant::FusionFuel, START_STOCK);
        let _ = map.add_resource_in_group(&GroupId(0), &ResourceVariant::Material, START_STOCK);
        let _ = map.add_resource_in_group(&GroupId(0), &ResourceVariant::Food, START_STOCK);
        Engine {
            map,
            ship: Ship { orbiting_group: GroupId(1), own_group: GroupId(0), planned_move: None },
            turns: TurnCount::default(),
            status: GameStatus::Playing,
            autoactions: AutoActions::default(),
        }
    }

    /// Starts the run over: the state is that of a new run (`is_new_run`), map included.
    pub fn reset(&mut self)
        ensures
            final(self).wf(),
            is_new_run(*final(self)),
    {
        *self = Engine::new();
    }

    /// Plans the ship's next move to `g` when `g` is a neighbour of the group the ship orbits,
    /// other than the group the ship carries; returns whether it did.
    pub fn select_destination(&mut self, g: &GroupId) -> (r: bool)
        requires
            old(self).wf(),
        ensures
            final(self).wf(),
            r == (star_of(old(self).map.edges@, old(self).ship.orbiting_group).contains(*g)
                && *g != old(self).ship.own_group),
            r ==> *final(self) == (Engine { ship: Ship { planned_move: Some(*g), ..old(self).ship }, ..*old(self) }),
            !r ==> *final(self) == *old(self),
    {
        if *g == self.ship.own_group {
            return false;
        }
        let near = self.map.is_neighbor(g, &self.ship.orbiting_group);
        if near {
            proof {
                lemma_star_valid(self.map.edges@, self.ship.orbiting_group, self.map.groups.len() as nat);
                let j = choose|j: int| 0 <= j < star_of(self.map.edges@, self.ship.orbiting_group).len()
                    && star_of(self.map.edges@, self.ship.orbiting_group)[j] == *g;
                assert(star_of(self.map.edges@, self.ship.orbiting_group)[j].0 < self.map.groups.len());
            }
            self.ship.planned_move = Some(*g);
        }
        near
    }

    /// Builds a construction of kind `var` on node `id` when the node is empty and its group pools
    /// the material it costs; the cost is taken by `drain` with the consumption bound of a turn,
    /// each record carrying the whole cost, and queued. The group's material goes down by exactly
    /// the cost and no other kind changes. Returns whether it built.
    pub fn build(&mut self, id: &NodeId, var: &ConstructionVariant) -> (r: bool)
        requires
            old(self).wf(),
            old(self).map.valid_node(*id),
        ensures
            final(self).wf(),
            r == (old(self).map.occupation@[id.0 as int] is None && pooled(
                old(self).map.occupation@,
                group_nodes(old(self).map.groups@, *id),
                ResourceVariant::Material,
            ) >= var.spec_material_cost()),
            !r ==> *final(self) == *old(self),
            r ==> ({
                let placed = old(self).map.occupation@.update(
                    id.0 as int,
                    Some(NodeOccupant::Construction { var: *var, cooldown: 0 }),
                );
                let cost = var.spec_material_cost();
                let d = drain(
                    placed,
                    group_nodes(old(self).map.groups@, *id),
                    ResourceVariant::Material,
                    cost,
                    MAX_TURN_ITERS as nat,
                    *id,
                    cost as i64,
                );
                let nodes = group_nodes(old(self).map.groups@, *id);
                &&& final(self).map.occupation@ == d.0
                &&& final(self).map.occupation@[id.0 as int] == Some(NodeOccupant::Construction { var: *var, cooldown: 0 })
                &&& forall|k: ResourceVariant| #[trigger] pooled(final(self).map.occupation@, nodes, k) == if k
                    == ResourceVariant::Material {
                    pooled(old(self).map.occupation@, nodes, k) - cost
                } else {
                    pooled(old(self).map.occupation@, nodes, k) as int
                }
                &&& final(self).map.groups == old(self).map.groups
                &&& final(self).map.edges == old(self).map.edges
                &&& final(self).autoactions.actions@ == old(self).autoactions.actions@ + d.1
                &&& final(self).autoactions.current == old(self).autoactions.current
                &&& final(self).ship == old(self).ship
                &&& final(self).turns == old(self).turns
                &&& final(self).status == old(self).status
            }),
    {
        let group_id = self.map.group_from_node(id);
        let cash = self.map.get_group_bunch(&group_id).get(ResourceVariant::Material);
        let cost = var.get_material_cost();
        if self.map.occupation[id.0].is_some() || cash < cost as u64 {
            return false;
        }
        let ghost nodes = self.map.nodes_of(group_id);
        let ghost occ0 = self.map.occupation@;
        proof {
            lemma_listed_node_valid(&self.map, group_id, *id);
            assert forall|i: int, j: int| 0 <= i < j < nodes.len() implies nodes[i] != nodes[j] by {
                assert(self.map.groups@[group_id.0 as int]@[i] == nodes[i]);
                assert(self.map.groups@[group_id.0 as int]@[j] == nodes[j]);
            }
        }
        self.map.set_at(id, NodeOccupant::Construction { var: *var, cooldown: 0 });
        proof {
            assert forall|k: ResourceVariant| #[trigger] pooled(self.map.occupation@, nodes, k) == pooled(occ0, nodes, k) by {
                lemma_pooled_update(occ0, nodes, k, *id, Some(NodeOccupant::Construction { var: *var, cooldown: 0 }));
            }
            lemma_consume_exact(
                &self.map,
                group_id,
                ResourceVariant::Material,
                cost,
                MAX_TURN_ITERS as nat,
                *id,
                cost as i64,
            );
            lemma_drain_keeps_other_nodes(
                self.map.occupation@,
                nodes,
                ResourceVariant::Material,
                cost,
                MAX_TURN_ITERS as nat,
                *id,
                cost as i64,
                *id,
            );
        }
        let mut log = self.map.consume_in_group(&group_id, &ResourceVariant::Material, cost, MAX_TURN_ITERS, id, cost as i64);
        self.autoactions.actions.append(&mut log);
        true
    }

    /// Removes whatever node `id` holds.
    pub fn demolish(&mut self, id: &NodeId)
        requires
            old(self).wf(),
            old(self).map.valid_node(*id),
        ensures
            final(self).wf(),
            final(self).map.occupation@ == old(self).map.occupation@.update(id.0 as int, None),
            final(self).map.groups == old(self).map.groups,
            final(self).map.edges == old(self).map.edges,
            final(self).ship == old(self).ship,
            final(self).turns == old(self).turns,
            final(self).status == old(self).status,
            final(self).autoactions.actions@ == old(self).autoactions.actions@,
            final(self).autoactions.current == old(self).autoactions.current,
    {
        self.map.clear_at(id);
    }

    /// Moves the stockpile on `from` to `to` (`transfer_outcome`) when `to` is another node among
    /// the move targets of `from` and the move applies; the two entries are queued. Returns whether
    /// it moved.
    pub fn transfer(&mut self, from: &NodeId, to: &NodeId, split: bool) -> (r: bool)
        requires
            old(self).wf(),
            old(self).map.valid_node(*from),
            old(self).map.valid_node(*to),
        ensures
            final(self).wf(),
            ({
                let targets = nodes_of_groups(
                    old(self).map.groups@,
                    move_groups(old(self).map.edges@, old(self).map.group_of(*from), old(self).ship.own_group),
                );
                let out = transfer_outcome(old(self).map.occupation@, *from, *to, split);
                &&& r == (targets.contains(*to) && *to != *from && out is Some)
                &&& !r ==> *final(self) == *old(self)
                &&& r ==> final(self).map.occupation@ == out.unwrap().0
                    && final(self).autoactions.actions@ == old(self).autoactions.actions@ + out.unwrap().1
                    && final(self).map.groups == old(self).map.groups
                    && final(self).map.edges == old(self).map.edges
                    && final(self).ship == old(self).ship
                    && final(self).status == old(self).status
            }),
    {
        let targets = self.map.move_targets(from, &self.ship.own_group);
        let mut found = false;
        let mut i: usize = 0;
        while i < targets.len()
            invariant
                0 <= i <= targets.len(),
                found == (exists|j: int| 0 <= j < i && targets@[j] == *to),
            decreases targets.len() - i,
        {
            if targets[i] == *to {
                found = true;
            }
            i += 1;
        }
        if !found || *to == *from {
            return false;
        }
        let (var, full) = match self.map.occupation[from.0] {
            Some(NodeOccupant::Stockpile { var, amt }) => (var, amt),
            _ => {
                return false;
            },
        };
        let moved = if split { full / 2 } else { full };
        let kept = full - moved;
        let target_amt = match self.map.occupation[to.0] {
            Some(NodeOccupant::Stockpile { var: tv, amt: ta }) => {
                if tv != var {
                    return false;
                }
                let sum = moved as u64 + ta as u64;
                if sum < MAX_STOCKPILE as u64 {
                    sum as u32
                } else {
                    MAX_STOCKPILE
                }
            },
            None => {
                if moved == 0 {
                    return false;
                }
                moved
            },
            _ => {
                return false;
            },
        };
        if kept == 0 {
            self.map.clear_at(from);
        } else {
            self.map.set_at(from, NodeOccupant::Stockpile { var, amt: kept });
        }
        self.autoactions.actions.push(AutoAction::ConsumeResource { from: *from, to: *to, var, abs: kept, diff: moved as i64 });
        self.map.set_at(to, NodeOccupant::Stockpile { var, amt: target_amt });
        self.autoactions.actions.push(AutoAction::ProduceResource { from: *to, to: *to, var, abs: target_amt, diff: moved as i64 });
        assert(self.autoactions.actions@ =~= old(self).autoactions.actions@ + transfer_outcome(old(self).map.occupation@, *from, *to, split).unwrap().1);
        true
    }
}

/// Taking one unit leaves no empty pile and keeps the table's length.
pub proof fn lemma_take_one_positive(occ: Seq<Option<NodeOccupant>>, nodes: Seq<NodeId>, k: ResourceVariant)
    requires
        piles_positive(occ),
        nodes_in(occ, nodes),
    ensures
        piles_positive(take_one(occ, nodes, k).0),
        take_one(occ, nodes, k).0.len() == occ.len(),
{
    lemma_lowest_in(occ, nodes, k);
    if let Some(n) = lowest(occ, nodes, k) {
        let i = choose|i: int| 0 <= i < nodes.len() && nodes[i] == n;
        assert(nodes[i].0 < occ.len());
        lemma_update_positive(occ, n.0 as int, after_take(k, pile_amount(occ_at(occ, n), k), 1));
    }
}

/// A resolved turn leaves no stockpile holding nothing: whatever the state of a well-formed
/// engine, every stockpile of `turn_occupation` holds at least one unit.
pub proof fn lemma_turn_leaves_no_empty_pile(e: Engine)
    requires
        e.wf(),
    ensures
        piles_positive(turn_occupation(e)),
{
    let m = e.map;
    let occ = m.occupation@.map_values(|o: Option<NodeOccupant>| tick(o));
    assert(piles_positive(occ)) by {
        assert forall|j: int| 0 <= j < occ.len() implies match #[trigger] occ[j] {
            Some(NodeOccupant::Stockpile { var, amt }) => amt >= 1,
            _ => true,
        } by {
            assert(occ[j] == tick(m.occupation@[j]));
        }
    }
    assert(groups_in(occ, m.groups@)) by {
        assert forall|g: int, i: int| 0 <= g < m.groups@.len() && 0 <= i < m.groups@[g]@.len() implies (#[trigger] m.groups@[g]@[i]).0
            < occ.len() by {
            assert(m.groups@[g]@[i] == m.groups@[g]@[i]);
        }
    }
    let cands = candidates_of(occ);
    lemma_candidates_in(occ);
    assert forall|j: int| 0 <= j < cands.len() implies is_listed(m.groups@, (#[trigger] cands[j]).0) by {
        let n = cands[j].0;
        assert(m.has_group(n.0 as int));
        let g = choose|g: int| #[trigger] m.in_group(NodeId((n.0 as int) as usize), g);
        assert(listed_in(m.groups@, n, g));
    }
    lemma_resolve_positive(m.groups@, occ, cands, MAX_TURN_ITERS as nat);
    let res = produced(m);
    let hn = m.nodes_of(e.ship.own_group);
    assert(nodes_in(res.0, hn)) by {
        assert forall|i: int| 0 <= i < hn.len() implies (#[trigger] hn[i]).0 < res.0.len() by {
            assert(m.groups@[e.ship.own_group.0 as int]@[i] == hn[i]);
        }
    }
    lemma_take_one_positive(res.0, hn, ResourceVariant::Food);
    let eaten = if pooled(res.0, hn, ResourceVariant::Food) > 0 {
        take_one(res.0, hn, ResourceVariant::Food).0
    } else {
        res.0
    };
    lemma_take_one_positive(eaten, hn, ResourceVariant::FusionFuel);
}

/// A new run holds the solar field on node 0 and 20 fusion fuel, 20 material and 20 food on nodes
/// 1, 2 and 3, and nothing elsewhere.
pub proof fn lemma_start_stocks()
    ensures
        start_stocks() == start_occupation().update(
            1,
            Some(NodeOccupant::Stockpile { var: ResourceVariant::FusionFuel, amt: START_STOCK }),
        ).update(2, Some(NodeOccupant::Stockpile { var: ResourceVariant::Material, amt: START_STOCK })).update(
            3,
            Some(NodeOccupant::Stockpile { var: ResourceVariant::Food, amt: START_STOCK }),
        ),
{
    let n0 = standard_groups()[0];
    assert(n0 =~= seq![NodeId(0), NodeId(1), NodeId(2), NodeId(3), NodeId(4)]);
    reveal_with_fuel(highest_open, 6);
    reveal_with_fuel(first_empty, 6);
    let o0 = start_occupation();
    let o1 = o0.update(1, Some(NodeOccupant::Stockpile { var: ResourceVariant::FusionFuel, amt: START_STOCK }));
    let o2 = o1.update(2, Some(NodeOccupant::Stockpile { var: ResourceVariant::Material, amt: START_STOCK }));
    let o3 = o2.update(3, Some(NodeOccupant::Stockpile { var: ResourceVariant::Food, amt: START_STOCK }));
    assert(n0.drop_last() =~= seq![NodeId(0), NodeId(1), NodeId(2), NodeId(3)]);
    assert(n0.drop_last().drop_last() =~= seq![NodeId(0), NodeId(1), NodeId(2)]);
    assert(n0.drop_last().drop_last().drop_last() =~= seq![NodeId(0), NodeId(1)]);
    assert(n0.drop_last().drop_last().drop_last().drop_last() =~= seq![NodeId(0)]);
    assert(n0.drop_last().drop_last().drop_last().drop_last().drop_last() =~= Seq::<NodeId>::empty());
    assert(highest_open(o0, n0, ResourceVariant::FusionFuel) is None);
    assert(first_empty(o0, n0) == Some(NodeId(1)));
    assert(fill(o0, n0, ResourceVariant::FusionFuel, START_STOCK, FILL_PASSES as nat).0 == o1);
    assert(highest_open(o1, n0, ResourceVariant::Material) is None);
    assert(first_empty(o1, n0) == Some(NodeId(2)));
    assert(fill(o1, n0, ResourceVariant::Material, START_STOCK, FILL_PASSES as nat).0 == o2);
    assert(highest_open(o2, n0, ResourceVariant::Food) is None);
    assert(first_empty(o2, n0) == Some(NodeId(3)));
    assert(fill(o2, n0, ResourceVariant::Food, START_STOCK, FILL_PASSES as nat).0 == o3);
}

} // verus!
