use vstd::prelude::*;

use crate::agent;
use crate::agent::Agent;
use crate::environment::Cell;
use crate::environment::Environment;
use crate::fish;
use crate::shark;
use crate::AgentBody;
use crate::AgentCommand;
use crate::AgentRef;
use crate::Direction;
use crate::random::random_below;
use crate::random::shuffle_ids;
use crate::HDirection;
use crate::Point;
use crate::VDirection;

verus! {

/// Why an agent could not be placed.
#[derive(Clone, Copy, Debug, PartialEq, Eq, Structural)]
pub enum PlacementError {
    /// The coordinate lies outside the grid.
    OutOfBounds,
    /// Another agent already stands there.
    Occupied,
}

/// The simulation: the grid with its agent table, the active agents in turn
/// order, the newborns waiting for admission, and the tick counter.
pub struct Sma {
    pub env: Environment,
    pub agents: Vec<usize>,
    pub next_generation: Vec<usize>,
    pub turn: u64,
}

impl Sma {
    /// The agent is active or waiting for admission.
    pub open spec fn listed(&self, j: usize) -> bool {
        self.agents@.contains(j) || self.next_generation@.contains(j)
    }

    /// What holds between any two agents' turns: the grid is consistent, every
    /// listed agent that is not marked stands on the cell its record names, and
    /// every filled cell holds a listed agent.
    pub open spec fn pass_inv(&self) -> bool {
        &&& self.env.wf()
        &&& self.env.consistent()
        &&& (self.agents@ + self.next_generation@).no_duplicates()
        &&& self.agents@.len() + self.next_generation@.len() <= self.env.arena@.len()
        &&& forall|j: usize| #[trigger] self.listed(j) ==> j < self.env.arena@.len()
        &&& forall|j: usize|
            #[trigger] self.listed(j) && !self.env.marked(j) ==> self.env.placed(j)
        &&& forall|i: int|
            0 <= i < self.env.cells@.len() && (#[trigger] self.env.cells@[i]) is Filled
                ==> self.listed(self.env.cells@[i]->Filled_0)
    }

    /// What holds between ticks: besides `pass_inv`, nobody waits for admission
    /// and no active agent is marked for removal.
    pub open spec fn wf(&self) -> bool {
        &&& self.pass_inv()
        &&& self.next_generation@.len() == 0
        &&& forall|j: usize| #[trigger] self.agents@.contains(j) ==> !self.env.marked(j)
    }

    pub fn new(width: i32, height: i32, borderless: bool) -> (r: Sma)
        requires
            0 <= width,
            0 <= height,
            width * height <= i32::MAX,
        ensures
            r.wf(),
            r.env.width == width,
            r.env.height == height,
            r.env.borderless == borderless,
            forall|i: int| 0 <= i < r.env.cells@.len() ==> r.env.cells@[i] == Cell::Empty,
            r.agents@.len() == 0,
            r.next_generation@.len() == 0,
            r.env.arena@.len() == 0,
            r.turn == 0,
    {
        Sma::new_with_fish(width, height, borderless, 0, 0, 0)
    }

    pub fn new_with_fish(
        width: i32,
        height: i32,
        borderless: bool,
        fish_breed_time: u8,
        shark_breed_time: u8,
        shark_starve_time: u8,
    ) -> (r: Sma)
        requires
            0 <= width,
            0 <= height,
            width * height <= i32::MAX,
        ensures
            r.wf(),
            r.env.width == width,
            r.env.height == height,
            r.env.borderless == borderless,
            r.env.fish_breed_time == fish_breed_time,
            r.env.shark_breed_time == shark_breed_time,
            r.env.shark_starve_time == shark_starve_time,
            forall|i: int| 0 <= i < r.env.cells@.len() ==> r.env.cells@[i] == Cell::Empty,
            r.agents@.len() == 0,
            r.next_generation@.len() == 0,
            r.env.arena@.len() == 0,
            r.turn == 0,
    {
        let env = Environment::new_fish_shark(
            width,
            height,
            borderless,
            fish_breed_time,
            shark_breed_time,
            shark_starve_time,
        );
        let s = Sma { env, agents: Vec::new(), next_generation: Vec::new(), turn: 0 };
        proof {
            assert(s.agents@ + s.next_generation@ =~= Seq::<usize>::empty());
        }
        s
    }

    /// Places a new agent, described by `agent` (its mark is ignored), on the
    /// cell its coordinate designates, and makes it active. Refuses a
    /// coordinate outside the grid or a cell that is already occupied.
    pub fn add_agent(&mut self, agent: AgentRef) -> (r: Result<(), PlacementError>)
        requires
            old(self).wf(),
            old(self).env.arena@.len() < usize::MAX,
        ensures
            final(self).wf(),
            final(self).turn == old(self).turn,
            final(self).env.same_shape(old(self).env),
            !old(self).env.contains(agent.coordinate) ==> r == Err::<(), PlacementError>(
                PlacementError::OutOfBounds,
            ),
            old(self).env.contains(agent.coordinate) && old(self).env.cell_at(agent.coordinate)
                is Filled ==> r == Err::<(), PlacementError>(PlacementError::Occupied),
            r is Err ==> final(self).env.cells@ == old(self).env.cells@ && final(self).agents@
                == old(self).agents@ && final(self).env.arena@ == old(self).env.arena@,
            old(self).env.contains(agent.coordinate) && old(self).env.cell_at(agent.coordinate)
                is Empty ==> {
                let id = old(self).env.arena@.len() as usize;
                let rec = AgentRef {
                    coordinate: old(self).env.normalized(agent.coordinate),
                    marked_for_removal: false,
                    ..agent
                };
                &&& r is Ok
                &&& final(self).env.arena@ == old(self).env.arena@.push(rec)
                &&& final(self).env.cells@ == old(self).env.cells@.update(
                    old(self).env.index_of(agent.coordinate),
                    Cell::Filled(id),
                )
                &&& final(self).agents@ == old(self).agents@.push(id)
            },
    {
        if self.env.out_of_bound(agent.coordinate) {
            return Err(PlacementError::OutOfBounds);
        }
        let i = self.env.get_index(agent.coordinate);
        if !self.env.cells[i].is_empty_cell() {
            return Err(PlacementError::Occupied);
        }
        let ghost o = *self;
        let c = self.env.normalize(agent.coordinate);
        let rec = AgentRef { coordinate: c, marked_for_removal: false, ..agent };
        let id = self.env.spawn(rec);
        self.agents.push(id);
        proof {
            self.lemma_after_step(o, Some(id));
            assert(self.next_generation@.len() == 0);
            assert forall|j: usize| #[trigger] self.agents@.contains(j) implies !self.env.marked(j) by {
                if j != id {
                    assert(o.agents@.contains(j));
                }
            }
        }
        Ok(())
    }

    /// Places a new bouncer with the given heading; see `add_agent`.
    pub fn gen_agent(&mut self, coordinate: Point, direction: Direction) -> (r: Result<(), PlacementError>)
        requires
            old(self).wf(),
            old(self).env.arena@.len() < usize::MAX,
        ensures
            final(self).wf(),
            final(self).turn == old(self).turn,
            final(self).env.same_shape(old(self).env),
            !old(self).env.contains(coordinate) ==> r == Err::<(), PlacementError>(
                PlacementError::OutOfBounds,
            ),
            old(self).env.contains(coordinate) && old(self).env.cell_at(coordinate) is Filled
                ==> r == Err::<(), PlacementError>(PlacementError::Occupied),
            r is Err ==> final(self).env.cells@ == old(self).env.cells@ && final(self).agents@
                == old(self).agents@ && final(self).env.arena@ == old(self).env.arena@,
            old(self).env.contains(coordinate) && old(self).env.cell_at(coordinate) is Empty ==> {
                let id = old(self).env.arena@.len() as usize;
                &&& r is Ok
                &&& final(self).env.arena@ == old(self).env.arena@.push(
                    AgentRef {
                        body: AgentBody::Bouncer(Agent { direction, collision: false }),
                        coordinate: old(self).env.normalized(coordinate),
                        marked_for_removal: false,
                    },
                )
                &&& final(self).env.cells@ == old(self).env.cells@.update(
                    old(self).env.index_of(coordinate),
                    Cell::Filled(id),
                )
                &&& final(self).agents@ == old(self).agents@.push(id)
            },
    {
        self.add_agent(AgentRef::from(Agent::new(direction), coordinate))
    }

    /// After one commit (from `o` to `self`, through `Environment::frame`, with
    /// `child` the newborn, if any, pushed to the waiting list) `pass_inv` still holds.
    proof fn lemma_after_step(&self, o: Sma, child: Option<usize>)
        requires
            o.pass_inv(),
            o.env.frame(self.env),
            child is None ==> self.env.arena@.len() == o.env.arena@.len() && self.agents@
                == o.agents@ && self.next_generation@ == o.next_generation@,
            child is Some ==> {
                let k = child->Some_0;
                &&& k == o.env.arena@.len()
                &&& self.env.arena@.len() == o.env.arena@.len() + 1
                &&& ((self.agents@ == o.agents@ && self.next_generation@
                    == o.next_generation@.push(k)) || (self.agents@ == o.agents@.push(k)
                    && self.next_generation@ == o.next_generation@ && o.next_generation@.len()
                    == 0))
            },
        ensures
            self.pass_inv(),
    {
        let L = o.agents@ + o.next_generation@;
        assert forall|j: usize| #[trigger] self.listed(j) implies o.listed(j) || child == Some(
            j,
        ) by {
            if self.agents@.contains(j) {
                let m = choose|m: int| 0 <= m < self.agents@.len() && self.agents@[m] == j;
                if m < o.agents@.len() {
                    assert(o.agents@[m] == j);
                }
            }
            if self.next_generation@.contains(j) {
                let m = choose|m: int|
                    0 <= m < self.next_generation@.len() && self.next_generation@[m] == j;
                if m < o.next_generation@.len() {
                    assert(o.next_generation@[m] == j);
                }
            }
        }
        assert forall|j: usize| #[trigger] o.listed(j) implies self.listed(j) by {
            if o.agents@.contains(j) {
                let m = choose|m: int| 0 <= m < o.agents@.len() && o.agents@[m] == j;
                assert(self.agents@[m] == j);
            }
            if o.next_generation@.contains(j) {
                let m = choose|m: int|
                    0 <= m < o.next_generation@.len() && o.next_generation@[m] == j;
                assert(self.next_generation@[m] == j);
            }
        }
        if child is Some {
            let k = child->Some_0;
            assert(!o.listed(k));
            assert(!L.contains(k)) by {
                if L.contains(k) {
                    let m = choose|m: int| 0 <= m < L.len() && L[m] == k;
                    if m < o.agents@.len() {
                        assert(o.agents@.contains(k));
                    } else {
                        assert(o.next_generation@[m - o.agents@.len()] == k);
                    }
                }
            }
            assert(self.agents@ + self.next_generation@ =~= L.push(k));
        } else {
            assert(self.agents@ + self.next_generation@ =~= L);
        }
        assert forall|j: usize| #[trigger] self.listed(j) && !self.env.marked(j) implies self.env.placed(
            j,
        ) by {
            if o.listed(j) {
                assert(!o.env.marked(j));
            }
        }
        assert forall|i: int|
            0 <= i < self.env.cells@.len() && (#[trigger] self.env.cells@[i]) is Filled implies self.listed(
            self.env.cells@[i]->Filled_0,
        ) by {
            let j = self.env.cells@[i]->Filled_0;
            if j < o.env.arena@.len() && o.env.placed(j) {
                let c = o.env.arena@[j as int].coordinate;
                crate::environment::lemma_index_bound(
                    c.x as int,
                    c.y as int,
                    o.env.width as int,
                    o.env.height as int,
                );
                assert(o.env.cells@[o.env.idx(c)] is Filled);
                assert(o.listed(j));
            } else {
                let k = child->Some_0;
                assert(j == k);
                if self.agents@.len() > o.agents@.len() {
                    assert(self.agents@[self.agents@.len() - 1] == k);
                } else {
                    assert(self.next_generation@[self.next_generation@.len() - 1] == k);
                }
            }
        }
    }
}

/// What agent `id` did on its turn, from `old` to `new`, handing back `r`: it
/// decided on `old` (fish and sharks with `draw`), took the state that its
/// decision left it in, and committed.
pub open spec fn took_turn(old: Environment, new: Environment, id: usize, draw: usize, r: AgentCommand) -> bool {
    let rec = old.arena@[id as int];
    match rec.body {
        AgentBody::Bouncer(a) => {
            &&& agent::committed(old, new, id, agent::bouncer_decision(a, rec.coordinate, old))
            &&& r == AgentCommand::DoNothing
        },
        AgentBody::Fish(f) => {
            let (nf, d) = fish::fish_decision(f, rec.coordinate, old, draw);
            exists|mid: Environment|
                {
                    &&& mid.cells@ == old.cells@
                    &&& mid.arena@ == old.arena@.update(
                        id as int,
                        AgentRef { body: AgentBody::Fish(nf), ..rec },
                    )
                    &&& mid.same_shape(old)
                    &&& #[trigger] fish::committed(mid, new, id, d, r)
                }
        },
        AgentBody::Shark(sh) => {
            let (ns, d) = shark::shark_decision(sh, rec.coordinate, old, draw);
            exists|mid: Environment|
                {
                    &&& mid.cells@ == old.cells@
                    &&& mid.arena@ == old.arena@.update(
                        id as int,
                        AgentRef { body: AgentBody::Shark(ns), ..rec },
                    )
                    &&& mid.same_shape(old)
                    &&& #[trigger] shark::committed(mid, new, id, d, r)
                }
        },
    }
}

/// The draw that the `k`-th agent of a pass uses.
pub open spec fn draw_at(draws: Seq<usize>, k: int) -> usize {
    if 0 <= k < draws.len() {
        draws[k]
    } else {
        0
    }
}

/// One agent's turn within a pass: an agent already marked for removal takes
/// none; any other takes its turn (see `took_turn`).
pub open spec fn turn_step(before: Environment, after: Environment, id: usize, draw: usize) -> bool {
    if before.marked(id) {
        before.unchanged(after)
    } else {
        exists|r: AgentCommand| #[trigger] took_turn(before, after, id, draw, r)
    }
}

/// `trace` runs from `start` to `end` through one turn of each agent of
/// `order`, in that order, each seeing the grid that the turns before it left.
pub open spec fn pass_trace(
    start: Environment,
    end: Environment,
    order: Seq<usize>,
    draws: Seq<usize>,
    trace: Seq<Environment>,
) -> bool {
    &&& trace.len() == order.len() + 1
    &&& trace[0] == start
    &&& trace[order.len() as int] == end
    &&& forall|k: int|
        0 <= k < order.len() ==> turn_step(
            #[trigger] trace[k],
            trace[k + 1],
            order[k],
            draw_at(draws, k),
        )
}

/// One tick from `env` with the active agents `order` (in turn order) and
/// `draws`, ending in `new_env` with the active agents `new_agents`: a pass
/// (see `pass_trace`) ends in some grid `passed`; then every cell holding an
/// agent marked for removal is emptied, and the active agents are those of
/// `order` and the newborns of the pass that are not marked.
pub open spec fn ticked(
    env: Environment,
    order: Seq<usize>,
    draws: Seq<usize>,
    new_env: Environment,
    new_agents: Seq<usize>,
) -> bool {
    exists|passed: Environment, trace: Seq<Environment>|
        {
            &&& #[trigger] pass_trace(env, passed, order, draws, trace)
            &&& new_env.arena@ == passed.arena@
            &&& new_env.cells@.len() == passed.cells@.len()
            &&& forall|i: int|
                0 <= i < passed.cells@.len() ==> #[trigger] new_env.cells@[i] == (
                if passed.cells@[i] is Filled && passed.marked(passed.cells@[i]->Filled_0) {
                    Cell::Empty
                } else {
                    passed.cells@[i]
                })
            &&& forall|j: usize|
                #[trigger] new_agents.contains(j) <==> ((order.contains(j) || env.arena@.len() <= j
                    < passed.arena@.len()) && !passed.marked(j))
        }
}

impl Sma {
    /// One agent's turn: decide, then commit at once. An agent marked for
    /// removal earlier in the pass takes no turn. A newborn joins the waiting list.
    pub fn act(&mut self, id: usize, draw: usize) -> (r: AgentCommand)
        requires
            old(self).pass_inv(),
            old(self).agents@.contains(id),
            old(self).env.arena@.len() < usize::MAX,
        ensures
            final(self).pass_inv(),
            old(self).env.frame(final(self).env),
            final(self).agents@ == old(self).agents@,
            final(self).turn == old(self).turn,
            old(self).env.marked(id) ==> old(self).env.unchanged(final(self).env) && r
                == AgentCommand::DoNothing,
            !old(self).env.marked(id) ==> took_turn(old(self).env, final(self).env, id, draw, r),
            r == AgentCommand::DoNothing ==> final(self).next_generation@
                == old(self).next_generation@ && final(self).env.arena@.len()
                == old(self).env.arena@.len(),
            r is Create ==> r == AgentCommand::Create(old(self).env.arena@.len() as usize)
                && final(self).next_generation@ == old(self).next_generation@.push(
                old(self).env.arena@.len() as usize,
            ) && final(self).env.arena@.len() == old(self).env.arena@.len() + 1,
    {
        let ghost o = *self;
        proof {
            o.env.lemma_frame_refl();
            assert(o.listed(id));
        }
        let rec = self.env.arena[id];
        if rec.marked_for_removal {
            return AgentCommand::DoNothing;
        }
        proof {
            assert(o.env.placed(id));
        }
        let c = rec.coordinate;
        let r = match rec.body {
            AgentBody::Bouncer(a) => {
                let d = a.decide(c, &self.env);
                agent::update(&mut self.env, id, d);
                AgentCommand::DoNothing
            },
            AgentBody::Fish(f) => {
                let (nf, d) = f.decide(c, &self.env, draw);
                self.env.set_body(id, AgentBody::Fish(nf));
                let ghost m = self.env;
                let r = fish::update(&mut self.env, id, d);
                proof {
                    Environment::lemma_frame_trans(o.env, m, self.env);
                    assert(fish::committed(m, self.env, id, d, r));
                }
                r
            },
            AgentBody::Shark(sh) => {
                let (ns, d) = sh.decide(c, &self.env, draw);
                self.env.set_body(id, AgentBody::Shark(ns));
                let ghost m = self.env;
                let r = shark::update(&mut self.env, id, d);
                proof {
                    Environment::lemma_frame_trans(o.env, m, self.env);
                    assert(shark::committed(m, self.env, id, d, r));
                }
                r
            },
        };
        match r {
            AgentCommand::Create(k) => {
                self.next_generation.push(k);
                proof {
                    self.lemma_after_step(o, Some(k));
                }
            },
            AgentCommand::DoNothing => {
                proof {
                    self.lemma_after_step(o, None);
                }
            },
        }
        r
    }

    /// Every active agent, in list order, takes its turn; the `k`-th uses
    /// `draws[k]` (or 0 past the end of `draws`).
    pub fn run_pass(&mut self, draws: &Vec<usize>)
        requires
            old(self).pass_inv(),
            old(self).env.arena@.len() + old(self).agents@.len() < usize::MAX,
        ensures
            final(self).pass_inv(),
            old(self).env.frame(final(self).env),
            final(self).agents@ == old(self).agents@,
            final(self).turn == old(self).turn,
            final(self).env.arena@.len() <= old(self).env.arena@.len() + old(self).agents@.len(),
            forall|s: usize|
                old(self).agents@.contains(s) && #[trigger] starving(old(self).env, s) ==> {
                    &&& final(self).env.marked(s)
                    &&& final(self).env.placed(s)
                    &&& final(self).env.arena@[s as int].coordinate
                        == old(self).env.arena@[s as int].coordinate
                },
            exists|trace: Seq<Environment>|
                pass_trace(old(self).env, final(self).env, old(self).agents@, draws@, trace),
            forall|j: usize|
                #[trigger] final(self).next_generation@.contains(j) <==> (
                old(self).next_generation@.contains(j)
                    || (old(self).env.arena@.len() <= j < final(self).env.arena@.len())),
    {
        let ghost o = *self;
        let ghost mut trace = seq![self.env];
        proof {
            o.env.lemma_frame_refl();
            assert(o.agents@ =~= (o.agents@ + o.next_generation@).subrange(0, o.agents@.len() as int));
            assert forall|s: usize| o.agents@.contains(s) && #[trigger] starving(o.env, s) implies o.env.placed(s) by {
                assert(o.listed(s));
            }
        }
        let n = self.agents.len();
        let mut k: usize = 0;
        while k < n
            invariant
                self.pass_inv(),
                o.env.frame(self.env),
                self.agents@ == o.agents@,
                self.turn == o.turn,
                n == o.agents@.len(),
                0 <= k <= n,
                self.env.arena@.len() <= o.env.arena@.len() + k,
                o.env.arena@.len() + o.agents@.len() < usize::MAX,
                o.agents@.no_duplicates(),
                trace.len() == k + 1,
                trace[0] == o.env,
                trace[k as int] == self.env,
                forall|m: int|
                    0 <= m < k ==> turn_step(
                        #[trigger] trace[m],
                        trace[m + 1],
                        o.agents@[m],
                        draw_at(draws@, m),
                    ),
                o.env.arena@.len() <= self.env.arena@.len(),
                forall|j: usize|
                    #[trigger] self.next_generation@.contains(j) <==> (o.next_generation@.contains(j)
                        || (o.env.arena@.len() <= j < self.env.arena@.len())),
                forall|s: usize|
                    o.agents@.contains(s) && #[trigger] starving(o.env, s) ==> {
                        &&& self.env.placed(s)
                        &&& self.env.arena@[s as int].body is Shark
                        &&& self.env.arena@[s as int].coordinate == o.env.arena@[s as int].coordinate
                        &&& if o.agents@.subrange(0, k as int).contains(s) {
                            self.env.marked(s)
                        } else {
                            self.env.arena@[s as int] == o.env.arena@[s as int]
                        }
                    },
            decreases n - k,
        {
            let id = self.agents[k];
            let draw = if k < draws.len() {
                draws[k]
            } else {
                0
            };
            let ghost before = self.env;
            proof {
                assert(self.agents@[k as int] == id);
                assert(self.listed(id));
            }
            let ghost gen0 = self.next_generation@;
            let r = self.act(id, draw);
            proof {
                let t0 = trace;
                trace = trace.push(self.env);
                assert(draw == draw_at(draws@, k as int));
                if !before.marked(id) {
                    assert(took_turn(before, self.env, id, draw, r));
                }
                assert(turn_step(before, self.env, id, draw));
                assert forall|m: int|
                    0 <= m < k + 1 implies turn_step(
                        #[trigger] trace[m],
                        trace[m + 1],
                        o.agents@[m],
                        draw_at(draws@, m),
                    ) by {
                    if m < k {
                        assert(trace[m] == t0[m]);
                        assert(trace[m + 1] == t0[m + 1]);
                    }
                }
                lemma_push_contains(gen0, before.arena@.len() as usize);
                Environment::lemma_frame_trans(o.env, before, self.env);
                lemma_prefix_contains(o.agents@, k as int);
                if !before.marked(id) {
                    lemma_turn_spares_sharks(before, self.env, id, draw, r);
                }
                assert forall|s: usize|
                    o.agents@.contains(s) && #[trigger] starving(o.env, s) implies {
                        &&& self.env.placed(s)
                        &&& self.env.arena@[s as int].body is Shark
                        &&& self.env.arena@[s as int].coordinate == o.env.arena@[s as int].coordinate
                        &&& if o.agents@.subrange(0, k + 1).contains(s) {
                            self.env.marked(s)
                        } else {
                            self.env.arena@[s as int] == o.env.arena@[s as int]
                        }
                    } by {
                    assert(before.placed(s));
                    assert(before.arena@[s as int].is_shark());
                    if s == id {
                        assert(!o.agents@.subrange(0, k as int).contains(s)) by {
                            if o.agents@.subrange(0, k as int).contains(s) {
                                let m = choose|m: int|
                                    0 <= m < k && #[trigger] o.agents@.subrange(0, k as int)[m] == s;
                                assert(o.agents@[m] == o.agents@[k as int]);
                            }
                        }
                        assert(!before.marked(id));
                        lemma_starving_shark_marks_itself(before, self.env, id, draw, r);
                    } else if before.marked(id) {
                    } else {
                        assert(self.env.arena@[s as int] == before.arena@[s as int]);
                    }
                }
            }
            k = k + 1;
        }
        proof {
            assert(o.agents@.subrange(0, n as int) =~= o.agents@);
            assert(pass_trace(o.env, self.env, o.agents@, draws@, trace));
        }
    }

    /// Removes every agent marked for removal from the active and waiting
    /// lists and empties its cell, then admits the waiting newborns.
    pub fn sweep(&mut self)
        requires
            old(self).pass_inv(),
        ensures
            final(self).wf(),
            final(self).turn == old(self).turn,
            final(self).env.same_shape(old(self).env),
            final(self).env.arena@ == old(self).env.arena@,
            forall|j: usize|
                #[trigger] final(self).agents@.contains(j) <==> (old(self).listed(j) && !old(self).env.marked(j)),
            final(self).env.cells@.len() == old(self).env.cells@.len(),
            forall|i: int|
                0 <= i < old(self).env.cells@.len() ==> #[trigger] final(self).env.cells@[i] == (
                if old(self).env.cells@[i] is Filled && old(self).env.marked(
                    old(self).env.cells@[i]->Filled_0,
                ) {
                    Cell::Empty
                } else {
                    old(self).env.cells@[i]
                }),
    {
        let ghost o = *self;
        let ghost L = o.agents@ + o.next_generation@;
        let n1 = self.agents.len();
        proof {
            assert(self.env.arena.len() == self.env.arena@.len());
        }
        let n = n1 + self.next_generation.len();
        let mut kept: Vec<usize> = Vec::new();
        let mut k: usize = 0;
        while k < n
            invariant
                self.env.wf(),
                self.env.consistent(),
                self.env.same_shape(o.env),
                self.env.arena@ == o.env.arena@,
                self.env.cells@.len() == o.env.cells@.len(),
                self.agents@ == o.agents@,
                self.next_generation@ == o.next_generation@,
                self.turn == o.turn,
                o.pass_inv(),
                L == o.agents@ + o.next_generation@,
                n1 == o.agents@.len(),
                n == L.len(),
                0 <= k <= n,
                kept@.len() <= k,
                kept@.no_duplicates(),
                forall|j: usize|
                    #[trigger] kept@.contains(j) <==> (L.subrange(0, k as int).contains(j)
                        && !o.env.marked(j)),
                forall|i: int|
                    0 <= i < o.env.cells@.len() ==> #[trigger] self.env.cells@[i] == (if o.env.cells@[i]
                        is Filled && o.env.marked(o.env.cells@[i]->Filled_0) && L.subrange(
                        0,
                        k as int,
                    ).contains(o.env.cells@[i]->Filled_0) {
                        Cell::Empty
                    } else {
                        o.env.cells@[i]
                    }),
            decreases n - k,
        {
            let id = if k < n1 {
                self.agents[k]
            } else {
                self.next_generation[k - n1]
            };
            assert(id == L[k as int]);
            assert(o.listed(id)) by {
                if k < n1 {
                    assert(o.agents@[k as int] == id);
                } else {
                    assert(o.next_generation@[k - n1] == id);
                }
            }
            let ghost before = self.env;
            let ghost kept0 = kept@;
            assert(!L.subrange(0, k as int).contains(id)) by {
                if L.subrange(0, k as int).contains(id) {
                    let m = choose|m: int| 0 <= m < k && L.subrange(0, k as int)[m] == id;
                    assert(L[m] == L[k as int]);
                }
            }
            if self.env.arena[id].marked_for_removal {
                self.env.vacate(id);
            } else {
                kept.push(id);
                proof {
                    assert(!kept0.contains(id));
                    assert forall|a: int, b: int|
                        0 <= a < b < kept@.len() implies kept@[a] != kept@[b] by {
                        if b == kept@.len() - 1 {
                            assert(kept0.contains(kept@[a]));
                        }
                    }
                }
            }
            proof {
                lemma_prefix_contains(L, k as int);
                lemma_push_contains(kept0, id);
                assert forall|j: usize|
                    #[trigger] kept@.contains(j) <==> (L.subrange(0, k + 1).contains(j)
                        && !o.env.marked(j)) by {
                    assert(kept0.contains(j) <==> (L.subrange(0, k as int).contains(j)
                        && !o.env.marked(j)));
                    assert(L.subrange(0, k + 1).contains(j) <==> (L.subrange(0, k as int).contains(j)
                        || j == id));
                    if !o.env.marked(id) {
                        assert(kept@ == kept0.push(id));
                        assert(kept0.push(id).contains(j) <==> (kept0.contains(j) || j == id));
                    }
                }
                assert forall|i: int| 0 <= i < o.env.cells@.len() implies #[trigger] self.env.cells@[i]
                    == (if o.env.cells@[i] is Filled && o.env.marked(o.env.cells@[i]->Filled_0)
                    && L.subrange(0, k + 1).contains(o.env.cells@[i]->Filled_0) {
                    Cell::Empty
                } else {
                    o.env.cells@[i]
                }) by {
                    assert(before.cells@[i] == (if o.env.cells@[i] is Filled && o.env.marked(
                        o.env.cells@[i]->Filled_0,
                    ) && L.subrange(0, k as int).contains(o.env.cells@[i]->Filled_0) {
                        Cell::Empty
                    } else {
                        o.env.cells@[i]
                    }));
                }
            }
            k = k + 1;
        }
        self.agents = kept;
        self.next_generation = Vec::new();
        proof {
            assert(self.agents@.len() + self.next_generation@.len() <= self.env.arena@.len());
            assert(forall|j: usize| #[trigger] self.agents@.contains(j) ==> !self.env.marked(j));
            assert(L.subrange(0, n as int) =~= L);
            assert(self.agents@ + self.next_generation@ =~= self.agents@);
            assert forall|j: usize| #[trigger] o.listed(j) <==> L.contains(j) by {
                if o.agents@.contains(j) {
                    let m = choose|m: int| 0 <= m < o.agents@.len() && o.agents@[m] == j;
                    assert(L[m] == j);
                }
                if o.next_generation@.contains(j) {
                    let m = choose|m: int|
                        0 <= m < o.next_generation@.len() && o.next_generation@[m] == j;
                    assert(L[n1 + m] == j);
                }
                if L.contains(j) {
                    let m = choose|m: int| 0 <= m < L.len() && L[m] == j;
                    if m < n1 {
                        assert(o.agents@[m] == j);
                    } else {
                        assert(o.next_generation@[m - n1] == j);
                    }
                }
            }
            assert forall|j: usize| #[trigger] self.listed(j) && !self.env.marked(j) implies self.env.placed(
                j,
            ) by {
                assert(self.agents@.contains(j));
                assert(L.contains(j));
                assert(o.listed(j));
                assert(o.env.placed(j));
                let c = o.env.arena@[j as int].coordinate;
                crate::environment::lemma_index_bound(
                    c.x as int,
                    c.y as int,
                    o.env.width as int,
                    o.env.height as int,
                );
                assert(self.env.cells@[o.env.idx(c)] == o.env.cells@[o.env.idx(c)]);
            }
            assert forall|i: int|
                0 <= i < self.env.cells@.len() && (#[trigger] self.env.cells@[i]) is Filled implies self.listed(
                self.env.cells@[i]->Filled_0,
            ) by {
                assert(o.env.cells@[i] is Filled);
                assert(o.listed(o.env.cells@[i]->Filled_0));
            }
        }
    }

    /// One tick on the current turn order: every active agent takes its turn
    /// (see `run_pass`), then the sweep (see `sweep`), then the counter advances.
    /// A shark that starves on this tick is gone from the active list afterwards
    /// and its cell is empty, whatever it had decided.
    pub fn tick_with(&mut self, draws: &Vec<usize>)
        requires
            old(self).wf(),
            old(self).env.arena@.len() + old(self).agents@.len() < usize::MAX,
            old(self).turn < u64::MAX,
        ensures
            final(self).wf(),
            final(self).turn == old(self).turn + 1,
            final(self).env.same_shape(old(self).env),
            final(self).env.arena@.len() <= old(self).env.arena@.len() + old(self).agents@.len(),
            forall|s: usize|
                old(self).agents@.contains(s) && #[trigger] starving(old(self).env, s) ==> {
                    &&& !final(self).agents@.contains(s)
                    &&& final(self).env.cells@[old(self).env.idx(
                        old(self).env.arena@[s as int].coordinate,
                    )] == Cell::Empty
                    &&& final(self).env.arena@[s as int].coordinate
                        == old(self).env.arena@[s as int].coordinate
                    &&& forall|i: int|
                        0 <= i < final(self).env.cells@.len() ==> #[trigger] final(self).env.cells@[i]
                            != Cell::Filled(s)
                },
            ticked(old(self).env, old(self).agents@, draws@, final(self).env, final(self).agents@),
    {
        let ghost o = *self;
        self.turn = self.turn + 1;
        proof {
            Sma::lemma_same_lists(o, *self);
        }
        self.run_pass(draws);
        let ghost passed = *self;
        self.sweep();
        proof {
            let trace = choose|trace: Seq<Environment>|
                pass_trace(o.env, passed.env, o.agents@, draws@, trace);
            assert forall|j: usize|
                #[trigger] self.agents@.contains(j) <==> ((o.agents@.contains(j)
                    || o.env.arena@.len() <= j < passed.env.arena@.len())
                    && !passed.env.marked(j)) by {
                assert(passed.listed(j) <==> (passed.agents@.contains(j) || passed.next_generation@.contains(j)));
                assert(!o.next_generation@.contains(j));
            }
            assert(pass_trace(o.env, passed.env, o.agents@, draws@, trace));
            assert forall|s: usize|
                o.agents@.contains(s) && #[trigger] starving(o.env, s) implies {
                    &&& !self.agents@.contains(s)
                    &&& self.env.cells@[o.env.idx(o.env.arena@[s as int].coordinate)] == Cell::Empty
                } by {
                assert(passed.env.marked(s));
                let c = o.env.arena@[s as int].coordinate;
                crate::environment::lemma_index_bound(
                    c.x as int,
                    c.y as int,
                    o.env.width as int,
                    o.env.height as int,
                );
                assert(passed.env.cells@[o.env.idx(c)] == Cell::Filled(s));
            }
        }
    }
}

/// A prefix one element longer holds exactly one more value.
proof fn lemma_prefix_contains(s: Seq<usize>, k: int)
    requires
        0 <= k < s.len(),
    ensures
        forall|j: usize|
            #[trigger] s.subrange(0, k + 1).contains(j) <==> (s.subrange(0, k).contains(j) || j
                == s[k]),
{
    assert forall|j: usize|
        #[trigger] s.subrange(0, k + 1).contains(j) <==> (s.subrange(0, k).contains(j) || j
            == s[k]) by {
        if s.subrange(0, k + 1).contains(j) {
            let m = choose|m: int| 0 <= m < k + 1 && #[trigger] s.subrange(0, k + 1)[m] == j;
            if m < k {
                assert(s.subrange(0, k)[m] == j);
            }
        }
        if s.subrange(0, k).contains(j) {
            let m = choose|m: int| 0 <= m < k && #[trigger] s.subrange(0, k)[m] == j;
            assert(s.subrange(0, k + 1)[m] == j);
        }
        if j == s[k] {
            assert(s.subrange(0, k + 1)[k] == j);
        }
    }
}

proof fn lemma_push_contains(s: Seq<usize>, a: usize)
    ensures
        forall|j: usize| #[trigger] s.push(a).contains(j) <==> (s.contains(j) || j == a),
{
    assert forall|j: usize| #[trigger] s.push(a).contains(j) <==> (s.contains(j) || j == a) by {
        if s.push(a).contains(j) {
            let m = choose|m: int| 0 <= m < s.len() + 1 && #[trigger] s.push(a)[m] == j;
            if m < s.len() {
                assert(s[m] == j);
            }
        }
        if s.contains(j) {
            let m = choose|m: int| 0 <= m < s.len() && #[trigger] s[m] == j;
            assert(s.push(a)[m] == j);
        }
        if j == a {
            assert(s.push(a)[s.len() as int] == j);
        }
    }
}

impl Sma {
    /// `pass_inv` and `wf` depend on the grid and the two lists alone.
    pub proof fn lemma_same_lists(a: Sma, b: Sma)
        requires
            b.env == a.env,
            b.agents@ == a.agents@,
            b.next_generation@ == a.next_generation@,
        ensures
            a.pass_inv() ==> b.pass_inv(),
            a.wf() ==> b.wf(),
    {
        assert forall|j: usize| #[trigger] b.listed(j) == a.listed(j) by {}
    }
}

/// Draws are taken below this bound: it is a multiple of every candidate count
/// from 1 to 8, so `draw % n` picks each of `n` candidates equally often.
pub const DRAW_RANGE: usize = 840;

/// The eight headings that move, in a fixed order.
pub open spec fn heading(k: int) -> Direction {
    let h = if k == 0 || k == 4 || k == 5 {
        HDirection::Right
    } else if k == 1 || k == 6 || k == 7 {
        HDirection::Left
    } else {
        HDirection::Still
    };
    let v = if k == 2 || k == 4 || k == 6 {
        VDirection::Up
    } else if k == 3 || k == 5 || k == 7 {
        VDirection::Down
    } else {
        VDirection::Still
    };
    Direction { x: h, y: v }
}

/// The `k`-th of the eight headings that move.
pub fn direction_from_index(k: usize) -> (r: Direction)
    requires
        k < 8,
    ensures
        r == heading(k as int),
        !(r.x == HDirection::Still && r.y == VDirection::Still),
{
    let h = if k == 0 || k == 4 || k == 5 {
        HDirection::Right
    } else if k == 1 || k == 6 || k == 7 {
        HDirection::Left
    } else {
        HDirection::Still
    };
    let v = if k == 2 || k == 4 || k == 6 {
        VDirection::Up
    } else if k == 3 || k == 5 || k == 7 {
        VDirection::Down
    } else {
        VDirection::Still
    };
    Direction { x: h, y: v }
}

/// A heading drawn uniformly among the eight that move.
pub fn pick_direction() -> (r: Direction)
    ensures
        !(r.x == HDirection::Still && r.y == VDirection::Still),
{
    direction_from_index(random_below(8))
}

/// `n` draws below `DRAW_RANGE`.
fn draws_for(n: usize) -> (r: Vec<usize>)
    ensures
        r@.len() == n,
        forall|k: int| 0 <= k < n ==> #[trigger] r@[k] < DRAW_RANGE,
{
    let mut r: Vec<usize> = Vec::new();
    let mut k: usize = 0;
    while k < n
        invariant
            k <= n,
            r@.len() == k,
            forall|m: int| 0 <= m < k ==> #[trigger] r@[m] < DRAW_RANGE,
        decreases n - k,
    {
        r.push(random_below(DRAW_RANGE));
        k = k + 1;
    }
    r
}

/// The number of empty cells among `cells`.
pub open spec fn free_cells(cells: Seq<Cell>) -> nat
    decreases cells.len(),
{
    if cells.len() == 0 {
        0
    } else {
        free_cells(cells.drop_last()) + if cells.last() is Empty {
            1nat
        } else {
            0nat
        }
    }
}

/// The smaller of two integers.
pub open spec fn at_most(a: int, b: int) -> int {
    if a <= b {
        a
    } else {
        b
    }
}

/// The indices of the empty cells, in increasing order.
fn empty_slots(cells: &Vec<Cell>) -> (r: Vec<usize>)
    ensures
        r@.len() == free_cells(cells@),
        r@.no_duplicates(),
        forall|k: int|
            0 <= k < r@.len() ==> #[trigger] r@[k] < cells@.len() && cells@[r@[k] as int] is Empty,
{
    let mut r: Vec<usize> = Vec::new();
    let n = cells.len();
    let mut i: usize = 0;
    while i < n
        invariant
            n == cells@.len(),
            i <= n,
            r@.len() == free_cells(cells@.subrange(0, i as int)),
            r@.no_duplicates(),
            forall|k: int|
                0 <= k < r@.len() ==> #[trigger] r@[k] < i && cells@[r@[k] as int] is Empty,
        decreases n - i,
    {
        proof {
            assert(cells@.subrange(0, i + 1).drop_last() =~= cells@.subrange(0, i as int));
        }
        if cells[i].is_empty_cell() {
            let ghost r0 = r@;
            r.push(i);
            proof {
                assert forall|a: int, b: int| 0 <= a < b < r@.len() implies r@[a] != r@[b] by {
                    if b == r@.len() - 1 {
                        assert(r0[a] < i);
                    }
                }
                assert forall|k: int|
                    0 <= k < r@.len() implies #[trigger] r@[k] < i + 1 && cells@[r@[k] as int] is Empty by {
                    if k < r0.len() {
                        assert(r0[k] == r@[k]);
                    }
                }
            }
        }
        i = i + 1;
    }
    proof {
        assert(cells@.subrange(0, n as int) =~= cells@);
    }
    r
}

/// The indices of the empty cells, in a uniformly random order.
fn shuffled_free_slots(cells: &Vec<Cell>) -> (r: Vec<usize>)
    ensures
        r@.len() == free_cells(cells@),
        r@.no_duplicates(),
        forall|k: int|
            0 <= k < r@.len() ==> #[trigger] r@[k] < cells@.len() && cells@[r@[k] as int] is Empty,
{
    let mut slots = empty_slots(cells);
    let ghost a = slots@;
    shuffle_ids(&mut slots);
    proof {
        broadcast use vstd::seq_lib::group_to_multiset_ensures;

        let b = slots@;
        a.lemma_multiset_has_no_duplicates();
        b.lemma_multiset_has_no_duplicates_conv();
        assert(b.len() == b.to_multiset().len());
        assert forall|k: int|
            0 <= k < b.len() implies #[trigger] b[k] < cells@.len() && cells@[b[k] as int] is Empty by {
            assert(b.contains(b[k]));
            assert(b.to_multiset().count(b[k]) > 0);
            assert(a.contains(b[k]));
        }
    }
    slots
}

/// The state a freshly generated agent of `kind` starts in: a bouncer that
/// moves and has no collision (`kind == 0`), a fish with the fish breed time
/// (`kind == 1`), a shark with the shark breed and starve times (otherwise).
pub open spec fn new_body(env: Environment, b: AgentBody, kind: u8) -> bool {
    if kind == 0 {
        &&& b is Bouncer
        &&& !b->Bouncer_0.collision
        &&& !(b->Bouncer_0.direction.x == HDirection::Still && b->Bouncer_0.direction.y
            == VDirection::Still)
    } else if kind == 1 {
        b == AgentBody::Fish(crate::fish::Fish { breed_count_down: env.fish_breed_time })
    } else {
        b == AgentBody::Shark(
            crate::shark::Shark {
                breed_count_down: env.shark_breed_time,
                starve_time: env.shark_starve_time,
            },
        )
    }
}

impl Sma {
    /// `new` is `self` with `n` new agents: the table gains `n` records, the
    /// active list gains their indices in order, each stands on a cell that was
    /// empty and now holds it, and no cell that held an agent changes.
    pub open spec fn appended(&self, new: Sma, n: int) -> bool {
        let t = self.env.arena@.len();
        let a = self.agents@.len();
        &&& new.env.arena@.len() == t + n
        &&& new.agents@.len() == a + n
        &&& forall|j: int| 0 <= j < t ==> #[trigger] new.env.arena@[j] == self.env.arena@[j]
        &&& forall|k: int| 0 <= k < a ==> #[trigger] new.agents@[k] == self.agents@[k]
        &&& forall|m: int| 0 <= m < n ==> #[trigger] new.agents@[a + m] == t + m
        &&& forall|j: int|
            t <= j < t + n ==> {
                let c = (#[trigger] new.env.arena@[j]).coordinate;
                &&& !new.env.arena@[j].marked_for_removal
                &&& self.env.in_range(c)
                &&& self.env.cells@[self.env.idx(c)] is Empty
                &&& new.env.cells@[self.env.idx(c)] == Cell::Filled(j as usize)
            }
        &&& new.env.cells@.len() == self.env.cells@.len()
        &&& forall|i: int|
            0 <= i < self.env.cells@.len() && (#[trigger] self.env.cells@[i]) is Filled
                ==> new.env.cells@[i] == self.env.cells@[i]
    }
}

impl Sma {
    /// One tick: the active list is put in a fresh random order, each agent
    /// takes one draw below `DRAW_RANGE`, and `tick_with` runs on them. A shark that starves on
    /// this tick is gone from the active list afterwards and its cell is empty.
    pub fn tick(&mut self)
        requires
            old(self).wf(),
            old(self).env.arena@.len() + old(self).agents@.len() < usize::MAX,
            old(self).turn < u64::MAX,
        ensures
            final(self).wf(),
            final(self).turn == old(self).turn + 1,
            final(self).env.same_shape(old(self).env),
            final(self).env.arena@.len() <= old(self).env.arena@.len() + old(self).agents@.len(),
            forall|s: usize|
                old(self).agents@.contains(s) && #[trigger] starving(old(self).env, s) ==> {
                    &&& !final(self).agents@.contains(s)
                    &&& final(self).env.cells@[old(self).env.idx(
                        old(self).env.arena@[s as int].coordinate,
                    )] == Cell::Empty
                    &&& final(self).env.arena@[s as int].coordinate
                        == old(self).env.arena@[s as int].coordinate
                    &&& forall|i: int|
                        0 <= i < final(self).env.cells@.len() ==> #[trigger] final(self).env.cells@[i]
                            != Cell::Filled(s)
                },
            exists|order: Seq<usize>, draws: Seq<usize>|
                {
                    &&& order.to_multiset() == old(self).agents@.to_multiset()
                    &&& draws.len() == order.len()
                    &&& forall|k: int| 0 <= k < draws.len() ==> #[trigger] draws[k] < DRAW_RANGE
                    &&& #[trigger] ticked(old(self).env, order, draws, final(self).env, final(self).agents@)
                },
    {
        let ghost o = *self;
        self.shuffle_agents();
        proof {
            broadcast use vstd::seq_lib::group_to_multiset_ensures;

            assert forall|s: usize| #[trigger] o.agents@.contains(s) implies self.agents@.contains(s) by {
                assert(o.agents@.to_multiset().count(s) > 0);
            }
        }
        let ghost order = self.agents@;
        let draws = draws_for(self.agents.len());
        self.tick_with(&draws);
        proof {
            assert(ticked(o.env, order, draws@, self.env, self.agents@));
        }
    }

    /// Puts the active list in a uniformly random order.
    pub fn shuffle_agents(&mut self)
        requires
            old(self).wf(),
        ensures
            final(self).wf(),
            final(self).env == old(self).env,
            final(self).turn == old(self).turn,
            final(self).agents@.to_multiset() == old(self).agents@.to_multiset(),
            final(self).agents@.len() == old(self).agents@.len(),
    {
        let ghost o = *self;
        shuffle_ids(&mut self.agents);
        proof {
            broadcast use vstd::seq_lib::group_to_multiset_ensures;

            let a = o.agents@;
            let b = self.agents@;
            assert(a + o.next_generation@ =~= a);
            assert(b + self.next_generation@ =~= b);
            a.lemma_multiset_has_no_duplicates();
            b.lemma_multiset_has_no_duplicates_conv();
            assert(b.len() == b.to_multiset().len());
            assert forall|j: usize| #[trigger] self.listed(j) == o.listed(j) by {
                assert(b.contains(j) <==> b.to_multiset().count(j) > 0);
                assert(a.contains(j) <==> a.to_multiset().count(j) > 0);
            }
            assert forall|j: usize| #[trigger] self.agents@.contains(j) implies !self.env.marked(j) by {
                assert(b.to_multiset().count(j) > 0);
                assert(a.contains(j));
            }
        }
    }

    /// Places an agent with the given body on the cell of row-major index
    /// `slot`; refuses an index past the grid or an occupied cell.
    pub fn place_at_slot(&mut self, slot: usize, body: AgentBody) -> (r: Result<(), PlacementError>)
        requires
            old(self).wf(),
            old(self).env.arena@.len() < usize::MAX,
        ensures
            final(self).wf(),
            final(self).turn == old(self).turn,
            final(self).env.same_shape(old(self).env),
            slot >= old(self).env.cells@.len() ==> r == Err::<(), PlacementError>(
                PlacementError::OutOfBounds,
            ) && final(self).env == old(self).env && final(self).agents@ == old(self).agents@,
            slot < old(self).env.cells@.len() && old(self).env.cells@[slot as int] is Filled
                ==> r == Err::<(), PlacementError>(PlacementError::Occupied) && final(self).env.cells@
                == old(self).env.cells@ && final(self).env.arena@ == old(self).env.arena@
                && final(self).agents@ == old(self).agents@,
            slot < old(self).env.cells@.len() && old(self).env.cells@[slot as int] is Empty ==> {
                let id = old(self).env.arena@.len() as usize;
                let w = old(self).env.width as int;
                &&& r is Ok
                &&& final(self).env.arena@ == old(self).env.arena@.push(
                    AgentRef {
                        body,
                        coordinate: Point { x: (slot as int % w) as i32, y: (slot as int / w) as i32 },
                        marked_for_removal: false,
                    },
                )
                &&& final(self).env.cells@ == old(self).env.cells@.update(
                    slot as int,
                    Cell::Filled(id),
                )
                &&& final(self).agents@ == old(self).agents@.push(id)
                &&& old(self).env.in_range(final(self).env.arena@[id as int].coordinate)
                &&& old(self).env.idx(final(self).env.arena@[id as int].coordinate) == slot
            },
    {
        let size = self.env.cells.len();
        if slot >= size {
            return Err(PlacementError::OutOfBounds);
        }
        let w = self.env.width;
        proof {
            let wi = w as int;
            let h = self.env.height as int;
            assert(wi > 0) by (nonlinear_arith)
                requires
                    0 <= wi,
                    0 <= h,
                    slot < wi * h,
            ;
            vstd::arithmetic::div_mod::lemma_fundamental_div_mod(slot as int, wi);
            assert(slot as int / wi < h) by (nonlinear_arith)
                requires
                    wi > 0,
                    slot < wi * h,
                    0 <= slot as int % wi < wi,
                    slot == wi * (slot as int / wi) + slot as int % wi,
            ;
            assert(0 <= slot as int / wi) by (nonlinear_arith)
                requires
                    wi > 0,
                    slot >= 0,
            ;
        }
        let x = (slot % (w as usize)) as i32;
        let y = (slot / (w as usize)) as i32;
        let p = Point { x, y };
        proof {
            assert(self.env.in_range(p));
            self.env.lemma_normalized(p);
            assert(p.y * w + p.x == slot) by (nonlinear_arith)
                requires
                    slot == w * (slot as int / w as int) + slot as int % w as int,
                    p.y == slot as int / w as int,
                    p.x == slot as int % w as int,
            ;
        }
        self.add_agent(AgentRef { body, coordinate: p, marked_for_removal: false })
    }

    /// Places `density` percent of the cells (rounded down) as bouncers of
    /// random heading, on distinct empty cells drawn at random; with fewer
    /// empty cells than that, every empty cell gets one.
    pub fn gen_agents(&mut self, density: u8)
        requires
            old(self).wf(),
            density <= 100,
            old(self).env.arena@.len() + old(self).env.cells@.len() < usize::MAX,
        ensures
            final(self).wf(),
            final(self).turn == old(self).turn,
            final(self).env.same_shape(old(self).env),
            old(self).appended(
                *final(self),
                at_most(
                    old(self).env.cells@.len() * (density as int) / 100,
                    free_cells(old(self).env.cells@) as int,
                ),
            ),
            forall|j: int|
                old(self).env.arena@.len() <= j < final(self).env.arena@.len() ==> new_body(
                    old(self).env,
                    (#[trigger] final(self).env.arena@[j]).body,
                    0,
                ),
    {
        let size = self.env.cells.len();
        proof {
            assert((size as u64) * (density as u64) <= 100 * (i32::MAX as u64)) by (nonlinear_arith)
                requires
                    size <= i32::MAX,
                    density <= 100,
            ;
        }
        let count = ((size as u64) * (density as u64) / 100) as usize;
        let slots = shuffled_free_slots(&self.env.cells);
        proof {
            assert(count == size as int * (density as int) / 100);
            assert(free_cells(self.env.cells@) <= size) by {
                lemma_free_cells_bound(self.env.cells@);
            }
        }
        let to = if count <= slots.len() {
            count
        } else {
            slots.len()
        };
        self.fill_slots(&slots, 0, to, 0);
    }

    /// Places `fish_density` percent of the cells (rounded down) as fish, then
    /// `shark_density` percent as sharks, on distinct empty cells drawn at
    /// random; when the empty cells run out, fish come first.
    pub fn gen_fish_agents(&mut self, fish_density: u8, shark_density: u8)
        requires
            old(self).wf(),
            fish_density <= 100,
            shark_density <= 100,
            old(self).env.arena@.len() + old(self).env.cells@.len() < usize::MAX,
        ensures
            final(self).wf(),
            final(self).turn == old(self).turn,
            final(self).env.same_shape(old(self).env),
            ({
                let size = old(self).env.cells@.len() as int;
                let free = free_cells(old(self).env.cells@) as int;
                let nf = at_most(size * (fish_density as int) / 100, free);
                let ns = at_most(size * (shark_density as int) / 100, free - nf);
                &&& old(self).appended(*final(self), nf + ns)
                &&& forall|j: int|
                    old(self).env.arena@.len() <= j < final(self).env.arena@.len() ==> new_body(
                        old(self).env,
                        (#[trigger] final(self).env.arena@[j]).body,
                        if j < old(self).env.arena@.len() + nf {
                            1u8
                        } else {
                            2u8
                        },
                    )
            }),
    {
        let size = self.env.cells.len();
        proof {
            assert((size as u64) * (fish_density as u64) <= 100 * (i32::MAX as u64)) by (nonlinear_arith)
                requires
                    size <= i32::MAX,
                    fish_density <= 100,
            ;
            assert((size as u64) * (shark_density as u64) <= 100 * (i32::MAX as u64)) by (nonlinear_arith)
                requires
                    size <= i32::MAX,
                    shark_density <= 100,
            ;
        }
        let want_f = ((size as u64) * (fish_density as u64) / 100) as usize;
        let want_s = ((size as u64) * (shark_density as u64) / 100) as usize;
        let slots = shuffled_free_slots(&self.env.cells);
        let free = slots.len();
        proof {
            lemma_free_cells_bound(self.env.cells@);
        }
        let nf = if want_f <= free {
            want_f
        } else {
            free
        };
        let ns = if want_s <= free - nf {
            want_s
        } else {
            free - nf
        };
        let ghost o = *self;
        self.fill_slots(&slots, 0, nf, 1);
        let ghost mid = *self;
        proof {
            assert forall|m: int| nf <= m < nf + ns implies #[trigger] slots@[m] < mid.env.cells@.len()
                && mid.env.cells@[slots@[m] as int] is Empty by {
                assert forall|q: int| 0 <= q < nf implies #[trigger] slots@[q] != slots@[m] by {}
            }
        }
        self.fill_slots(&slots, nf, nf + ns, 2);
        proof {
            Sma::lemma_appended_trans(o, mid, *self, nf as int, ns as int);
            assert(want_f == size as int * (fish_density as int) / 100);
            assert(want_s == size as int * (shark_density as int) / 100);
            assert forall|j: int|
                o.env.arena@.len() <= j < self.env.arena@.len() implies new_body(
                    o.env,
                    (#[trigger] self.env.arena@[j]).body,
                    if j < o.env.arena@.len() + nf {
                        1u8
                    } else {
                        2u8
                    },
                ) by {
                if j < mid.env.arena@.len() {
                    assert(self.env.arena@[j] == mid.env.arena@[j]);
                }
            }
        }
    }

    /// Two placements in a row make one.
    proof fn lemma_appended_trans(a: Sma, b: Sma, c: Sma, n1: int, n2: int)
        requires
            a.appended(b, n1),
            b.appended(c, n2),
            0 <= n1,
            0 <= n2,
            a.env.wf(),
            b.env.same_shape(a.env),
        ensures
            a.appended(c, n1 + n2),
    {
        let t = a.env.arena@.len();
        let al = a.agents@.len();
        assert forall|m: int| 0 <= m < n1 + n2 implies #[trigger] c.agents@[al + m] == t + m by {
            if m < n1 {
                assert(c.agents@[al + m] == b.agents@[al + m]);
            } else {
                assert(c.agents@[(al + n1) + (m - n1)] == (t + n1) + (m - n1));
            }
        }
        assert forall|j: int|
            t <= j < t + n1 + n2 implies {
                let cc = (#[trigger] c.env.arena@[j]).coordinate;
                &&& !c.env.arena@[j].marked_for_removal
                &&& a.env.in_range(cc)
                &&& a.env.cells@[a.env.idx(cc)] is Empty
                &&& c.env.cells@[a.env.idx(cc)] == Cell::Filled(j as usize)
            } by {
            let cc = c.env.arena@[j].coordinate;
            if j < t + n1 {
                assert(c.env.arena@[j] == b.env.arena@[j]);
                assert(a.env.in_range(cc));
                crate::environment::lemma_index_bound(
                    cc.x as int,
                    cc.y as int,
                    a.env.width as int,
                    a.env.height as int,
                );
                assert(b.env.cells@[a.env.idx(cc)] is Filled);
            } else {
                assert(b.env.in_range(cc));
                assert(b.env.cells@[b.env.idx(cc)] is Empty);
                crate::environment::lemma_index_bound(
                    cc.x as int,
                    cc.y as int,
                    a.env.width as int,
                    a.env.height as int,
                );
                if a.env.cells@[a.env.idx(cc)] is Filled {
                    assert(b.env.cells@[a.env.idx(cc)] == a.env.cells@[a.env.idx(cc)]);
                }
            }
        }
        assert forall|i: int|
            0 <= i < a.env.cells@.len() && (#[trigger] a.env.cells@[i]) is Filled implies c.env.cells@[i]
            == a.env.cells@[i] by {
            assert(b.env.cells@[i] == a.env.cells@[i]);
        }
    }

    /// Places one agent on each of `slots[from..to]`, distinct empty cells: a
    /// bouncer of random heading (`kind == 0`), a fish (`kind == 1`) or a
    /// shark (otherwise), each in the state `new_body` gives.
    fn fill_slots(&mut self, slots: &Vec<usize>, from: usize, to: usize, kind: u8)
        requires
            old(self).wf(),
            from <= to <= slots@.len(),
            old(self).env.arena@.len() + to - from < usize::MAX,
            slots@.no_duplicates(),
            forall|m: int|
                from <= m < to ==> #[trigger] slots@[m] < old(self).env.cells@.len() && old(self).env.cells@[slots@[m] as int] is Empty,
        ensures
            final(self).wf(),
            final(self).turn == old(self).turn,
            final(self).env.same_shape(old(self).env),
            old(self).appended(*final(self), to - from),
            forall|j: int|
                old(self).env.arena@.len() <= j < final(self).env.arena@.len() ==> new_body(
                    old(self).env,
                    (#[trigger] final(self).env.arena@[j]).body,
                    kind,
                ),
            forall|i: int|
                0 <= i < old(self).env.cells@.len() && (forall|m: int|
                    from <= m < to ==> #[trigger] slots@[m] != i) ==> #[trigger] final(self).env.cells@[i]
                    == old(self).env.cells@[i],
    {
        let ghost o = *self;
        let mut k = from;
        while k < to
            invariant
                self.wf(),
                self.turn == o.turn,
                self.env.same_shape(o.env),
                from <= k <= to <= slots@.len(),
                o.env.arena@.len() + to - from < usize::MAX,
                slots@.no_duplicates(),
                forall|m: int|
                    from <= m < to ==> #[trigger] slots@[m] < o.env.cells@.len() && o.env.cells@[slots@[m] as int] is Empty,
                o.appended(*self, k - from),
                forall|j: int|
                    o.env.arena@.len() <= j < self.env.arena@.len() ==> new_body(
                        o.env,
                        (#[trigger] self.env.arena@[j]).body,
                        kind,
                    ),
                forall|i: int|
                    0 <= i < o.env.cells@.len() && (forall|m: int|
                        from <= m < k ==> #[trigger] slots@[m] != i) ==> #[trigger] self.env.cells@[i]
                        == o.env.cells@[i],
            decreases to - k,
        {
            let body = if kind == 0 {
                AgentBody::Bouncer(Agent::new(pick_direction()))
            } else if kind == 1 {
                AgentBody::Fish(crate::fish::Fish { breed_count_down: self.env.fish_breed_time })
            } else {
                AgentBody::Shark(
                    crate::shark::Shark {
                        breed_count_down: self.env.shark_breed_time,
                        starve_time: self.env.shark_starve_time,
                    },
                )
            };
            let ghost before = *self;
            let sk = slots[k];
            proof {
                assert forall|m: int| from <= m < k implies #[trigger] slots@[m] != sk by {
                    assert(slots@[m] != slots@[k as int]);
                }
                assert(before.env.cells@[sk as int] == o.env.cells@[sk as int]);
            }
            let _ = self.place_at_slot(sk, body);
            proof {
                let t = o.env.arena@.len();
                let al = o.agents@.len();
                let n = k - from;
                assert forall|m: int| 0 <= m < n + 1 implies #[trigger] self.agents@[al + m] == t + m by {
                    if m < n {
                        assert(self.agents@[al + m] == before.agents@[al + m]);
                    }
                }
                assert forall|j: int|
                    t <= j < t + n + 1 implies {
                        let cc = (#[trigger] self.env.arena@[j]).coordinate;
                        &&& !self.env.arena@[j].marked_for_removal
                        &&& o.env.in_range(cc)
                        &&& o.env.cells@[o.env.idx(cc)] is Empty
                        &&& self.env.cells@[o.env.idx(cc)] == Cell::Filled(j as usize)
                    } by {
                    if j < t + n {
                        assert(self.env.arena@[j] == before.env.arena@[j]);
                        let cc = before.env.arena@[j].coordinate;
                        crate::environment::lemma_index_bound(
                            cc.x as int,
                            cc.y as int,
                            o.env.width as int,
                            o.env.height as int,
                        );
                        assert(o.env.idx(cc) != sk);
                    }
                }
                assert forall|i: int|
                    0 <= i < o.env.cells@.len() && (#[trigger] o.env.cells@[i]) is Filled implies self.env.cells@[i]
                    == o.env.cells@[i] by {
                    assert(before.env.cells@[i] == o.env.cells@[i]);
                }
                assert forall|j: int|
                    0 <= j < t implies #[trigger] self.env.arena@[j] == o.env.arena@[j] by {
                    assert(self.env.arena@[j] == before.env.arena@[j]);
                }
                assert forall|q: int| 0 <= q < al implies #[trigger] self.agents@[q] == o.agents@[q] by {
                    assert(self.agents@[q] == before.agents@[q]);
                }
                assert forall|j: int|
                    o.env.arena@.len() <= j < self.env.arena@.len() implies new_body(
                        o.env,
                        (#[trigger] self.env.arena@[j]).body,
                        kind,
                    ) by {
                    if j < before.env.arena@.len() {
                        assert(self.env.arena@[j] == before.env.arena@[j]);
                    }
                }
                assert forall|i: int|
                    0 <= i < o.env.cells@.len() && (forall|m: int|
                        from <= m < k + 1 ==> #[trigger] slots@[m] != i) implies #[trigger] self.env.cells@[i]
                        == o.env.cells@[i] by {
                    assert(slots@[k as int] != i);
                    assert forall|m: int| from <= m < k implies #[trigger] slots@[m] != i by {
                        assert(slots@[m] != i);
                    }
                }
            }
            k = k + 1;
        }
    }
}

/// Between ticks every active agent stands on exactly one cell, the one its
/// record names, and every filled cell holds an active agent whose record names
/// that cell.
pub proof fn lemma_one_cell_per_agent(s: Sma)
    requires
        s.wf(),
    ensures
        forall|j: usize| #[trigger] s.agents@.contains(j) ==> s.env.placed(j),
        forall|j: usize, i: int|
            #[trigger] s.agents@.contains(j) && 0 <= i < s.env.cells@.len() ==> (
            #[trigger] s.env.cells@[i] == Cell::Filled(j) <==> i == s.env.idx(
                s.env.arena@[j as int].coordinate,
            )),
        forall|i: int|
            0 <= i < s.env.cells@.len() && (#[trigger] s.env.cells@[i]) is Filled ==> {
                let j = s.env.cells@[i]->Filled_0;
                &&& s.agents@.contains(j)
                &&& s.env.idx(s.env.arena@[j as int].coordinate) == i
            },
{
    assert forall|j: usize| #[trigger] s.agents@.contains(j) implies s.env.placed(j) by {
        assert(s.listed(j));
    }
    assert forall|i: int|
        0 <= i < s.env.cells@.len() && (#[trigger] s.env.cells@[i]) is Filled implies s.agents@.contains(
        s.env.cells@[i]->Filled_0,
    ) by {
        let j = s.env.cells@[i]->Filled_0;
        assert(s.listed(j));
        assert(!s.next_generation@.contains(j));
    }
}

/// An agent with no valid option leaves the grid as it was: a fish with no
/// empty neighbour, or a shark with neither a fish nor an empty cell around it.
pub proof fn lemma_stall_keeps_grid(old: Environment, new: Environment, id: usize, draw: usize, r: AgentCommand)
    requires
        old.wf(),
        old.consistent(),
        old.placed(id),
        ({
            let rec = old.arena@[id as int];
            ||| rec.body is Fish && old.free_neighbors(rec.coordinate).len() == 0
            ||| rec.body is Shark && old.free_neighbors(rec.coordinate).len() == 0
                && old.prey_neighbors(rec.coordinate).len() == 0
        }),
        took_turn(old, new, id, draw, r),
    ensures
        new.cells@ == old.cells@,
        r == AgentCommand::DoNothing,
{
    let rec = old.arena@[id as int];
    match rec.body {
        AgentBody::Fish(f) => {
            let (nf, d) = fish::fish_decision(f, rec.coordinate, old, draw);
            let mid = choose|mid: Environment|
                {
                    &&& mid.cells@ == old.cells@
                    &&& mid.arena@ == old.arena@.update(
                        id as int,
                        AgentRef { body: AgentBody::Fish(nf), ..rec },
                    )
                    &&& mid.same_shape(old)
                    &&& #[trigger] fish::committed(mid, new, id, d, r)
                };
            assert(d == fish::Decision::Stall);
        },
        AgentBody::Shark(sh) => {
            let (ns, d) = shark::shark_decision(sh, rec.coordinate, old, draw);
            let mid = choose|mid: Environment|
                {
                    &&& mid.cells@ == old.cells@
                    &&& mid.arena@ == old.arena@.update(
                        id as int,
                        AgentRef { body: AgentBody::Shark(ns), ..rec },
                    )
                    &&& mid.same_shape(old)
                    &&& #[trigger] shark::committed(mid, new, id, d, r)
                };
            assert(d == shark::Decision::Stall);
            assert(mid.arena@[id as int].body->Shark_0 == ns);
        },
        AgentBody::Bouncer(_) => {},
    }
}

/// A shark whose starve countdown reaches zero on its turn marks itself for
/// removal and does not move, whatever it had decided.
pub proof fn lemma_starving_shark_marks_itself(
    old: Environment,
    new: Environment,
    id: usize,
    draw: usize,
    r: AgentCommand,
)
    requires
        old.wf(),
        old.consistent(),
        old.placed(id),
        old.arena@[id as int].body is Shark,
        crate::count_down(old.arena@[id as int].body->Shark_0.starve_time) == 0,
        took_turn(old, new, id, draw, r),
    ensures
        new.marked(id),
        new.cells@ == old.cells@,
        new.arena@[id as int].coordinate == old.arena@[id as int].coordinate,
        new.cells@[old.idx(old.arena@[id as int].coordinate)] == Cell::Filled(id),
        r == AgentCommand::DoNothing,
{
    let rec = old.arena@[id as int];
    let sh = rec.body->Shark_0;
    let (ns, d) = shark::shark_decision(sh, rec.coordinate, old, draw);
    let mid = choose|mid: Environment|
        {
            &&& mid.cells@ == old.cells@
            &&& mid.arena@ == old.arena@.update(
                id as int,
                AgentRef { body: AgentBody::Shark(ns), ..rec },
            )
            &&& mid.same_shape(old)
            &&& #[trigger] shark::committed(mid, new, id, d, r)
        };
    assert(ns.starve_time == 0);
    assert(mid.arena@[id as int].body->Shark_0.starve_time == 0);
    crate::environment::lemma_index_bound(
        rec.coordinate.x as int,
        rec.coordinate.y as int,
        old.width as int,
        old.height as int,
    );
}

/// One agent's turn leaves the record of every other shark as it was.
pub proof fn lemma_turn_spares_sharks(old: Environment, new: Environment, id: usize, draw: usize, r: AgentCommand)
    requires
        took_turn(old, new, id, draw, r),
        id < old.arena@.len(),
    ensures
        forall|j: usize|
            j < old.arena@.len() && j != id && (#[trigger] old.arena@[j as int]).is_shark()
                ==> new.arena@[j as int] == old.arena@[j as int],
{
    let rec = old.arena@[id as int];
    match rec.body {
        AgentBody::Bouncer(a) => {},
        AgentBody::Fish(f) => {
            let (nf, d) = fish::fish_decision(f, rec.coordinate, old, draw);
            let mid = choose|mid: Environment|
                {
                    &&& mid.cells@ == old.cells@
                    &&& mid.arena@ == old.arena@.update(
                        id as int,
                        AgentRef { body: AgentBody::Fish(nf), ..rec },
                    )
                    &&& mid.same_shape(old)
                    &&& #[trigger] fish::committed(mid, new, id, d, r)
                };
            assert forall|j: usize|
                j < old.arena@.len() && j != id && (#[trigger] old.arena@[j as int]).is_shark()
                    implies new.arena@[j as int] == old.arena@[j as int] by {
                assert(mid.arena@[j as int] == old.arena@[j as int]);
            }
        },
        AgentBody::Shark(sh) => {
            let (ns, d) = shark::shark_decision(sh, rec.coordinate, old, draw);
            let mid = choose|mid: Environment|
                {
                    &&& mid.cells@ == old.cells@
                    &&& mid.arena@ == old.arena@.update(
                        id as int,
                        AgentRef { body: AgentBody::Shark(ns), ..rec },
                    )
                    &&& mid.same_shape(old)
                    &&& #[trigger] shark::committed(mid, new, id, d, r)
                };
            assert forall|j: usize|
                j < old.arena@.len() && j != id && (#[trigger] old.arena@[j as int]).is_shark()
                    implies new.arena@[j as int] == old.arena@[j as int] by {
                assert(mid.arena@[j as int] == old.arena@[j as int]);
                match d {
                    shark::Decision::Eat(p, f) | shark::Decision::EatAndBreed(p, f) => {
                        if f == j {
                            assert(!mid.is_prey(crate::environment::Cell::Filled(f)));
                        }
                    },
                    _ => {},
                }
            }
        },
    }
}

/// A shark that is not marked for removal and starves on its next turn.
pub open spec fn starving(env: Environment, s: usize) -> bool {
    &&& s < env.arena@.len()
    &&& env.arena@[s as int].body is Shark
    &&& crate::count_down(env.arena@[s as int].body->Shark_0.starve_time) == 0
    &&& !env.marked(s)
}

impl Sma {
    /// A read-only view of every cell, for front ends.
    pub fn get_state(&self) -> (r: &Vec<Cell>)
        ensures
            r@ == self.env.cells@,
    {
        &self.env.cells
    }

    /// Row-major index of the cell a point designates.
    pub fn get_index(&self, point: Point) -> (r: usize)
        requires
            self.env.wf(),
            self.env.contains(point),
        ensures
            r == self.env.index_of(point),
    {
        self.env.get_index(point)
    }

    /// Switches wrapping on or off; agents keep their cells.
    pub fn set_borderless(&mut self, value: bool)
        requires
            old(self).wf(),
        ensures
            final(self).wf(),
            final(self).env.borderless == value,
            final(self).env.cells@ == old(self).env.cells@,
            final(self).env.arena@ == old(self).env.arena@,
            final(self).agents@ == old(self).agents@,
            final(self).turn == old(self).turn,
    {
        let ghost o = *self;
        self.env.borderless = value;
        proof {
            assert forall|j: usize| #[trigger] self.listed(j) == o.listed(j) by {}
            assert forall|j: usize| #[trigger] self.listed(j) && !self.env.marked(j) implies self.env.placed(j) by {
                assert(o.env.placed(j));
            }
            assert forall|i: int|
                0 <= i < self.env.cells@.len() && (#[trigger] self.env.cells@[i]) is Filled implies {
                    let j = self.env.cells@[i]->Filled_0;
                    &&& j < self.env.arena@.len()
                    &&& self.env.in_range(self.env.arena@[j as int].coordinate)
                    &&& self.env.idx(self.env.arena@[j as int].coordinate) == i
                } by {
                assert(o.env.cells@[i] is Filled);
            }
        }
    }
}

proof fn lemma_free_cells_bound(cells: Seq<Cell>)
    ensures
        free_cells(cells) <= cells.len(),
    decreases cells.len(),
{
    if cells.len() > 0 {
        lemma_free_cells_bound(cells.drop_last());
    }
}

/// The indices of the filled cells.
pub open spec fn filled_indices(cells: Seq<Cell>) -> Set<int> {
    Set::new(|i: int| 0 <= i < cells.len() && cells[i] is Filled)
}

/// Between ticks there are exactly as many filled cells as active agents: no
/// cell holds an agent that is not active, and no agent stands on two cells.
pub proof fn lemma_filled_count(s: Sma)
    requires
        s.wf(),
    ensures
        filled_indices(s.env.cells@).finite(),
        filled_indices(s.env.cells@).len() == s.agents@.len(),
{
    lemma_one_cell_per_agent(s);
    let a = s.agents@.to_set();
    let cells = s.env.cells@;
    let fi = filled_indices(cells);
    let f = |j: usize| s.env.idx(s.env.arena@[j as int].coordinate);
    assert(s.agents@ + s.next_generation@ =~= s.agents@);
    s.agents@.unique_seq_to_set();
    assert(a.finite()) by {
        vstd::seq_lib::seq_to_set_is_finite(s.agents@);
    }
    assert(vstd::relations::injective_on(f, a)) by {
        assert forall|x: usize, y: usize| a.contains(x) && a.contains(y) && #[trigger] f(x) == #[trigger] f(y) implies x == y by {
            assert(s.agents@.contains(x));
            assert(s.agents@.contains(y));
            assert(s.env.placed(x));
            assert(s.env.placed(y));
        }
    }
    assert forall|i: int| #[trigger] a.map(f).contains(i) == fi.contains(i) by {
        if fi.contains(i) {
            let j = cells[i]->Filled_0;
            assert(s.agents@.contains(j));
            assert(a.contains(j));
            assert(f(j) == i);
        }
        if a.map(f).contains(i) {
            let j = choose|j: usize| a.contains(j) && f(j) == i;
            assert(s.agents@.contains(j));
            assert(s.env.placed(j));
            let c = s.env.arena@[j as int].coordinate;
            crate::environment::lemma_index_bound(
                c.x as int,
                c.y as int,
                s.env.width as int,
                s.env.height as int,
            );
        }
    }
    assert(a.map(f) =~= fi);
    vstd::set_lib::lemma_map_size(a, fi, f);
}

} // verus!
