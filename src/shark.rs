use vstd::prelude::*;

use crate::count_down;
use crate::environment::Cell;
use crate::environment::Environment;
use crate::tick_down;
use crate::AgentBody;
use crate::AgentCommand;
use crate::AgentRef;
use crate::Point;

verus! {

/// A predator of the predator-prey world.
#[derive(Clone, Copy, Debug, PartialEq, Eq, Structural)]
pub struct Shark {
    pub breed_count_down: u8,
    pub starve_time: u8,
}

/// What a shark intends to do this tick; `Eat` names the fish's table index.
#[derive(Clone, Copy, Debug, PartialEq, Eq, Structural)]
pub enum Decision {
    Stall,
    Move(Point),
    MoveAndBreed(Point),
    Eat(Point, usize),
    EatAndBreed(Point, usize),
}

/// The decision of a shark standing on `c`, and its state afterwards. A fish
/// among the neighbours is always preferred (the one that `draw` selects);
/// otherwise it moves to the empty neighbour that `draw` selects; otherwise it
/// stalls. It breeds when its breed countdown is zero (which then restarts from
/// the breed time). Both countdowns drop by one every tick, held at zero.
pub open spec fn shark_decision(s: Shark, c: Point, env: Environment, draw: usize) -> (Shark, Decision) {
    let prey = env.prey_neighbors(c);
    let free = env.free_neighbors(c);
    let starve = count_down(s.starve_time);
    let breeds = s.breed_count_down == 0;
    let next = Shark {
        breed_count_down: if breeds {
            count_down(env.shark_breed_time)
        } else {
            count_down(s.breed_count_down)
        },
        starve_time: starve,
    };
    if prey.len() > 0 {
        let p = prey[(draw as int) % (prey.len() as int)];
        let f = env.cell_at(p)->Filled_0;
        (next, if breeds { Decision::EatAndBreed(p, f) } else { Decision::Eat(p, f) })
    } else if free.len() > 0 {
        let p = free[(draw as int) % (free.len() as int)];
        (next, if breeds { Decision::MoveAndBreed(p) } else { Decision::Move(p) })
    } else {
        (Shark { breed_count_down: count_down(s.breed_count_down), starve_time: starve }, Decision::Stall)
    }
}

/// The record of a newborn shark on `c`.
pub open spec fn shark_child(env: Environment, c: Point) -> AgentRef {
    AgentRef {
        body: AgentBody::Shark(
            Shark { breed_count_down: env.shark_breed_time, starve_time: env.shark_starve_time },
        ),
        coordinate: c,
        marked_for_removal: false,
    }
}

impl Shark {
    pub fn decide(&self, c: Point, env: &Environment, draw: usize) -> (r: (Shark, Decision))
        requires
            env.wf(),
            env.in_range(c),
        ensures
            r == shark_decision(*self, c, *env, draw),
            // a shark only ever sets out to eat a fish
            match r.1 {
                Decision::Eat(p, f) | Decision::EatAndBreed(p, f) => {
                    &&& env.contains(p)
                    &&& env.cell_at(p) == Cell::Filled(f)
                    &&& f < env.arena@.len()
                    &&& env.arena@[f as int].is_fish()
                },
                _ => true,
            },
    {
        proof {
            env.lemma_neighbors_upto(c, 8, true);
        }
        let prey = env.neighbors(c, true);
        let free = env.neighbors(c, false);
        let starve = tick_down(self.starve_time);
        let breeds = self.breed_count_down == 0;
        let next = Shark {
            breed_count_down: if breeds {
                tick_down(env.shark_breed_time)
            } else {
                tick_down(self.breed_count_down)
            },
            starve_time: starve,
        };
        if prey.len() > 0 {
            let p = prey[draw % prey.len()];
            proof {
                let m = (draw as int) % (prey.len() as int);
                assert(0 <= m < prey@.len());
                assert(p == env.prey_neighbors(c)[m]);
            }
            let i = env.get_index(p);
            let f = match env.cells[i] {
                Cell::Filled(f) => f,
                Cell::Empty => 0,
            };
            (next, if breeds { Decision::EatAndBreed(p, f) } else { Decision::Eat(p, f) })
        } else if free.len() > 0 {
            let p = free[draw % free.len()];
            (next, if breeds { Decision::MoveAndBreed(p) } else { Decision::Move(p) })
        } else {
            (
                Shark { breed_count_down: tick_down(self.breed_count_down), starve_time: starve },
                Decision::Stall,
            )
        }
    }
}

/// The shark's state once it has eaten: its starve countdown restarts.
pub open spec fn fed(env: Environment, s: Shark) -> Shark {
    Shark { starve_time: env.shark_starve_time, ..s }
}

/// `new` is `old` after shark `id` ate fish `f` on the cell of `p`: the fish is
/// marked, the shark stands on that cell with its starve countdown restarted.
pub open spec fn is_eat(old: Environment, new: Environment, id: usize, p: Point, f: usize) -> bool {
    let rec = old.arena@[id as int];
    let from = old.idx(rec.coordinate);
    let moved = AgentRef {
        body: AgentBody::Shark(fed(old, rec.body->Shark_0)),
        coordinate: old.normalized(p),
        ..rec
    };
    &&& new.cells@ == old.cells@.update(from, Cell::Empty).update(
        old.index_of(p),
        Cell::Filled(id),
    )
    &&& new.arena@ == old.arena@.update(
        f as int,
        AgentRef { marked_for_removal: true, ..old.arena@[f as int] },
    ).update(id as int, moved)
}

/// As `is_eat`, and a newborn shark takes the cell the eater left.
pub open spec fn is_eat_and_breed(
    old: Environment,
    new: Environment,
    id: usize,
    p: Point,
    f: usize,
) -> bool {
    let rec = old.arena@[id as int];
    let from = old.idx(rec.coordinate);
    let moved = AgentRef {
        body: AgentBody::Shark(fed(old, rec.body->Shark_0)),
        coordinate: old.normalized(p),
        ..rec
    };
    &&& new.cells@ == old.cells@.update(from, Cell::Empty).update(
        old.index_of(p),
        Cell::Filled(id),
    ).update(from, Cell::Filled(old.arena@.len() as usize))
    &&& new.arena@ == old.arena@.update(
        f as int,
        AgentRef { marked_for_removal: true, ..old.arena@[f as int] },
    ).update(id as int, moved).push(shark_child(old, rec.coordinate))
}

/// What committing `decision` for shark `id` did, from `old` to `new`, handing back `r`.
pub open spec fn committed(old: Environment, new: Environment, id: usize, decision: Decision, r: AgentCommand) -> bool {
    &&& old.arena@[id as int].body->Shark_0.starve_time == 0 ==> {
            &&& new.cells@ == old.cells@
            &&& new.arena@ == old.arena@.update(
                id as int,
                AgentRef { marked_for_removal: true, ..old.arena@[id as int] },
            )
            &&& r == AgentCommand::DoNothing
        }
    &&& old.arena@[id as int].body->Shark_0.starve_time != 0 ==> match decision {
            Decision::Stall => old.unchanged(new) && r == AgentCommand::DoNothing,
            Decision::Move(p) => r == AgentCommand::DoNothing && if old.contains(p) && old.cell_at(p) is Empty {
                old.is_move(new, id, p)
            } else {
                old.unchanged(new)
            },
            Decision::MoveAndBreed(p) => if old.contains(p) && old.cell_at(p) is Empty {
                &&& old.is_move_and_spawn(
                    new,
                    id,
                    p,
                    shark_child(old, old.arena@[id as int].coordinate),
                )
                &&& r == AgentCommand::Create(old.arena@.len() as usize)
            } else {
                old.unchanged(new) && r == AgentCommand::DoNothing
            },
            Decision::Eat(p, f) => r == AgentCommand::DoNothing && if old.contains(p) && old.cell_at(p) == Cell::Filled(f) && old.is_prey(Cell::Filled(f)) {
                is_eat(old, new, id, p, f)
            } else {
                old.unchanged(new)
            },
            Decision::EatAndBreed(p, f) => if old.contains(p) && old.cell_at(p)
                == Cell::Filled(f) && old.is_prey(Cell::Filled(f)) {
                &&& is_eat_and_breed(old, new, id, p, f)
                &&& r == AgentCommand::Create(old.arena@.len() as usize)
            } else {
                old.unchanged(new) && r == AgentCommand::DoNothing
            },
        }
}

/// Applies a shark's decision. A shark whose starve countdown is zero marks
/// itself for removal and does nothing else. Otherwise a move goes through only
/// onto a contained empty cell, and eating only onto a cell that still holds
/// the named fish; breeding leaves a newborn shark on the vacated cell and
/// hands it back.
pub fn update(env: &mut Environment, id: usize, decision: Decision) -> (r: AgentCommand)
    requires
        old(env).wf(),
        old(env).consistent(),
        old(env).placed(id),
        old(env).arena@[id as int].is_shark(),
        old(env).arena@.len() < usize::MAX,
    ensures
        old(env).frame(*final(env)),
        committed(*old(env), *final(env), id, decision, r),
{
    let ghost o = *env;
    proof {
        o.lemma_frame_refl();
    }
    let rec = env.arena[id];
    let me = match rec.body {
        AgentBody::Shark(s) => s,
        _ => Shark { breed_count_down: 0, starve_time: 0 },
    };
    if me.starve_time == 0 {
        env.mark_agent(id);
        return AgentCommand::DoNothing;
    }
    match decision {
        Decision::Stall => AgentCommand::DoNothing,
        Decision::Move(p) => {
            if !env.out_of_bound(p) {
                let i = env.get_index(p);
                if env.cells[i].is_empty_cell() {
                    env.relocate(id, p);
                }
            }
            AgentCommand::DoNothing
        },
        Decision::MoveAndBreed(p) => {
            if !env.out_of_bound(p) {
                let i = env.get_index(p);
                if env.cells[i].is_empty_cell() {
                    let child = AgentRef::from_shark(
                        Shark {
                            breed_count_down: env.shark_breed_time,
                            starve_time: env.shark_starve_time,
                        },
                        rec.coordinate,
                    );
                    let k = env.relocate_and_spawn(id, p, child);
                    return AgentCommand::Create(k);
                }
            }
            AgentCommand::DoNothing
        },
        Decision::Eat(p, f) => {
            if eat(env, id, p, f) {
                proof {
                    assert(env.arena@ =~= o.arena@.update(
                        f as int,
                        AgentRef { marked_for_removal: true, ..o.arena@[f as int] },
                    ).update(
                        id as int,
                        AgentRef {
                            body: AgentBody::Shark(fed(o, me)),
                            coordinate: o.normalized(p),
                            ..rec
                        },
                    ));
                }
            }
            AgentCommand::DoNothing
        },
        Decision::EatAndBreed(p, f) => {
            if prey_at(env, p, f) {
                let ghost o2 = *env;
                let child = AgentRef::from_shark(
                    Shark {
                        breed_count_down: env.shark_breed_time,
                        starve_time: env.shark_starve_time,
                    },
                    rec.coordinate,
                );
                env.set_body(id, AgentBody::Shark(Shark { starve_time: env.shark_starve_time, ..me }));
                let ghost m1 = *env;
                env.mark_agent(f);
                let ghost m2 = *env;
                proof {
                    assert(m2.cells@ == o.cells@);
                    assert(m2.placed(id));
                }
                let k = relocate_eater_and_spawn(env, id, p, child);
                proof {
                    Environment::lemma_frame_trans(o, m1, m2);
                    Environment::lemma_frame_trans(o, m2, *env);
                    assert(env.arena@ =~= o.arena@.update(
                        f as int,
                        AgentRef { marked_for_removal: true, ..o.arena@[f as int] },
                    ).update(
                        id as int,
                        AgentRef {
                            body: AgentBody::Shark(fed(o, me)),
                            coordinate: o.normalized(p),
                            ..rec
                        },
                    ).push(shark_child(o, rec.coordinate)));
                }
                return AgentCommand::Create(k);
            }
            AgentCommand::DoNothing
        },
    }
}

/// The contained cell of `p` holds fish `f`.
fn prey_at(env: &Environment, p: Point, f: usize) -> (r: bool)
    requires
        env.wf(),
    ensures
        r == (env.contains(p) && env.cell_at(p) == Cell::Filled(f) && env.is_prey(Cell::Filled(f))),
{
    if env.out_of_bound(p) {
        return false;
    }
    let i = env.get_index(p);
    match env.cells[i] {
        Cell::Filled(g) => g == f && f < env.arena.len() && env.arena[f].kind()
            == crate::AgentKind::Fish,
        Cell::Empty => false,
    }
}

/// Moves the eater onto the marked fish's cell and puts `child` where it stood.
fn relocate_eater_and_spawn(env: &mut Environment, id: usize, p: Point, child: AgentRef) -> (r: usize)
    requires
        old(env).wf(),
        old(env).consistent(),
        old(env).placed(id),
        old(env).contains(p),
        old(env).cell_at(p) is Filled,
        old(env).marked(old(env).cell_at(p)->Filled_0),
        old(env).arena@[old(env).cell_at(p)->Filled_0 as int].is_fish(),
        old(env).cell_at(p)->Filled_0 != id,
        child.coordinate == old(env).arena@[id as int].coordinate,
        old(env).arena@.len() < usize::MAX,
    ensures
        old(env).frame(*final(env)),
        old(env).is_move_and_spawn(*final(env), id, p, child),
        r == old(env).arena@.len(),
{
    let ghost o = *env;
    env.relocate(id, p);
    let ghost m = *env;
    proof {
        o.lemma_normalized(p);
        let c = o.arena@[id as int].coordinate;
        lemma_index_bound_at(o, c);
        assert(o.idx(c) != o.index_of(p));
        assert(m.cells@[m.idx(c)] == Cell::Empty);
    }
    let r = env.spawn(child);
    proof {
        Environment::lemma_frame_trans(o, m, *env);
    }
    r
}

proof fn lemma_index_bound_at(env: Environment, c: Point)
    requires
        env.in_range(c),
    ensures
        0 <= env.idx(c) < env.width * env.height,
{
    crate::environment::lemma_index_bound(c.x as int, c.y as int, env.width as int, env.height as int);
}

/// Eats fish `f` on the cell of `p` when that cell still holds it; reports whether it did.
fn eat(env: &mut Environment, id: usize, p: Point, f: usize) -> (r: bool)
    requires
        old(env).wf(),
        old(env).consistent(),
        old(env).placed(id),
        old(env).arena@[id as int].is_shark(),
    ensures
        old(env).frame(*final(env)),
        r == (old(env).contains(p) && old(env).cell_at(p) == Cell::Filled(f) && old(env).is_prey(
            Cell::Filled(f),
        )),
        !r ==> old(env).unchanged(*final(env)),
        r ==> final(env).cells@ == old(env).cells@.update(
            old(env).idx(old(env).arena@[id as int].coordinate),
            Cell::Empty,
        ).update(old(env).index_of(p), Cell::Filled(id)),
        r ==> final(env).arena@ == old(env).arena@.update(
            id as int,
            AgentRef {
                body: AgentBody::Shark(fed(*old(env), old(env).arena@[id as int].body->Shark_0)),
                ..old(env).arena@[id as int]
            },
        ).update(
            f as int,
            AgentRef { marked_for_removal: true, ..old(env).arena@[f as int] },
        ).update(
            id as int,
            AgentRef {
                body: AgentBody::Shark(fed(*old(env), old(env).arena@[id as int].body->Shark_0)),
                coordinate: old(env).normalized(p),
                ..old(env).arena@[id as int]
            },
        ),
{
    let ghost o = *env;
    proof {
        o.lemma_frame_refl();
    }
    if !prey_at(env, p, f) {
        return false;
    }
    let me = match env.arena[id].body {
        AgentBody::Shark(s) => s,
        _ => Shark { breed_count_down: 0, starve_time: 0 },
    };
    env.set_body(id, AgentBody::Shark(Shark { starve_time: env.shark_starve_time, ..me }));
    let ghost m1 = *env;
    env.mark_agent(f);
    let ghost m2 = *env;
    proof {
        assert(m2.placed(id));
    }
    env.relocate(id, p);
    proof {
        Environment::lemma_frame_trans(o, m1, m2);
        Environment::lemma_frame_trans(o, m2, *env);
    }
    true
}

/// A shark only ever decides to eat a cell that holds a fish, never one that
/// holds another shark.
pub proof fn lemma_eats_only_fish(s: Shark, c: Point, env: Environment, draw: usize)
    requires
        env.wf(),
        env.in_range(c),
    ensures
        match shark_decision(s, c, env, draw).1 {
            Decision::Eat(p, f) | Decision::EatAndBreed(p, f) => {
                &&& env.cell_at(p) == Cell::Filled(f)
                &&& f < env.arena@.len()
                &&& env.arena@[f as int].is_fish()
                &&& !env.arena@[f as int].is_shark()
            },
            _ => true,
        },
{
    env.lemma_neighbors_upto(c, 8, true);
    let prey = env.prey_neighbors(c);
    if prey.len() > 0 {
        let m = (draw as int) % (prey.len() as int);
        assert(0 <= m < prey.len());
        let p = prey[m];
        assert(env.is_prey(env.cell_at(p)));
    }
}

} // verus!
