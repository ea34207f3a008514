use vstd::prelude::*;

use crate::count_down;
use crate::environment::Environment;
use crate::tick_down;
use crate::AgentBody;
use crate::AgentCommand;
use crate::AgentRef;
use crate::Point;

verus! {

/// A prey agent of the predator-prey world.
#[derive(Clone, Copy, Debug, PartialEq, Eq, Structural)]
pub struct Fish {
    pub breed_count_down: u8,
}

/// What a fish intends to do this tick.
#[derive(Clone, Copy, Debug, PartialEq, Eq, Structural)]
pub enum Decision {
    Stall,
    Move(Point),
    MoveAndBreed(Point),
}

/// The decision of a fish standing on `c`, and its state afterwards: with no
/// empty neighbour it stalls; otherwise it moves to the empty neighbour that
/// `draw` selects, breeding when its countdown is zero (the countdown then
/// restarts from the breed time). The countdown drops by one every tick, held at zero.
pub open spec fn fish_decision(f: Fish, c: Point, env: Environment, draw: usize) -> (Fish, Decision) {
    let cands = env.free_neighbors(c);
    if cands.len() == 0 {
        (Fish { breed_count_down: count_down(f.breed_count_down) }, Decision::Stall)
    } else {
        let p = cands[(draw as int) % (cands.len() as int)];
        if f.breed_count_down == 0 {
            (
                Fish { breed_count_down: count_down(env.fish_breed_time) },
                Decision::MoveAndBreed(p),
            )
        } else {
            (
                Fish { breed_count_down: count_down(f.breed_count_down) },
                Decision::Move(p),
            )
        }
    }
}

/// The record of a newborn fish on `c`.
pub open spec fn fish_child(env: Environment, c: Point) -> AgentRef {
    AgentRef {
        body: AgentBody::Fish(Fish { breed_count_down: env.fish_breed_time }),
        coordinate: c,
        marked_for_removal: false,
    }
}

impl Fish {
    pub fn decide(&self, c: Point, env: &Environment, draw: usize) -> (r: (Fish, Decision))
        requires
            env.wf(),
            env.in_range(c),
        ensures
            r == fish_decision(*self, c, *env, draw),
    {
        let cands = env.neighbors(c, false);
        if cands.len() == 0 {
            (Fish { breed_count_down: tick_down(self.breed_count_down) }, Decision::Stall)
        } else {
            let p = cands[draw % cands.len()];
            if self.breed_count_down == 0 {
                (
                    Fish { breed_count_down: tick_down(env.fish_breed_time) },
                    Decision::MoveAndBreed(p),
                )
            } else {
                (
                    Fish { breed_count_down: tick_down(self.breed_count_down) },
                    Decision::Move(p),
                )
            }
        }
    }
}

/// What committing `decision` for fish `id` did, from `old` to `new`, handing back `r`.
pub open spec fn committed(old: Environment, new: Environment, id: usize, decision: Decision, r: AgentCommand) -> bool {
    match decision {
            Decision::Stall => old.unchanged(new) && r == AgentCommand::DoNothing,
            Decision::Move(p) => r == AgentCommand::DoNothing && if old.contains(p) && old.cell_at(p) is Empty {
                old.is_move(new, id, p)
            } else {
                old.unchanged(new)
            },
            Decision::MoveAndBreed(p) => if old.contains(p) && old.cell_at(p) is Empty {
                &&& old.is_move_and_spawn(
                    new,
                    id,
                    p,
                    fish_child(old, old.arena@[id as int].coordinate),
                )
                &&& r == AgentCommand::Create(old.arena@.len() as usize)
            } else {
                old.unchanged(new) && r == AgentCommand::DoNothing
            },
        }
}

/// Applies a fish's decision. A move goes through only onto a contained empty
/// cell; breeding leaves a newborn fish on the vacated cell and hands it back.
pub fn update(env: &mut Environment, id: usize, decision: Decision) -> (r: AgentCommand)
    requires
        old(env).wf(),
        old(env).consistent(),
        old(env).placed(id),
        old(env).arena@.len() < usize::MAX,
    ensures
        old(env).frame(*final(env)),
        committed(*old(env), *final(env), id, decision, r),
{
    proof {
        old(env).lemma_frame_refl();
    }
    match decision {
        Decision::Stall => AgentCommand::DoNothing,
        Decision::Move(p) => {
            if !env.out_of_bound(p) {
                let i = env.get_index(p);
                if env.cells[i].is_empty_cell() {
                    env.relocate(id, p);
                }
            }
            AgentCommand::DoNothing
        },
        Decision::MoveAndBreed(p) => {
            if !env.out_of_bound(p) {
                let i = env.get_index(p);
                if env.cells[i].is_empty_cell() {
                    let c = env.arena[id].coordinate;
                    let child = AgentRef::from_fish(
                        Fish { breed_count_down: env.fish_breed_time },
                        c,
                    );
                    let k = env.relocate_and_spawn(id, p, child);
                    return AgentCommand::Create(k);
                }
            }
            AgentCommand::DoNothing
        },
    }
}

/// A fish whose breed countdown is zero and that has somewhere to go moves
/// and leaves exactly one child, on the cell it vacated, whose countdown is the
/// breed time; its own countdown restarts from the breed time.
pub proof fn lemma_breeds_one_child(
    old: Environment,
    new: Environment,
    id: usize,
    draw: usize,
    r: AgentCommand,
)
    requires
        old.wf(),
        old.consistent(),
        old.placed(id),
        old.arena@[id as int].body is Fish,
        old.arena@[id as int].body->Fish_0.breed_count_down == 0,
        old.free_neighbors(old.arena@[id as int].coordinate).len() > 0,
        committed(
            old,
            new,
            id,
            fish_decision(
                old.arena@[id as int].body->Fish_0,
                old.arena@[id as int].coordinate,
                old,
                draw,
            ).1,
            r,
        ),
    ensures
        fish_decision(
            old.arena@[id as int].body->Fish_0,
            old.arena@[id as int].coordinate,
            old,
            draw,
        ).0.breed_count_down == count_down(old.fish_breed_time),
        r == AgentCommand::Create(old.arena@.len() as usize),
        new.arena@.len() == old.arena@.len() + 1,
        new.arena@[old.arena@.len() as int] == fish_child(old, old.arena@[id as int].coordinate),
        fish_child(old, old.arena@[id as int].coordinate).body == AgentBody::Fish(
            Fish { breed_count_down: old.fish_breed_time },
        ),
        new.cells@[old.idx(old.arena@[id as int].coordinate)] == crate::environment::Cell::Filled(
            old.arena@.len() as usize,
        ),
        new.arena@[id as int].coordinate != old.arena@[id as int].coordinate,
{
    let c = old.arena@[id as int].coordinate;
    old.lemma_neighbors_upto(c, 8, false);
    let cands = old.free_neighbors(c);
    let m = (draw as int) % (cands.len() as int);
    assert(0 <= m < cands.len());
    let p = cands[m];
    assert(old.contains(p) && old.cell_at(p) is Empty);
    crate::environment::lemma_index_bound(c.x as int, c.y as int, old.width as int, old.height as int);
    old.lemma_normalized(p);
    assert(old.cells@[old.idx(c)] == crate::environment::Cell::Filled(id));
    if old.normalized(p) == c {
        assert(old.index_of(p) == old.idx(c));
    }
}

} // verus!
