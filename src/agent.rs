use vstd::prelude::*;

use crate::environment::Cell;
use crate::environment::Environment;
use crate::h_inverted;
use crate::h_step;
use crate::v_inverted;
use crate::v_step;
use crate::AgentBody;
use crate::AgentRef;
use crate::Direction;
use crate::HDirection;
use crate::Point;
use crate::VDirection;

verus! {

/// A bouncing particle: it keeps its heading until it meets a wall or another agent.
#[derive(Clone, Copy, Debug, PartialEq, Eq, Structural)]
pub struct Agent {
    pub direction: Direction,
    pub collision: bool,
}

/// What a bouncer intends to do this tick.
#[derive(Clone, Copy, Debug, PartialEq, Eq, Structural)]
pub enum Decision {
    KeepCourse,
    /// The forward cell holds the agent with this table index.
    ChangeCourseCollision(usize),
    /// The forward cell is off the grid: take this heading instead.
    ChangeCourseOutOfBound(Direction),
}

/// The point one step from `c` along `d`, before any wrapping.
pub open spec fn ahead(c: Point, d: Direction) -> Point {
    Point { x: (c.x + h_step(d.x)) as i32, y: (c.y + v_step(d.y)) as i32 }
}

/// A bouncer on `c`: when the forward cell lies on the grid it keeps its course
/// if that cell is empty and reports a collision with its occupant otherwise;
/// when the forward cell is off the grid it inverts each axis that left it.
pub open spec fn bouncer_decision(a: Agent, c: Point, env: Environment) -> Decision {
    let f = ahead(c, a.direction);
    let ox = env.out_of_bound_x(f.x as int);
    let oy = env.out_of_bound_y(f.y as int);
    if !ox && !oy {
        match env.cell_at(f) {
            Cell::Empty => Decision::KeepCourse,
            Cell::Filled(j) => Decision::ChangeCourseCollision(j),
        }
    } else {
        Decision::ChangeCourseOutOfBound(
            Direction {
                x: if ox {
                    h_inverted(a.direction.x)
                } else {
                    a.direction.x
                },
                y: if oy {
                    v_inverted(a.direction.y)
                } else {
                    a.direction.y
                },
            },
        )
    }
}

/// The table after bouncer `id` collided with agent `j`: two bouncers exchange
/// headings and both raise their collision flag; against any other agent only
/// `id`'s flag is raised.
pub open spec fn collided(t: Seq<AgentRef>, id: usize, j: usize) -> Seq<AgentRef> {
    let me = t[id as int].body->Bouncer_0;
    if j < t.len() && t[j as int].body is Bouncer {
        let other = t[j as int].body->Bouncer_0;
        t.update(
            id as int,
            AgentRef {
                body: AgentBody::Bouncer(Agent { direction: other.direction, collision: true }),
                ..t[id as int]
            },
        ).update(
            j as int,
            AgentRef {
                body: AgentBody::Bouncer(Agent { direction: me.direction, collision: true }),
                ..t[j as int]
            },
        )
    } else {
        t.update(
            id as int,
            AgentRef { body: AgentBody::Bouncer(Agent { collision: true, ..me }), ..t[id as int] },
        )
    }
}

impl Agent {
    pub fn new(direction: Direction) -> (r: Agent)
        ensures
            r.direction == direction,
            !r.collision,
    {
        Agent { direction, collision: false }
    }

    /// The point one step ahead of `c`, before any wrapping.
    pub fn look_ahead(&self, c: Point, env: &Environment) -> (r: Point)
        requires
            env.wf(),
            env.in_range(c),
        ensures
            r == ahead(c, self.direction),
    {
        Point {
            x: match self.direction.x {
                HDirection::Right => c.x + 1,
                HDirection::Left => c.x - 1,
                HDirection::Still => c.x,
            },
            y: match self.direction.y {
                VDirection::Up => c.y - 1,
                VDirection::Down => c.y + 1,
                VDirection::Still => c.y,
            },
        }
    }

    pub fn decide(&self, c: Point, env: &Environment) -> (r: Decision)
        requires
            env.wf(),
            env.in_range(c),
        ensures
            r == bouncer_decision(*self, c, *env),
    {
        let f = self.look_ahead(c, env);
        let ox = env.is_out_of_bound_x(f.x);
        let oy = env.is_out_of_bound_y(f.y);
        if !ox && !oy {
            let i = env.get_index(f);
            match env.cells[i] {
                Cell::Empty => Decision::KeepCourse,
                Cell::Filled(j) => Decision::ChangeCourseCollision(j),
            }
        } else {
            Decision::ChangeCourseOutOfBound(
                Direction::new(
                    if ox {
                        self.direction.x.invert()
                    } else {
                        self.direction.x
                    },
                    if oy {
                        self.direction.y.invert()
                    } else {
                        self.direction.y
                    },
                ),
            )
        }
    }
}

/// What committing `decision` for bouncer `id` did, from `old` to `new`.
pub open spec fn committed(old: Environment, new: Environment, id: usize, decision: Decision) -> bool {
            let rec = old.arena@[id as int];
            let me = rec.body->Bouncer_0;
            match decision {
                Decision::ChangeCourseOutOfBound(d) => {
                    &&& new.cells@ == old.cells@
                    &&& new.arena@ == old.arena@.update(
                        id as int,
                        AgentRef {
                            body: AgentBody::Bouncer(Agent { direction: d, collision: true }),
                            ..rec
                        },
                    )
                },
                Decision::ChangeCourseCollision(j) if !old.borderless => {
                    &&& new.cells@ == old.cells@
                    &&& new.arena@ == collided(old.arena@, id, j)
                },
                _ => {
                    let f = ahead(rec.coordinate, me.direction);
                    let calm = AgentRef {
                        body: AgentBody::Bouncer(Agent { collision: false, ..me }),
                        ..rec
                    };
                    if old.contains(f) && old.cell_at(f) is Empty {
                        &&& new.cells@ == old.cells@.update(
                            old.idx(rec.coordinate),
                            Cell::Empty,
                        ).update(old.index_of(f), Cell::Filled(id))
                        &&& new.arena@ == old.arena@.update(
                            id as int,
                            AgentRef { coordinate: old.normalized(f), ..calm },
                        )
                    } else {
                        &&& new.cells@ == old.cells@
                        &&& new.arena@ == old.arena@.update(id as int, calm)
                    }
                },
            }
        }

/// Applies a bouncer's decision. Off the grid: take the new heading and raise
/// the collision flag, without moving. A collision on a bordered grid: see
/// `collided`, without moving. Otherwise: lower the flag and step forward when
/// the forward cell is on the grid and empty.
pub fn update(env: &mut Environment, id: usize, decision: Decision)
    requires
        old(env).wf(),
        old(env).consistent(),
        old(env).placed(id),
        old(env).arena@[id as int].body is Bouncer,
    ensures
        old(env).frame(*final(env)),
        committed(*old(env), *final(env), id, decision),
{
    let ghost o = *env;
    proof {
        o.lemma_frame_refl();
    }
    let rec = env.arena[id];
    let me = match rec.body {
        AgentBody::Bouncer(a) => a,
        _ => Agent { direction: Direction::new(HDirection::Still, VDirection::Still), collision: false },
    };
    match decision {
        Decision::ChangeCourseOutOfBound(d) => {
            env.set_body(id, AgentBody::Bouncer(Agent { direction: d, collision: true }));
            return ;
        },
        Decision::ChangeCourseCollision(j) => {
            if !env.borderless {
                let other = if j < env.arena.len() {
                    match env.arena[j].body {
                        AgentBody::Bouncer(a) => Some(a),
                        _ => None,
                    }
                } else {
                    None
                };
                match other {
                    Some(a) => {
                        env.set_body(
                            id,
                            AgentBody::Bouncer(Agent { direction: a.direction, collision: true }),
                        );
                        let ghost m = *env;
                        env.set_body(
                            j,
                            AgentBody::Bouncer(Agent { direction: me.direction, collision: true }),
                        );
                        proof {
                            Environment::lemma_frame_trans(o, m, *env);
                            assert(env.arena@ =~= collided(o.arena@, id, j));
                        }
                    },
                    None => {
                        env.set_body(id, AgentBody::Bouncer(Agent { collision: true, ..me }));
                    },
                }
                return ;
            }
        },
        Decision::KeepCourse => {},
    }
    env.set_body(id, AgentBody::Bouncer(Agent { collision: false, ..me }));
    let ghost m = *env;
    let f = me.look_ahead(rec.coordinate, env);
    if !env.out_of_bound(f) {
        let i = env.get_index(f);
        if env.cells[i].is_empty_cell() {
            proof {
                assert(m.placed(id));
            }
            env.relocate(id, f);
            proof {
                Environment::lemma_frame_trans(o, m, *env);
                let calm = AgentRef {
                    body: AgentBody::Bouncer(Agent { collision: false, ..me }),
                    ..rec
                };
                assert(env.arena@ =~= o.arena@.update(
                    id as int,
                    AgentRef { coordinate: o.normalized(f), ..calm },
                ));
            }
        }
    }
    proof {
        let rec0 = o.arena@[id as int];
        let f0 = ahead(rec0.coordinate, rec0.body->Bouncer_0.direction);
        assert(f == f0);
    }
}

/// On a bordered grid, a bouncer whose forward point leaves both axes inverts
/// both headings at once, and its commit takes that heading without moving.
pub proof fn lemma_corner_inverts_both(old: Environment, new: Environment, id: usize)
    requires
        old.wf(),
        old.consistent(),
        old.placed(id),
        !old.borderless,
        old.arena@[id as int].body is Bouncer,
        ({
            let a = old.arena@[id as int].body->Bouncer_0;
            let f = ahead(old.arena@[id as int].coordinate, a.direction);
            !old.in_range(Point { x: f.x, y: old.arena@[id as int].coordinate.y })
                && !old.in_range(Point { x: old.arena@[id as int].coordinate.x, y: f.y })
        }),
        committed(
            old,
            new,
            id,
            bouncer_decision(
                old.arena@[id as int].body->Bouncer_0,
                old.arena@[id as int].coordinate,
                old,
            ),
        ),
    ensures
        ({
            let a = old.arena@[id as int].body->Bouncer_0;
            &&& bouncer_decision(a, old.arena@[id as int].coordinate, old)
                == Decision::ChangeCourseOutOfBound(
                Direction { x: h_inverted(a.direction.x), y: v_inverted(a.direction.y) },
            )
            &&& new.cells@ == old.cells@
            &&& new.arena@[id as int].coordinate == old.arena@[id as int].coordinate
            &&& new.arena@[id as int].body == AgentBody::Bouncer(
                Agent {
                    direction: Direction {
                        x: h_inverted(a.direction.x),
                        y: v_inverted(a.direction.y),
                    },
                    collision: true,
                },
            )
        }),
{
}

/// On a borderless grid, a bouncer in the last column heading right whose
/// forward cell (wrapped) is empty lands in the first column.
pub proof fn lemma_wraps_around(old: Environment, new: Environment, id: usize)
    requires
        old.wf(),
        old.consistent(),
        old.placed(id),
        old.borderless,
        old.arena@[id as int].body is Bouncer,
        old.arena@[id as int].body->Bouncer_0.direction.x == HDirection::Right,
        old.arena@[id as int].coordinate.x == old.width - 1,
        old.cell_at(
            ahead(old.arena@[id as int].coordinate, old.arena@[id as int].body->Bouncer_0.direction),
        ) is Empty,
        committed(
            old,
            new,
            id,
            bouncer_decision(
                old.arena@[id as int].body->Bouncer_0,
                old.arena@[id as int].coordinate,
                old,
            ),
        ),
    ensures
        new.arena@[id as int].coordinate.x == 0,
        new.cells@[old.idx(new.arena@[id as int].coordinate)] == Cell::Filled(id),
{
    let rec = old.arena@[id as int];
    let f = ahead(rec.coordinate, rec.body->Bouncer_0.direction);
    old.lemma_normalized(f);
    vstd::arithmetic::div_mod::lemma_mod_self_0(old.width as int);
    assert(f.x == old.width);
    let q = old.normalized(f);
    crate::environment::lemma_index_bound(q.x as int, q.y as int, old.width as int, old.height as int);
    assert(new.arena@[id as int].coordinate == q);
    crate::environment::lemma_index_bound(
        rec.coordinate.x as int,
        rec.coordinate.y as int,
        old.width as int,
        old.height as int,
    );
}

} // verus!
