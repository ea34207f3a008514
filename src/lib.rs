//! A discrete-time, grid-based multi-agent simulator: bouncing particles and a
//! fish/shark predator-prey world, driven by a verified decide/commit tick.
use vstd::prelude::*;

pub mod agent;
pub mod environment;
pub mod fish;
pub mod shark;
pub mod color;
pub mod random;
pub mod sma;

use crate::agent::Agent;
use crate::fish::Fish;
use crate::shark::Shark;

verus! {

/// An integer grid coordinate.
#[derive(Clone, Copy, Debug, PartialEq, Eq, Structural)]
pub struct Point {
    pub x: i32,
    pub y: i32,
}

impl Point {
    pub fn new(x: i32, y: i32) -> (r: Point)
        ensures
            r.x == x,
            r.y == y,
    {
        Point { x, y }
    }
}

/// Horizontal heading.
#[derive(Clone, Copy, Debug, PartialEq, Eq, Structural)]
pub enum HDirection {
    Still,
    Right,
    Left,
}

/// Vertical heading (`Up` decreases `y`).
#[derive(Clone, Copy, Debug, PartialEq, Eq, Structural)]
pub enum VDirection {
    Still,
    Down,
    Up,
}

pub open spec fn h_inverted(d: HDirection) -> HDirection {
    match d {
        HDirection::Still => HDirection::Still,
        HDirection::Right => HDirection::Left,
        HDirection::Left => HDirection::Right,
    }
}

pub open spec fn v_inverted(d: VDirection) -> VDirection {
    match d {
        VDirection::Still => VDirection::Still,
        VDirection::Down => VDirection::Up,
        VDirection::Up => VDirection::Down,
    }
}

/// Step along the horizontal axis: -1, 0 or +1.
pub open spec fn h_step(d: HDirection) -> int {
    match d {
        HDirection::Still => 0,
        HDirection::Right => 1,
        HDirection::Left => -1,
    }
}

/// Step along the vertical axis: -1, 0 or +1.
pub open spec fn v_step(d: VDirection) -> int {
    match d {
        VDirection::Still => 0,
        VDirection::Down => 1,
        VDirection::Up => -1,
    }
}

impl HDirection {
    pub fn invert(&self) -> (r: HDirection)
        ensures
            r == h_inverted(*self),
    {
        match self {
            HDirection::Still => HDirection::Still,
            HDirection::Right => HDirection::Left,
            HDirection::Left => HDirection::Right,
        }
    }
}

impl VDirection {
    pub fn invert(&self) -> (r: VDirection)
        ensures
            r == v_inverted(*self),
    {
        match self {
            VDirection::Still => VDirection::Still,
            VDirection::Down => VDirection::Up,
            VDirection::Up => VDirection::Down,
        }
    }
}

/// A pair of independent axis headings.
#[derive(Clone, Copy, Debug, PartialEq, Eq, Structural)]
pub struct Direction {
    pub x: HDirection,
    pub y: VDirection,
}

impl Direction {
    pub fn new(x: HDirection, y: VDirection) -> (r: Direction)
        ensures
            r.x == x,
            r.y == y,
    {
        Direction { x, y }
    }
}

/// Coarse classification of an agent: fish are prey, everything else is not.
#[derive(Clone, Copy, Debug, PartialEq, Eq, Structural)]
pub enum AgentKind {
    Fish,
    Other,
}

/// What a commit hands back to the orchestrator.
#[derive(Clone, Copy, Debug, PartialEq, Eq, Structural)]
pub enum AgentCommand {
    /// A newborn with this table index waits to be admitted.
    Create(usize),
    DoNothing,
}

/// A countdown lowered by one tick, held at zero.
pub open spec fn count_down(b: u8) -> u8 {
    if b == 0 {
        0
    } else {
        (b - 1) as u8
    }
}

pub fn tick_down(b: u8) -> (r: u8)
    ensures
        r == count_down(b),
{
    if b == 0 {
        0
    } else {
        b - 1
    }
}

/// The state that is particular to each kind of agent.
#[derive(Clone, Copy, Debug, PartialEq, Eq, Structural)]
pub enum AgentBody {
    Bouncer(Agent),
    Fish(Fish),
    Shark(Shark),
}

/// One record of the agent table: what a grid cell or a list refers to by index.
#[derive(Clone, Copy, Debug, PartialEq, Eq, Structural)]
pub struct AgentRef {
    pub body: AgentBody,
    pub coordinate: Point,
    pub marked_for_removal: bool,
}

impl AgentRef {
    pub open spec fn is_fish(&self) -> bool {
        self.body is Fish
    }

    pub open spec fn is_shark(&self) -> bool {
        self.body is Shark
    }

    pub fn from(agent: Agent, coordinate: Point) -> (r: AgentRef)
        ensures
            r.body == AgentBody::Bouncer(agent),
            r.coordinate == coordinate,
            !r.marked_for_removal,
    {
        AgentRef { body: AgentBody::Bouncer(agent), coordinate, marked_for_removal: false }
    }

    pub fn from_fish(agent: Fish, coordinate: Point) -> (r: AgentRef)
        ensures
            r.body == AgentBody::Fish(agent),
            r.coordinate == coordinate,
            !r.marked_for_removal,
    {
        AgentRef { body: AgentBody::Fish(agent), coordinate, marked_for_removal: false }
    }

    pub fn from_shark(agent: Shark, coordinate: Point) -> (r: AgentRef)
        ensures
            r.body == AgentBody::Shark(agent),
            r.coordinate == coordinate,
            !r.marked_for_removal,
    {
        AgentRef { body: AgentBody::Shark(agent), coordinate, marked_for_removal: false }
    }

    pub fn kind(&self) -> (r: AgentKind)
        ensures
            r == (if self.is_fish() { AgentKind::Fish } else { AgentKind::Other }),
    {
        match self.body {
            AgentBody::Fish(_) => AgentKind::Fish,
            _ => AgentKind::Other,
        }
    }

    pub fn coordinate(&self) -> (r: Point)
        ensures
            r == self.coordinate,
    {
        self.coordinate
    }

    /// The bouncer's collision flag; `false` for fish and sharks.
    pub fn collision(&self) -> (r: bool)
        ensures
            r == (match self.body {
                AgentBody::Bouncer(a) => a.collision,
                _ => false,
            }),
    {
        match self.body {
            AgentBody::Bouncer(a) => a.collision,
            _ => false,
        }
    }

    /// The bouncer's heading; fish and sharks report no heading.
    pub fn direction(&self) -> (r: Direction)
        ensures
            r == (match self.body {
                AgentBody::Bouncer(a) => a.direction,
                _ => Direction { x: HDirection::Still, y: VDirection::Still },
            }),
    {
        match self.body {
            AgentBody::Bouncer(a) => a.direction,
            _ => Direction { x: HDirection::Still, y: VDirection::Still },
        }
    }

    pub fn set_coordinate(&mut self, point: Point)
        ensures
            *final(self) == (AgentRef { coordinate: point, ..*old(self) }),
    {
        self.coordinate = point;
    }

    /// Sets the bouncer's collision flag; fish and sharks have none.
    pub fn set_collision(&mut self, collision: bool)
        ensures
            *final(self) == (match old(self).body {
                AgentBody::Bouncer(a) => AgentRef {
                    body: AgentBody::Bouncer(Agent { collision, ..a }),
                    ..*old(self)
                },
                _ => *old(self),
            }),
    {
        if let AgentBody::Bouncer(a) = self.body {
            self.body = AgentBody::Bouncer(Agent { collision, ..a });
        }
    }

    /// Sets the bouncer's heading; fish and sharks have none.
    pub fn set_direction(&mut self, direction: Direction)
        ensures
            *final(self) == (match old(self).body {
                AgentBody::Bouncer(a) => AgentRef {
                    body: AgentBody::Bouncer(Agent { direction, ..a }),
                    ..*old(self)
                },
                _ => *old(self),
            }),
    {
        if let AgentBody::Bouncer(a) = self.body {
            self.body = AgentBody::Bouncer(Agent { direction, ..a });
        }
    }

    pub fn mark_for_removal(&mut self)
        ensures
            *final(self) == (AgentRef { marked_for_removal: true, ..*old(self) }),
    {
        self.marked_for_removal = true;
    }
}

} // verus!
