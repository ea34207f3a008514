use vstd::prelude::*;

use crate::AgentRef;
use crate::Point;

verus! {

/// One grid position: empty, or holding the agent with the given table index.
#[derive(Clone, Copy, Debug, PartialEq, Eq, Structural)]
pub enum Cell {
    Empty,
    Filled(usize),
}

impl Cell {
    pub fn is_empty_cell(&self) -> (r: bool)
        ensures
            r == (*self == Cell::Empty),
    {
        match self {
            Cell::Empty => true,
            _ => false,
        }
    }
}

/// Why a grid access was refused.
#[derive(Clone, Copy, Debug, PartialEq, Eq, Structural)]
pub enum GridError {
    OutOfBounds,
}

/// The grid: a flat row-major array of cells, plus the table of agent records
/// that the cells refer to.
pub struct Environment {
    pub width: i32,
    pub height: i32,
    pub cells: Vec<Cell>,
    pub borderless: bool,
    pub fish_breed_time: u8,
    pub shark_breed_time: u8,
    pub shark_starve_time: u8,
    pub arena: Vec<AgentRef>,
}

/// `c` reduced into `0..d` (the remainder of Euclidean division).
pub fn wrap(c: i32, d: i32) -> (r: i32)
    requires
        d > 0,
    ensures
        r == c as int % d as int,
{
    if c >= 0 {
        c % d
    } else {
        let n: i32 = -(c + 1);
        let m: i32 = n % d;
        proof {
            let q = n as int / d as int;
            assert(n as int == q * d + m) by (nonlinear_arith)
                requires
                    q == n as int / d as int,
                    m as int == n as int % d as int,
                    d > 0,
            ;
            assert(c as int == (-q - 1) * d + (d - 1 - m)) by (nonlinear_arith)
                requires
                    n as int == q * d + m,
                    n == -(c + 1),
            ;
            vstd::arithmetic::div_mod::lemma_fundamental_div_mod_converse(
                c as int,
                d as int,
                -q - 1,
                d - 1 - m,
            );
        }
        d - 1 - m
    }
}

pub proof fn lemma_index_bound(x: int, y: int, w: int, h: int)
    requires
        0 <= x < w,
        0 <= y < h,
    ensures
        0 <= y * w + x < w * h,
{
    assert(0 <= y * w + x < w * h) by (nonlinear_arith)
        requires
            0 <= x < w,
            0 <= y < h,
    ;
}

impl Environment {
    /// Structural well-formedness: one cell per coordinate.
    pub open spec fn wf(&self) -> bool {
        &&& 0 <= self.width
        &&& 0 <= self.height
        &&& self.width * self.height <= i32::MAX
        &&& self.cells@.len() == self.width * self.height
    }

    pub open spec fn out_of_bound_x(&self, x: int) -> bool {
        !self.borderless && (x > self.width - 1 || x < 0)
    }

    pub open spec fn out_of_bound_y(&self, y: int) -> bool {
        !self.borderless && (y > self.height - 1 || y < 0)
    }

    /// The point designates a cell of the grid (after wrapping, when borderless).
    pub open spec fn contains(&self, p: Point) -> bool {
        &&& !self.out_of_bound_x(p.x as int)
        &&& !self.out_of_bound_y(p.y as int)
        &&& self.width > 0
        &&& self.height > 0
    }

    pub open spec fn in_range(&self, p: Point) -> bool {
        0 <= p.x < self.width && 0 <= p.y < self.height
    }

    /// The point that a contained point designates: wrapped when borderless.
    pub open spec fn normalized(&self, p: Point) -> Point {
        if self.borderless {
            Point {
                x: (p.x as int % self.width as int) as i32,
                y: (p.y as int % self.height as int) as i32,
            }
        } else {
            p
        }
    }

    /// Row-major index of an in-range point.
    pub open spec fn idx(&self, p: Point) -> int {
        p.y * self.width + p.x
    }

    pub open spec fn index_of(&self, p: Point) -> int {
        self.idx(self.normalized(p))
    }

    pub open spec fn cell_at(&self, p: Point) -> Cell {
        self.cells@[self.index_of(p)]
    }

    /// Every filled cell refers to a record of the table whose coordinate is
    /// that very cell.
    pub open spec fn consistent(&self) -> bool {
        forall|i: int|
            0 <= i < self.cells@.len() && (#[trigger] self.cells@[i]) is Filled ==> {
                let id = self.cells@[i]->Filled_0;
                &&& id < self.arena@.len()
                &&& self.in_range(self.arena@[id as int].coordinate)
                &&& self.idx(self.arena@[id as int].coordinate) == i
            }
    }

    pub proof fn lemma_normalized(&self, p: Point)
        requires
            self.wf(),
            self.contains(p),
        ensures
            self.in_range(self.normalized(p)),
            0 <= self.index_of(p) < self.cells@.len(),
            self.in_range(p) ==> self.normalized(p) == p,
    {
        let q = self.normalized(p);
        lemma_index_bound(q.x as int, q.y as int, self.width as int, self.height as int);
        if self.borderless && self.in_range(p) {
            vstd::arithmetic::div_mod::lemma_small_mod(p.x as nat, self.width as nat);
            vstd::arithmetic::div_mod::lemma_small_mod(p.y as nat, self.height as nat);
        }
    }

    pub fn new(width: i32, height: i32, borderless: bool) -> (r: Environment)
        requires
            0 <= width,
            0 <= height,
            width * height <= i32::MAX,
        ensures
            r.wf(),
            r.consistent(),
            r.width == width,
            r.height == height,
            r.borderless == borderless,
            r.fish_breed_time == 0,
            r.shark_breed_time == 0,
            r.shark_starve_time == 0,
            forall|i: int| 0 <= i < r.cells@.len() ==> r.cells@[i] == Cell::Empty,
            r.arena@.len() == 0,
    {
        Environment::new_fish_shark(width, height, borderless, 0, 0, 0)
    }

    pub fn new_fish_shark(
        width: i32,
        height: i32,
        borderless: bool,
        fish_breed_time: u8,
        shark_breed_time: u8,
        shark_starve_time: u8,
    ) -> (r: Environment)
        requires
            0 <= width,
            0 <= height,
            width * height <= i32::MAX,
        ensures
            r.wf(),
            r.consistent(),
            r.width == width,
            r.height == height,
            r.borderless == borderless,
            r.fish_breed_time == fish_breed_time,
            r.shark_breed_time == shark_breed_time,
            r.shark_starve_time == shark_starve_time,
            forall|i: int| 0 <= i < r.cells@.len() ==> r.cells@[i] == Cell::Empty,
            r.arena@.len() == 0,
    {
        let size: i32 = width * height;
        let mut cells: Vec<Cell> = Vec::new();
        let mut k: i32 = 0;
        while k < size
            invariant
                0 <= k <= size,
                cells@.len() == k,
                forall|i: int| 0 <= i < cells@.len() ==> cells@[i] == Cell::Empty,
            decreases size - k,
        {
            cells.push(Cell::Empty);
            k = k + 1;
        }
        Environment {
            width,
            height,
            cells,
            borderless,
            fish_breed_time,
            shark_breed_time,
            shark_starve_time,
            arena: Vec::new(),
        }
    }

    /// Strict bound check on the horizontal axis; never out of bounds when borderless.
    pub fn is_out_of_bound_x(&self, x: i32) -> (r: bool)
        ensures
            r == self.out_of_bound_x(x as int),
    {
        if self.borderless {
            false
        } else {
            x >= self.width || x < 0
        }
    }

    /// Strict bound check on the vertical axis; never out of bounds when borderless.
    pub fn is_out_of_bound_y(&self, y: i32) -> (r: bool)
        ensures
            r == self.out_of_bound_y(y as int),
    {
        if self.borderless {
            false
        } else {
            y >= self.height || y < 0
        }
    }

    pub fn out_of_bound(&self, point: Point) -> (r: bool)
        ensures
            r == !self.contains(point),
    {
        self.is_out_of_bound_x(point.x) || self.is_out_of_bound_y(point.y) || self.width <= 0
            || self.height <= 0
    }

    /// The in-range point that a contained point designates.
    pub fn normalize(&self, point: Point) -> (r: Point)
        requires
            self.wf(),
            self.contains(point),
        ensures
            r == self.normalized(point),
            self.in_range(r),
    {
        proof {
            self.lemma_normalized(point);
        }
        if self.borderless {
            Point { x: wrap(point.x, self.width), y: wrap(point.y, self.height) }
        } else {
            point
        }
    }

    pub fn get_index(&self, point: Point) -> (r: usize)
        requires
            self.wf(),
            self.contains(point),
        ensures
            r == self.index_of(point),
            r < self.cells@.len(),
    {
        let p = self.normalize(point);
        proof {
            self.lemma_normalized(point);
        }
        (p.y as usize) * (self.width as usize) + (p.x as usize)
    }

    /// The cell a point designates, or `None` when it lies outside the grid.
    pub fn get_cell(&self, point: Point) -> (r: Option<Cell>)
        requires
            self.wf(),
        ensures
            r == (if self.contains(point) {
                Some(self.cell_at(point))
            } else {
                None
            }),
    {
        if self.out_of_bound(point) {
            None
        } else {
            let idx = self.get_index(point);
            Some(self.cells[idx])
        }
    }

    /// Overwrites the cell a point designates; refuses a point outside the grid.
    pub fn set_cell(&mut self, point: Point, cell: Cell) -> (r: Result<(), GridError>)
        requires
            old(self).wf(),
        ensures
            final(self).wf(),
            r is Err <==> !old(self).contains(point),
            r is Err ==> *final(self) == *old(self),
            r is Ok ==> final(self).cells@ == old(self).cells@.update(
                old(self).index_of(point),
                cell,
            ),
            final(self).arena@ == old(self).arena@,
            final(self).same_shape(*old(self)),
    {
        if self.out_of_bound(point) {
            Err(GridError::OutOfBounds)
        } else {
            let idx = self.get_index(point);
            self.cells.set(idx, cell);
            Ok(())
        }
    }

    /// Everything but the cells and the agent table is unchanged.
    pub open spec fn same_shape(&self, other: Environment) -> bool {
        &&& self.width == other.width
        &&& self.height == other.height
        &&& self.borderless == other.borderless
        &&& self.fish_breed_time == other.fish_breed_time
        &&& self.shark_breed_time == other.shark_breed_time
        &&& self.shark_starve_time == other.shark_starve_time
    }

    /// Exchanges the contents of the two cells.
    pub fn swap(&mut self, a: Point, b: Point)
        requires
            old(self).wf(),
            old(self).contains(a),
            old(self).contains(b),
        ensures
            final(self).wf(),
            final(self).cells@ == old(self).cells@.update(
                old(self).index_of(a),
                old(self).cell_at(b),
            ).update(old(self).index_of(b), old(self).cell_at(a)),
            final(self).arena@ == old(self).arena@,
            final(self).same_shape(*old(self)),
    {
        let a = self.get_index(a);
        let b = self.get_index(b);
        let cell_a = self.cells[a];
        let cell_b = self.cells[b];
        self.cells.set(a, cell_b);
        self.cells.set(b, cell_a);
    }

    /// Moves the agent held at `from` to `to`: `from` becomes empty, `to` holds
    /// the agent, and the agent's record takes the new coordinate.
    pub fn set_agent_cell(&mut self, from: Point, to: Point)
        requires
            old(self).wf(),
            old(self).contains(from),
            old(self).contains(to),
            old(self).cell_at(from) is Filled,
            old(self).cell_at(from)->Filled_0 < old(self).arena@.len(),
        ensures
            final(self).wf(),
            ({
                let id = old(self).cell_at(from)->Filled_0;
                &&& final(self).cells@ == old(self).cells@.update(
                    old(self).index_of(from),
                    Cell::Empty,
                ).update(old(self).index_of(to), Cell::Filled(id))
                &&& final(self).arena@ == old(self).arena@.update(
                    id as int,
                    AgentRef { coordinate: old(self).normalized(to), ..old(self).arena@[id as int] },
                )
            }),
            final(self).same_shape(*old(self)),
    {
        let current = self.get_index(from);
        let idx = self.get_index(to);
        let to_n = self.normalize(to);
        let id = match self.cells[current] {
            Cell::Filled(id) => id,
            Cell::Empty => 0,
        };
        let mut rec = self.arena[id];
        rec.coordinate = to_n;
        self.arena.set(id, rec);
        self.cells.set(current, Cell::Empty);
        self.cells.set(idx, Cell::Filled(id));
    }
}

impl Environment {
    pub open spec fn marked(&self, j: usize) -> bool {
        j < self.arena@.len() && self.arena@[j as int].marked_for_removal
    }

    /// The agent's record says where it is, and that cell holds it.
    pub open spec fn placed(&self, j: usize) -> bool {
        &&& j < self.arena@.len()
        &&& self.in_range(self.arena@[j as int].coordinate)
        &&& self.cells@[self.idx(self.arena@[j as int].coordinate)] == Cell::Filled(j)
    }

    /// What one agent's commit may do to the grid and the table: the grid stays
    /// consistent, marks are never lifted, no record changes between fish and
    /// not fish, every agent that was placed stays placed unless it is a fish
    /// marked for removal, and a cell holds only an agent that was placed before
    /// or a newborn record.
    pub open spec fn frame(&self, new: Environment) -> bool {
        &&& new.wf()
        &&& new.consistent()
        &&& new.same_shape(*self)
        &&& self.arena@.len() <= new.arena@.len()
        &&& forall|j: usize| #[trigger] self.marked(j) ==> new.marked(j)
        &&& forall|j: usize|
            j < self.arena@.len() ==> (#[trigger] new.arena@[j as int]).is_fish()
                == self.arena@[j as int].is_fish()
        &&& forall|j: usize|
            j < self.arena@.len() && #[trigger] self.placed(j) && (!new.marked(j)
                || !new.arena@[j as int].is_fish()) ==> new.placed(j)
        &&& forall|j: usize|
            self.arena@.len() <= j < new.arena@.len() && !#[trigger] new.marked(j)
                ==> new.placed(j)
        &&& forall|i: int|
            0 <= i < new.cells@.len() && (#[trigger] new.cells@[i]) is Filled ==> {
                let j = new.cells@[i]->Filled_0;
                (j < self.arena@.len() && self.placed(j)) || (self.arena@.len() <= j
                    < new.arena@.len())
            }
    }

    pub proof fn lemma_frame_refl(&self)
        requires
            self.wf(),
            self.consistent(),
        ensures
            self.frame(*self),
    {
        assert forall|i: int|
            0 <= i < self.cells@.len() && (#[trigger] self.cells@[i]) is Filled implies {
                let j = self.cells@[i]->Filled_0;
                j < self.arena@.len() && self.placed(j)
            } by {}
    }

    pub proof fn lemma_frame_trans(a: Environment, b: Environment, c: Environment)
        requires
            a.frame(b),
            b.frame(c),
        ensures
            a.frame(c),
    {
        assert forall|j: usize|
            j < a.arena@.len() && #[trigger] a.placed(j) && (!c.marked(j)
                || !c.arena@[j as int].is_fish()) implies c.placed(j) by {
            assert(b.arena@[j as int].is_fish() == a.arena@[j as int].is_fish());
            assert(c.arena@[j as int].is_fish() == b.arena@[j as int].is_fish());
            assert(b.placed(j));
        }
        assert forall|j: usize|
            j < a.arena@.len() implies (#[trigger] c.arena@[j as int]).is_fish()
                == a.arena@[j as int].is_fish() by {
            assert(b.arena@[j as int].is_fish() == a.arena@[j as int].is_fish());
        }
        assert forall|j: usize|
            a.arena@.len() <= j < c.arena@.len() && !#[trigger] c.marked(j) implies c.placed(j) by {
            if j < b.arena@.len() {
                assert(!b.marked(j));
                assert(b.placed(j));
            }
        }
        assert forall|i: int|
            0 <= i < c.cells@.len() && (#[trigger] c.cells@[i]) is Filled implies {
                let j = c.cells@[i]->Filled_0;
                (j < a.arena@.len() && a.placed(j)) || (a.arena@.len() <= j < c.arena@.len())
            } by {
            let j = c.cells@[i]->Filled_0;
            if j < b.arena@.len() && b.placed(j) {
                let k = b.idx(b.arena@[j as int].coordinate);
                lemma_index_bound(
                    b.arena@[j as int].coordinate.x as int,
                    b.arena@[j as int].coordinate.y as int,
                    b.width as int,
                    b.height as int,
                );
                assert(b.cells@[k] is Filled);
            }
        }
    }

    /// Moves a placed agent onto a contained cell that is empty or holds another
    /// agent (which then loses its place and is marked).
    pub fn relocate(&mut self, id: usize, to: Point)
        requires
            old(self).wf(),
            old(self).consistent(),
            old(self).placed(id),
            old(self).contains(to),
            old(self).cell_at(to) is Empty || (old(self).cell_at(to) is Filled && old(
                self,
            ).marked(old(self).cell_at(to)->Filled_0) && old(self).arena@[old(self).cell_at(
                to,
            )->Filled_0 as int].is_fish()),
        ensures
            old(self).frame(*final(self)),
            final(self).cells@ == old(self).cells@.update(
                old(self).idx(old(self).arena@[id as int].coordinate),
                Cell::Empty,
            ).update(old(self).index_of(to), Cell::Filled(id)),
            final(self).arena@ == old(self).arena@.update(
                id as int,
                AgentRef { coordinate: old(self).normalized(to), ..old(self).arena@[id as int] },
            ),
            final(self).placed(id),
    {
        let ghost o = *self;
        let from = self.arena[id].coordinate;
        proof {
            o.lemma_normalized(from);
            o.lemma_normalized(to);
        }
        self.set_agent_cell(from, to);
        proof {
            let n = *self;
            let ti = o.index_of(to);
            let fi = o.idx(from);
            assert forall|i: int|
                0 <= i < n.cells@.len() && (#[trigger] n.cells@[i]) is Filled implies {
                    let j = n.cells@[i]->Filled_0;
                    &&& j < n.arena@.len()
                    &&& n.in_range(n.arena@[j as int].coordinate)
                    &&& n.idx(n.arena@[j as int].coordinate) == i
                } by {
                if i != ti {
                    assert(o.cells@[i] is Filled);
                    assert(i != fi);
                    let j = o.cells@[i]->Filled_0;
                    assert(j != id);
                }
            }
            assert forall|j: usize|
                j < o.arena@.len() && #[trigger] o.placed(j) && (!n.marked(j)
                    || !n.arena@[j as int].is_fish()) implies n.placed(j) by {
                if j != id {
                    let k = o.idx(o.arena@[j as int].coordinate);
                    lemma_index_bound(
                        o.arena@[j as int].coordinate.x as int,
                        o.arena@[j as int].coordinate.y as int,
                        o.width as int,
                        o.height as int,
                    );
                    assert(k != fi);
                    assert(k != ti);
                }
            }
            assert forall|i: int|
                0 <= i < n.cells@.len() && (#[trigger] n.cells@[i]) is Filled implies {
                    let j = n.cells@[i]->Filled_0;
                    (j < o.arena@.len() && o.placed(j)) || (o.arena@.len() <= j < n.arena@.len())
                } by {
                if i != ti {
                    assert(o.cells@[i] is Filled);
                }
            }
            assert forall|j: usize| #[trigger] o.marked(j) implies n.marked(j) by {}
        }
    }

    /// Sets the removal mark of a record.
    pub fn mark_agent(&mut self, j: usize)
        requires
            old(self).wf(),
            old(self).consistent(),
            j < old(self).arena@.len(),
        ensures
            old(self).frame(*final(self)),
            final(self).cells@ == old(self).cells@,
            final(self).arena@ == old(self).arena@.update(
                j as int,
                AgentRef { marked_for_removal: true, ..old(self).arena@[j as int] },
            ),
    {
        let ghost o = *self;
        let mut rec = self.arena[j];
        rec.mark_for_removal();
        self.arena.set(j, rec);
        proof {
            let n = *self;
            assert forall|i: int|
                0 <= i < n.cells@.len() && (#[trigger] n.cells@[i]) is Filled implies {
                    let k = n.cells@[i]->Filled_0;
                    (k < o.arena@.len() && o.placed(k))
                } by {
                assert(o.cells@[i] is Filled);
            }
            assert forall|k: usize|
                k < o.arena@.len() && #[trigger] o.placed(k) && (!n.marked(k)
                    || !n.arena@[k as int].is_fish()) implies n.placed(k) by {}
            assert forall|k: usize| #[trigger] o.marked(k) implies n.marked(k) by {}
        }
    }

    /// Adds a record for an agent standing on an empty in-range cell, and places it.
    pub fn spawn(&mut self, rec: AgentRef) -> (r: usize)
        requires
            old(self).wf(),
            old(self).consistent(),
            old(self).in_range(rec.coordinate),
            old(self).cells@[old(self).idx(rec.coordinate)] == Cell::Empty,
            old(self).arena@.len() < usize::MAX,
        ensures
            old(self).frame(*final(self)),
            r == old(self).arena@.len(),
            final(self).arena@ == old(self).arena@.push(rec),
            final(self).cells@ == old(self).cells@.update(
                old(self).idx(rec.coordinate),
                Cell::Filled(r),
            ),
            final(self).placed(r),
    {
        let ghost o = *self;
        let id = self.arena.len();
        proof {
            lemma_index_bound(
                rec.coordinate.x as int,
                rec.coordinate.y as int,
                o.width as int,
                o.height as int,
            );
        }
        let k = (rec.coordinate.y as usize) * (self.width as usize) + (rec.coordinate.x as usize);
        self.arena.push(rec);
        self.cells.set(k, Cell::Filled(id));
        proof {
            let n = *self;
            assert forall|i: int|
                0 <= i < n.cells@.len() && (#[trigger] n.cells@[i]) is Filled implies {
                    let j = n.cells@[i]->Filled_0;
                    &&& j < n.arena@.len()
                    &&& n.in_range(n.arena@[j as int].coordinate)
                    &&& n.idx(n.arena@[j as int].coordinate) == i
                } by {
                if i != k {
                    assert(o.cells@[i] is Filled);
                }
            }
            assert forall|j: usize|
                j < o.arena@.len() && #[trigger] o.placed(j) && (!n.marked(j)
                    || !n.arena@[j as int].is_fish()) implies n.placed(j) by {
                lemma_index_bound(
                    o.arena@[j as int].coordinate.x as int,
                    o.arena@[j as int].coordinate.y as int,
                    o.width as int,
                    o.height as int,
                );
            }
            assert forall|i: int|
                0 <= i < n.cells@.len() && (#[trigger] n.cells@[i]) is Filled implies {
                    let j = n.cells@[i]->Filled_0;
                    (j < o.arena@.len() && o.placed(j)) || (o.arena@.len() <= j < n.arena@.len())
                } by {
                if i != k {
                    assert(o.cells@[i] is Filled);
                }
            }
            assert forall|j: usize| #[trigger] o.marked(j) implies n.marked(j) by {}
        }
        id
    }
}

/// The eight neighbouring offsets, in the order in which they are examined.
pub open spec fn offset(k: int) -> (int, int) {
    if k == 0 {
        (0, 1)
    } else if k == 1 {
        (0, -1)
    } else if k == 2 {
        (1, 0)
    } else if k == 3 {
        (-1, 0)
    } else if k == 4 {
        (1, 1)
    } else if k == 5 {
        (1, -1)
    } else if k == 6 {
        (-1, 1)
    } else {
        (-1, -1)
    }
}

pub fn neighbor_offset(k: usize) -> (r: (i32, i32))
    requires
        k < 8,
    ensures
        r.0 as int == offset(k as int).0,
        r.1 as int == offset(k as int).1,
{
    if k == 0 {
        (0, 1)
    } else if k == 1 {
        (0, -1)
    } else if k == 2 {
        (1, 0)
    } else if k == 3 {
        (-1, 0)
    } else if k == 4 {
        (1, 1)
    } else if k == 5 {
        (1, -1)
    } else if k == 6 {
        (-1, 1)
    } else {
        (-1, -1)
    }
}

impl Environment {
    /// The `k`-th neighbour of `c`, before any wrapping.
    pub open spec fn neighbor(&self, c: Point, k: int) -> Point {
        Point { x: (c.x + offset(k).0) as i32, y: (c.y + offset(k).1) as i32 }
    }

    /// The cell holds a fish of the table.
    pub open spec fn is_prey(&self, cell: Cell) -> bool {
        &&& cell is Filled
        &&& cell->Filled_0 < self.arena@.len()
        &&& self.arena@[cell->Filled_0 as int].is_fish()
    }

    /// The neighbour holds the empty cell (`prey == false`) or a fish (`prey == true`).
    pub open spec fn qualifies(&self, c: Point, k: int, prey: bool) -> bool {
        let p = self.neighbor(c, k);
        &&& self.contains(p)
        &&& if prey {
            self.is_prey(self.cell_at(p))
        } else {
            self.cell_at(p) is Empty
        }
    }

    /// The qualifying cells among the first `n` neighbours of `c`, in order.
    pub open spec fn neighbors_upto(&self, c: Point, n: nat, prey: bool) -> Seq<Point>
        decreases n,
    {
        if n == 0 {
            seq![]
        } else {
            let prev = self.neighbors_upto(c, (n - 1) as nat, prey);
            if self.qualifies(c, n - 1, prey) {
                prev.push(self.normalized(self.neighbor(c, n - 1)))
            } else {
                prev
            }
        }
    }

    /// The empty cells of the 8-neighbourhood of `c`.
    pub open spec fn free_neighbors(&self, c: Point) -> Seq<Point> {
        self.neighbors_upto(c, 8, false)
    }

    /// The cells of the 8-neighbourhood of `c` that hold a fish.
    pub open spec fn prey_neighbors(&self, c: Point) -> Seq<Point> {
        self.neighbors_upto(c, 8, true)
    }

    pub proof fn lemma_neighbors_upto(&self, c: Point, n: nat, prey: bool)
        requires
            self.wf(),
            n <= 8,
        ensures
            self.neighbors_upto(c, n, prey).len() <= n,
            forall|m: int|
                0 <= m < self.neighbors_upto(c, n, prey).len() ==> {
                    let p = #[trigger] self.neighbors_upto(c, n, prey)[m];
                    &&& self.in_range(p)
                    &&& self.contains(p)
                    &&& self.normalized(p) == p
                    &&& if prey {
                        self.is_prey(self.cell_at(p))
                    } else {
                        self.cell_at(p) is Empty
                    }
                },
        decreases n,
    {
        if n > 0 {
            self.lemma_neighbors_upto(c, (n - 1) as nat, prey);
            if self.qualifies(c, n - 1, prey) {
                let q = self.neighbor(c, n - 1);
                self.lemma_normalized(q);
                let p = self.normalized(q);
                self.lemma_normalized(p);
                if self.borderless {
                    vstd::arithmetic::div_mod::lemma_mod_twice(q.x as int, self.width as int);
                    vstd::arithmetic::div_mod::lemma_mod_twice(q.y as int, self.height as int);
                }
            }
        }
    }

    /// Collects the qualifying neighbours of an in-range point.
    pub fn neighbors(&self, c: Point, prey: bool) -> (r: Vec<Point>)
        requires
            self.wf(),
            self.in_range(c),
        ensures
            r@ == self.neighbors_upto(c, 8, prey),
    {
        let mut r: Vec<Point> = Vec::new();
        let mut k: usize = 0;
        while k < 8
            invariant
                self.wf(),
                self.in_range(c),
                k <= 8,
                r@ == self.neighbors_upto(c, k as nat, prey),
            decreases 8 - k,
        {
            let (dx, dy) = neighbor_offset(k);
            let p = Point { x: c.x + dx, y: c.y + dy };
            assert(p == self.neighbor(c, k as int));
            if !self.out_of_bound(p) {
                let cell = self.get_cell(p);
                let cell = match cell {
                    Some(cl) => cl,
                    None => Cell::Empty,
                };
                let ok = if prey {
                    match cell {
                        Cell::Filled(j) => j < self.arena.len() && self.arena[j].kind()
                            == crate::AgentKind::Fish,
                        Cell::Empty => false,
                    }
                } else {
                    cell.is_empty_cell()
                };
                if ok {
                    r.push(self.normalize(p));
                }
            }
            k = k + 1;
        }
        r
    }
}

impl Environment {
    /// `new` differs from `self` only in the cells and the table.
    pub open spec fn unchanged(&self, new: Environment) -> bool {
        new.cells@ == self.cells@ && new.arena@ == self.arena@
    }

    /// `new` is `self` with agent `id` moved from its cell onto the cell of `to`.
    pub open spec fn is_move(&self, new: Environment, id: usize, to: Point) -> bool {
        &&& new.cells@ == self.cells@.update(
            self.idx(self.arena@[id as int].coordinate),
            Cell::Empty,
        ).update(self.index_of(to), Cell::Filled(id))
        &&& new.arena@ == self.arena@.update(
            id as int,
            AgentRef { coordinate: self.normalized(to), ..self.arena@[id as int] },
        )
    }

    /// `new` is `self` with agent `id` moved onto the cell of `to`, and the
    /// record `child` added and placed on the cell that `id` left.
    pub open spec fn is_move_and_spawn(
        &self,
        new: Environment,
        id: usize,
        to: Point,
        child: AgentRef,
    ) -> bool {
        let from = self.idx(self.arena@[id as int].coordinate);
        &&& new.cells@ == self.cells@.update(from, Cell::Empty).update(
            self.index_of(to),
            Cell::Filled(id),
        ).update(from, Cell::Filled(self.arena@.len() as usize))
        &&& new.arena@ == self.arena@.update(
            id as int,
            AgentRef { coordinate: self.normalized(to), ..self.arena@[id as int] },
        ).push(child)
    }

    /// Moves a placed agent onto an empty cell, then puts `child` on the cell it left.
    pub fn relocate_and_spawn(&mut self, id: usize, to: Point, child: AgentRef) -> (r: usize)
        requires
            old(self).wf(),
            old(self).consistent(),
            old(self).placed(id),
            old(self).contains(to),
            old(self).cell_at(to) is Empty,
            child.coordinate == old(self).arena@[id as int].coordinate,
            old(self).arena@.len() < usize::MAX,
        ensures
            old(self).frame(*final(self)),
            old(self).is_move_and_spawn(*final(self), id, to, child),
            r == old(self).arena@.len(),
            final(self).placed(id),
            final(self).placed(r),
    {
        let ghost o = *self;
        self.relocate(id, to);
        let ghost m = *self;
        proof {
            o.lemma_normalized(to);
            let c = o.arena@[id as int].coordinate;
            lemma_index_bound(c.x as int, c.y as int, o.width as int, o.height as int);
            assert(o.idx(c) != o.index_of(to));
            assert(m.cells@[m.idx(c)] == Cell::Empty);
        }
        let r = self.spawn(child);
        proof {
            Environment::lemma_frame_trans(o, m, *self);
            let c = o.arena@[id as int].coordinate;
            let t = m.arena@[id as int].coordinate;
            assert(self.arena@[id as int] == m.arena@[id as int]);
            assert(m.idx(t) != m.idx(c));
        }
        r
    }
}

impl Environment {
    /// Replaces the kind-specific state of a record; the grid is untouched.
    pub fn set_body(&mut self, id: usize, body: crate::AgentBody)
        requires
            old(self).wf(),
            old(self).consistent(),
            id < old(self).arena@.len(),
            (body is Fish) == old(self).arena@[id as int].is_fish(),
        ensures
            old(self).frame(*final(self)),
            final(self).cells@ == old(self).cells@,
            final(self).arena@ == old(self).arena@.update(
                id as int,
                AgentRef { body, ..old(self).arena@[id as int] },
            ),
    {
        let ghost o = *self;
        let mut rec = self.arena[id];
        rec.body = body;
        self.arena.set(id, rec);
        proof {
            let n = *self;
            assert forall|i: int|
                0 <= i < n.cells@.len() && (#[trigger] n.cells@[i]) is Filled implies {
                    let k = n.cells@[i]->Filled_0;
                    (k < o.arena@.len() && o.placed(k))
                } by {
                assert(o.cells@[i] is Filled);
            }
            assert forall|k: usize|
                k < o.arena@.len() && #[trigger] o.placed(k) && (!n.marked(k)
                    || !n.arena@[k as int].is_fish()) implies n.placed(k) by {}
            assert forall|k: usize| #[trigger] o.marked(k) implies n.marked(k) by {}
        }
    }
}

impl Environment {
    /// Empties the cell that holds agent `id`, if any cell does.
    pub fn vacate(&mut self, id: usize)
        requires
            old(self).wf(),
            old(self).consistent(),
            id < old(self).arena@.len(),
        ensures
            final(self).wf(),
            final(self).consistent(),
            final(self).same_shape(*old(self)),
            final(self).arena@ == old(self).arena@,
            forall|i: int|
                0 <= i < old(self).cells@.len() ==> #[trigger] final(self).cells@[i] == (if old(
                    self,
                ).cells@[i] == Cell::Filled(id) {
                    Cell::Empty
                } else {
                    old(self).cells@[i]
                }),
            final(self).cells@.len() == old(self).cells@.len(),
    {
        let ghost o = *self;
        let c = self.arena[id].coordinate;
        if 0 <= c.x && c.x < self.width && 0 <= c.y && c.y < self.height {
            proof {
                lemma_index_bound(c.x as int, c.y as int, o.width as int, o.height as int);
            }
            let k = (c.y as usize) * (self.width as usize) + (c.x as usize);
            if self.cells[k] == Cell::Filled(id) {
                self.cells.set(k, Cell::Empty);
            }
        }
        proof {
            assert forall|i: int|
                0 <= i < o.cells@.len() && o.cells@[i] == Cell::Filled(id) implies self.cells@[i]
                == Cell::Empty by {
                assert(o.cells@[i] is Filled);
            }
            let n = *self;
            assert forall|i: int|
                0 <= i < n.cells@.len() && (#[trigger] n.cells@[i]) is Filled implies {
                    let j = n.cells@[i]->Filled_0;
                    &&& j < n.arena@.len()
                    &&& n.in_range(n.arena@[j as int].coordinate)
                    &&& n.idx(n.arena@[j as int].coordinate) == i
                } by {
                assert(o.cells@[i] is Filled);
            }
        }
    }
}

} // verus!
