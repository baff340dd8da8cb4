//! Ship rooms: walls and their neighbours, the binary mask of a room's open
//! cells, the saved layout of a ship, and the order in which air flows through
//! a room's open cells when it leaks.
use vstd::prelude::*;
use crate::geom::{UVec2, uvec2};

verus! {

/// What a wall touches on each side (the entities there, if any).
pub struct Neighbours {
    pub top: Option<u64>,
    pub bottom: Option<u64>,
    pub right: Option<u64>,
    pub left: Option<u64>,
}

impl Neighbours {
    /// Nothing on any side.
    pub fn default() -> (r: Self)
        ensures
            r.top is None && r.bottom is None && r.right is None && r.left is None,
    {
        Neighbours { top: None, bottom: None, right: None, left: None }
    }

    /// Whether nothing is on any side.
    pub fn is_all_none(&self) -> (r: bool)
        ensures
            r == (self.top is None && self.bottom is None && self.right is None && self.left is None),
    {
        self.top.is_none() && self.bottom.is_none() && self.right.is_none() && self.left.is_none()
    }
}

/// A wall: what it touches, its hit points, durability and size in tiles.
pub struct Wall {
    pub neighbours: Neighbours,
    pub hp: u8,
    pub durability: u32,
    pub size: [u32; 2],
}

impl Wall {
    /// A wall with these fields, unless it touches nothing.
    pub fn new(neighbours: Neighbours, hp: u8, durability: u32, size: [u32; 2]) -> (r: Option<Self>)
        ensures
            r is None <==> (neighbours.top is None && neighbours.bottom is None && neighbours.right is None
                && neighbours.left is None),
            r matches Option::Some(w) ==> w == (Wall { neighbours, hp, durability, size }),
    {
        if neighbours.is_all_none() {
            return None;
        }
        Some(Wall { neighbours, hp, durability, size })
    }
}

/// A room's binary mask: which of its `size[0]` × `size[1]` cells are open,
/// row by row from the bottom.
pub struct BinMask {
    mask: Vec<bool>,
    pub size: [u32; 2],
}

/// The place of cell (x, y) in a mask `w` cells wide.
pub open spec fn cell_index(w: int, x: int, y: int) -> int {
    y * w + x
}

impl BinMask {
    /// The cells, row by row.
    pub closed spec fn cells(&self) -> Seq<bool> {
        self.mask@
    }

    /// The mask's width, `size[0]`.
    pub closed spec fn width(&self) -> int {
        self.size[0] as int
    }

    /// The mask's height, `size[1]`.
    pub closed spec fn height(&self) -> int {
        self.size[1] as int
    }

    /// The mask holds one cell per place of its `width` × `height` grid, and
    /// every place fits in `u32`.
    pub open spec fn shaped(&self) -> bool {
        &&& self.cells().len() == self.width() * self.height()
        &&& self.width() * self.height() <= u32::MAX
    }

    /// The place of cell (x, y) lies in the mask and is computed without overflow.
    pub open spec fn addressable(&self, x: u32, y: u32) -> bool {
        &&& cell_index(self.width(), x as int, y as int) <= u32::MAX
        &&& cell_index(self.width(), x as int, y as int) < self.cells().len()
    }

    /// A mask of `size[0]` × `size[1]` closed cells.
    pub fn new(size: [u32; 2]) -> (r: Self)
        requires
            size[0] * size[1] <= u32::MAX,
        ensures
            r.width() == size[0],
            r.height() == size[1],
            r.cells() == Seq::new((size[0] * size[1]) as nat, |i: int| false),
            r.shaped(),
    {
        let mut mask: Vec<bool> = Vec::new();
        let mut y: u32 = 0;
        while y < size[1]
            invariant
                size[0] * size[1] <= u32::MAX,
                y <= size[1],
                mask@.len() == y * size[0],
                forall|i: int| 0 <= i < mask@.len() ==> !#[trigger] mask@[i],
            decreases size[1] - y,
        {
            let mut x: u32 = 0;
            while x < size[0]
                invariant
                    size[0] * size[1] <= u32::MAX,
                    y < size[1],
                    x <= size[0],
                    mask@.len() == y * size[0] + x,
                    forall|i: int| 0 <= i < mask@.len() ==> !#[trigger] mask@[i],
                decreases size[0] - x,
            {
                mask.push(false);
                x = x + 1;
            }
            assert(mask@.len() == (y + 1) * size[0]) by (nonlinear_arith)
                requires mask@.len() == y * size[0] + size[0];
            y = y + 1;
        }
        assert(mask@.len() == size[0] * size[1]) by (nonlinear_arith)
            requires mask@.len() == y * size[0], y == size[1];
        let r = BinMask { mask, size };
        assert(r.cells() =~= Seq::new((size[0] * size[1]) as nat, |i: int| false));
        r
    }

    /// Sets cell (x, y) to `v`.
    pub fn insert(&mut self, x: u32, y: u32, v: bool)
        requires
            old(self).addressable(x, y),
        ensures
            final(self).cells() == old(self).cells().update(cell_index(old(self).width(), x as int, y as int), v),
            final(self).width() == old(self).width(),
            final(self).height() == old(self).height(),
            final(self).shaped() == old(self).shaped(),
    {
        let i = y * self.size[0] + x;
        self.mask.set(i as usize, v);
    }

    /// Cell (x, y).
    pub fn get(&self, x: u32, y: u32) -> (r: bool)
        requires
            self.addressable(x, y),
        ensures
            r == self.cells()[cell_index(self.width(), x as int, y as int)],
    {
        let i = y * self.size[0] + x;
        self.mask[i as usize]
    }
}

/// Every cell inside a shaped mask can be read and written.
pub proof fn lemma_mask_in_range(m: &BinMask, x: u32, y: u32)
    requires
        m.shaped(),
        x < m.width(),
        y < m.height(),
    ensures
        m.addressable(x, y),
{
    let w = m.width();
    let h = m.height();
    assert(0 <= cell_index(w, x as int, y as int) < w * h) by (nonlinear_arith)
        requires 0 <= x < w, 0 <= y < h;
}

/// In a mask of `w` × `h` cells, a cell reads back what was last written to it,
/// and every other cell keeps its value.
pub proof fn lemma_mask_read_after_write(cells: Seq<bool>, w: int, h: int, x: int, y: int, v: bool, x2: int, y2: int)
    requires
        cells.len() == w * h,
        0 <= x < w,
        0 <= y < h,
        0 <= x2 < w,
        0 <= y2 < h,
    ensures
        0 <= cell_index(w, x, y) < cells.len(),
        0 <= cell_index(w, x2, y2) < cells.len(),
        cells.update(cell_index(w, x, y), v)[cell_index(w, x, y)] == v,
        (x2, y2) != (x, y)
            ==> cells.update(cell_index(w, x, y), v)[cell_index(w, x2, y2)] == cells[cell_index(w, x2, y2)],
{
    assert(0 <= cell_index(w, x, y) < w * h) by (nonlinear_arith)
        requires 0 <= x < w, 0 <= y < h;
    assert(0 <= cell_index(w, x2, y2) < w * h) by (nonlinear_arith)
        requires 0 <= x2 < w, 0 <= y2 < h;
    assert((x2, y2) != (x, y) ==> cell_index(w, x2, y2) != cell_index(w, x, y)) by (nonlinear_arith)
        requires 0 <= x < w, 0 <= x2 < w;
}

/// The saved layout of a ship: per room, the positions of its tiles and of its
/// walls, and the rooms' sizes.
pub struct ShipSave {
    pub tiles: Vec<Vec<[u32; 2]>>,
    pub walls: Vec<Vec<[u32; 2]>>,
    pub sizes: Vec<[u32; 2]>,
}

impl ShipSave {
    /// A save of `n_rooms` rooms with no tiles or walls yet, and no sizes.
    pub fn new(n_rooms: usize) -> (r: Self)
        ensures
            r.tiles@.len() == n_rooms,
            r.walls@.len() == n_rooms,
            forall|i: int| 0 <= i < n_rooms ==> (#[trigger] r.tiles@[i])@.len() == 0,
            forall|i: int| 0 <= i < n_rooms ==> (#[trigger] r.walls@[i])@.len() == 0,
            r.sizes@.len() == 0,
    {
        let mut tiles: Vec<Vec<[u32; 2]>> = Vec::new();
        let mut i: usize = 0;
        while i < n_rooms
            invariant
                i <= n_rooms,
                tiles@.len() == i,
                forall|j: int| 0 <= j < i ==> (#[trigger] tiles@[j])@.len() == 0,
            decreases n_rooms - i,
        {
            tiles.push(Vec::new());
            i = i + 1;
        }
        let mut walls: Vec<Vec<[u32; 2]>> = Vec::new();
        let mut i: usize = 0;
        while i < n_rooms
            invariant
                i <= n_rooms,
                walls@.len() == i,
                forall|j: int| 0 <= j < i ==> (#[trigger] walls@[j])@.len() == 0,
            decreases n_rooms - i,
        {
            walls.push(Vec::new());
            i = i + 1;
        }
        ShipSave { tiles, walls, sizes: Vec::new() }
    }
}


/// A direction air moves in.
#[derive(Clone, Copy, PartialEq, Eq, Debug, Structural)]
pub enum AirDir {
    Right,
    Left,
    Up,
    Down,
}

/// Air moves from cell `from` into its open neighbour `to`, in direction `dir`.
#[derive(Clone, Copy, PartialEq, Eq, Debug, Structural)]
pub struct FlowStep {
    pub from: UVec2,
    pub to: UVec2,
    pub dir: AirDir,
}

/// Cell (x, y) of a mask `w` cells wide is open.
pub open spec fn open_at(mask: Seq<bool>, w: int, x: int, y: int) -> bool {
    mask[cell_index(w, x, y)]
}

/// The step from (x, y) to (nx, ny) in direction `dir`.
pub open spec fn flow_step(x: int, y: int, nx: int, ny: int, dir: AirDir) -> FlowStep {
    FlowStep { from: UVec2 { x: x as u32, y: y as u32 }, to: UVec2 { x: nx as u32, y: ny as u32 }, dir }
}

/// The steps out of cell (x, y) of a `w` × `h` mask: into each open neighbour
/// inside the mask, right, left, up and down in that order.
pub open spec fn cell_steps(mask: Seq<bool>, w: int, h: int, x: int, y: int) -> Seq<FlowStep> {
    let r = if x + 1 < w && open_at(mask, w, x + 1, y) { seq![flow_step(x, y, x + 1, y, AirDir::Right)] } else { seq![] };
    let l = if x > 0 && open_at(mask, w, x - 1, y) { seq![flow_step(x, y, x - 1, y, AirDir::Left)] } else { seq![] };
    let u = if y + 1 < h && open_at(mask, w, x, y + 1) { seq![flow_step(x, y, x, y + 1, AirDir::Up)] } else { seq![] };
    let d = if y > 0 && open_at(mask, w, x, y - 1) { seq![flow_step(x, y, x, y - 1, AirDir::Down)] } else { seq![] };
    r + l + u + d
}

/// The cells the steps lead to.
pub open spec fn step_targets(steps: Seq<FlowStep>) -> Seq<UVec2> {
    steps.map_values(|f: FlowStep| f.to)
}

/// Visiting cell `s` in a pass whose state is (visited cells by column, next
/// cells to visit, steps so far): a visited cell is skipped; otherwise it is
/// marked visited and its steps are taken, their targets to be visited next.
pub open spec fn visit(mask: Seq<bool>, w: int, h: int, st: (Seq<Seq<bool>>, Seq<UVec2>, Seq<FlowStep>),
    s: UVec2) -> (Seq<Seq<bool>>, Seq<UVec2>, Seq<FlowStep>) {
    let x = s.x as int;
    let y = s.y as int;
    if st.0[x][y] {
        st
    } else {
        let c = cell_steps(mask, w, h, x, y);
        (st.0.update(x, st.0[x].update(y, true)), st.1 + step_targets(c), st.2 + c)
    }
}

/// One pass over the cells to visit, in order.
pub open spec fn flow_round(mask: Seq<bool>, w: int, h: int, v: Seq<Seq<bool>>, frontier: Seq<UVec2>)
    -> (Seq<Seq<bool>>, Seq<UVec2>, Seq<FlowStep>)
    decreases frontier.len(),
{
    if frontier.len() == 0 {
        (v, Seq::empty(), Seq::empty())
    } else {
        visit(mask, w, h, flow_round(mask, w, h, v, frontier.drop_last()), frontier.last())
    }
}

/// The cells of a column not visited yet.
pub open spec fn col_unvisited(c: Seq<bool>) -> nat
    decreases c.len(),
{
    if c.len() == 0 {
        0
    } else {
        col_unvisited(c.drop_last()) + if c.last() { 0nat } else { 1nat }
    }
}

/// The cells not visited yet.
pub open spec fn unvisited(v: Seq<Seq<bool>>) -> nat
    decreases v.len(),
{
    if v.len() == 0 {
        0
    } else {
        unvisited(v.drop_last()) + col_unvisited(v.last())
    }
}

/// The steps of the passes from `frontier` on: passes go on while a pass leaves
/// cells to visit (each such pass visits a new cell).
pub open spec fn flow(mask: Seq<bool>, w: int, h: int, v: Seq<Seq<bool>>, frontier: Seq<UVec2>) -> Seq<FlowStep>
    decreases unvisited(v),
{
    let r = flow_round(mask, w, h, v, frontier);
    if r.1.len() == 0 || unvisited(r.0) >= unvisited(v) {
        r.2
    } else {
        r.2 + flow(mask, w, h, r.0, r.1)
    }
}

/// A `w` × `h` grid of unvisited cells, by column.
pub open spec fn fresh_visits(w: int, h: int) -> Seq<Seq<bool>> {
    Seq::new(w as nat, |x: int| Seq::new(h as nat, |y: int| false))
}

/// The starting cells as pairs.
pub open spec fn starter_cells(starters: Seq<[u32; 2]>) -> Seq<UVec2> {
    starters.map_values(|s: [u32; 2]| UVec2 { x: s[0], y: s[1] })
}

/// The grid of visits has the mask's shape.
pub open spec fn visits_shaped(v: Seq<Seq<bool>>, w: int, h: int) -> bool {
    v.len() == w && forall|x: int| 0 <= x < w ==> #[trigger] v[x].len() == h
}

/// Every cell lies inside the `w` × `h` grid.
pub open spec fn cells_inside(c: Seq<UVec2>, w: int, h: int) -> bool {
    forall|i: int| 0 <= i < c.len() ==> (#[trigger] c[i]).x < w && c[i].y < h
}

proof fn lemma_col_unvisited_mark(c: Seq<bool>, i: int)
    requires
        0 <= i < c.len(),
        !c[i],
    ensures
        col_unvisited(c.update(i, true)) + 1 == col_unvisited(c),
    decreases c.len(),
{
    let c2 = c.update(i, true);
    if i == c.len() - 1 {
        assert(c2.drop_last() =~= c.drop_last());
    } else {
        lemma_col_unvisited_mark(c.drop_last(), i);
        assert(c2.drop_last() =~= c.drop_last().update(i, true));
    }
}

proof fn lemma_unvisited_mark(v: Seq<Seq<bool>>, x: int, y: int)
    requires
        0 <= x < v.len(),
        0 <= y < v[x].len(),
        !v[x][y],
    ensures
        unvisited(v.update(x, v[x].update(y, true))) + 1 == unvisited(v),
    decreases v.len(),
{
    let v2 = v.update(x, v[x].update(y, true));
    if x == v.len() - 1 {
        assert(v2.drop_last() =~= v.drop_last());
        lemma_col_unvisited_mark(v[x], y);
    } else {
        lemma_unvisited_mark(v.drop_last(), x, y);
        assert(v2.drop_last() =~= v.drop_last().update(x, v[x].update(y, true)));
    }
}

/// Cell (x, y) inside a `w` × `h` grid has its place inside the mask.
proof fn lemma_index_inside(w: int, h: int, x: int, y: int)
    requires
        0 <= x < w,
        0 <= y < h,
    ensures
        0 <= cell_index(w, x, y) < w * h,
{
    assert(0 <= y * w + x < w * h) by (nonlinear_arith)
        requires 0 <= x < w, 0 <= y < h;
}

/// The steps out of a cell lead to cells inside the grid.
proof fn lemma_cell_steps_inside(mask: Seq<bool>, w: int, h: int, x: int, y: int)
    requires
        0 <= x < w <= u32::MAX,
        0 <= y < h <= u32::MAX,
    ensures
        cells_inside(step_targets(cell_steps(mask, w, h, x, y)), w, h),
{
}

/// A pass keeps the grid's shape, leaves its next cells inside the grid, never
/// unvisits a cell, and visits a new cell whenever it leaves cells to visit.
proof fn lemma_round_progress(mask: Seq<bool>, w: int, h: int, v: Seq<Seq<bool>>, frontier: Seq<UVec2>)
    requires
        visits_shaped(v, w, h),
        cells_inside(frontier, w, h),
        w <= u32::MAX,
        h <= u32::MAX,
    ensures
        visits_shaped(flow_round(mask, w, h, v, frontier).0, w, h),
        cells_inside(flow_round(mask, w, h, v, frontier).1, w, h),
        unvisited(flow_round(mask, w, h, v, frontier).0) <= unvisited(v),
        flow_round(mask, w, h, v, frontier).1.len() > 0 ==> unvisited(flow_round(mask, w, h, v, frontier).0) < unvisited(v),
    decreases frontier.len(),
{
    if frontier.len() > 0 {
        let prev = flow_round(mask, w, h, v, frontier.drop_last());
        lemma_round_progress(mask, w, h, v, frontier.drop_last());
        let s = frontier.last();
        assert(frontier[frontier.len() - 1] == s);
        let x = s.x as int;
        let y = s.y as int;
        if !prev.0[x][y] {
            lemma_unvisited_mark(prev.0, x, y);
            lemma_cell_steps_inside(mask, w, h, x, y);
            let c = cell_steps(mask, w, h, x, y);
            let n = prev.1 + step_targets(c);
            assert forall|i: int| 0 <= i < n.len() implies (#[trigger] n[i]).x < w && n[i].y < h by {
                if i >= prev.1.len() {
                    assert(n[i] == step_targets(c)[i - prev.1.len()]);
                }
            }
            let v2 = prev.0.update(x, prev.0[x].update(y, true));
            assert forall|i: int| 0 <= i < w implies #[trigger] v2[i].len() == h by {
                assert(prev.0[i].len() == h);
            }
        }
    }
}

impl BinMask {
    /// The steps out of cell (x, y) (see `cell_steps`).
    fn cell_steps_exec(&self, x: u32, y: u32) -> (r: Vec<FlowStep>)
        requires
            self.cells().len() == self.width() * self.height(),
            self.width() * self.height() <= u32::MAX,
            x < self.width(),
            y < self.height(),
        ensures
            r@ == cell_steps(self.cells(), self.width(), self.height(), x as int, y as int),
    {
        let ghost w = self.width();
        let ghost h = self.height();
        let ghost mask = self.cells();
        let sx = self.size[0];
        let sy = self.size[1];
        assert(sx == w && sy == h);
        let mut r: Vec<FlowStep> = Vec::new();
        let ghost c = cell_steps(mask, w, h, x as int, y as int);
        if x + 1 < sx {
            proof { lemma_index_inside(w, h, x + 1, y as int); }
            if self.get(x + 1, y) {
                r.push(FlowStep { from: uvec2(x, y), to: uvec2(x + 1, y), dir: AirDir::Right });
            }
        }
        let ghost r1 = r@;
        if x > 0 {
            proof { lemma_index_inside(w, h, x - 1, y as int); }
            if self.get(x - 1, y) {
                r.push(FlowStep { from: uvec2(x, y), to: uvec2(x - 1, y), dir: AirDir::Left });
            }
        }
        let ghost r2 = r@;
        if y + 1 < sy {
            proof { lemma_index_inside(w, h, x as int, y + 1); }
            if self.get(x, y + 1) {
                r.push(FlowStep { from: uvec2(x, y), to: uvec2(x, y + 1), dir: AirDir::Up });
            }
        }
        let ghost r3 = r@;
        if y > 0 {
            proof { lemma_index_inside(w, h, x as int, y - 1); }
            if self.get(x, y - 1) {
                r.push(FlowStep { from: uvec2(x, y), to: uvec2(x, y - 1), dir: AirDir::Down });
            }
        }
        assert(r@ =~= c);
        r
    }
}

/// The order in which air flows through the open cells of `bin_mask` from the
/// `starters`: passes over the cells to visit, each cell visited once, each
/// visit stepping into its open neighbours (see `flow`).
pub fn air_flow_steps(bin_mask: &BinMask, starters: &Vec<[u32; 2]>) -> (r: Vec<FlowStep>)
    requires
        bin_mask.cells().len() == bin_mask.width() * bin_mask.height(),
        bin_mask.width() * bin_mask.height() <= u32::MAX,
        forall|i: int| 0 <= i < starters@.len() ==> (#[trigger] starters@[i])[0] < bin_mask.width()
            && starters@[i][1] < bin_mask.height(),
    ensures
        r@ == flow(bin_mask.cells(), bin_mask.width(), bin_mask.height(),
            fresh_visits(bin_mask.width(), bin_mask.height()), starter_cells(starters@)),
{
    let ghost w = bin_mask.width();
    let ghost h = bin_mask.height();
    let ghost mask = bin_mask.cells();
    let sx = bin_mask.size[0];
    let sy = bin_mask.size[1];
    assert(sx == w && sy == h);
    let mut visited: Vec<Vec<bool>> = Vec::new();
    let mut i: u32 = 0;
    while i < sx
        invariant
            i <= sx,
            visited@.len() == i,
            forall|a: int| 0 <= a < i ==> (#[trigger] visited@[a])@ == Seq::new(sy as nat, |y: int| false),
        decreases sx - i,
    {
        let mut col: Vec<bool> = Vec::new();
        let mut j: u32 = 0;
        while j < sy
            invariant
                j <= sy,
                col@ == Seq::new(j as nat, |y: int| false),
            decreases sy - j,
        {
            col.push(false);
            j = j + 1;
            assert(col@ =~= Seq::new(j as nat, |y: int| false));
        }
        visited.push(col);
        i = i + 1;
    }
    let mut current: Vec<UVec2> = Vec::new();
    let mut k: usize = 0;
    while k < starters.len()
        invariant
            k <= starters@.len(),
            current@ == starter_cells(starters@).take(k as int),
        decreases starters@.len() - k,
    {
        current.push(uvec2(starters[k][0], starters[k][1]));
        k = k + 1;
        assert(current@ =~= starter_cells(starters@).take(k as int));
    }
    assert(current@ =~= starter_cells(starters@));
    let ghost v0 = visited@.map_values(|c: Vec<bool>| c@);
    assert(v0 =~= fresh_visits(w, h));
    let mut steps: Vec<FlowStep> = Vec::new();
    loop
        invariant
            mask == bin_mask.cells(),
            w == bin_mask.width(), h == bin_mask.height(), sx == w, sy == h,
            mask.len() == w * h,
            w * h <= u32::MAX,
            visits_shaped(visited@.map_values(|c: Vec<bool>| c@), w, h),
            cells_inside(current@, w, h),
            steps@ + flow(mask, w, h, visited@.map_values(|c: Vec<bool>| c@), current@)
                == flow(mask, w, h, fresh_visits(w, h), starter_cells(starters@)),
        decreases unvisited(visited@.map_values(|c: Vec<bool>| c@)),
    {
        let ghost vs = visited@.map_values(|c: Vec<bool>| c@);
        let ghost cur = current@;
        let mut next: Vec<UVec2> = Vec::new();
        let mut round: Vec<FlowStep> = Vec::new();
        let mut k: usize = 0;
        while k < current.len()
            invariant
                mask == bin_mask.cells(),
                w == bin_mask.width(), h == bin_mask.height(), sx == w, sy == h,
                mask.len() == w * h,
                w * h <= u32::MAX,
                cur == current@,
                cells_inside(cur, w, h),
                visits_shaped(vs, w, h),
                k <= cur.len(),
                (visited@.map_values(|c: Vec<bool>| c@), next@, round@) == flow_round(mask, w, h, vs, cur.take(k as int)),
            decreases cur.len() - k,
        {
            proof {
                assert(cur.take(k + 1).drop_last() =~= cur.take(k as int));
                lemma_round_progress(mask, w, h, vs, cur.take(k as int));
                assert(cur[k as int].x < w && cur[k as int].y < h);
            }
            let p = current[k];
            let x = p.x;
            let y = p.y;
            let ghost vb = visited@.map_values(|c: Vec<bool>| c@);
            assert(vb[x as int] == visited@[x as int]@);
            if !visited[x as usize][y as usize] {
                visited[x as usize].set(y as usize, true);
                let ghost nb = next@;
                let ghost rb = round@;
                let cs = bin_mask.cell_steps_exec(x, y);
                let mut m: usize = 0;
                while m < cs.len()
                    invariant
                        m <= cs@.len(),
                        next@ == nb + step_targets(cs@).take(m as int),
                        round@ == rb + cs@.take(m as int),
                    decreases cs@.len() - m,
                {
                    next.push(cs[m].to);
                    round.push(cs[m]);
                    m = m + 1;
                    assert(next@ =~= nb + step_targets(cs@).take(m as int));
                    assert(round@ =~= rb + cs@.take(m as int));
                }
                proof {
                    assert(step_targets(cs@).take(m as int) =~= step_targets(cs@));
                    assert(cs@.take(m as int) =~= cs@);
                    assert(visited@.map_values(|c: Vec<bool>| c@) =~= vb.update(x as int, vb[x as int].update(y as int, true)));
                }
            }
            k = k + 1;
        }
        proof {
            assert(cur.take(k as int) =~= cur);
            lemma_round_progress(mask, w, h, vs, cur);
        }
        if next.len() == 0 {
            steps.append(&mut round);
            return steps;
        }
        let ghost before = steps@;
        steps.append(&mut round);
        current = next;
        proof {
            assert(before + flow(mask, w, h, vs, cur) =~= steps@ + flow(mask, w, h, visited@.map_values(|c: Vec<bool>| c@), current@));
        }
    }
}


/// Step `f` goes from a cell of the `w` × `h` mask into the open neighbouring
/// cell in its direction.
pub open spec fn step_into_open(mask: Seq<bool>, w: int, h: int, f: FlowStep) -> bool {
    &&& f.from.x < w && f.from.y < h && f.to.x < w && f.to.y < h
    &&& open_at(mask, w, f.to.x as int, f.to.y as int)
    &&& match f.dir {
        AirDir::Right => f.to.x == f.from.x + 1 && f.to.y == f.from.y,
        AirDir::Left => f.to.x + 1 == f.from.x && f.to.y == f.from.y,
        AirDir::Up => f.to.x == f.from.x && f.to.y == f.from.y + 1,
        AirDir::Down => f.to.x == f.from.x && f.to.y + 1 == f.from.y,
    }
}

proof fn lemma_cell_steps_open(mask: Seq<bool>, w: int, h: int, x: int, y: int)
    requires
        0 <= x < w <= u32::MAX,
        0 <= y < h <= u32::MAX,
    ensures
        forall|i: int| 0 <= i < cell_steps(mask, w, h, x, y).len()
            ==> step_into_open(mask, w, h, #[trigger] cell_steps(mask, w, h, x, y)[i]),
{
}

proof fn lemma_round_steps_open(mask: Seq<bool>, w: int, h: int, v: Seq<Seq<bool>>, frontier: Seq<UVec2>)
    requires
        visits_shaped(v, w, h),
        cells_inside(frontier, w, h),
        w <= u32::MAX,
        h <= u32::MAX,
    ensures
        forall|i: int| 0 <= i < flow_round(mask, w, h, v, frontier).2.len()
            ==> step_into_open(mask, w, h, #[trigger] flow_round(mask, w, h, v, frontier).2[i]),
    decreases frontier.len(),
{
    if frontier.len() > 0 {
        let prev = flow_round(mask, w, h, v, frontier.drop_last());
        lemma_round_steps_open(mask, w, h, v, frontier.drop_last());
        lemma_round_progress(mask, w, h, v, frontier.drop_last());
        let s = frontier.last();
        assert(frontier[frontier.len() - 1] == s);
        let x = s.x as int;
        let y = s.y as int;
        if !prev.0[x][y] {
            lemma_cell_steps_open(mask, w, h, x, y);
            let c = cell_steps(mask, w, h, x, y);
            let r = flow_round(mask, w, h, v, frontier).2;
            assert(r == prev.2 + c);
            assert forall|i: int| 0 <= i < r.len() implies step_into_open(mask, w, h, #[trigger] r[i]) by {
                if i >= prev.2.len() {
                    assert(r[i] == c[i - prev.2.len()]);
                } else {
                    assert(r[i] == prev.2[i]);
                }
            }
        }
    }
}

/// Air only flows from a cell of the room into the open neighbouring cell
/// in the step's direction.
pub proof fn lemma_flow_steps_open(mask: Seq<bool>, w: int, h: int, v: Seq<Seq<bool>>, frontier: Seq<UVec2>)
    requires
        visits_shaped(v, w, h),
        cells_inside(frontier, w, h),
        w <= u32::MAX,
        h <= u32::MAX,
    ensures
        forall|i: int| 0 <= i < flow(mask, w, h, v, frontier).len()
            ==> step_into_open(mask, w, h, #[trigger] flow(mask, w, h, v, frontier)[i]),
    decreases unvisited(v),
{
    let r = flow_round(mask, w, h, v, frontier);
    lemma_round_steps_open(mask, w, h, v, frontier);
    lemma_round_progress(mask, w, h, v, frontier);
    if !(r.1.len() == 0 || unvisited(r.0) >= unvisited(v)) {
        lemma_flow_steps_open(mask, w, h, r.0, r.1);
        let f = flow(mask, w, h, v, frontier);
        let rest = flow(mask, w, h, r.0, r.1);
        assert(f == r.2 + rest);
        assert forall|i: int| 0 <= i < f.len() implies step_into_open(mask, w, h, #[trigger] f[i]) by {
            if i >= r.2.len() {
                assert(f[i] == rest[i - r.2.len()]);
            } else {
                assert(f[i] == r.2[i]);
            }
        }
    }
}

/// Each step leaves a starting cell or the cell an earlier step led to.
pub open spec fn chained(steps: Seq<FlowStep>, starts: Seq<UVec2>) -> bool {
    forall|i: int| 0 <= i < steps.len() ==>
        starts.contains(#[trigger] steps[i].from)
        || exists|j: int| 0 <= j < i && (#[trigger] steps[j]).to == steps[i].from
}

/// A pass takes steps only out of the cells it visits, and the cells it leaves
/// to visit next are where its steps lead.
proof fn lemma_round_chain(mask: Seq<bool>, w: int, h: int, v: Seq<Seq<bool>>, frontier: Seq<UVec2>)
    ensures
        flow_round(mask, w, h, v, frontier).1 == step_targets(flow_round(mask, w, h, v, frontier).2),
        forall|i: int| 0 <= i < flow_round(mask, w, h, v, frontier).2.len()
            ==> frontier.contains(#[trigger] flow_round(mask, w, h, v, frontier).2[i].from),
    decreases frontier.len(),
{
    if frontier.len() > 0 {
        let prev = flow_round(mask, w, h, v, frontier.drop_last());
        lemma_round_chain(mask, w, h, v, frontier.drop_last());
        let s = frontier.last();
        let x = s.x as int;
        let y = s.y as int;
        let r = flow_round(mask, w, h, v, frontier);
        if !prev.0[x][y] {
            let c = cell_steps(mask, w, h, x, y);
            assert(step_targets(prev.2 + c) =~= step_targets(prev.2) + step_targets(c));
            assert forall|i: int| 0 <= i < r.2.len() implies frontier.contains(#[trigger] r.2[i].from) by {
                if i < prev.2.len() {
                    assert(r.2[i] == prev.2[i]);
                    let k = choose|k: int| 0 <= k < frontier.drop_last().len() && frontier.drop_last()[k] == prev.2[i].from;
                    assert(frontier[k] == frontier.drop_last()[k]);
                } else {
                    assert(r.2[i] == c[i - prev.2.len()]);
                    assert(c[i - prev.2.len()].from == s);
                    assert(frontier[frontier.len() - 1] == s);
                }
            }
        } else {
            assert forall|i: int| 0 <= i < r.2.len() implies frontier.contains(#[trigger] r.2[i].from) by {
                let k = choose|k: int| 0 <= k < frontier.drop_last().len() && frontier.drop_last()[k] == prev.2[i].from;
                assert(frontier[k] == frontier.drop_last()[k]);
            }
        }
    }
}

/// Air reaches every cell it flows out of from the starting cells: each step
/// leaves a starting cell or the cell an earlier step led to.
pub proof fn lemma_flow_chained(mask: Seq<bool>, w: int, h: int, v: Seq<Seq<bool>>, frontier: Seq<UVec2>)
    ensures
        chained(flow(mask, w, h, v, frontier), frontier),
    decreases unvisited(v),
{
    let r = flow_round(mask, w, h, v, frontier);
    lemma_round_chain(mask, w, h, v, frontier);
    let f = flow(mask, w, h, v, frontier);
    if r.1.len() == 0 || unvisited(r.0) >= unvisited(v) {
        assert(f == r.2);
    } else {
        lemma_flow_chained(mask, w, h, r.0, r.1);
        let rest = flow(mask, w, h, r.0, r.1);
        assert(f == r.2 + rest);
        assert forall|i: int| 0 <= i < f.len() implies
            frontier.contains(#[trigger] f[i].from)
            || exists|j: int| 0 <= j < i && (#[trigger] f[j]).to == f[i].from by {
            if i < r.2.len() {
                assert(f[i] == r.2[i]);
            } else {
                let k = i - r.2.len();
                assert(f[i] == rest[k]);
                if r.1.contains(rest[k].from) {
                    let j0 = choose|j0: int| 0 <= j0 < r.1.len() && r.1[j0] == rest[k].from;
                    assert(r.1[j0] == r.2[j0].to);
                    assert(f[j0] == r.2[j0]);
                } else {
                    let j = choose|j: int| 0 <= j < k && (#[trigger] rest[j]).to == rest[k].from;
                    assert(f[r.2.len() + j] == rest[j]);
                }
            }
        }
    }
}

} // verus!
