//! The ship constructor: which cell the cursor selects, and placing or
//! destroying the tile or wall sprite on it.
use vstd::prelude::*;
use crate::geom::{IVec2, ivec2};

verus! {

/// Side of a constructor cell, in world units.
pub const TILE_SIZE_I32: i32 = 32;

/// The cell to act on, and what to do there: `Some(true)` destroys, `Some(false)`
/// places, `None` does nothing.
#[derive(Clone, Copy, PartialEq, Eq, Debug, Structural)]
pub struct PlaceData {
    pub pos: IVec2,
    pub destroy: Option<bool>,
}

/// The sprite placed on each cell (by its entity); each cell is stored once.
pub struct Pos2Entity {
    data: Vec<(IVec2, u64)>,
}

/// The cells of the entries.
pub open spec fn entry_cells(d: Seq<(IVec2, u64)>) -> Seq<IVec2> {
    d.map_values(|e: (IVec2, u64)| e.0)
}

/// The cell-to-entity map of the entries.
pub open spec fn entries_to_map(d: Seq<(IVec2, u64)>) -> Map<IVec2, u64>
    decreases d.len(),
{
    if d.len() == 0 {
        Map::empty()
    } else {
        entries_to_map(d.drop_last()).insert(d.last().0, d.last().1)
    }
}

proof fn lemma_entries_absent(d: Seq<(IVec2, u64)>, k: IVec2)
    requires
        forall|j: int| 0 <= j < d.len() ==> d[j].0 != k,
    ensures
        !entries_to_map(d).contains_key(k),
    decreases d.len(),
{
    if d.len() > 0 {
        lemma_entries_absent(d.drop_last(), k);
    }
}

proof fn lemma_entries_found(d: Seq<(IVec2, u64)>, i: int)
    requires
        entry_cells(d).no_duplicates(),
        0 <= i < d.len(),
    ensures
        entries_to_map(d).contains_key(d[i].0),
        entries_to_map(d)[d[i].0] == d[i].1,
    decreases d.len(),
{
    if i < d.len() - 1 {
        assert(entry_cells(d.drop_last()) =~= entry_cells(d).drop_last());
        assert(entry_cells(d)[i] != entry_cells(d)[d.len() - 1]);
        lemma_entries_found(d.drop_last(), i);
    }
}

/// Removing the entry at `i` removes its cell from the map.
proof fn lemma_entries_remove(d: Seq<(IVec2, u64)>, i: int)
    requires
        entry_cells(d).no_duplicates(),
        0 <= i < d.len(),
    ensures
        entries_to_map(d.remove(i)) == entries_to_map(d).remove(d[i].0),
        entry_cells(d.remove(i)).no_duplicates(),
    decreases d.len(),
{
    let d2 = d.remove(i);
    assert(entry_cells(d2) =~= entry_cells(d).remove(i));
    if i == d.len() - 1 {
        assert(d2 =~= d.drop_last());
        assert forall|j: int| 0 <= j < d.drop_last().len() implies d.drop_last()[j].0 != d[i].0 by {
            assert(entry_cells(d)[j] != entry_cells(d)[i]);
        }
        lemma_entries_absent(d.drop_last(), d[i].0);
        assert(entries_to_map(d2) =~= entries_to_map(d).remove(d[i].0));
    } else {
        assert(entry_cells(d.drop_last()) =~= entry_cells(d).drop_last());
        lemma_entries_remove(d.drop_last(), i);
        assert(d2.drop_last() =~= d.drop_last().remove(i));
        assert(d2.last() == d.last());
        assert(entry_cells(d)[i] != entry_cells(d)[d.len() - 1]);
        assert(entries_to_map(d2) =~= entries_to_map(d).remove(d[i].0));
    }
}

impl Pos2Entity {
    /// The cell-to-entity map.
    pub closed spec fn view_map(&self) -> Map<IVec2, u64> {
        entries_to_map(self.data@)
    }

    /// No cell is stored twice.
    pub closed spec fn wf(&self) -> bool {
        entry_cells(self.data@).no_duplicates()
    }

    /// No placed sprites.
    pub fn new() -> (r: Self)
        ensures
            r.wf(),
            r.view_map() == Map::<IVec2, u64>::empty(),
    {
        let r = Pos2Entity { data: Vec::new() };
        assert(entry_cells(r.data@) =~= Seq::<IVec2>::empty());
        r
    }

    /// Where cell `k` is stored, if it is.
    fn find(&self, k: IVec2) -> (r: Option<usize>)
        requires
            self.wf(),
        ensures
            r matches Option::Some(i) ==> i < self.data@.len() && self.data@[i as int].0 == k,
            r is None ==> !self.view_map().contains_key(k),
            r is None ==> forall|j: int| 0 <= j < self.data@.len() ==> self.data@[j].0 != k,
    {
        let mut i: usize = 0;
        while i < self.data.len()
            invariant
                i <= self.data@.len(),
                forall|j: int| 0 <= j < i ==> self.data@[j].0 != k,
            decreases self.data@.len() - i,
        {
            if self.data[i].0 == k {
                return Some(i);
            }
            i = i + 1;
        }
        proof { lemma_entries_absent(self.data@, k); }
        None
    }

    /// The sprite on cell `k`, if any.
    pub fn get(&self, k: &IVec2) -> (r: Option<u64>)
        requires
            self.wf(),
        ensures
            r matches Option::Some(e) ==> self.view_map().contains_key(*k) && e == self.view_map()[*k],
            r is None ==> !self.view_map().contains_key(*k),
    {
        match self.find(*k) {
            Some(i) => {
                proof { lemma_entries_found(self.data@, i as int); }
                Some(self.data[i].1)
            },
            None => None,
        }
    }

    /// The cells with a sprite, each once.
    pub fn keys(&self) -> (r: Vec<IVec2>)
        requires
            self.wf(),
        ensures
            r@.no_duplicates(),
            forall|k: IVec2| #[trigger] r@.contains(k) <==> self.view_map().contains_key(k),
    {
        let ghost d = self.data@;
        let mut r: Vec<IVec2> = Vec::new();
        let mut i: usize = 0;
        while i < self.data.len()
            invariant
                d == self.data@,
                i <= d.len(),
                r@ == entry_cells(d).take(i as int),
            decreases d.len() - i,
        {
            r.push(self.data[i].0);
            proof { assert(r@ =~= entry_cells(d).take(i + 1)); }
            i = i + 1;
        }
        proof {
            assert(r@ =~= entry_cells(d));
            assert forall|k: IVec2| #[trigger] r@.contains(k) <==> self.view_map().contains_key(k) by {
                if r@.contains(k) {
                    let j = choose|j: int| 0 <= j < r@.len() && r@[j] == k;
                    lemma_entries_found(d, j);
                }
                if self.view_map().contains_key(k) && !r@.contains(k) {
                    assert forall|j: int| 0 <= j < d.len() implies d[j].0 != k by {
                        assert(r@[j] == d[j].0);
                    }
                    lemma_entries_absent(d, k);
                }
            }
        }
        r
    }

    /// Whether a sprite is on cell `k`.
    pub fn contains_key(&self, k: &IVec2) -> (r: bool)
        requires
            self.wf(),
        ensures
            r == self.view_map().contains_key(*k),
    {
        match self.find(*k) {
            Some(i) => {
                proof { lemma_entries_found(self.data@, i as int); }
                true
            },
            None => false,
        }
    }

    /// Records sprite `e` on cell `k`, replacing what was recorded there.
    pub fn insert(&mut self, k: IVec2, e: u64)
        requires
            old(self).wf(),
        ensures
            final(self).wf(),
            final(self).view_map() == old(self).view_map().insert(k, e),
    {
        match self.find(k) {
            Some(i) => {
                let ghost d = self.data@;
                proof { lemma_entries_remove(d, i as int); }
                self.data.remove(i);
                let ghost d2 = self.data@;
                self.data.push((k, e));
                proof {
                    assert(self.data@.drop_last() =~= d2);
                    assert(entry_cells(self.data@) =~= entry_cells(d2).push(k));
                    assert forall|j: int| 0 <= j < d2.len() implies d2[j].0 != k by {
                        if j < i {
                            assert(d2[j] == d[j]);
                            assert(entry_cells(d)[j] != entry_cells(d)[i as int]);
                        } else {
                            assert(d2[j] == d[j + 1]);
                            assert(entry_cells(d)[j + 1] != entry_cells(d)[i as int]);
                        }
                    }
                    lemma_entries_absent(d2, k);
                    assert forall|a: int, b: int| 0 <= a < b < entry_cells(self.data@).len()
                        implies entry_cells(self.data@)[a] != entry_cells(self.data@)[b] by {
                        if b == d2.len() {
                            if d2[a].0 == k {
                                lemma_entries_found(d2, a);
                            }
                        }
                    }
                    assert(self.view_map() =~= old(self).view_map().insert(k, e));
                }
            },
            None => {
                let ghost d = self.data@;
                self.data.push((k, e));
                proof {
                    assert(self.data@.drop_last() =~= d);
                    assert(entry_cells(self.data@) =~= entry_cells(d).push(k));
                    assert forall|a: int, b: int| 0 <= a < b < entry_cells(self.data@).len()
                        implies entry_cells(self.data@)[a] != entry_cells(self.data@)[b] by {
                        if b == d.len() {
                            assert(d[a].0 != k);
                        }
                    }
                }
            },
        }
    }

    /// Forgets the sprite on cell `k`; returns it, if there was one.
    pub fn remove(&mut self, k: &IVec2) -> (r: Option<u64>)
        requires
            old(self).wf(),
        ensures
            final(self).wf(),
            final(self).view_map() == old(self).view_map().remove(*k),
            r matches Option::Some(e) ==> old(self).view_map().contains_key(*k) && e == old(self).view_map()[*k],
            r is None ==> !old(self).view_map().contains_key(*k),
    {
        match self.find(*k) {
            Some(i) => {
                proof {
                    lemma_entries_found(self.data@, i as int);
                    lemma_entries_remove(self.data@, i as int);
                }
                let (_, e) = self.data.remove(i);
                Some(e)
            },
            None => {
                proof {
                    assert(old(self).view_map().remove(*k) =~= old(self).view_map());
                }
                None
            },
        }
    }
}

/// What placing on the selected cell asks of the renderer.
#[derive(Clone, Copy, PartialEq, Eq, Debug, Structural)]
pub enum PlaceAction {
    /// Nothing to do.
    Nothing,
    /// Despawn the sprite `entity` (its cell is forgotten).
    Despawn { entity: u64 },
    /// Spawn a tile sprite (or a wall sprite) on cell `pos`, then record it there.
    Spawn { pos: IVec2, is_tile: bool },
}

/// Placing on the selected cell, when a sprite is selected: destroying removes
/// the sprite on the cell; placing on an empty cell spawns a tile or a wall.
/// The pending action is cleared either way.
pub fn place(place_data: &mut PlaceData, pos2entity: &mut Pos2Entity, has_selected: bool, is_tiles: bool) -> (r: PlaceAction)
    requires
        old(pos2entity).wf(),
    ensures
        final(pos2entity).wf(),
        final(place_data).pos == old(place_data).pos,
        final(place_data).destroy is None,
        ({
            let k = old(place_data).pos;
            let m = old(pos2entity).view_map();
            match old(place_data).destroy {
                Option::Some(d) if has_selected => {
                    if m.contains_key(k) {
                        if d {
                            r == (PlaceAction::Despawn { entity: m[k] }) && final(pos2entity).view_map() == m.remove(k)
                        } else {
                            r == PlaceAction::Nothing && final(pos2entity).view_map() == m
                        }
                    } else if !d {
                        r == (PlaceAction::Spawn { pos: k, is_tile: is_tiles }) && final(pos2entity).view_map() == m
                    } else {
                        r == PlaceAction::Nothing && final(pos2entity).view_map() == m
                    }
                },
                _ => r == PlaceAction::Nothing && final(pos2entity).view_map() == m,
            }
        }),
{
    let mut r = PlaceAction::Nothing;
    if let Some(destroy) = place_data.destroy {
        if has_selected {
            match pos2entity.get(&place_data.pos) {
                Some(entity) => {
                    if destroy {
                        pos2entity.remove(&place_data.pos);
                        r = PlaceAction::Despawn { entity };
                    }
                },
                None => {
                    if !destroy {
                        r = PlaceAction::Spawn { pos: place_data.pos, is_tile: is_tiles };
                    }
                },
            }
        }
        place_data.destroy = None;
    }
    r
}

/// The cell coordinate of a cursor coordinate whose whole part is `whole`
/// (`negative` when the coordinate is below 0): the whole part divided by the
/// cell size, moved one cell down for negative coordinates.
pub open spec fn cell_coord(whole: i32, negative: bool) -> int {
    let q = whole as int / TILE_SIZE_I32 as int;
    let t = if whole < 0 && whole as int % TILE_SIZE_I32 as int != 0 { q + 1 } else { q };
    if negative { t - 1 } else { t }
}

/// The cell coordinate of a cursor coordinate (see `cell_coord`).
pub fn selection_coord(whole: i32, negative: bool) -> (r: i32)
    ensures
        r == cell_coord(whole, negative),
{
    let q = whole / TILE_SIZE_I32;
    if negative { q - 1 } else { q }
}

/// The selection for the cursor cell (whole parts and signs of its coordinates)
/// and the mouse buttons released: the right one places, the left one destroys
/// (and wins when both are released).
pub fn process_selection(x_whole: i32, x_negative: bool, y_whole: i32, y_negative: bool,
    right_released: bool, left_released: bool) -> (r: PlaceData)
    ensures
        r.pos.x == cell_coord(x_whole, x_negative),
        r.pos.y == cell_coord(y_whole, y_negative),
        r.destroy == if left_released { Option::Some(true) } else if right_released { Option::Some(false) } else { Option::None },
{
    let x = selection_coord(x_whole, x_negative);
    let y = selection_coord(y_whole, y_negative);
    let mut destroy = None;
    if right_released {
        destroy = Some(false);
    }
    if left_released {
        destroy = Some(true);
    }
    PlaceData { pos: ivec2(x, y), destroy }
}


/// The four sides of cell `p`: up, down, right, left.
pub open spec fn side_cells(p: IVec2) -> Seq<IVec2> {
    seq![
        IVec2 { x: p.x, y: (p.y + 1) as i32 },
        IVec2 { x: p.x, y: (p.y - 1) as i32 },
        IVec2 { x: (p.x + 1) as i32, y: p.y },
        IVec2 { x: (p.x - 1) as i32, y: p.y },
    ]
}

/// The cells of `m` have all their sides within `i32`.
pub open spec fn cells_fit(m: Set<IVec2>) -> bool {
    forall|p: IVec2| #[trigger] m.contains(p) ==> i32::MIN < p.x < i32::MAX && i32::MIN < p.y < i32::MAX
}

/// Set `w` is closed among the cells `m`: each side of a cell of `w` that is a
/// cell of `m` is in `w` too.
pub open spec fn closed_in(m: Set<IVec2>, w: Set<IVec2>) -> bool {
    forall|p: IVec2, k: int| w.contains(p) && 0 <= k < 4 && m.contains(#[trigger] side_cells(p)[k])
        ==> w.contains(side_cells(p)[k])
}

/// `r` is the room of cell `s` among the cells `m`: the least set of cells of `m`
/// holding `s` and closed among `m` (the cells reached from `s` side by side).
#[verifier::opaque]
pub open spec fn is_room(m: Set<IVec2>, s: IVec2, r: Set<IVec2>) -> bool {
    &&& r.contains(s)
    &&& r.subset_of(m)
    &&& closed_in(m, r)
    &&& forall|w: Set<IVec2>| #[trigger] closed_in(m, w) && w.contains(s) ==> r.subset_of(w)
}

/// The cells of each room.
pub open spec fn room_sets(rooms: Seq<Vec<IVec2>>) -> Seq<Set<IVec2>> {
    rooms.map_values(|r: Vec<IVec2>| r@.to_set())
}

/// The cells of the first `k` rooms.
pub open spec fn rooms_union(rs: Seq<Set<IVec2>>, k: int) -> Set<IVec2>
    decreases k,
{
    if k <= 0 {
        Set::empty()
    } else {
        rooms_union(rs, k - 1).union(rs[k - 1])
    }
}

/// The first of the tiles from index `i` on that is not in `e`.
pub open spec fn first_outside_from(t: Seq<IVec2>, e: Set<IVec2>, i: int) -> Option<IVec2>
    decreases t.len() - i,
{
    if i < 0 || i >= t.len() {
        Option::None
    } else if !e.contains(t[i]) {
        Option::Some(t[i])
    } else {
        first_outside_from(t, e, i + 1)
    }
}

/// The first of the tiles that is not in `e`.
pub open spec fn first_outside(t: Seq<IVec2>, e: Set<IVec2>) -> Option<IVec2> {
    first_outside_from(t, e, 0)
}

/// The cell the `k`-th room is grown from: the first tile for the first room;
/// then the first tile outside the rooms before the previous one.
pub open spec fn room_seed(t: Seq<IVec2>, rs: Seq<Set<IVec2>>, k: int) -> IVec2 {
    if k == 0 { t[0] } else { first_outside(t, rooms_union(rs, k - 1)).unwrap() }
}

/// The number of tiles not in `e`.
pub open spec fn tiles_outside(t: Seq<IVec2>, e: Set<IVec2>) -> nat
    decreases t.len(),
{
    if t.len() == 0 {
        0
    } else {
        tiles_outside(t.drop_last(), e) + if e.contains(t.last()) { 0nat } else { 1nat }
    }
}

/// The number of entries whose cell is not in `v`.
pub open spec fn entries_outside(d: Seq<(IVec2, u64)>, v: Set<IVec2>) -> nat
    decreases d.len(),
{
    if d.len() == 0 {
        0
    } else {
        entries_outside(d.drop_last(), v) + if v.contains(d.last().0) { 0nat } else { 1nat }
    }
}

/// Every cell of `v` is in `w`.
pub open spec fn all_in(v: Seq<IVec2>, w: Set<IVec2>) -> bool {
    forall|i: int| 0 <= i < v.len() ==> w.contains(#[trigger] v[i])
}

/// Every cell of `v` that is a cell of `m` is in `w`.
pub open spec fn all_in_where(v: Seq<IVec2>, m: Set<IVec2>, w: Set<IVec2>) -> bool {
    forall|i: int| 0 <= i < v.len() && m.contains(#[trigger] v[i]) ==> w.contains(v[i])
}

/// Whatever closed set holds `seed` holds the visited cells and the pending cells of `m`.
pub open spec fn bfs_sound(m: Set<IVec2>, seed: IVec2, visited: Seq<IVec2>, pending: Seq<IVec2>) -> bool {
    forall|w: Set<IVec2>| #[trigger] closed_in(m, w) && w.contains(seed) ==> all_in(visited, w) && all_in_where(pending, m, w)
}

/// Each side of a visited cell that is a cell of `m` is visited or pending.
pub open spec fn bfs_covered(m: Set<IVec2>, visited: Seq<IVec2>, pending: Seq<IVec2>) -> bool {
    forall|p: IVec2, k: int| visited.contains(p) && 0 <= k < 4 && m.contains(#[trigger] side_cells(p)[k])
        ==> visited.contains(side_cells(p)[k]) || pending.contains(side_cells(p)[k])
}

proof fn lemma_entries_outside_insert(d: Seq<(IVec2, u64)>, v: Set<IVec2>, p: IVec2)
    ensures
        entries_outside(d, v.insert(p)) <= entries_outside(d, v),
        (exists|j: int| 0 <= j < d.len() && d[j].0 == p) && !v.contains(p)
            ==> entries_outside(d, v.insert(p)) < entries_outside(d, v),
    decreases d.len(),
{
    if d.len() > 0 {
        lemma_entries_outside_insert(d.drop_last(), v, p);
        if (exists|j: int| 0 <= j < d.len() && d[j].0 == p) && !v.contains(p) && d.last().0 != p {
            let j = choose|j: int| 0 <= j < d.len() && d[j].0 == p;
            assert(d.drop_last()[j].0 == p);
        }
    }
}

proof fn lemma_tiles_outside_grow(t: Seq<IVec2>, e1: Set<IVec2>, e2: Set<IVec2>, x: IVec2)
    requires
        e1.subset_of(e2),
    ensures
        tiles_outside(t, e2) <= tiles_outside(t, e1),
        t.contains(x) && !e1.contains(x) && e2.contains(x) ==> tiles_outside(t, e2) < tiles_outside(t, e1),
    decreases t.len(),
{
    if t.len() > 0 {
        lemma_tiles_outside_grow(t.drop_last(), e1, e2, x);
        if t.contains(x) && t.last() != x {
            let j = choose|j: int| 0 <= j < t.len() && t[j] == x;
            assert(t.drop_last()[j] == x);
        }
    }
}

proof fn lemma_rooms_union_push(rs: Seq<Set<IVec2>>, r: Set<IVec2>, k: int)
    requires
        0 <= k <= rs.len(),
    ensures
        rooms_union(rs.push(r), k) == rooms_union(rs, k),
    decreases k,
{
    if k > 0 {
        lemma_rooms_union_push(rs, r, k - 1);
        assert(rs.push(r)[k - 1] == rs[k - 1]);
    }
}

proof fn lemma_first_outside_found(t: Seq<IVec2>, e: Set<IVec2>, i: int)
    requires
        0 <= i,
    ensures
        first_outside_from(t, e, i) matches Option::Some(x) ==> t.contains(x) && !e.contains(x),
    decreases t.len() - i,
{
    if i < t.len() && e.contains(t[i]) {
        lemma_first_outside_found(t, e, i + 1);
    }
    if i < t.len() && !e.contains(t[i]) {
        assert(t[i] == t[i]);
    }
}

/// The cells of a list with one more.
proof fn lemma_push_to_set(a: Seq<IVec2>, x: IVec2)
    ensures
        a.push(x).to_set() == a.to_set().insert(x),
        forall|p: IVec2| a.push(x).contains(p) <==> (a.contains(p) || p == x),
{
    assert forall|p: IVec2| a.push(x).contains(p) <==> (a.contains(p) || p == x) by {
        if a.push(x).contains(p) && p != x {
            let i = choose|i: int| 0 <= i < a.push(x).len() && a.push(x)[i] == p;
            assert(a[i] == p);
        }
        if a.contains(p) {
            let i = choose|i: int| 0 <= i < a.len() && a[i] == p;
            assert(a.push(x)[i] == p);
        }
        if p == x {
            assert(a.push(x)[a.len() as int] == p);
        }
    }
    a.lemma_push_to_set_commute(x);
}

/// The cells of two lists put together.
proof fn lemma_concat_to_set(a: Seq<IVec2>, b: Seq<IVec2>)
    ensures
        (a + b).to_set() == a.to_set().union(b.to_set()),
{
    assert forall|p: IVec2| (a + b).contains(p) <==> (a.contains(p) || b.contains(p)) by {
        if (a + b).contains(p) {
            let i = choose|i: int| 0 <= i < (a + b).len() && (a + b)[i] == p;
            if i < a.len() {
                assert(a[i] == p);
            } else {
                assert(b[i - a.len()] == p);
            }
        }
        if a.contains(p) {
            let i = choose|i: int| 0 <= i < a.len() && a[i] == p;
            assert((a + b)[i] == p);
        }
        if b.contains(p) {
            let i = choose|i: int| 0 <= i < b.len() && b[i] == p;
            assert((a + b)[a.len() + i] == p);
        }
    }
    assert((a + b).to_set() =~= a.to_set().union(b.to_set()));
}

/// A cell of the map is the cell of one of its entries.
proof fn lemma_entry_of_cell(d: Seq<(IVec2, u64)>, p: IVec2)
    requires
        entries_to_map(d).contains_key(p),
    ensures
        exists|j: int| 0 <= j < d.len() && d[j].0 == p,
{
    if !(exists|j: int| 0 <= j < d.len() && d[j].0 == p) {
        lemma_entries_absent(d, p);
    }
}

/// Adding the room of the next seed keeps the earlier rooms and their seeds.
proof fn lemma_push_room(m: Set<IVec2>, t: Seq<IVec2>, rs: Seq<Set<IVec2>>, rset: Set<IVec2>, seed: IVec2)
    requires
        seed == room_seed(t, rs, rs.len() as int),
        rs.len() > 0 ==> first_outside(t, rooms_union(rs, rs.len() - 1)) == Option::Some(seed),
        forall|k: int| 0 <= k < rs.len() ==> is_room(m, room_seed(t, rs, k), #[trigger] rs[k]),
        forall|k: int| 0 <= k < rs.len() - 1 ==> (#[trigger] first_outside(t, rooms_union(rs, k))) is Some,
        is_room(m, seed, rset),
    ensures
        ({
            let rs2 = rs.push(rset);
            &&& forall|k: int| 0 <= k < rs2.len() ==> is_room(m, room_seed(t, rs2, k), #[trigger] rs2[k])
            &&& forall|k: int| 0 <= k < rs2.len() - 1 ==> (#[trigger] first_outside(t, rooms_union(rs2, k))) is Some
            &&& rooms_union(rs2, rs.len() as int) == rooms_union(rs, rs.len() as int)
            &&& rooms_union(rs2, rs2.len() as int) == rooms_union(rs, rs.len() as int).union(rset)
        }),
{
    let rs2 = rs.push(rset);
    let k = rs.len() as int;
    lemma_rooms_union_push(rs, rset, k);
    assert(rs2[k] == rset);
    assert forall|kk: int| 0 <= kk < rs2.len() implies is_room(m, room_seed(t, rs2, kk), #[trigger] rs2[kk]) by {
        if kk > 0 {
            lemma_rooms_union_push(rs, rset, kk - 1);
        }
        if kk < k {
            assert(rs2[kk] == rs[kk]);
        }
    }
    assert forall|kk: int| 0 <= kk < rs2.len() - 1 implies (#[trigger] first_outside(t, rooms_union(rs2, kk))) is Some by {
        lemma_rooms_union_push(rs, rset, kk);
    }
}

/// Each pass makes progress: the tiles outside the rooms, counted twice, plus
/// one when the seed is already inside, go down.
proof fn lemma_rooms_step(t: Seq<IVec2>, ev: Set<IVec2>, ev2: Set<IVec2>, rset: Set<IVec2>, seed: IVec2, next: Option<IVec2>)
    requires
        ev2 == ev.union(rset),
        rset.contains(seed),
        t.contains(seed),
        next == first_outside(t, ev),
    ensures
        next matches Option::Some(n) ==> 2 * tiles_outside(t, ev2) + (if ev2.contains(n) { 1int } else { 0int })
            < 2 * tiles_outside(t, ev) + (if ev.contains(seed) { 1int } else { 0int }),
{
    lemma_first_outside_found(t, ev, 0);
    assert(ev.subset_of(ev2));
    lemma_tiles_outside_grow(t, ev, ev2, seed);
    if let Option::Some(n) = next {
        lemma_tiles_outside_grow(t, ev, ev2, n);
    }
}

/// The first tile (from `i` on) outside `e`.
fn find_outside(tiles: &Vec<IVec2>, every: &Vec<IVec2>) -> (r: Option<IVec2>)
    ensures
        r == first_outside(tiles@, every@.to_set()),
{
    let ghost e = every@.to_set();
    let mut i: usize = 0;
    while i < tiles.len()
        invariant
            e == every@.to_set(),
            i <= tiles@.len(),
            first_outside(tiles@, e) == first_outside_from(tiles@, e, i as int),
        decreases tiles@.len() - i,
    {
        let t = tiles[i];
        if !crate::tile_grid::contains_pos(every, t) {
            assert(!e.contains(t));
            return Some(t);
        }
        assert(e.contains(t));
        i = i + 1;
    }
    None
}

/// The room of `seed` among the cells holding a sprite (see `is_room`), found
/// pass by pass from the seed.
fn room_of(seed: IVec2, map: &Pos2Entity) -> (r: Vec<IVec2>)
    requires
        map.wf(),
        map.view_map().contains_key(seed),
        cells_fit(map.view_map().dom()),
    ensures
        r@.no_duplicates(),
        is_room(map.view_map().dom(), seed, r@.to_set()),
{
    let ghost m = map.view_map().dom();
    let ghost d = map.data@;
    let mut visited: Vec<IVec2> = Vec::new();
    let mut starters: Vec<IVec2> = Vec::new();
    starters.push(seed);
    proof {
        assert(starters@[0] == seed);
        assert forall|w: Set<IVec2>| #[trigger] closed_in(m, w) && w.contains(seed)
            implies all_in(visited@, w) && all_in_where(starters@, m, w) by {
        }
    }
    loop
        invariant
            map.wf(),
            m == map.view_map().dom(),
            d == map.data@,
            m.contains(seed),
            cells_fit(m),
            visited@.no_duplicates(),
            forall|p: IVec2| visited@.contains(p) ==> m.contains(p),
            bfs_sound(m, seed, visited@, starters@),
            bfs_covered(m, visited@, starters@),
            visited@.contains(seed) || starters@.contains(seed),
        decreases entries_outside(d, visited@.to_set()),
    {
        let ghost v0 = visited@;
        let mut next: Vec<IVec2> = Vec::new();
        let mut i: usize = 0;
        proof {
            assert(starters@.skip(0) + next@ =~= starters@);
            assert(starters@ + next@ =~= starters@);
        }
        while i < starters.len()
            invariant
                map.wf(),
                m == map.view_map().dom(),
                d == map.data@,
                m.contains(seed),
                cells_fit(m),
                i <= starters@.len(),
                visited@.no_duplicates(),
                forall|p: IVec2| visited@.contains(p) ==> m.contains(p),
                bfs_sound(m, seed, visited@, starters@ + next@),
                bfs_covered(m, visited@, starters@.skip(i as int) + next@),
                visited@.contains(seed) || (starters@.skip(i as int) + next@).contains(seed),
                entries_outside(d, visited@.to_set()) <= entries_outside(d, v0.to_set()),
                next@.len() > 0 ==> entries_outside(d, visited@.to_set()) < entries_outside(d, v0.to_set()),
            decreases starters@.len() - i,
        {
            let s = starters[i];
            let ghost vb = visited@;
            let ghost nb = next@;
            let ghost pend = starters@.skip(i as int) + next@;
            proof {
                assert(starters@.skip(i as int)[0] == s);
                assert(pend[0] == s);
                assert(starters@.skip(i + 1) + next@ =~= pend.drop_first());
            }
            if map.contains_key(&s) && !crate::tile_grid::contains_pos(&visited, s) {
                visited.push(s);
                let up = ivec2(s.x, s.y + 1);
                let down = ivec2(s.x, s.y - 1);
                let right = ivec2(s.x + 1, s.y);
                let left = ivec2(s.x - 1, s.y);
                next.push(up);
                next.push(down);
                next.push(right);
                next.push(left);
                proof {
                    let sc = side_cells(s);
                    assert(next@ =~= nb + sc);
                    assert(visited@ == vb.push(s));
                    lemma_push_to_set(vb, s);
                    lemma_entry_of_cell(d, s);
                    lemma_entries_outside_insert(d, vb.to_set(), s);
                    assert forall|a: int, b: int| 0 <= a < b < visited@.len() implies visited@[a] != visited@[b] by {
                        if b == vb.len() {
                            assert(vb.contains(vb[a]));
                        }
                    }
                    assert forall|p: IVec2| visited@.contains(p) implies m.contains(p) by {
                        if p != s {
                            let j = choose|j: int| 0 <= j < visited@.len() && visited@[j] == p;
                            assert(vb.contains(vb[j]));
                        }
                    }
                    // soundness: a closed set holding the seed holds s, and so its sides in m
                    assert forall|w: Set<IVec2>| #[trigger] closed_in(m, w) && w.contains(seed)
                        implies all_in(visited@, w) && all_in_where(starters@ + next@, m, w) by {
                        assert(all_in(vb, w) && all_in_where(starters@ + nb, m, w));
                        assert((starters@ + nb)[i as int] == s);
                        assert(w.contains(s));
                        assert forall|j: int| 0 <= j < (starters@ + next@).len() && m.contains(#[trigger] (starters@ + next@)[j])
                            implies w.contains((starters@ + next@)[j]) by {
                            if j < starters@.len() + nb.len() {
                                assert((starters@ + next@)[j] == (starters@ + nb)[j]);
                            } else {
                                let k = j - starters@.len() - nb.len();
                                assert((starters@ + next@)[j] == sc[k]);
                            }
                        }
                        assert forall|j: int| 0 <= j < visited@.len() implies w.contains(#[trigger] visited@[j]) by {
                            if j < vb.len() {
                                assert(visited@[j] == vb[j]);
                            }
                        }
                    }
                    // coverage: the sides of s are pending now; s itself is visited
                    let np = starters@.skip(i + 1) + next@;
                    assert forall|p: IVec2, k: int| visited@.contains(p) && 0 <= k < 4 && m.contains(#[trigger] side_cells(p)[k])
                        implies visited@.contains(side_cells(p)[k]) || np.contains(side_cells(p)[k]) by {
                        let q = side_cells(p)[k];
                        if p == s {
                            assert(np[np.len() - 4 + k] == q);
                        } else {
                            let j = choose|j: int| 0 <= j < visited@.len() && visited@[j] == p;
                            assert(vb.contains(vb[j]));
                            if !visited@.contains(q) {
                                assert(!vb.contains(q));
                                assert(pend.contains(q));
                                let jj = choose|jj: int| 0 <= jj < pend.len() && pend[jj] == q;
                                if jj == 0 {
                                    assert(visited@[vb.len() as int] == q);
                                } else if jj < starters@.len() - i {
                                    assert(np[jj - 1] == q);
                                } else {
                                    assert(np[jj - 1] == q);
                                }
                            }
                        }
                    }
                    if !visited@.contains(seed) {
                        assert(!vb.contains(seed));
                        let jj = choose|jj: int| 0 <= jj < pend.len() && pend[jj] == seed;
                        if jj == 0 {
                            assert(visited@[vb.len() as int] == seed);
                        } else {
                            assert(np[jj - 1] == seed);
                        }
                    }
                }
            } else {
                proof {
                    let np = starters@.skip(i + 1) + next@;
                    assert forall|p: IVec2, k: int| visited@.contains(p) && 0 <= k < 4 && m.contains(#[trigger] side_cells(p)[k])
                        implies visited@.contains(side_cells(p)[k]) || np.contains(side_cells(p)[k]) by {
                        let q = side_cells(p)[k];
                        if !visited@.contains(q) {
                            assert(pend.contains(q));
                            let jj = choose|jj: int| 0 <= jj < pend.len() && pend[jj] == q;
                            if jj == 0 {
                                assert(q == s);
                            } else {
                                assert(np[jj - 1] == q);
                            }
                        }
                    }
                    if !visited@.contains(seed) {
                        let jj = choose|jj: int| 0 <= jj < pend.len() && pend[jj] == seed;
                        if jj == 0 {
                            assert(!m.contains(seed) || visited@.contains(seed));
                        } else {
                            assert(np[jj - 1] == seed);
                        }
                    }
                }
            }
            i = i + 1;
        }
        proof {
            assert(starters@.skip(i as int) + next@ =~= next@);
        }
        if next.len() == 0 {
            proof {
                reveal(is_room);
                let vs = visited@.to_set();
                assert(vs.contains(seed));
                assert forall|p: IVec2, k: int| vs.contains(p) && 0 <= k < 4 && m.contains(#[trigger] side_cells(p)[k])
                    implies vs.contains(side_cells(p)[k]) by {
                    assert(visited@.contains(p));
                }
                assert(vs.subset_of(m));
                assert forall|w: Set<IVec2>| #[trigger] closed_in(m, w) && w.contains(seed) implies vs.subset_of(w) by {
                    assert(all_in(visited@, w));
                    assert forall|p: IVec2| vs.contains(p) implies w.contains(p) by {
                        let j = choose|j: int| 0 <= j < visited@.len() && visited@[j] == p;
                    }
                }
            }
            return visited;
        }
        proof {
            assert forall|w: Set<IVec2>| #[trigger] closed_in(m, w) && w.contains(seed)
                implies all_in(visited@, w) && all_in_where(next@, m, w) by {
                assert(all_in_where(starters@ + next@, m, w));
                assert forall|j: int| 0 <= j < next@.len() && m.contains(#[trigger] next@[j]) implies w.contains(next@[j]) by {
                    assert((starters@ + next@)[starters@.len() + j] == next@[j]);
                }
            }
        }
        starters = next;
    }
}

/// The rooms of the tiles: the room of the first tile, then again and again the
/// room of the first tile outside the rooms before the previous one, until no
/// tile is left outside them (so each room comes twice); one empty room when
/// there are no tiles. A room holds the cells with a sprite reached side by side.
pub fn determine_rooms(tiles: &Vec<IVec2>, pos2entity: &Pos2Entity) -> (rooms: Vec<Vec<IVec2>>)
    requires
        pos2entity.wf(),
        cells_fit(pos2entity.view_map().dom()),
        forall|i: int| 0 <= i < tiles@.len() ==> pos2entity.view_map().contains_key(#[trigger] tiles@[i]),
    ensures
        forall|k: int| 0 <= k < rooms@.len() ==> (#[trigger] rooms@[k])@.no_duplicates(),
        tiles@.len() == 0 ==> rooms@.len() == 1 && rooms@[0]@.len() == 0,
        tiles@.len() > 0 ==> {
            let rs = room_sets(rooms@);
            &&& rooms@.len() >= 1
            &&& forall|k: int| 0 <= k < rs.len() ==> is_room(pos2entity.view_map().dom(), room_seed(tiles@, rs, k), #[trigger] rs[k])
            &&& forall|k: int| 0 <= k < rs.len() - 1 ==> (#[trigger] first_outside(tiles@, rooms_union(rs, k))) is Some
            &&& first_outside(tiles@, rooms_union(rs, rs.len() - 1)) is None
        },
{
    let ghost m = pos2entity.view_map().dom();
    let mut rooms: Vec<Vec<IVec2>> = Vec::new();
    if tiles.len() == 0 {
        rooms.push(Vec::new());
        return rooms;
    }
    let mut every: Vec<IVec2> = Vec::new();
    let mut seed = tiles[0];
    proof {
        assert(tiles@.contains(seed));
        assert(room_sets(rooms@) =~= Seq::<Set<IVec2>>::empty());
        assert(every@.to_set() =~= Set::<IVec2>::empty());
    }
    loop
        invariant
            pos2entity.wf(),
            m == pos2entity.view_map().dom(),
            cells_fit(m),
            forall|i: int| 0 <= i < tiles@.len() ==> pos2entity.view_map().contains_key(#[trigger] tiles@[i]),
            tiles@.len() > 0,
            tiles@.contains(seed),
            seed == room_seed(tiles@, room_sets(rooms@), rooms@.len() as int),
            rooms@.len() > 0 ==> first_outside(tiles@, rooms_union(room_sets(rooms@), rooms@.len() - 1)) == Option::Some(seed),
            every@.to_set() == rooms_union(room_sets(rooms@), rooms@.len() as int),
            forall|k: int| 0 <= k < rooms@.len() ==> (#[trigger] rooms@[k])@.no_duplicates(),
            forall|k: int| 0 <= k < rooms@.len() ==> is_room(m, room_seed(tiles@, room_sets(rooms@), k), #[trigger] room_sets(rooms@)[k]),
            forall|k: int| 0 <= k < rooms@.len() - 1 ==> (#[trigger] first_outside(tiles@, rooms_union(room_sets(rooms@), k))) is Some,
        decreases 2 * tiles_outside(tiles@, every@.to_set()) + if every@.to_set().contains(seed) { 1int } else { 0int },
    {
        let ghost rs = room_sets(rooms@);
        let ghost k = rooms@.len() as int;
        let ghost ev = every@.to_set();
        let room = room_of(seed, pos2entity);
        let next = find_outside(tiles, &every);
        let ghost rset = room@.to_set();
        // every gets the room's cells
        let ghost e0 = every@;
        let mut j: usize = 0;
        while j < room.len()
            invariant
                j <= room@.len(),
                every@ == e0 + room@.take(j as int),
            decreases room@.len() - j,
        {
            every.push(room[j]);
            j = j + 1;
            assert(every@ =~= e0 + room@.take(j as int));
        }
        proof {
            assert(room@.take(j as int) =~= room@);
            lemma_concat_to_set(e0, room@);
        }
        let ghost old_rooms = rooms@;
        rooms.push(room);
        proof {
            let rs2 = room_sets(rooms@);
            assert(rs2 =~= rs.push(rset));
            lemma_push_room(m, tiles@, rs, rset, seed);
            assert forall|kk: int| 0 <= kk < rooms@.len() implies (#[trigger] rooms@[kk])@.no_duplicates() by {
                if kk < k {
                    assert(rooms@[kk] == old_rooms[kk]);
                }
            }
            assert(rset.contains(seed)) by {
                reveal(is_room);
            }
            lemma_rooms_step(tiles@, ev, every@.to_set(), rset, seed, next);
        }
        match next {
            None => {
                return rooms;
            },
            Some(t) => {
                proof {
                    lemma_first_outside_found(tiles@, ev, 0);
                }
                seed = t;
            },
        }
    }
}


/// What drawing the blueprint under the cursor asks of the renderer.
#[derive(Clone, Copy, PartialEq, Eq, Debug, Structural)]
pub enum BlueprintAction {
    /// Redraw the blueprint sprite `entity` with the selected sprite.
    Redraw { entity: u64 },
    /// Spawn a blueprint sprite with the selected sprite (and keep it).
    Spawn,
    /// Despawn the blueprint sprite `entity` (and forget it).
    Despawn { entity: u64 },
    /// Nothing to do.
    Nothing,
}

/// What drawing the blueprint asks for: with a sprite selected, the blueprint
/// sprite is redrawn, or spawned when there is none; with none selected, it is
/// despawned when there is one.
pub open spec fn blueprint_action_spec(blueprint_entity: Option<u64>, has_selected: bool) -> BlueprintAction {
    if has_selected {
        match blueprint_entity {
            Option::Some(e) => BlueprintAction::Redraw { entity: e },
            Option::None => BlueprintAction::Spawn,
        }
    } else {
        match blueprint_entity {
            Option::Some(e) => BlueprintAction::Despawn { entity: e },
            Option::None => BlueprintAction::Nothing,
        }
    }
}

/// The blueprint sprite kept after carrying out `a`, where a spawn makes
/// sprite `spawned`.
pub open spec fn blueprint_after(blueprint_entity: Option<u64>, a: BlueprintAction, spawned: u64) -> Option<u64> {
    match a {
        BlueprintAction::Redraw { entity } => Option::Some(entity),
        BlueprintAction::Spawn => Option::Some(spawned),
        BlueprintAction::Despawn { .. } => Option::None,
        BlueprintAction::Nothing => blueprint_entity,
    }
}

/// Once the blueprint is drawn, a blueprint sprite is kept exactly when a sprite
/// is selected; an existing one is kept rather than a new one spawned, and a
/// new one is spawned only when there was none.
pub proof fn lemma_blueprint_shown_iff_selected(blueprint_entity: Option<u64>, has_selected: bool, spawned: u64)
    ensures
        ({
            let a = blueprint_action_spec(blueprint_entity, has_selected);
            &&& blueprint_after(blueprint_entity, a, spawned) is Some <==> has_selected
            &&& (has_selected && blueprint_entity is Some) ==> blueprint_after(blueprint_entity, a, spawned) == blueprint_entity
            &&& (a is Spawn <==> (has_selected && blueprint_entity is None))
        }),
{
}

/// Drawing the blueprint: with a sprite selected, the blueprint sprite is redrawn,
/// or spawned when there is none; with none selected, it is despawned.
pub fn blueprint_action(blueprint_entity: Option<u64>, has_selected: bool) -> (r: BlueprintAction)
    ensures
        r == blueprint_action_spec(blueprint_entity, has_selected),
{
    if has_selected {
        match blueprint_entity {
            Some(e) => BlueprintAction::Redraw { entity: e },
            None => BlueprintAction::Spawn,
        }
    } else {
        match blueprint_entity {
            Some(e) => BlueprintAction::Despawn { entity: e },
            None => BlueprintAction::Nothing,
        }
    }
}

} // verus!
