//! The tile grid of a level and its per-tile state.

use vstd::prelude::*;

use crate::geometry::{Point, Rect};

verus! {

/// What a tile is made of.
#[derive(Clone, Copy, Debug, PartialEq, Eq, Structural)]
pub enum TileKind {
    Wall,
    Floor,
}

impl TileKind {
    /// Returns whether an entity can walk on this tile.
    pub fn is_walkable(self) -> (r: bool)
        ensures
            r == (self == TileKind::Floor),
    {
        match self {
            TileKind::Wall => false,
            TileKind::Floor => true,
        }
    }

    /// Returns whether this tile blocks sight.
    pub fn is_solid(self) -> (r: bool)
        ensures
            r == (self == TileKind::Wall),
    {
        match self {
            TileKind::Wall => true,
            TileKind::Floor => false,
        }
    }
}

/// The state of one tile.
#[derive(Clone, Copy, Debug, PartialEq, Eq, Structural)]
pub struct TileState {
    pub kind: TileKind,
    pub revealed: bool,
    pub visible: bool,
    pub blocked: bool,
}

/// A rectangular grid of tiles together with the rooms carved into it.
///
/// Tiles are stored row by row: the tile at `(x, y)` has index `y * width + x`.
pub struct WorldMap {
    width: u32,
    height: u32,
    rooms: Vec<Rect>,
    tiles: Vec<TileState>,
}

/// Index of `(x, y)` in a row-major grid of the given width.
pub open spec fn grid_index(width: int, x: int, y: int) -> int {
    y * width + x
}

pub proof fn lemma_grid_index(width: int, height: int, x: int, y: int)
    requires
        0 <= x < width,
        0 <= y < height,
    ensures
        0 <= grid_index(width, x, y) < width * height,
{
    assert(0 <= y * width + x < width * height) by (nonlinear_arith)
        requires
            0 <= x < width,
            0 <= y < height,
    ;
}

pub proof fn lemma_grid_index_injective(width: int, x1: int, y1: int, x2: int, y2: int)
    requires
        0 <= x1 < width,
        0 <= x2 < width,
        0 <= y1,
        0 <= y2,
        grid_index(width, x1, y1) == grid_index(width, x2, y2),
    ensures
        x1 == x2,
        y1 == y2,
{
    if y1 < y2 {
        assert(y1 * width + x1 < y2 * width + x2) by (nonlinear_arith)
            requires
                y1 + 1 <= y2,
                0 <= x1 < width,
                0 <= x2,
        ;
    } else if y2 < y1 {
        assert(y2 * width + x2 < y1 * width + x1) by (nonlinear_arith)
            requires
                y2 + 1 <= y1,
                0 <= x2 < width,
                0 <= x1,
        ;
    }
}

/// The offset to the `k`-th neighbour: the four sides first, then the four corners.
pub open spec fn neighbour_delta(k: int) -> (int, int) {
    if k == 0 {
        (0, 1)
    } else if k == 1 {
        (1, 0)
    } else if k == 2 {
        (0, -1)
    } else if k == 3 {
        (-1, 0)
    } else if k == 4 {
        (1, 1)
    } else if k == 5 {
        (1, -1)
    } else if k == 6 {
        (-1, -1)
    } else {
        (-1, 1)
    }
}

fn neighbour_delta_exec(k: usize) -> (r: (i32, i32))
    ensures
        r.0 == neighbour_delta(k as int).0,
        r.1 == neighbour_delta(k as int).1,
{
    if k == 0 {
        (0, 1)
    } else if k == 1 {
        (1, 0)
    } else if k == 2 {
        (0, -1)
    } else if k == 3 {
        (-1, 0)
    } else if k == 4 {
        (1, 1)
    } else if k == 5 {
        (1, -1)
    } else if k == 6 {
        (-1, -1)
    } else {
        (-1, 1)
    }
}

impl WorldMap {
    /// The number of columns.
    pub closed spec fn spec_width(&self) -> nat {
        self.width as nat
    }

    /// The number of rows.
    pub closed spec fn spec_height(&self) -> nat {
        self.height as nat
    }

    /// The state of the tile at `p`; meaningful where `p` is in bounds.
    pub closed spec fn tile(&self, p: Point) -> TileState {
        self.tiles@[grid_index(self.width as int, p.x as int, p.y as int)]
    }

    /// The blocked flags of the tiles, row by row.
    pub closed spec fn blocked_grid(&self) -> Seq<bool> {
        self.tiles@.map_values(|t: TileState| t.blocked)
    }

    /// The rooms in the order in which they were carved.
    pub closed spec fn room_list(&self) -> Seq<Rect> {
        self.rooms@
    }

    /// The grid holds exactly one tile per coordinate.
    pub closed spec fn wf(&self) -> bool {
        self.tiles@.len() == self.width * self.height
    }

    pub proof fn lemma_dims(&self)
        ensures
            self.spec_width() <= u32::MAX,
            self.spec_height() <= u32::MAX,
    {
    }

    pub open spec fn in_bounds(&self, p: Point) -> bool {
        p.x < self.spec_width() && p.y < self.spec_height()
    }

    pub open spec fn is_floor(&self, p: Point) -> bool {
        self.in_bounds(p) && self.tile(p).kind == TileKind::Floor
    }

    pub open spec fn is_blocked(&self, p: Point) -> bool {
        self.in_bounds(p) && self.tile(p).blocked
    }

    /// Every in-bounds tile other than those selected by `changed` keeps its state.
    pub open spec fn same_tiles_except(&self, other: &WorldMap, changed: spec_fn(Point) -> bool) -> bool {
        forall|q: Point| self.in_bounds(q) && !changed(q) ==> #[trigger] self.tile(q) == other.tile(q)
    }

    /// Same size, same rooms.
    pub open spec fn same_shape(&self, other: &WorldMap) -> bool {
        &&& self.spec_width() == other.spec_width()
        &&& self.spec_height() == other.spec_height()
        &&& self.room_list() == other.room_list()
        &&& (self.wf() <==> other.wf())
    }

    proof fn lemma_index(&self, p: Point)
        requires
            self.wf(),
            self.in_bounds(p),
        ensures
            0 <= grid_index(self.width as int, p.x as int, p.y as int) < self.tiles@.len(),
    {
        lemma_grid_index(self.width as int, self.height as int, p.x as int, p.y as int);
    }

    proof fn lemma_index_injective(&self, p: Point, q: Point)
        requires
            self.in_bounds(p),
            self.in_bounds(q),
            p != q,
        ensures
            grid_index(self.width as int, p.x as int, p.y as int) != grid_index(
                self.width as int,
                q.x as int,
                q.y as int,
            ),
    {
        if grid_index(self.width as int, p.x as int, p.y as int) == grid_index(
            self.width as int,
            q.x as int,
            q.y as int,
        ) {
            lemma_grid_index_injective(self.width as int, p.x as int, p.y as int, q.x as int, q.y as int);
        }
    }

    /// Creates a map of the given size made of walls only, with no rooms. Every tile
    /// is blocked, hidden and not yet revealed.
    pub fn new(width: u32, height: u32) -> (r: WorldMap)
        requires
            width * height <= usize::MAX,
        ensures
            r.wf(),
            r.spec_width() == width,
            r.spec_height() == height,
            r.room_list().len() == 0,
            forall|p: Point| #[trigger]
                r.in_bounds(p) ==> r.tile(p) == (TileState {
                    kind: TileKind::Wall,
                    revealed: false,
                    visible: false,
                    blocked: true,
                }),
    {
        let n: usize = width as usize * height as usize;
        let wall = TileState { kind: TileKind::Wall, revealed: false, visible: false, blocked: true };
        let mut tiles: Vec<TileState> = Vec::with_capacity(n);
        let mut i: usize = 0;
        while i < n
            invariant
                i <= n,
                tiles@.len() == i,
                forall|j: int| 0 <= j < i ==> tiles@[j] == wall,
            decreases n - i,
        {
            tiles.push(wall);
            i = i + 1;
        }
        let r = WorldMap { width, height, rooms: Vec::new(), tiles };
        assert forall|p: Point| #[trigger] r.in_bounds(p) implies r.tile(p) == wall by {
            r.lemma_index(p);
        }
        r
    }

    fn index_of(&self, p: Point) -> (r: Option<usize>)
        requires
            self.wf(),
        ensures
            r is Some <==> self.in_bounds(p),
            r is Some ==> r->0 == grid_index(self.width as int, p.x as int, p.y as int),
            r is Some ==> r->0 < self.tiles@.len(),
    {
        let n = self.tiles.len();
        if p.x < self.width && p.y < self.height {
            proof {
                self.lemma_index(p);
                assert(p.y * self.width <= p.y * self.width + p.x) by (nonlinear_arith)
                    requires
                        p.x >= 0,
                ;
            }
            Some(p.y as usize * self.width as usize + p.x as usize)
        } else {
            None
        }
    }

    /// Returns the map's width, i.e. the number of columns.
    pub fn width(&self) -> (r: u32)
        ensures
            r == self.spec_width(),
    {
        self.width
    }

    /// Returns the map's height, i.e. the number of rows.
    pub fn height(&self) -> (r: u32)
        ensures
            r == self.spec_height(),
    {
        self.height
    }

    /// Returns the rooms carved into this map.
    pub fn rooms(&self) -> (r: &Vec<Rect>)
        ensures
            r@ == self.room_list(),
    {
        &self.rooms
    }

    /// Returns the kind of the tile at `p`, or `None` out of bounds.
    pub fn get(&self, p: Point) -> (r: Option<TileKind>)
        requires
            self.wf(),
        ensures
            r == (if self.in_bounds(p) { Some(self.tile(p).kind) } else { None::<TileKind> }),
    {
        match self.index_of(p) {
            Some(i) => Some(self.tiles[i].kind),
            None => None,
        }
    }

    /// Returns whether the tile at `p` has been revealed, or `None` out of bounds.
    pub fn revealed(&self, p: Point) -> (r: Option<bool>)
        requires
            self.wf(),
        ensures
            r == (if self.in_bounds(p) { Some(self.tile(p).revealed) } else { None::<bool> }),
    {
        match self.index_of(p) {
            Some(i) => Some(self.tiles[i].revealed),
            None => None,
        }
    }

    /// Returns whether the tile at `p` is currently visible, or `None` out of bounds.
    pub fn visible(&self, p: Point) -> (r: Option<bool>)
        requires
            self.wf(),
        ensures
            r == (if self.in_bounds(p) { Some(self.tile(p).visible) } else { None::<bool> }),
    {
        match self.index_of(p) {
            Some(i) => Some(self.tiles[i].visible),
            None => None,
        }
    }

    /// Returns whether the tile at `p` is currently blocked, or `None` out of bounds.
    pub fn blocked(&self, p: Point) -> (r: Option<bool>)
        requires
            self.wf(),
        ensures
            r == (if self.in_bounds(p) { Some(self.tile(p).blocked) } else { None::<bool> }),
    {
        match self.index_of(p) {
            Some(i) => Some(self.tiles[i].blocked),
            None => None,
        }
    }

    /// Replaces the state of the tile at `p`; does nothing out of bounds.
    fn put(&mut self, p: Point, t: TileState)
        requires
            old(self).wf(),
        ensures
            final(self).wf(),
            final(self).same_shape(old(self)),
            old(self).in_bounds(p) ==> final(self).tile(p) == t,
            final(self).same_tiles_except(old(self), |q: Point| q == p),
    {
        match self.index_of(p) {
            Some(i) => {
                self.tiles.set(i, t);
                proof {
                    assert forall|q: Point| #[trigger] self.in_bounds(q) && q != p implies self.tile(q)
                        == old(self).tile(q) by {
                        old(self).lemma_index(q);
                        old(self).lemma_index_injective(p, q);
                    }
                }
            },
            None => {},
        }
    }

    /// Changes the kind of the tile at `p`, leaving its flags as they are; does
    /// nothing out of bounds.
    pub fn set_kind(&mut self, p: Point, kind: TileKind)
        requires
            old(self).wf(),
        ensures
            final(self).wf(),
            final(self).same_shape(old(self)),
            old(self).in_bounds(p) ==> final(self).tile(p) == (TileState { kind, ..old(self).tile(p) }),
            final(self).same_tiles_except(old(self), |q: Point| q == p),
    {
        if let Some(i) = self.index_of(p) {
            let t = TileState { kind, ..self.tiles[i] };
            self.put(p, t);
        }
    }

    /// Marks the tile at `p` as revealed; does nothing out of bounds.
    pub fn mark_revealed(&mut self, p: Point)
        requires
            old(self).wf(),
        ensures
            final(self).wf(),
            final(self).same_shape(old(self)),
            old(self).in_bounds(p) ==> final(self).tile(p) == (TileState { revealed: true, ..old(self).tile(p) }),
            final(self).same_tiles_except(old(self), |q: Point| q == p),
    {
        if let Some(i) = self.index_of(p) {
            let t = TileState { revealed: true, ..self.tiles[i] };
            self.put(p, t);
        }
    }

    /// Changes the visibility of the tile at `p`; does nothing out of bounds.
    pub fn set_visible(&mut self, p: Point, visible: bool)
        requires
            old(self).wf(),
        ensures
            final(self).wf(),
            final(self).same_shape(old(self)),
            old(self).in_bounds(p) ==> final(self).tile(p) == (TileState { visible, ..old(self).tile(p) }),
            final(self).same_tiles_except(old(self), |q: Point| q == p),
    {
        if let Some(i) = self.index_of(p) {
            let t = TileState { visible, ..self.tiles[i] };
            self.put(p, t);
        }
    }

    /// Changes the blocked flag of the tile at `p`; does nothing out of bounds.
    pub fn set_blocked(&mut self, p: Point, blocked: bool)
        requires
            old(self).wf(),
        ensures
            final(self).wf(),
            final(self).same_shape(old(self)),
            old(self).in_bounds(p) ==> final(self).tile(p) == (TileState { blocked, ..old(self).tile(p) }),
            final(self).same_tiles_except(old(self), |q: Point| q == p),
    {
        if let Some(i) = self.index_of(p) {
            let t = TileState { blocked, ..self.tiles[i] };
            self.put(p, t);
        }
    }

    /// Resets every tile's blocked flag from its kind: walls are blocked, floors
    /// are not.
    pub fn reload_blocked_tiles(&mut self)
        requires
            old(self).wf(),
        ensures
            final(self).wf(),
            final(self).same_shape(old(self)),
            forall|p: Point| #[trigger]
                final(self).in_bounds(p) ==> final(self).tile(p) == (TileState {
                    blocked: old(self).tile(p).kind == TileKind::Wall,
                    ..old(self).tile(p)
                }),
    {
        let n = self.tiles.len();
        let mut i: usize = 0;
        while i < n
            invariant
                i <= n,
                n == self.tiles@.len(),
                self.width == old(self).width,
                self.height == old(self).height,
                self.rooms == old(self).rooms,
                n == old(self).tiles@.len(),
                forall|j: int|
                    0 <= j < i ==> #[trigger] self.tiles@[j] == (TileState {
                        blocked: old(self).tiles@[j].kind == TileKind::Wall,
                        ..old(self).tiles@[j]
                    }),
                forall|j: int| i <= j < n ==> #[trigger] self.tiles@[j] == old(self).tiles@[j],
            decreases n - i,
        {
            let t = self.tiles[i];
            let blocked = !t.kind.is_walkable();
            self.tiles.set(i, TileState { blocked, ..t });
            i = i + 1;
        }
        proof {
            assert forall|p: Point| #[trigger] self.in_bounds(p) implies self.tile(p) == (
            TileState { blocked: old(self).tile(p).kind == TileKind::Wall, ..old(self).tile(p) }) by {
                old(self).lemma_index(p);
            }
        }
    }

    /// Marks every tile as not visible.
    pub fn clear_visibility(&mut self)
        requires
            old(self).wf(),
        ensures
            final(self).wf(),
            final(self).same_shape(old(self)),
            forall|p: Point| #[trigger]
                final(self).in_bounds(p) ==> final(self).tile(p) == (TileState {
                    visible: false,
                    ..old(self).tile(p)
                }),
    {
        let n = self.tiles.len();
        let mut i: usize = 0;
        while i < n
            invariant
                i <= n,
                n == self.tiles@.len(),
                self.width == old(self).width,
                self.height == old(self).height,
                self.rooms == old(self).rooms,
                n == old(self).tiles@.len(),
                forall|j: int|
                    0 <= j < i ==> #[trigger] self.tiles@[j] == (TileState {
                        visible: false,
                        ..old(self).tiles@[j]
                    }),
                forall|j: int| i <= j < n ==> #[trigger] self.tiles@[j] == old(self).tiles@[j],
            decreases n - i,
        {
            let t = self.tiles[i];
            self.tiles.set(i, TileState { visible: false, ..t });
            i = i + 1;
        }
        proof {
            assert forall|p: Point| #[trigger] self.in_bounds(p) implies self.tile(p) == (
            TileState { visible: false, ..old(self).tile(p) }) by {
                old(self).lemma_index(p);
            }
        }
    }

    /// Appends a room to the room list; tiles are left as they are.
    pub(crate) fn push_room(&mut self, room: Rect)
        ensures
            final(self).room_list() == old(self).room_list().push(room),
            final(self).spec_width() == old(self).spec_width(),
            final(self).spec_height() == old(self).spec_height(),
            final(self).wf() == old(self).wf(),
            forall|q: Point| #[trigger] final(self).tile(q) == old(self).tile(q),
    {
        self.rooms.push(room);
    }

    /// The exits among the first `k` neighbours of `p`, in the order of
    /// `neighbour_delta`.
    pub open spec fn exits_upto(&self, p: Point, k: int) -> Seq<Point>
        decreases k,
    {
        if k <= 0 {
            Seq::empty()
        } else {
            let prev = self.exits_upto(p, k - 1);
            let (dx, dy) = neighbour_delta(k - 1);
            let q = Point { x: (p.x + dx) as u32, y: (p.y + dy) as u32 };
            if 0 <= p.x + dx <= u32::MAX && 0 <= p.y + dy <= u32::MAX && self.in_bounds(q) && !self.tile(q).blocked {
                prev.push(q)
            } else {
                prev
            }
        }
    }

    /// The unblocked neighbours of `p`: cardinal directions first, then diagonals.
    pub open spec fn exits(&self, p: Point) -> Seq<Point> {
        self.exits_upto(p, 8)
    }

    /// Computes all the unblocked positions next to `p`, sides first and corners
    /// after. Positions off the map are never exits.
    pub fn get_adjacent_exits(&self, p: Point) -> (r: Vec<Point>)
        requires
            self.wf(),
        ensures
            r@ == self.exits(p),
    {
        let mut r: Vec<Point> = Vec::new();
        let mut k: usize = 0;
        while k < 8
            invariant
                self.wf(),
                k <= 8,
                r@ == self.exits_upto(p, k as int),
            decreases 8 - k,
        {
            let (dx, dy) = neighbour_delta_exec(k);
            if let Some(q) = p.checked_translate(dx, dy) {
                if let Some(false) = self.blocked(q) {
                    r.push(q);
                }
            }
            assert(r@ == self.exits_upto(p, k + 1));
            k = k + 1;
        }
        r
    }
}

} // verus!
