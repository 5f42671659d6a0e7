//! The room-and-corridor level generator.

use vstd::prelude::*;

use crate::geometry::{Point, Rect};
use crate::map::{TileKind, TileState, WorldMap};
use crate::rng::{gen_bool, gen_range, thread_rng};

verus! {

/// How many rooms the generator tries to place.
pub const MAX_ROOMS: usize = 30;

/// Smallest side of a room, walls included.
pub const MIN_SIZE: u32 = 7;

/// Bound on the side of a room, walls included; never reached.
pub const MAX_SIZE: u32 = 12;

/// Whether `p` and `q` share a side: one step along a row or a column.
pub open spec fn side_by_side(p: Point, q: Point) -> bool {
    ||| p.x == q.x && (p.y + 1 == q.y || q.y + 1 == p.y)
    ||| p.y == q.y && (p.x + 1 == q.x || q.x + 1 == p.x)
}

/// Whether `p` lies inside room `i` of `rooms`, or on the corridor from the room
/// before it.
pub open spec fn carved_by(rooms: Seq<Rect>, i: int, p: Point) -> bool {
    0 <= i < rooms.len() && (rooms[i].interior_contains(p) || (i > 0 && on_corridor(
        rooms[i - 1].spec_center(),
        rooms[i].spec_center(),
        p,
    )))
}

/// Whether `p` lies on a row of `a` or `b` between their columns, or on a column of
/// `a` or `b` between their rows.
pub open spec fn on_corridor(a: Point, b: Point, p: Point) -> bool {
    ||| (p.y == a.y || p.y == b.y) && (a.x <= p.x <= b.x || b.x <= p.x <= a.x)
    ||| (p.x == a.x || p.x == b.x) && (a.y <= p.y <= b.y || b.y <= p.y <= a.y)
}

impl WorldMap {
    /// `path` is a non-empty walk over floor tiles, each step to a tile that shares
    /// a side with the one before.
    pub open spec fn is_floor_path(&self, path: Seq<Point>) -> bool {
        &&& path.len() >= 1
        &&& forall|k: int| 0 <= k < path.len() ==> self.is_floor(#[trigger] path[k])
        &&& forall|k: int| 0 <= k < path.len() - 1 ==> #[trigger] side_by_side(path[k], path[k + 1])
    }

    /// One can walk from `a` to `b` over floor tiles.
    pub open spec fn floor_connected(&self, a: Point, b: Point) -> bool {
        exists|path: Seq<Point>| #[trigger] self.is_floor_path(path) && path[0] == a && path.last() == b
    }

    /// `room` lies inside the map with a wall all around it, and is large enough
    /// to have a floor.
    pub open spec fn room_fits(&self, room: Rect) -> bool {
        &&& 1 <= room.bl.x
        &&& 1 <= room.bl.y
        &&& room.bl.x + 2 <= room.tr.x
        &&& room.bl.y + 2 <= room.tr.y
        &&& room.tr.x + 2 <= self.spec_width()
        &&& room.tr.y + 2 <= self.spec_height()
    }

    /// The level's rooms are well placed: each fits in the map, its interior is
    /// floor, no two of them touch, and the center of each can be reached from the
    /// center of every other by steps along rows and columns over floor.
    pub open spec fn is_dungeon(&self) -> bool {
        let rooms = self.room_list();
        &&& self.wf()
        &&& forall|i: int| 0 <= i < rooms.len() ==> self.room_fits(#[trigger] rooms[i])
        &&& forall|i: int, p: Point|
            0 <= i < rooms.len() && #[trigger] rooms[i].interior_contains(p) ==> self.is_floor(p)
        &&& forall|i: int, j: int|
            0 <= i < rooms.len() && 0 <= j < rooms.len() && i != j ==> !#[trigger] rooms[i].overlaps(
                rooms[j],
            )
        &&& forall|i: int, j: int|
            0 <= i < rooms.len() && 0 <= j < rooms.len() ==> #[trigger] self.floor_connected(
                rooms[i].spec_center(),
                rooms[j].spec_center(),
            )
    }

    /// Whether `p` is part of a room or of a corridor: it lies inside a room, or on
    /// the outline of the rectangle spanned by the centers of two rooms carved one
    /// after the other (which holds both L-shaped ways to join them).
    pub open spec fn carved(&self, p: Point) -> bool {
        exists|i: int| #[trigger] carved_by(self.room_list(), i, p)
    }

    /// Every floor tile is part of a room or of a corridor; all others are walls.
    pub open spec fn only_carved(&self) -> bool {
        forall|p: Point| #[trigger] self.is_floor(p) ==> self.carved(p)
    }

    /// No tile has been revealed or is in view.
    pub open spec fn pristine(&self) -> bool {
        forall|p: Point| self.in_bounds(p) ==> !#[trigger] self.tile(p).revealed && !self.tile(p).visible
    }

    /// Whether `p` is a tile of the outer edge of the map.
    pub open spec fn on_border(&self, p: Point) -> bool {
        self.in_bounds(p) && (p.x == 0 || p.y == 0 || p.x + 1 == self.spec_width() || p.y + 1 == self.spec_height())
    }

    /// Every tile keeps the flags it has in `other`; only its kind may differ.
    pub open spec fn flags_kept(&self, other: &WorldMap) -> bool {
        forall|q: Point| self.in_bounds(q) ==> #[trigger] self.tile(q) == (TileState { kind: self.tile(q).kind, ..other.tile(q) })
    }

    /// Every floor tile of `self` is one of `other` or lies in `region`.
    pub open spec fn floor_added_only(&self, other: &WorldMap, region: spec_fn(Point) -> bool) -> bool {
        forall|q: Point| #[trigger] self.is_floor(q) ==> other.is_floor(q) || region(q)
    }

    /// Every floor tile of `self` is a floor tile of `other`.
    pub open spec fn floor_within(&self, other: &WorldMap) -> bool {
        forall|q: Point| #[trigger] self.is_floor(q) ==> other.is_floor(q)
    }
}

pub proof fn lemma_connected_mono(m1: &WorldMap, m2: &WorldMap, a: Point, b: Point)
    requires
        m1.floor_connected(a, b),
        m1.floor_within(m2),
    ensures
        m2.floor_connected(a, b),
{
    let path = choose|path: Seq<Point>| #[trigger] m1.is_floor_path(path) && path[0] == a && path.last() == b;
    assert(m2.is_floor_path(path));
}

pub proof fn lemma_connected_refl(m: &WorldMap, a: Point)
    requires
        m.is_floor(a),
    ensures
        m.floor_connected(a, a),
{
    let path = seq![a];
    assert(m.is_floor_path(path));
}

pub proof fn lemma_connected_sym(m: &WorldMap, a: Point, b: Point)
    requires
        m.floor_connected(a, b),
    ensures
        m.floor_connected(b, a),
{
    let path = choose|path: Seq<Point>| #[trigger] m.is_floor_path(path) && path[0] == a && path.last() == b;
    let n = path.len();
    let rev = Seq::new(n, |k: int| path[n - 1 - k]);
    assert forall|k: int| 0 <= k < rev.len() - 1 implies #[trigger] side_by_side(rev[k], rev[k + 1]) by {
        assert(side_by_side(path[n - 2 - k], path[n - 2 - k + 1]));
    }
    assert forall|k: int| 0 <= k < rev.len() implies m.is_floor(#[trigger] rev[k]) by {
        assert(m.is_floor(path[n - 1 - k]));
    }
    assert(m.is_floor_path(rev));
    assert(rev[0] == b && rev.last() == a);
}

pub proof fn lemma_connected_trans(m: &WorldMap, a: Point, b: Point, c: Point)
    requires
        m.floor_connected(a, b),
        m.floor_connected(b, c),
    ensures
        m.floor_connected(a, c),
{
    let p1 = choose|path: Seq<Point>| #[trigger] m.is_floor_path(path) && path[0] == a && path.last() == b;
    let p2 = choose|path: Seq<Point>| #[trigger] m.is_floor_path(path) && path[0] == b && path.last() == c;
    let tail = p2.subrange(1, p2.len() as int);
    let path = p1 + tail;
    let n1 = p1.len() as int;
    assert forall|k: int| 0 <= k < path.len() implies m.is_floor(#[trigger] path[k]) by {
        if k < n1 {
            assert(path[k] == p1[k]);
        } else {
            assert(path[k] == p2[k - n1 + 1]);
        }
    }
    assert forall|k: int| 0 <= k < path.len() - 1 implies #[trigger] side_by_side(path[k], path[k + 1]) by {
        if k < n1 - 1 {
            assert(path[k] == p1[k] && path[k + 1] == p1[k + 1]);
            assert(side_by_side(p1[k], p1[k + 1]));
        } else if k == n1 - 1 {
            assert(path[k] == p2[0] && path[k + 1] == p2[1]);
            assert(side_by_side(p2[0int], p2[0int + 1]));
        } else {
            let j = k - n1 + 1;
            assert(path[k] == p2[j] && path[k + 1] == p2[j + 1]);
            assert(side_by_side(p2[j], p2[j + 1]));
        }
    }
    assert(m.is_floor_path(path));
    if p2.len() == 1 {
        assert(path.last() == p1.last());
    } else {
        assert(path.last() == p2.last());
    }
}

/// A straight run of floor along a row connects its two ends.
pub proof fn lemma_row_connected(m: &WorldMap, x1: u32, x2: u32, y: u32)
    requires
        x1 <= x2,
        forall|x: u32| x1 <= x <= x2 ==> #[trigger] m.is_floor(Point { x, y }),
    ensures
        m.floor_connected(Point { x: x1, y }, Point { x: x2, y }),
{
    let path = Seq::new((x2 - x1 + 1) as nat, |k: int| Point { x: (x1 + k) as u32, y });
    assert forall|k: int| 0 <= k < path.len() implies m.is_floor(#[trigger] path[k]) by {
        let x = (x1 + k) as u32;
        assert(m.is_floor(Point { x, y }));
    }
    assert forall|k: int| 0 <= k < path.len() - 1 implies #[trigger] side_by_side(path[k], path[k + 1]) by {}
    assert(m.is_floor_path(path));
    assert(path.last() == Point { x: x2, y });
}

/// A straight run of floor along a column connects its two ends.
pub proof fn lemma_column_connected(m: &WorldMap, x: u32, y1: u32, y2: u32)
    requires
        y1 <= y2,
        forall|y: u32| y1 <= y <= y2 ==> #[trigger] m.is_floor(Point { x, y }),
    ensures
        m.floor_connected(Point { x, y: y1 }, Point { x, y: y2 }),
{
    let path = Seq::new((y2 - y1 + 1) as nat, |k: int| Point { x, y: (y1 + k) as u32 });
    assert forall|k: int| 0 <= k < path.len() implies m.is_floor(#[trigger] path[k]) by {
        let y = (y1 + k) as u32;
        assert(m.is_floor(Point { x, y }));
    }
    assert forall|k: int| 0 <= k < path.len() - 1 implies #[trigger] side_by_side(path[k], path[k + 1]) by {}
    assert(m.is_floor_path(path));
    assert(path.last() == Point { x, y: y2 });
}

/// A map whose floor only grew, with the same rooms, is still a well-placed level.
pub proof fn lemma_dungeon_mono(m1: &WorldMap, m2: &WorldMap)
    requires
        m1.is_dungeon(),
        m2.wf(),
        m1.room_list() == m2.room_list(),
        m1.spec_width() == m2.spec_width(),
        m1.spec_height() == m2.spec_height(),
        m1.floor_within(m2),
    ensures
        m2.is_dungeon(),
{
    let rooms = m1.room_list();
    assert forall|i: int, j: int| 0 <= i < rooms.len() && 0 <= j < rooms.len() implies #[trigger] m2.floor_connected(
        rooms[i].spec_center(),
        rooms[j].spec_center(),
    ) by {
        assert(m1.floor_connected(rooms[i].spec_center(), rooms[j].spec_center()));
        lemma_connected_mono(m1, m2, rooms[i].spec_center(), rooms[j].spec_center());
    }
    assert forall|i: int, p: Point| 0 <= i < rooms.len() && #[trigger] rooms[i].interior_contains(p) implies m2.is_floor(p) by {
        assert(m1.is_floor(p));
    }
}

/// One tile `p` of `region` turned to floor: flags stay, and the floor grows only
/// inside `region`.
proof fn lemma_kind_step(before: &WorldMap, after: &WorldMap, start: &WorldMap, p: Point, region: spec_fn(Point) -> bool)
    requires
        before.flags_kept(start),
        before.floor_added_only(start, region),
        before.same_shape(start),
        after.same_shape(before),
        region(p),
        before.in_bounds(p) ==> after.tile(p) == (TileState { kind: TileKind::Floor, ..before.tile(p) }),
        after.same_tiles_except(before, |q: Point| q == p),
    ensures
        after.flags_kept(start),
        after.floor_added_only(start, region),
{
    assert forall|q: Point| after.in_bounds(q) implies #[trigger] after.tile(q) == (TileState { kind: after.tile(q).kind, ..start.tile(q) }) by {
        assert(before.in_bounds(q));
        assert(before.tile(q) == (TileState { kind: before.tile(q).kind, ..start.tile(q) }));
    }
    assert forall|q: Point| #[trigger] after.is_floor(q) implies start.is_floor(q) || region(q) by {
        if q != p {
            assert(after.tile(q) == before.tile(q));
            assert(before.is_floor(q));
        }
    }
}

proof fn lemma_carved_after_push(m0: &WorldMap, fin: &WorldMap, room: Rect, pc: Point)
    requires
        m0.only_carved(),
        fin.room_list() == m0.room_list().push(room),
        m0.room_list().len() > 0 ==> pc == m0.room_list()[m0.room_list().len() - 1].spec_center(),
        forall|q: Point| #[trigger] fin.is_floor(q) ==> m0.is_floor(q) || room.interior_contains(q) || (
            m0.room_list().len() > 0 && on_corridor(pc, room.spec_center(), q)),
    ensures
        fin.only_carved(),
{
    let n = m0.room_list().len() as int;
    let rooms = fin.room_list();
    assert forall|q: Point| #[trigger] fin.is_floor(q) implies fin.carved(q) by {
        if m0.is_floor(q) {
            assert(m0.carved(q));
            let i = choose|i: int| #[trigger] carved_by(m0.room_list(), i, q);
            assert(rooms[i] == m0.room_list()[i]);
            if i > 0 {
                assert(rooms[i - 1] == m0.room_list()[i - 1]);
            }
            assert(carved_by(rooms, i, q));
        } else {
            assert(rooms[n] == room);
            if n > 0 {
                assert(rooms[n - 1] == m0.room_list()[n - 1]);
            }
            assert(carved_by(rooms, n, q));
        }
    }
}

/// The size of `room`, walls included, is in `[MIN_SIZE, MAX_SIZE)` both ways.
pub open spec fn room_sized(room: Rect) -> bool {
    &&& MIN_SIZE <= room.tr.x - room.bl.x + 1 < MAX_SIZE
    &&& MIN_SIZE <= room.tr.y - room.bl.y + 1 < MAX_SIZE
}

/// In a level whose floor is made of rooms and corridors only, the outer edge is
/// all walls.
pub proof fn lemma_border_walls(m: &WorldMap)
    requires
        m.is_dungeon(),
        m.only_carved(),
    ensures
        forall|p: Point| #[trigger] m.on_border(p) ==> m.tile(p).kind == TileKind::Wall,
{
    let rooms = m.room_list();
    assert forall|p: Point| #[trigger] m.on_border(p) implies m.tile(p).kind == TileKind::Wall by {
        if m.tile(p).kind != TileKind::Wall {
            assert(m.is_floor(p));
            assert(m.carved(p));
            let i = choose|i: int| #[trigger] carved_by(rooms, i, p);
            assert(m.room_fits(rooms[i]));
            if i > 0 {
                assert(m.room_fits(rooms[i - 1]));
            }
        }
    }
}

impl WorldMap {
    /// Turns the interior of `room` into floor.
    fn create_room(&mut self, room: &Rect)
        requires
            old(self).wf(),
            old(self).room_fits(*room),
        ensures
            final(self).wf(),
            final(self).same_shape(old(self)),
            old(self).floor_within(final(self)),
            forall|p: Point| #[trigger] room.interior_contains(p) ==> final(self).is_floor(p),
            final(self).flags_kept(old(self)),
            final(self).floor_added_only(old(self), |q: Point| room.interior_contains(q)),
    {
        let mut y: u32 = room.bl.y + 1;
        while y < room.tr.y
            invariant
                self.wf(),
                self.same_shape(old(self)),
                old(self).floor_within(self),
                old(self).room_fits(*room),
                room.bl.y + 1 <= y <= room.tr.y,
                forall|p: Point| #[trigger] room.interior_contains(p) && p.y < y ==> self.is_floor(p),
                self.flags_kept(old(self)),
                self.floor_added_only(old(self), |q: Point| room.interior_contains(q)),
            decreases room.tr.y - y,
        {
            let mut x: u32 = room.bl.x + 1;
            while x < room.tr.x
                invariant
                    self.wf(),
                    self.same_shape(old(self)),
                    old(self).floor_within(self),
                    old(self).room_fits(*room),
                    room.bl.y + 1 <= y < room.tr.y,
                    room.bl.x + 1 <= x <= room.tr.x,
                    forall|p: Point| #[trigger] room.interior_contains(p) && (p.y < y || (p.y == y && p.x < x)) ==> self.is_floor(p),
                    self.flags_kept(old(self)),
                    self.floor_added_only(old(self), |q: Point| room.interior_contains(q)),
                decreases room.tr.x - x,
            {
                let ghost before = *self;
                self.set_kind(Point { x, y }, TileKind::Floor);
                assert(before.floor_within(self));
                proof {
                    lemma_kind_step(&before, self, old(self), Point { x, y }, |q: Point| room.interior_contains(q));
                }
                x = x + 1;
            }
            y = y + 1;
        }
    }

    /// Turns the row `y` between columns `x1` and `x2` into floor.
    fn create_horizontal_corridor(&mut self, x1: u32, x2: u32, y: u32)
        requires
            old(self).wf(),
            x1 < old(self).spec_width(),
            x2 < old(self).spec_width(),
            y < old(self).spec_height(),
        ensures
            final(self).wf(),
            final(self).same_shape(old(self)),
            old(self).floor_within(final(self)),
            forall|x: u32|
                (x1 <= x <= x2 || x2 <= x <= x1) ==> #[trigger] final(self).is_floor(Point { x, y }),
            final(self).flags_kept(old(self)),
            final(self).floor_added_only(old(self), |q: Point| q.y == y && (x1 <= q.x <= x2 || x2 <= q.x <= x1)),
    {
        let lo = if x1 <= x2 { x1 } else { x2 };
        let hi = if x1 <= x2 { x2 } else { x1 };
        let w = self.width();
        let mut x: u32 = lo;
        while x <= hi
            invariant
                w == self.spec_width(),
                hi < w,
                self.wf(),
                self.same_shape(old(self)),
                old(self).floor_within(self),
                lo <= x <= hi + 1,
                hi < self.spec_width(),
                y < self.spec_height(),
                forall|z: u32| lo <= z < x ==> #[trigger] self.is_floor(Point { x: z, y }),
                self.flags_kept(old(self)),
                self.floor_added_only(old(self), |q: Point| q.y == y && (x1 <= q.x <= x2 || x2 <= q.x <= x1)),
                lo == (if x1 <= x2 { x1 } else { x2 }),
                hi == (if x1 <= x2 { x2 } else { x1 }),
            decreases hi + 1 - x,
        {
            let ghost before = *self;
            self.set_kind(Point { x, y }, TileKind::Floor);
            proof {
                lemma_kind_step(&before, self, old(self), Point { x, y }, |q: Point| q.y == y && (x1 <= q.x <= x2 || x2 <= q.x <= x1));
            }
            assert forall|q: Point| #[trigger] before.is_floor(q) implies self.is_floor(q) by {
                if q != (Point { x, y }) {
                    assert(self.tile(q) == before.tile(q));
                }
            }
            assert forall|z: u32| lo <= z < x + 1 implies #[trigger] self.is_floor(Point { x: z, y }) by {
                if z < x {
                    assert(before.is_floor(Point { x: z, y }));
                }
            }
            x = x + 1;
        }
    }

    /// Turns the column `x` between rows `y1` and `y2` into floor.
    fn create_vertical_corridor(&mut self, y1: u32, y2: u32, x: u32)
        requires
            old(self).wf(),
            y1 < old(self).spec_height(),
            y2 < old(self).spec_height(),
            x < old(self).spec_width(),
        ensures
            final(self).wf(),
            final(self).same_shape(old(self)),
            old(self).floor_within(final(self)),
            forall|y: u32|
                (y1 <= y <= y2 || y2 <= y <= y1) ==> #[trigger] final(self).is_floor(Point { x, y }),
            final(self).flags_kept(old(self)),
            final(self).floor_added_only(old(self), |q: Point| q.x == x && (y1 <= q.y <= y2 || y2 <= q.y <= y1)),
    {
        let lo = if y1 <= y2 { y1 } else { y2 };
        let hi = if y1 <= y2 { y2 } else { y1 };
        let h = self.height();
        let mut y: u32 = lo;
        while y <= hi
            invariant
                h == self.spec_height(),
                hi < h,
                self.wf(),
                self.same_shape(old(self)),
                old(self).floor_within(self),
                lo <= y <= hi + 1,
                hi < self.spec_height(),
                x < self.spec_width(),
                forall|z: u32| lo <= z < y ==> #[trigger] self.is_floor(Point { x, y: z }),
                self.flags_kept(old(self)),
                self.floor_added_only(old(self), |q: Point| q.x == x && (y1 <= q.y <= y2 || y2 <= q.y <= y1)),
                lo == (if y1 <= y2 { y1 } else { y2 }),
                hi == (if y1 <= y2 { y2 } else { y1 }),
            decreases hi + 1 - y,
        {
            let ghost before = *self;
            self.set_kind(Point { x, y }, TileKind::Floor);
            proof {
                lemma_kind_step(&before, self, old(self), Point { x, y }, |q: Point| q.x == x && (y1 <= q.y <= y2 || y2 <= q.y <= y1));
            }
            assert forall|q: Point| #[trigger] before.is_floor(q) implies self.is_floor(q) by {
                if q != (Point { x, y }) {
                    assert(self.tile(q) == before.tile(q));
                }
            }
            assert forall|z: u32| lo <= z < y + 1 implies #[trigger] self.is_floor(Point { x, y: z }) by {
                if z < y {
                    assert(before.is_floor(Point { x, y: z }));
                }
            }
            y = y + 1;
        }
    }

    /// Tries to add `room` to the level. The room is refused, and the map left as
    /// it was, where it overlaps a room already there. Otherwise its interior
    /// becomes floor, an L-shaped corridor joins its center to the center of the
    /// room added last (along the row first where `horizontal_first`, along the
    /// column first otherwise), and it is appended to the room list.
    #[verifier::rlimit(60)]
    pub fn place_room(&mut self, room: Rect, horizontal_first: bool) -> (placed: bool)
        requires
            old(self).is_dungeon(),
            old(self).room_fits(room),
        ensures
            final(self).is_dungeon(),
            placed == forall|i: int|
                0 <= i < old(self).room_list().len() ==> !#[trigger] room.overlaps(old(self).room_list()[i]),
            placed ==> final(self).room_list() == old(self).room_list().push(room),
            !placed ==> *final(self) == *old(self),
            final(self).spec_width() == old(self).spec_width(),
            final(self).spec_height() == old(self).spec_height(),
            old(self).floor_within(final(self)),
            old(self).only_carved() ==> final(self).only_carved(),
            old(self).pristine() ==> final(self).pristine(),
            final(self).flags_kept(old(self)),
    {
        let n = self.rooms().len();
        let mut k: usize = 0;
        while k < n
            invariant
                *self == *old(self),
                old(self).is_dungeon(),
                n == self.room_list().len(),
                k <= n,
                forall|i: int| 0 <= i < k ==> !#[trigger] room.overlaps(self.room_list()[i]),
            decreases n - k,
        {
            if room.intersects(&self.rooms()[k]) {
                return false;
            }
            k = k + 1;
        }
        let ghost m0 = *self;
        let c = room.center();
        self.create_room(&room);
        let ghost m1 = *self;
        proof {
            assert(room.interior_contains(c));
            lemma_dungeon_mono(&m0, &m1);
            lemma_connected_refl(&m1, c);
        }
        let ghost pc = if n > 0 { m0.room_list()[n - 1].spec_center() } else { c };
        if n > 0 {
            let prev = self.rooms()[n - 1];
            let p = prev.center();
            proof {
                assert(m1.room_fits(m1.room_list()[n - 1]));
                assert(prev.interior_contains(p));
            }
            let ghost mut mid = *self;
            let corner = if horizontal_first {
                self.create_horizontal_corridor(p.x, c.x, p.y);
                proof {
                    mid = *self;
                }
                self.create_vertical_corridor(p.y, c.y, c.x);
                Point { x: c.x, y: p.y }
            } else {
                self.create_vertical_corridor(p.y, c.y, p.x);
                proof {
                    mid = *self;
                }
                self.create_horizontal_corridor(p.x, c.x, c.y);
                Point { x: p.x, y: c.y }
            };
            let ghost m2 = *self;
            proof {
                if horizontal_first {
                    assert forall|x: u32| (p.x <= x <= c.x || c.x <= x <= p.x) implies #[trigger] m2.is_floor(Point { x, y: p.y }) by {
                        assert(mid.is_floor(Point { x, y: p.y }));
                    }
                    if p.x <= c.x {
                        lemma_row_connected(&m2, p.x, c.x, p.y);
                    } else {
                        lemma_row_connected(&m2, c.x, p.x, p.y);
                        lemma_connected_sym(&m2, corner, p);
                    }
                    if p.y <= c.y {
                        lemma_column_connected(&m2, c.x, p.y, c.y);
                    } else {
                        lemma_column_connected(&m2, c.x, c.y, p.y);
                        lemma_connected_sym(&m2, c, corner);
                    }
                } else {
                    assert forall|y: u32| (p.y <= y <= c.y || c.y <= y <= p.y) implies #[trigger] m2.is_floor(Point { x: p.x, y }) by {
                        assert(mid.is_floor(Point { x: p.x, y }));
                    }
                    if p.y <= c.y {
                        lemma_column_connected(&m2, p.x, p.y, c.y);
                    } else {
                        lemma_column_connected(&m2, p.x, c.y, p.y);
                        lemma_connected_sym(&m2, corner, p);
                    }
                    if p.x <= c.x {
                        lemma_row_connected(&m2, p.x, c.x, c.y);
                    } else {
                        lemma_row_connected(&m2, c.x, p.x, c.y);
                        lemma_connected_sym(&m2, c, corner);
                    }
                }
                lemma_connected_trans(&m2, p, corner, c);
                lemma_dungeon_mono(&m1, &m2);
                lemma_connected_refl(&m2, c);
                assert forall|q: Point| #[trigger] m2.is_floor(q) implies m1.is_floor(q) || on_corridor(p, c, q) by {
                    if !mid.is_floor(q) {
                        assert(m2.is_floor(q));
                    } else {
                        assert(mid.is_floor(q));
                    }
                }
                assert forall|q: Point| m2.in_bounds(q) implies #[trigger] m2.tile(q) == (TileState { kind: m2.tile(q).kind, ..m1.tile(q) }) by {
                    assert(mid.in_bounds(q));
                    assert(mid.tile(q) == (TileState { kind: mid.tile(q).kind, ..m1.tile(q) }));
                }
            }
        }
        let ghost m3 = *self;
        proof {
            if n > 0 {
                assert(pc == self.room_list()[n - 1].spec_center());
            }
            assert forall|q: Point| #[trigger] m3.is_floor(q) implies m0.is_floor(q) || room.interior_contains(q) || (n > 0
                && on_corridor(pc, c, q)) by {
                if n > 0 && !m1.is_floor(q) {
                    assert(m3.is_floor(q));
                } else if m1.is_floor(q) {
                }
            }
            assert forall|q: Point| m3.in_bounds(q) implies #[trigger] m3.tile(q) == (TileState { kind: m3.tile(q).kind, ..m0.tile(q) }) by {
                assert(m1.in_bounds(q));
                assert(m1.tile(q) == (TileState { kind: m1.tile(q).kind, ..m0.tile(q) }));
            }
        }
        self.push_room(room);
        proof {
            let rooms = self.room_list();
            assert(m3.floor_within(self));
            assert forall|i: int, j: int| 0 <= i < rooms.len() && 0 <= j < rooms.len() implies #[trigger] self.floor_connected(
                rooms[i].spec_center(),
                rooms[j].spec_center(),
            ) by {
                if i < n && j < n {
                    assert(m3.floor_connected(rooms[i].spec_center(), rooms[j].spec_center()));
                    lemma_connected_mono(&m3, self, rooms[i].spec_center(), rooms[j].spec_center());
                } else if i == n && j == n {
                    lemma_connected_mono(&m3, self, c, c);
                } else {
                    let o = if i < n { i } else { j };
                    let oc = rooms[o].spec_center();
                    assert(m3.floor_connected(oc, rooms[n - 1].spec_center()));
                    lemma_connected_trans(&m3, oc, rooms[n - 1].spec_center(), c);
                    lemma_connected_mono(&m3, self, oc, c);
                    lemma_connected_sym(self, oc, c);
                }
            }
            assert forall|i: int, p: Point| 0 <= i < rooms.len() && #[trigger] rooms[i].interior_contains(p) implies self.is_floor(p) by {
                if i < n {
                    assert(m3.is_floor(p));
                }
            }
            assert(m3.room_list() == m0.room_list());
            assert forall|i: int| 0 <= i < rooms.len() implies self.room_fits(#[trigger] rooms[i]) by {
                if i < n {
                    assert(m0.room_fits(m0.room_list()[i]));
                }
            }
            assert forall|i: int, j: int| 0 <= i < rooms.len() && 0 <= j < rooms.len() && i != j implies !#[trigger] rooms[i].overlaps(rooms[j]) by {
                if i < n && j < n {
                    assert(!m0.room_list()[i].overlaps(m0.room_list()[j]));
                } else if i < n {
                    assert(!room.overlaps(m0.room_list()[i]));
                } else {
                    assert(!room.overlaps(m0.room_list()[j]));
                }
            }
            assert(self.wf());
            assert forall|q: Point| #[trigger] self.is_floor(q) implies m0.is_floor(q) || room.interior_contains(q) || (n > 0
                && on_corridor(pc, room.spec_center(), q)) by {
                assert(m3.is_floor(q));
            }
            assert forall|q: Point| self.in_bounds(q) implies #[trigger] self.tile(q) == (TileState { kind: self.tile(q).kind, ..m0.tile(q) }) by {
                assert(m3.in_bounds(q));
            }
            if m0.only_carved() {
                lemma_carved_after_push(&m0, self, room, pc);
            }
        }
        true
    }

    /// Generates a level of rooms joined by corridors. `MAX_ROOMS` rooms of random
    /// size and place are tried, each through `place_room`; those that overlap a
    /// room already placed are dropped. The first one always stays. The blocked
    /// flags are then set from the tile kinds. Rooms measure `[MIN_SIZE, MAX_SIZE)`
    /// each way, the floor is made of rooms and corridors only, the outer edge is
    /// wall, and no tile is revealed or in view yet.
    pub fn rooms_and_corridors(width: u32, height: u32) -> (r: WorldMap)
        requires
            width >= MAX_SIZE + 2,
            height >= MAX_SIZE + 2,
            width * height <= usize::MAX,
        ensures
            r.is_dungeon(),
            r.room_list().len() >= 1,
            r.room_list().len() <= MAX_ROOMS,
            r.spec_width() == width,
            r.spec_height() == height,
            forall|p: Point| #[trigger] r.in_bounds(p) ==> r.tile(p).blocked == (r.tile(p).kind == TileKind::Wall),
            r.only_carved(),
            r.pristine(),
            forall|p: Point| #[trigger] r.on_border(p) ==> r.tile(p).kind == TileKind::Wall,
            forall|i: int| 0 <= i < r.room_list().len() ==> room_sized(#[trigger] r.room_list()[i]),
    {
        let mut map = WorldMap::new(width, height);
        let mut rng = thread_rng();
        let mut n: usize = 0;
        while n < MAX_ROOMS
            invariant
                map.is_dungeon(),
                map.only_carved(),
                map.pristine(),
                forall|i: int| 0 <= i < map.room_list().len() ==> room_sized(#[trigger] map.room_list()[i]),
                n > 0 ==> map.room_list().len() >= 1,
                map.room_list().len() <= n,
                n <= MAX_ROOMS,
                map.spec_width() == width,
                map.spec_height() == height,
                width >= MAX_SIZE + 2,
                height >= MAX_SIZE + 2,
            decreases MAX_ROOMS - n,
        {
            let w = gen_range(&mut rng, MIN_SIZE, MAX_SIZE);
            let h = gen_range(&mut rng, MIN_SIZE, MAX_SIZE);
            let x = gen_range(&mut rng, 1, width - w - 1);
            let y = gen_range(&mut rng, 1, height - h - 1);
            let room = Rect::new(x, y, w, h);
            let horizontal_first = gen_bool(&mut rng);
            let ghost m0 = map;
            map.place_room(room, horizontal_first);
            proof {
                assert forall|i: int| 0 <= i < map.room_list().len() implies room_sized(#[trigger] map.room_list()[i]) by {
                    if i < m0.room_list().len() {
                        assert(map.room_list()[i] == m0.room_list()[i]);
                    }
                }
            }
            n = n + 1;
        }
        let ghost before = map;
        map.reload_blocked_tiles();
        proof {
            assert(before.floor_within(&map));
            lemma_dungeon_mono(&before, &map);
            assert forall|p: Point| #[trigger] map.is_floor(p) implies map.carved(p) by {
                assert(before.is_floor(p));
                assert(before.carved(p));
            }
            lemma_border_walls(&map);
        }
        map
    }
}

} // verus!
