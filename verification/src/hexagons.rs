//! Axial hex coordinates, directional offsets, and neighborhood
//! enumeration.
//!
//! A coordinate is a pair of signed integers `(x, y)`.  Six unit offsets
//! name the six neighbors of a cell.  `around` enumerates every coordinate
//! within a given hex distance of a center, in a fixed scan order: rows by
//! increasing `dy`, each row by increasing `dx`.

use vstd::prelude::*;

verus! {

/// An axial coordinate of the hexagonal tiling.
#[derive(PartialEq, Eq, Structural, Clone, Copy, Debug)]
pub struct Coords {
    pub x: i32,
    pub y: i32,
}

/// Result of moving one step to the left.
pub open spec fn spec_to_left(c: Coords) -> Coords {
    Coords { x: (c.x - 1) as i32, y: c.y }
}

/// Result of moving one step to the right.
pub open spec fn spec_to_right(c: Coords) -> Coords {
    Coords { x: (c.x + 1) as i32, y: c.y }
}

/// Result of moving one step up-left.
pub open spec fn spec_to_top_left(c: Coords) -> Coords {
    Coords { x: (c.x - 1) as i32, y: (c.y + 1) as i32 }
}

/// Result of moving one step up-right.
pub open spec fn spec_to_top_right(c: Coords) -> Coords {
    Coords { x: c.x, y: (c.y + 1) as i32 }
}

/// Result of moving one step down-left.
pub open spec fn spec_to_bottom_left(c: Coords) -> Coords {
    Coords { x: c.x, y: (c.y - 1) as i32 }
}

/// Result of moving one step down-right.
pub open spec fn spec_to_bottom_right(c: Coords) -> Coords {
    Coords { x: (c.x + 1) as i32, y: (c.y - 1) as i32 }
}

/// Hex distance between two coordinates: the minimum number of
/// neighbor steps from `a` to `b`.
pub open spec fn hex_dist(a: Coords, b: Coords) -> int {
    let dx = b.x - a.x;
    let dy = b.y - a.y;
    (abs_int(dx) + abs_int(dy) + abs_int(dx + dy)) / 2
}

/// Absolute value of a mathematical integer.
pub open spec fn abs_int(a: int) -> int {
    if a < 0 {
        -a
    } else {
        a
    }
}

impl Coords {
    pub fn new(x: i32, y: i32) -> (r: Coords)
        ensures
            r.x == x,
            r.y == y,
    {
        Coords { x, y }
    }

    pub fn zero() -> (r: Coords)
        ensures
            r.x == 0,
            r.y == 0,
    {
        Coords { x: 0, y: 0 }
    }

    /// Componentwise sum of `self` and `offset`.
    pub fn translate(&self, offset: &Coords) -> (r: Coords)
        requires
            i32::MIN <= self.x + offset.x <= i32::MAX,
            i32::MIN <= self.y + offset.y <= i32::MAX,
        ensures
            r.x == self.x + offset.x,
            r.y == self.y + offset.y,
    {
        Coords::new(self.x + offset.x, self.y + offset.y)
    }

    pub fn to_left(&self) -> (r: Coords)
        requires
            i32::MIN < self.x,
        ensures
            r == spec_to_left(*self),
            r.x == self.x - 1 && r.y == self.y,
    {
        Coords::new(self.x - 1, self.y)
    }

    pub fn to_right(&self) -> (r: Coords)
        requires
            self.x < i32::MAX,
        ensures
            r == spec_to_right(*self),
            r.x == self.x + 1 && r.y == self.y,
    {
        Coords::new(self.x + 1, self.y)
    }

    pub fn to_top_left(&self) -> (r: Coords)
        requires
            i32::MIN < self.x,
            self.y < i32::MAX,
        ensures
            r == spec_to_top_left(*self),
            r.x == self.x - 1 && r.y == self.y + 1,
    {
        Coords::new(self.x - 1, self.y + 1)
    }

    pub fn to_top_right(&self) -> (r: Coords)
        requires
            self.y < i32::MAX,
        ensures
            r == spec_to_top_right(*self),
            r.x == self.x && r.y == self.y + 1,
    {
        Coords::new(self.x, self.y + 1)
    }

    pub fn to_bottom_left(&self) -> (r: Coords)
        requires
            i32::MIN < self.y,
        ensures
            r == spec_to_bottom_left(*self),
            r.x == self.x && r.y == self.y - 1,
    {
        Coords::new(self.x, self.y - 1)
    }

    pub fn to_bottom_right(&self) -> (r: Coords)
        requires
            self.x < i32::MAX,
            i32::MIN < self.y,
        ensures
            r == spec_to_bottom_right(*self),
            r.x == self.x + 1 && r.y == self.y - 1,
    {
        Coords::new(self.x + 1, self.y - 1)
    }
}

// === The neighborhood scan, as a mathematical sequence.
/// First `dx` of the row at vertical offset `dy` of a radius-`r` scan.
pub open spec fn row_lo(r: int, dy: int) -> int {
    if dy < 0 {
        -r - dy
    } else {
        -r
    }
}

/// Last `dx` of the row at vertical offset `dy` of a radius-`r` scan.
pub open spec fn row_hi(r: int, dy: int) -> int {
    if dy < 0 {
        r
    } else {
        r - dy
    }
}

/// Number of coordinates in the row at vertical offset `dy`.
pub open spec fn row_len(r: int, dy: int) -> int {
    row_hi(r, dy) - row_lo(r, dy) + 1
}

/// Number of coordinates in the rows at vertical offsets `-r ..= dy`.
pub open spec fn count_rows(r: int, dy: int) -> int
    decreases dy + r + 1,
{
    if r < 0 || dy < -r {
        0
    } else {
        count_rows(r, dy - 1) + row_len(r, dy)
    }
}

/// The row of the radius-`r` neighborhood of `c` at vertical offset `dy`.
pub open spec fn row_seq(c: Coords, r: int, dy: int) -> Seq<Coords> {
    Seq::new(
        row_len(r, dy) as nat,
        |k: int| Coords { x: (c.x + row_lo(r, dy) + k) as i32, y: (c.y + dy) as i32 },
    )
}

/// The rows of the radius-`r` neighborhood of `c` at vertical offsets
/// `-r ..= dy`, concatenated in scan order.
pub open spec fn rows_up_to(c: Coords, r: int, dy: int) -> Seq<Coords>
    decreases dy + r + 1,
{
    if r < 0 || dy < -r {
        Seq::empty()
    } else {
        rows_up_to(c, r, dy - 1) + row_seq(c, r, dy)
    }
}

/// The whole radius-`r` neighborhood of `c`, in scan order, center
/// included.
pub open spec fn around_seq(c: Coords, r: int) -> Seq<Coords> {
    rows_up_to(c, r, r)
}

proof fn lemma_rows_up_to_len(c: Coords, r: int, dy: int)
    requires
        0 <= r,
        dy <= r,
    ensures
        rows_up_to(c, r, dy).len() == count_rows(r, dy),
        0 <= count_rows(r, dy),
    decreases dy + r + 1,
{
    if dy < -r {
    } else {
        lemma_rows_up_to_len(c, r, dy - 1);
        assert(0 <= row_len(r, dy));
        assert(row_seq(c, r, dy).len() == row_len(r, dy));
    }
}

proof fn lemma_count_rows_neg(r: int, dy: int)
    requires
        0 <= r,
        -r - 1 <= dy <= -1,
    ensures
        2 * count_rows(r, dy) == (dy + r + 1) * (3 * r + dy + 2),
    decreases dy + r + 1,
{
    if dy == -r - 1 {
        assert(count_rows(r, dy) == 0);
        assert((dy + r + 1) * (3 * r + dy + 2) == 0) by (nonlinear_arith)
            requires
                dy + r + 1 == 0,
        ;
    } else {
        lemma_count_rows_neg(r, dy - 1);
        assert(2 * count_rows(r, dy) == (dy + r + 1) * (3 * r + dy + 2)) by (nonlinear_arith)
            requires
                2 * count_rows(r, dy - 1) == (dy + r) * (3 * r + dy + 1),
                count_rows(r, dy) == count_rows(r, dy - 1) + row_len(r, dy),
                row_len(r, dy) == 2 * r + dy + 1,
        ;
    }
}

proof fn lemma_count_rows_all(r: int, dy: int)
    requires
        0 <= r,
        -1 <= dy <= r,
    ensures
        2 * count_rows(r, dy) == r * (3 * r + 1) + (dy + 1) * (4 * r + 2 - dy),
    decreases dy + 2,
{
    if dy == -1 {
        lemma_count_rows_neg(r, -1);
        assert(r * (3 * r + 1) == r * (3 * r + 1) + 0 * (4 * r + 2)) by (nonlinear_arith);
    } else {
        lemma_count_rows_all(r, dy - 1);
        assert(2 * count_rows(r, dy) == r * (3 * r + 1) + (dy + 1) * (4 * r + 2 - dy))
            by (nonlinear_arith)
            requires
                0 <= dy,
                2 * count_rows(r, dy - 1) == r * (3 * r + 1) + dy * (4 * r + 2 - (dy - 1)),
                count_rows(r, dy) == count_rows(r, dy - 1) + row_len(r, dy),
                row_len(r, dy) == 2 * r - dy + 1,
        ;
    }
}

proof fn lemma_count_rows_mono(r: int, a: int, b: int)
    requires
        0 <= r,
        a <= b <= r,
    ensures
        count_rows(r, a) <= count_rows(r, b),
    decreases b - a,
{
    if a < b {
        lemma_count_rows_mono(r, a, b - 1);
        if -r <= b {
            assert(0 <= row_len(r, b));
        }
    }
}

proof fn lemma_rows_up_to_index(c: Coords, r: int, dy: int, dy0: int, k: int)
    requires
        0 <= r,
        -r <= dy0 <= dy <= r,
        0 <= k < row_len(r, dy0),
    ensures
        rows_up_to(c, r, dy)[count_rows(r, dy0 - 1) + k] == row_seq(c, r, dy0)[k],
    decreases dy + r + 1,
{
    lemma_rows_up_to_len(c, r, dy - 1);
    lemma_rows_up_to_len(c, r, dy0 - 1);
    if dy0 == dy {
    } else {
        lemma_rows_up_to_index(c, r, dy - 1, dy0, k);
        lemma_count_rows_mono(r, dy0, dy - 1);
    }
}

/// The radius-`r` scan covers exactly `3 r^2 + 3 r + 1` coordinates.
pub proof fn lemma_around_seq_len(c: Coords, r: int)
    requires
        0 <= r,
    ensures
        around_seq(c, r).len() == 3 * r * r + 3 * r + 1,
{
    lemma_rows_up_to_len(c, r, r);
    lemma_count_rows_all(r, r);
    assert(2 * count_rows(r, r) == 2 * (3 * r * r + 3 * r + 1)) by (nonlinear_arith)
        requires
            2 * count_rows(r, r) == r * (3 * r + 1) + (r + 1) * (4 * r + 2 - r),
    ;
}

/// `e` lies in the rows `-r ..= dymax` of the radius-`r` disc around `c`.
spec fn elem_in_disc(c: Coords, r: int, dymax: int, e: Coords) -> bool {
    &&& c.y - r <= e.y <= c.y + dymax
    &&& row_lo(r, e.y - c.y) <= e.x - c.x <= row_hi(r, e.y - c.y)
}

proof fn lemma_rows_up_to_elems(c: Coords, r: int, dy: int)
    requires
        0 <= r,
        -r - 1 <= dy <= r,
        c.x - r >= i32::MIN,
        c.x + r <= i32::MAX,
        c.y - r >= i32::MIN,
        c.y + r <= i32::MAX,
    ensures
        forall|i: int|
            0 <= i < rows_up_to(c, r, dy).len() ==> elem_in_disc(
                c,
                r,
                dy,
                #[trigger] rows_up_to(c, r, dy)[i],
            ),
        forall|i: int, j: int|
            0 <= i < j < rows_up_to(c, r, dy).len() ==> rows_up_to(c, r, dy)[i] != rows_up_to(
                c,
                r,
                dy,
            )[j],
    decreases dy + r + 1,
{
    if dy < -r {
    } else {
        lemma_rows_up_to_elems(c, r, dy - 1);
        lemma_rows_up_to_len(c, r, dy - 1);
        lemma_rows_up_to_len(c, r, dy);
        let prev = rows_up_to(c, r, dy - 1);
        let whole = rows_up_to(c, r, dy);
        let row = row_seq(c, r, dy);
        assert(0 <= row_len(r, dy));
        assert forall|i: int| 0 <= i < whole.len() implies elem_in_disc(
            c,
            r,
            dy,
            #[trigger] whole[i],
        ) by {
            if i < prev.len() {
                assert(elem_in_disc(c, r, dy - 1, prev[i]));
            } else {
                let k = i - prev.len();
                assert(whole[i] == row[k]);
                assert(row[k].x == c.x + row_lo(r, dy) + k);
                assert(row[k].y == c.y + dy);
            }
        }
        assert forall|i: int, j: int| 0 <= i < j < whole.len() implies whole[i] != whole[j] by {
            if j < prev.len() {
                assert(prev[i] != prev[j]);
            } else if i >= prev.len() {
                let ki = i - prev.len();
                let kj = j - prev.len();
                assert(whole[i] == row[ki]);
                assert(whole[j] == row[kj]);
                assert(row[ki].x == c.x + row_lo(r, dy) + ki);
                assert(row[kj].x == c.x + row_lo(r, dy) + kj);
            } else {
                assert(elem_in_disc(c, r, dy - 1, prev[i]));
                assert(whole[j] == row[j - prev.len()]);
                assert(whole[j].y == c.y + dy);
                assert(whole[i].y <= c.y + dy - 1);
            }
        }
    }
}

/// The radius-`r` neighborhood of `c` has exactly `3 r^2 + 3 r + 1`
/// coordinates, no coordinate is listed twice, every listed coordinate
/// lies within hex distance `r` of the center, and the center itself is
/// listed.
pub proof fn lemma_around_seq_properties(c: Coords, r: int)
    requires
        0 <= r,
        c.x - r >= i32::MIN,
        c.x + r <= i32::MAX,
        c.y - r >= i32::MIN,
        c.y + r <= i32::MAX,
    ensures
        around_seq(c, r).len() == 3 * r * r + 3 * r + 1,
        forall|i: int, j: int|
            0 <= i < j < around_seq(c, r).len() ==> around_seq(c, r)[i] != around_seq(c, r)[j],
        forall|i: int|
            0 <= i < around_seq(c, r).len() ==> hex_dist(c, #[trigger] around_seq(c, r)[i]) <= r,
        around_seq(c, r).contains(c),
{
    lemma_around_seq_len(c, r);
    lemma_rows_up_to_elems(c, r, r);
    let s = around_seq(c, r);
    assert forall|i: int| 0 <= i < s.len() implies hex_dist(c, #[trigger] s[i]) <= r by {
        assert(elem_in_disc(c, r, r, s[i]));
        let dx = s[i].x - c.x;
        let dyy = s[i].y - c.y;
        assert(-r <= dx + dyy <= r);
        assert(abs_int(dx) + abs_int(dyy) + abs_int(dx + dyy) <= 2 * r);
    }
    lemma_rows_up_to_len(c, r, -1);
    lemma_rows_up_to_len(c, r, r);
    lemma_count_rows_mono(r, 0, r);
    lemma_rows_up_to_index(c, r, r, 0, r);
    let idx = count_rows(r, -1) + r;
    assert(count_rows(r, 0) == count_rows(r, -1) + row_len(r, 0));
    assert(row_len(r, 0) == 2 * r + 1);
    assert(s.len() == count_rows(r, r));
    assert(s[idx] == row_seq(c, r, 0)[r]);
    assert(row_seq(c, r, 0)[r].x == c.x && row_seq(c, r, 0)[r].y == c.y);
    assert(s[idx] == c);
    assert(0 <= idx < s.len());
    assert(s.contains(c));
}

/// At radius one the scan lists, in order: the two bottom neighbors, the
/// left neighbor, the center, the right neighbor, and the two top
/// neighbors — exactly the six directional accessors plus the center.
pub proof fn lemma_around_radius_one(c: Coords)
    requires
        i32::MIN <= c.x - 1,
        c.x + 1 <= i32::MAX,
        i32::MIN <= c.y - 1,
        c.y + 1 <= i32::MAX,
    ensures
        around_seq(c, 1) == seq![
            spec_to_bottom_left(c),
            spec_to_bottom_right(c),
            spec_to_left(c),
            c,
            spec_to_right(c),
            spec_to_top_left(c),
            spec_to_top_right(c),
        ],
{
    reveal_with_fuel(count_rows, 5);
    lemma_around_seq_len(c, 1);
    let s = around_seq(c, 1);
    assert(count_rows(1, -2) == 0);
    assert(count_rows(1, -1) == 2);
    assert(count_rows(1, 0) == 5);
    lemma_rows_up_to_index(c, 1, 1, -1, 0);
    lemma_rows_up_to_index(c, 1, 1, -1, 1);
    lemma_rows_up_to_index(c, 1, 1, 0, 0);
    lemma_rows_up_to_index(c, 1, 1, 0, 1);
    lemma_rows_up_to_index(c, 1, 1, 0, 2);
    lemma_rows_up_to_index(c, 1, 1, 1, 0);
    lemma_rows_up_to_index(c, 1, 1, 1, 1);
    assert(s[0] == row_seq(c, 1, -1)[0]);
    assert(s[1] == row_seq(c, 1, -1)[1]);
    assert(s[2] == row_seq(c, 1, 0)[0]);
    assert(s[3] == row_seq(c, 1, 0)[1]);
    assert(s[4] == row_seq(c, 1, 0)[2]);
    assert(s[5] == row_seq(c, 1, 1)[0]);
    assert(s[6] == row_seq(c, 1, 1)[1]);
    assert(s =~= seq![
        spec_to_bottom_left(c),
        spec_to_bottom_right(c),
        spec_to_left(c),
        c,
        spec_to_right(c),
        spec_to_top_left(c),
        spec_to_top_right(c),
    ]);
}

/// Index of the first strict minimum of a list of keys.  This is the
/// decision rule of nearest-hex resolution: among candidate distances,
/// the smallest wins, and the earliest candidate wins ties.
pub fn index_of_min(keys: &Vec<u64>) -> (idx: usize)
    requires
        keys@.len() > 0,
    ensures
        idx < keys@.len(),
        forall|j: int| 0 <= j < keys@.len() ==> keys@[idx as int] <= keys@[j],
        forall|j: int| 0 <= j < idx ==> keys@[idx as int] < keys@[j],
{
    let mut best: usize = 0;
    let mut i: usize = 1;
    while i < keys.len()
        invariant
            1 <= i <= keys@.len(),
            best < i,
            forall|j: int| 0 <= j < i ==> keys@[best as int] <= keys@[j],
            forall|j: int| 0 <= j < best ==> keys@[best as int] < keys@[j],
        decreases keys@.len() - i,
    {
        if keys[i] < keys[best] {
            best = i;
        }
        i = i + 1;
    }
    best
}

// === Stateful scan over a neighborhood.
/// Enumerator of the radius-`size` neighborhood of `center`, in scan
/// order.  `offset` is the offset emitted last, or `(-1, -size)` before
/// the first emission.
struct NeighbourCoords {
    center: Coords,
    size: i32,
    offset: Coords,
}

spec fn nb_wf(it: NeighbourCoords) -> bool {
    let r = it.size as int;
    &&& 0 <= r < i32::MAX
    &&& it.center.x - r >= i32::MIN
    &&& it.center.x + r <= i32::MAX
    &&& it.center.y - r >= i32::MIN
    &&& it.center.y + r <= i32::MAX
    &&& ((it.offset.y == r + 1 && it.offset.x == -r) || (-r <= it.offset.y <= r && row_lo(
        r,
        it.offset.y as int,
    ) - 1 <= it.offset.x <= row_hi(r, it.offset.y as int)))
}

/// Number of coordinates the enumerator has already emitted.
spec fn nb_pos(it: NeighbourCoords) -> int {
    let r = it.size as int;
    if it.offset.y == r + 1 {
        count_rows(r, r)
    } else {
        count_rows(r, it.offset.y - 1) + (it.offset.x - row_lo(r, it.offset.y as int)) + 1
    }
}

proof fn lemma_nb_pos_bounds(it: NeighbourCoords)
    requires
        nb_wf(it),
    ensures
        0 <= nb_pos(it) <= count_rows(it.size as int, it.size as int),
{
    let r = it.size as int;
    if it.offset.y == r + 1 {
        lemma_count_rows_mono(r, -r - 1, r);
    } else {
        let dy = it.offset.y as int;
        lemma_count_rows_mono(r, -r - 1, dy - 1);
        assert(count_rows(r, dy) == count_rows(r, dy - 1) + row_len(r, dy));
        lemma_count_rows_mono(r, dy, r);
    }
}

impl NeighbourCoords {
    fn new(x: i32, y: i32, size: i32) -> (it: NeighbourCoords)
        requires
            0 <= size < i32::MAX,
            i32::MIN <= x - size,
            x + size <= i32::MAX,
            i32::MIN <= y - size,
            y + size <= i32::MAX,
        ensures
            nb_wf(it),
            nb_pos(it) == 0,
            it.center == (Coords { x, y }),
            it.size == size,
    {
        let it = NeighbourCoords {
            center: Coords::new(x, y),
            size,
            offset: Coords::new(-1, -size),
        };
        proof {
            let r = size as int;
            assert(row_lo(r, -r) == 0);
            assert(count_rows(r, -r - 1) == 0);
        }
        it
    }

    fn next(&mut self) -> (r: Option<Coords>)
        requires
            nb_wf(*old(self)),
        ensures
            nb_wf(*final(self)),
            final(self).center == old(self).center,
            final(self).size == old(self).size,
            nb_pos(*old(self)) < count_rows(old(self).size as int, old(self).size as int) ==> {
                &&& r == Some(
                    around_seq(old(self).center, old(self).size as int)[nb_pos(*old(self))],
                )
                &&& nb_pos(*final(self)) == nb_pos(*old(self)) + 1
            },
            nb_pos(*old(self)) >= count_rows(old(self).size as int, old(self).size as int) ==> {
                &&& r is None
                &&& nb_pos(*final(self)) == nb_pos(*old(self))
            },
    {
        let ghost r = self.size as int;
        let ghost c = self.center;
        proof {
            lemma_nb_pos_bounds(*self);
        }
        if self.offset.y > self.size {
            // Exhausted: every later call keeps answering `None`.
            return None;
        }
        let ghost oy = self.offset.y as int;
        proof {
            lemma_count_rows_mono(r, -r - 1, oy - 1);
            assert(count_rows(r, oy) == count_rows(r, oy - 1) + row_len(r, oy));
            lemma_count_rows_mono(r, oy, r);
        }
        if self.offset.y < 0 {
            if self.offset.x < self.size {
                self.offset.x = self.offset.x + 1;
            } else {
                self.offset.y = self.offset.y + 1;
                self.offset.x = -(self.size + self.offset.y);
            }
        } else {
            if self.offset.x < self.size - self.offset.y {
                self.offset.x = self.offset.x + 1;
            } else {
                self.offset.y = self.offset.y + 1;
                self.offset.x = -self.size;
            }
        }
        if self.offset.y > self.size {
            None
        } else {
            proof {
                let dy = self.offset.y as int;
                let dx = self.offset.x as int;
                if dy == oy {
                    assert(dx == old(self).offset.x + 1);
                } else {
                    assert(dy == oy + 1 && dx == row_lo(r, dy));
                    assert(nb_pos(*old(self)) == count_rows(r, oy));
                    lemma_count_rows_mono(r, dy, r);
                }
                lemma_rows_up_to_index(c, r, r, dy, dx - row_lo(r, dy));
            }
            Some(self.center.translate(&self.offset))
        }
    }
}

impl Coords {
    /// Every coordinate within hex distance `size` of `(x, y)`, center
    /// included, in scan order: rows by increasing `dy`, each row by
    /// increasing `dx`.
    pub fn around(x: i32, y: i32, size: i32) -> (result: Vec<Coords>)
        requires
            0 <= size < i32::MAX,
            i32::MIN <= x - size,
            x + size <= i32::MAX,
            i32::MIN <= y - size,
            y + size <= i32::MAX,
        ensures
            result@ == around_seq(Coords { x, y }, size as int),
            result@.len() == 3 * (size as int) * (size as int) + 3 * (size as int) + 1,
    {
        let ghost c = Coords { x, y };
        let ghost r = size as int;
        let ghost total = count_rows(r, r);
        proof {
            lemma_rows_up_to_len(c, r, r);
            lemma_around_seq_len(c, r);
        }
        let mut it = NeighbourCoords::new(x, y, size);
        let mut result: Vec<Coords> = Vec::new();
        loop
            invariant
                nb_wf(it),
                it.center == c,
                it.size == size,
                c == (Coords { x, y }),
                r == size as int,
                0 <= size < i32::MAX,
                0 <= nb_pos(it) <= total,
                total == count_rows(r, r),
                around_seq(c, r).len() == total,
                result@ == around_seq(c, r).take(nb_pos(it)),
            ensures
                result@ == around_seq(c, r),
            decreases total - nb_pos(it) + 1,
        {
            let ghost p = nb_pos(it);
            match it.next() {
                Some(nc) => {
                    result.push(nc);
                    proof {
                        assert(p < total);
                        assert(nc == around_seq(c, r)[p]);
                        assert(nb_pos(it) == p + 1);
                        assert(around_seq(c, r).take(p + 1) =~= around_seq(c, r).take(p).push(
                            around_seq(c, r)[p],
                        ));
                    }
                },
                None => {
                    proof {
                        assert(result@ =~= around_seq(c, r));
                    }
                    break ;
                },
            }
        }
        result
    }

    /// `around`, centered on an existing coordinate.
    pub fn around_coords(coords: &Coords, size: i32) -> (result: Vec<Coords>)
        requires
            0 <= size < i32::MAX,
            i32::MIN <= coords.x - size,
            coords.x + size <= i32::MAX,
            i32::MIN <= coords.y - size,
            coords.y + size <= i32::MAX,
        ensures
            result@ == around_seq(*coords, size as int),
    {
        Coords::around(coords.x, coords.y, size)
    }
}

} // verus!
