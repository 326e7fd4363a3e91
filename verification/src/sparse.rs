//! Sparse storage with a default fill value.
//!
//! An `Axis` is a one-dimensional, two-sided, lazily grown array: any
//! index can be read at any time and yields the configured default until
//! it is written.  A `Grid` nests an axis of axes to form a
//! two-dimensional store indexed by hex coordinates.

use vstd::prelude::*;
use crate::hexagons::Coords;
use crate::values::DupValue;

verus! {

/// One-dimensional, two-sided, lazily grown array with a default fill
/// value.  Index `i >= 0` maps to the `i`-th slot of the non-negative
/// side, index `i < 0` to the `(-i - 1)`-th slot of the negative side.
pub struct Axis<E> {
    positive: Vec<E>,
    negative: Vec<E>,
    default: E,
}

impl<E> Axis<E> {
    /// Logical content at index `i`: the stored element, or the default
    /// where no slot is materialized.
    pub closed spec fn spec_get(self, i: int) -> E {
        if i >= 0 {
            if i < self.positive@.len() {
                self.positive@[i]
            } else {
                self.default
            }
        } else {
            if -i - 1 < self.negative@.len() {
                self.negative@[-i - 1]
            } else {
                self.default
            }
        }
    }

    /// The slot at `i` is backed by storage.
    pub closed spec fn materialized(self, i: int) -> bool {
        if i >= 0 {
            i < self.positive@.len()
        } else {
            -i - 1 < self.negative@.len()
        }
    }

    /// The configured default.
    pub closed spec fn spec_default(self) -> E {
        self.default
    }
}

impl<E> Axis<E> {
    pub fn new(default: E) -> (r: Axis<E>)
        ensures
            forall|i: int| r.spec_get(i) == default,
            forall|i: int| !r.materialized(i),
            r.spec_default() == default,
    {
        Axis { positive: Vec::new(), negative: Vec::new(), default }
    }

    /// Content at `index`.  Never fails: an unmaterialized slot reads as
    /// the default.
    pub fn get(&self, index: i32) -> (r: &E)
        ensures
            *r == self.spec_get(index as int),
    {
        if index >= 0 {
            let i = index as usize;
            if i >= self.positive.len() {
                &self.default
            } else {
                &self.positive[i]
            }
        } else {
            let j = ((-(index as i64)) - 1) as usize;
            if j >= self.negative.len() {
                &self.default
            } else {
                &self.negative[j]
            }
        }
    }
}

impl<E: DupValue> Axis<E> {
    /// A duplicate of the configured default.
    pub fn default_dup(&self) -> (r: E)
        ensures
            r == self.spec_default(),
    {
        self.default.dup()
    }

    /// Grows storage so that `index` is materialized, filling fresh
    /// slots with the default and leaving headroom past the requested
    /// index.  The logical content does not change.
    fn ensure_slot(&mut self, index: i32)
        ensures
            forall|i: int| final(self).spec_get(i) == old(self).spec_get(i),
            forall|i: int| old(self).materialized(i) ==> final(self).materialized(i),
            final(self).materialized(index as int),
            final(self).spec_default() == old(self).spec_default(),
    {
        if index >= 0 {
            let i = index as usize;
            if i >= self.positive.len() {
                let target = i + 10;
                while self.positive.len() < target
                    invariant
                        self.default == old(self).default,
                        self.negative == old(self).negative,
                        old(self).positive@.len() <= self.positive@.len(),
                        self.positive@.subrange(0, old(self).positive@.len() as int) == old(
                            self,
                        ).positive@,
                        forall|k: int|
                            old(self).positive@.len() <= k < self.positive@.len()
                                ==> self.positive@[k] == self.default,
                    decreases target - self.positive@.len(),
                {
                    let ghost prior = self.positive@;
                    let d = self.default.dup();
                    self.positive.push(d);
                    proof {
                        assert(self.positive@.subrange(0, old(self).positive@.len() as int)
                            =~= prior.subrange(0, old(self).positive@.len() as int));
                    }
                }
            }
        } else {
            let j = ((-(index as i64)) - 1) as usize;
            if j >= self.negative.len() {
                let target = j + 10;
                while self.negative.len() < target
                    invariant
                        self.default == old(self).default,
                        self.positive == old(self).positive,
                        old(self).negative@.len() <= self.negative@.len(),
                        self.negative@.subrange(0, old(self).negative@.len() as int) == old(
                            self,
                        ).negative@,
                        forall|k: int|
                            old(self).negative@.len() <= k < self.negative@.len()
                                ==> self.negative@[k] == self.default,
                    decreases target - self.negative@.len(),
                {
                    let ghost prior = self.negative@;
                    let d = self.default.dup();
                    self.negative.push(d);
                    proof {
                        assert(self.negative@.subrange(0, old(self).negative@.len() as int)
                            =~= prior.subrange(0, old(self).negative@.len() as int));
                    }
                }
            }
        }
    }

    /// Materializes the slot at `index` without writing: after the call
    /// the slot is backed by storage holding the default.  The logical
    /// content does not change.  Used by bounds reservation.
    pub fn touch(&mut self, index: i32)
        ensures
            forall|i: int| final(self).spec_get(i) == old(self).spec_get(i),
            forall|i: int| old(self).materialized(i) ==> final(self).materialized(i),
            final(self).materialized(index as int),
            final(self).spec_default() == old(self).spec_default(),
    {
        self.ensure_slot(index);
    }

    /// Writes `value` at `index`, growing storage as needed.  No other
    /// index is disturbed.
    pub fn set(&mut self, index: i32, value: E)
        ensures
            final(self).spec_get(index as int) == value,
            forall|i: int| i != index ==> final(self).spec_get(i) == old(self).spec_get(i),
            forall|i: int| old(self).materialized(i) ==> final(self).materialized(i),
            final(self).materialized(index as int),
            final(self).spec_default() == old(self).spec_default(),
    {
        self.ensure_slot(index);
        if index >= 0 {
            let i = index as usize;
            self.positive[i] = value;
        } else {
            let j = ((-(index as i64)) - 1) as usize;
            self.negative[j] = value;
        }
    }
}

/// Two-dimensional sparse store indexed by hex coordinates: a sparse
/// axis of columns, each column a sparse axis of values.  Every cell
/// reads as the configured default until it is written.
pub struct Grid<D> {
    chunks: Axis<Axis<D>>,
}

impl<D> Grid<D> {
    /// Logical content of the cell at `c`.
    pub closed spec fn spec_get(self, c: Coords) -> D {
        self.chunks.spec_get(c.x as int).spec_get(c.y as int)
    }

    /// The configured default.
    pub closed spec fn spec_default(self) -> D {
        self.chunks.spec_default().spec_default()
    }

    /// Column `x` is backed by storage.
    pub closed spec fn column_materialized(self, x: int) -> bool {
        self.chunks.materialized(x)
    }

    /// The cell at `(x, y)` is backed by storage.
    pub closed spec fn cell_materialized(self, x: int, y: int) -> bool {
        self.chunks.spec_get(x).materialized(y)
    }

    /// The column used for unmaterialized positions reads as the grid
    /// default everywhere.  Constructors establish this and every
    /// operation preserves it.
    pub closed spec fn wf(self) -> bool {
        forall|y: int| self.chunks.spec_default().spec_get(y) == self.spec_default()
    }
}

impl<D: DupValue> Grid<D> {
    pub fn new(default: D) -> (r: Grid<D>)
        ensures
            r.wf(),
            forall|c: Coords| r.spec_get(c) == default,
            r.spec_default() == default,
    {
        Grid { chunks: Axis::new(Axis::new(default)) }
    }

    /// Content of the cell at `coords`.  Never fails: an unwritten cell
    /// reads as the default.
    pub fn get(&self, coords: &Coords) -> (r: &D)
        ensures
            *r == self.spec_get(*coords),
    {
        self.chunks.get(coords.x).get(coords.y)
    }

    /// Grows the column axis so that column `index` is materialized,
    /// filling fresh slots with empty default columns.  No cell changes
    /// its logical content.
    fn grow_columns(&mut self, index: i32)
        requires
            old(self).wf(),
        ensures
            final(self).wf(),
            final(self).spec_default() == old(self).spec_default(),
            forall|cc: Coords| final(self).spec_get(cc) == old(self).spec_get(cc),
            forall|i: int|
                old(self).chunks.materialized(i) ==> final(self).chunks.materialized(i),
            forall|i: int|
                old(self).chunks.materialized(i) ==> final(self).chunks.spec_get(i) == old(
                    self,
                ).chunks.spec_get(i),
            final(self).chunks.materialized(index as int),
            final(self).chunks.spec_default() == old(self).chunks.spec_default(),
    {
        if index >= 0 {
            let i = index as usize;
            if i >= self.chunks.positive.len() {
                let target = i + 10;
                while self.chunks.positive.len() < target
                    invariant
                        self.chunks.default == old(self).chunks.default,
                        self.chunks.negative == old(self).chunks.negative,
                        old(self).chunks.positive@.len() <= self.chunks.positive@.len(),
                        self.chunks.positive@.subrange(
                            0,
                            old(self).chunks.positive@.len() as int,
                        ) == old(self).chunks.positive@,
                        forall|k: int, y: int|
                            old(self).chunks.positive@.len() <= k < self.chunks.positive@.len()
                                ==> #[trigger] self.chunks.positive@[k].spec_get(y)
                                    == self.chunks.default.spec_default(),
                    decreases target - self.chunks.positive@.len(),
                {
                    let ghost prior = self.chunks.positive@;
                    let d = self.chunks.default.default_dup();
                    let col = Axis::new(d);
                    self.chunks.positive.push(col);
                    proof {
                        assert(self.chunks.positive@.subrange(
                            0,
                            old(self).chunks.positive@.len() as int,
                        ) =~= prior.subrange(0, old(self).chunks.positive@.len() as int));
                    }
                }
            }
        } else {
            let j = ((-(index as i64)) - 1) as usize;
            if j >= self.chunks.negative.len() {
                let target = j + 10;
                while self.chunks.negative.len() < target
                    invariant
                        self.chunks.default == old(self).chunks.default,
                        self.chunks.positive == old(self).chunks.positive,
                        old(self).chunks.negative@.len() <= self.chunks.negative@.len(),
                        self.chunks.negative@.subrange(
                            0,
                            old(self).chunks.negative@.len() as int,
                        ) == old(self).chunks.negative@,
                        forall|k: int, y: int|
                            old(self).chunks.negative@.len() <= k < self.chunks.negative@.len()
                                ==> #[trigger] self.chunks.negative@[k].spec_get(y)
                                    == self.chunks.default.spec_default(),
                    decreases target - self.chunks.negative@.len(),
                {
                    let ghost prior = self.chunks.negative@;
                    let d = self.chunks.default.default_dup();
                    let col = Axis::new(d);
                    self.chunks.negative.push(col);
                    proof {
                        assert(self.chunks.negative@.subrange(
                            0,
                            old(self).chunks.negative@.len() as int,
                        ) =~= prior.subrange(0, old(self).chunks.negative@.len() as int));
                    }
                }
            }
        }
        proof {
            assert forall|i: int|
                old(self).chunks.materialized(i) implies #[trigger] self.chunks.spec_get(i)
                == old(self).chunks.spec_get(i) by {
                if i >= 0 {
                    assert(old(self).chunks.positive@[i] == self.chunks.positive@.subrange(
                        0,
                        old(self).chunks.positive@.len() as int,
                    )[i]);
                } else {
                    assert(old(self).chunks.negative@[-i - 1] == self.chunks.negative@.subrange(
                        0,
                        old(self).chunks.negative@.len() as int,
                    )[-i - 1]);
                }
            }
            assert(self.chunks.spec_default() == old(self).chunks.spec_default());
            assert forall|y: int|
                self.chunks.spec_default().spec_get(y) == self.spec_default() by {
                assert(old(self).chunks.default.spec_get(y) == old(self).spec_default());
            }
            assert forall|cc: Coords| self.spec_get(cc) == old(self).spec_get(cc) by {
                let x = cc.x as int;
                let y = cc.y as int;
                if old(self).chunks.materialized(x) {
                    assert(self.chunks.spec_get(x) == old(self).chunks.spec_get(x));
                } else if self.chunks.materialized(x) {
                    assert(self.chunks.spec_get(x).spec_get(y)
                        == self.chunks.default.spec_default());
                    assert(old(self).chunks.spec_get(x) == old(self).chunks.default);
                    assert(old(self).chunks.default.spec_get(y) == old(self).spec_default());
                } else {
                    assert(self.chunks.spec_get(x) == self.chunks.default);
                }
            }
        }
    }

    /// Writes `value` at `coords`, growing storage as needed.  No other
    /// cell is disturbed.
    pub fn set(&mut self, coords: &Coords, value: D)
        requires
            old(self).wf(),
        ensures
            final(self).wf(),
            final(self).spec_default() == old(self).spec_default(),
            final(self).spec_get(*coords) == value,
            forall|cc: Coords|
                cc != *coords ==> final(self).spec_get(cc) == old(self).spec_get(cc),
    {
        self.grow_columns(coords.x);
        if coords.x >= 0 {
            let i = coords.x as usize;
            let col = &mut self.chunks.positive[i];
            col.set(coords.y, value);
        } else {
            let j = ((-(coords.x as i64)) - 1) as usize;
            let col = &mut self.chunks.negative[j];
            col.set(coords.y, value);
        }
    }

    /// Forces materialization of the two opposite corners of a bounding
    /// box, pre-sizing the underlying storage without changing any
    /// cell's logical content.
    pub fn ensure_bounds(&mut self, x_min: i32, x_max: i32, y_min: i32, y_max: i32)
        requires
            old(self).wf(),
        ensures
            final(self).wf(),
            final(self).spec_default() == old(self).spec_default(),
            forall|cc: Coords| final(self).spec_get(cc) == old(self).spec_get(cc),
            final(self).column_materialized(x_min as int),
            final(self).column_materialized(x_max as int),
            final(self).cell_materialized(x_min as int, y_min as int),
            final(self).cell_materialized(x_max as int, y_max as int),
    {
        self.touch_cell(x_min, y_min);
        self.touch_cell(x_max, y_max);
    }

    /// Materializes the cell at `(x, y)` without writing.
    fn touch_cell(&mut self, x: i32, y: i32)
        requires
            old(self).wf(),
        ensures
            final(self).wf(),
            final(self).spec_default() == old(self).spec_default(),
            forall|cc: Coords| final(self).spec_get(cc) == old(self).spec_get(cc),
            forall|i: int|
                old(self).chunks.materialized(i) ==> final(self).chunks.materialized(i),
            final(self).chunks.materialized(x as int),
            forall|i: int, yy: int|
                old(self).chunks.materialized(i) && #[trigger] old(self).chunks.spec_get(
                    i,
                ).materialized(yy) ==> final(self).chunks.spec_get(i).materialized(yy),
            final(self).chunks.spec_get(x as int).materialized(y as int),
            final(self).chunks.spec_default() == old(self).chunks.spec_default(),
    {
        self.grow_columns(x);
        if x >= 0 {
            let i = x as usize;
            let col = &mut self.chunks.positive[i];
            col.touch(y);
        } else {
            let j = ((-(x as i64)) - 1) as usize;
            let col = &mut self.chunks.negative[j];
            col.touch(y);
        }
    }

    /// `ensure_bounds`, chained on a grid passed by value.
    pub fn with_ensured_bounds(self, x_min: i32, x_max: i32, y_min: i32, y_max: i32) -> (r: Grid<
        D,
    >)
        requires
            self.wf(),
        ensures
            r.wf(),
            r.spec_default() == self.spec_default(),
            forall|cc: Coords| r.spec_get(cc) == self.spec_get(cc),
    {
        let mut grid = self;
        grid.ensure_bounds(x_min, x_max, y_min, y_max);
        grid
    }
}

} // verus!
