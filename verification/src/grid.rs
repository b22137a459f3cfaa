//! Walking the cells of a rectangle, x outermost and z innermost.

use crate::coordinates::Rect;
use vstd::arithmetic::div_mod::{lemma_fundamental_div_mod, lemma_fundamental_div_mod_converse};
use vstd::prelude::*;

verus! {

/// How many cells the rectangle has along z.
pub open spec fn depth(r: Rect) -> int {
    r.max_z - r.min_z + 1
}

/// How many cells the rectangle has along x.
pub open spec fn width(r: Rect) -> int {
    r.max_x - r.min_x + 1
}

/// The number of cells of the rectangle.
pub open spec fn cell_count(r: Rect) -> nat {
    if r.nonempty() {
        (width(r) * depth(r)) as nat
    } else {
        0
    }
}

/// The cells of the rectangle, ordered by x and, for equal x, by z.
pub open spec fn cells(r: Rect) -> Seq<(i32, i32)> {
    Seq::new(
        cell_count(r),
        |k: int| ((r.min_x + k / depth(r)) as i32, (r.min_z + k % depth(r)) as i32),
    )
}

/// The position of a cell in `cells(r)`.
pub open spec fn position(r: Rect, x: int, z: int) -> int {
    (x - r.min_x) * depth(r) + (z - r.min_z)
}

/// Lexicographic order on cells.
pub open spec fn before(a: (i32, i32), b: (i32, i32)) -> bool {
    a.0 < b.0 || (a.0 == b.0 && a.1 < b.1)
}

proof fn lemma_position(r: Rect, x: int, z: int)
    requires
        r.has(x, z),
        r.in_range(),
    ensures
        0 <= position(r, x, z) < cell_count(r),
        cells(r)[position(r, x, z)] == (x as i32, z as i32),
{
    let d = depth(r);
    let a = x - r.min_x;
    let b = z - r.min_z;
    assert(0 <= a * d + b < width(r) * d) by (nonlinear_arith)
        requires
            0 <= a < width(r),
            0 <= b < d,
    ;
    lemma_fundamental_div_mod_converse(a * d + b, d, a, b);
    assert(d * a == a * d) by (nonlinear_arith);
}

proof fn lemma_cell_at(r: Rect, k: int)
    requires
        r.in_range(),
        0 <= k < cell_count(r),
    ensures
        r.has(cells(r)[k].0 as int, cells(r)[k].1 as int),
        position(r, cells(r)[k].0 as int, cells(r)[k].1 as int) == k,
{
    let d = depth(r);
    lemma_fundamental_div_mod(k, d);
    let q = k / d;
    let m = k % d;
    assert(0 <= m < d);
    assert(0 <= q < width(r)) by (nonlinear_arith)
        requires
            k == d * q + m,
            0 <= m < d,
            0 <= k < width(r) * d,
    ;
    assert(d * q == q * d) by (nonlinear_arith);
}

/// A rectangle's cells are exactly the columns it holds, each listed once, in
/// strictly increasing order.
pub proof fn lemma_cells(r: Rect)
    requires
        r.in_range(),
    ensures
        forall|x: i32, z: i32| cells(r).contains((x, z)) <==> #[trigger] r.has(x as int, z as int),
        forall|i: int, j: int|
            0 <= i < j < cells(r).len() ==> before(#[trigger] cells(r)[i], #[trigger] cells(r)[j]),
        cells(r).no_duplicates(),
{
    assert forall|x: i32, z: i32| #[trigger] r.has(x as int, z as int) implies cells(r).contains(
        (x, z),
    ) by {
        lemma_position(r, x as int, z as int);
        assert(cells(r)[position(r, x as int, z as int)] == (x, z));
    }
    assert forall|x: i32, z: i32| cells(r).contains((x, z)) implies #[trigger] r.has(
        x as int,
        z as int,
    ) by {
        let k = choose|k: int| 0 <= k < cells(r).len() && cells(r)[k] == (x, z);
        lemma_cell_at(r, k);
    }
    assert forall|i: int, j: int| 0 <= i < j < cells(r).len() implies before(
        #[trigger] cells(r)[i],
        #[trigger] cells(r)[j],
    ) by {
        lemma_cell_at(r, i);
        lemma_cell_at(r, j);
        let a = cells(r)[i];
        let b = cells(r)[j];
        let d = depth(r);
        assert(a.0 > b.0 ==> position(r, a.0 as int, a.1 as int) > position(
            r,
            b.0 as int,
            b.1 as int,
        )) by (nonlinear_arith)
            requires
                r.has(a.0 as int, a.1 as int),
                r.has(b.0 as int, b.1 as int),
        ;
        assert(a.0 == b.0 ==> (a.0 - r.min_x) * d == (b.0 - r.min_x) * d);
    }
}

/// Cells are ordered by x and, for equal x, by z; the position of a cell in the
/// list of a rectangle is that of its row and its place in the row, so the list
/// has one cell for each row and place.
pub proof fn cells_are_listed_row_by_row(r: Rect, k: int, a: (i32, i32), b: (i32, i32))
    requires
        r.in_range(),
    ensures
        before(a, b) <==> a.0 < b.0 || (a.0 == b.0 && a.1 < b.1),
        r.nonempty() ==> cells(r).len() == (r.max_x - r.min_x + 1) * (r.max_z - r.min_z + 1),
        !r.nonempty() ==> cells(r).len() == 0,
        0 <= k < cells(r).len() ==> k == (cells(r)[k].0 - r.min_x) * (r.max_z - r.min_z + 1) + (
        cells(r)[k].1 - r.min_z),
{
    if r.nonempty() {
        let w = r.max_x - r.min_x + 1;
        let d = r.max_z - r.min_z + 1;
        assert(w * d >= 0) by (nonlinear_arith)
            requires
                w >= 0,
                d >= 0,
        ;
    }
    if 0 <= k < cells(r).len() {
        lemma_cell_at(r, k);
    }
}

/// A walk over the cells of a rectangle; its view is the cells still to come.
#[derive(Debug, Clone, Copy)]
pub struct CellWalk {
    min_x: i32,
    min_z: i32,
    max_x: i32,
    max_z: i32,
    x: i32,
    z: i32,
    done: bool,
}

impl View for CellWalk {
    type V = Seq<(i32, i32)>;

    closed spec fn view(&self) -> Seq<(i32, i32)> {
        if self.done {
            Seq::empty()
        } else {
            cells(self.rect()).skip(position(self.rect(), self.x as int, self.z as int))
        }
    }
}

impl CellWalk {
    spec fn rect(self) -> Rect {
        Rect {
            min_x: self.min_x as int,
            min_z: self.min_z as int,
            max_x: self.max_x as int,
            max_z: self.max_z as int,
        }
    }

    #[verifier::type_invariant]
    spec fn at_a_cell(self) -> bool {
        self.done || self.rect().has(self.x as int, self.z as int)
    }

    /// A walk over the cells from `(min_x, min_z)` to `(max_x, max_z)`, both
    /// included.
    pub fn new(min_x: i32, min_z: i32, max_x: i32, max_z: i32) -> (r: CellWalk)
        ensures
            r@ == cells(
                Rect {
                    min_x: min_x as int,
                    min_z: min_z as int,
                    max_x: max_x as int,
                    max_z: max_z as int,
                },
            ),
    {
        let done = min_x > max_x || min_z > max_z;
        let walk = CellWalk { min_x, min_z, max_x, max_z, x: min_x, z: min_z, done };
        proof {
            let r = walk.rect();
            assert(position(r, min_x as int, min_z as int) == 0) by (nonlinear_arith)
                requires
                    r.min_x == min_x,
                    r.min_z == min_z,
            ;
            assert(walk@ =~= cells(r));
        }
        walk
    }

    /// Takes the next cell; `None` when none is left.
    pub fn next(&mut self) -> (r: Option<(i32, i32)>)
        ensures
            r is None <==> old(self)@.len() == 0,
            r matches Some(cell) ==> cell == old(self)@[0] && final(self)@ == old(
                self,
            )@.drop_first(),
            r is None ==> final(self)@ == old(self)@,
    {
        proof {
            use_type_invariant(&*self);
        }
        if self.done {
            return None;
        }
        let ghost r = self.rect();
        let ghost here = position(r, self.x as int, self.z as int);
        let cell = (self.x, self.z);
        proof {
            lemma_position(r, self.x as int, self.z as int);
        }
        let CellWalk { min_x, min_z, max_x, max_z, x, z, .. } = *self;
        if z < max_z {
            *self = CellWalk { min_x, min_z, max_x, max_z, x, z: z + 1, done: false };
        } else if x < max_x {
            *self = CellWalk { min_x, min_z, max_x, max_z, x: x + 1, z: min_z, done: false };
            assert((x + 1 - min_x) * depth(r) == (x - min_x) * depth(r) + depth(r))
                by (nonlinear_arith);
        } else {
            *self = CellWalk { min_x, min_z, max_x, max_z, x, z, done: true };
            assert(here + 1 == cell_count(r)) by {
                assert((width(r) - 1) * depth(r) + depth(r) == width(r) * depth(r))
                    by (nonlinear_arith);
            }
        }
        assert(self@ =~= old(self)@.drop_first());
        Some(cell)
    }
}

} // verus!
