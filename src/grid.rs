//! The grid's occupancy map and the backtracking search that fills it.

use crate::cells::{lemma_members_len, map_contains, map_get, map_insert, map_remove, set_members, Cell, CellMap, CellSet, Occupant};
use crate::shape::{all_turnable, Shape};
use vstd::prelude::*;

verus! {

/// `(x, y)` lies in the `w` by `h` rectangle with its corner at the origin.
pub open spec fn in_bounds(w: i8, h: i8, x: int, y: int) -> bool {
    0 <= x < w && 0 <= y < h
}

/// Where offset `c` of a shape lands when the shape is placed at vector `(vx, vy)`.
pub open spec fn target(vx: int, vy: int, c: Cell) -> (int, int) {
    (vx - c.0, vy - c.1)
}

/// Row-major order of grid positions: `a` is scanned before `b`.
pub open spec fn scanned_before(a: (int, int), b: (int, int)) -> bool {
    a.1 < b.1 || (a.1 == b.1 && a.0 < b.0)
}

/// `(x, y)` lies in the `w` by `h` rectangle and `m` does not occupy it.
pub open spec fn vacant_in(w: i8, h: i8, m: Map<Cell, Occupant>, x: int, y: int) -> bool {
    in_bounds(w, h, x, y) && !m.contains_key((x as i8, y as i8))
}

/// Every cell of `s` placed at `(vx, vy)` lands on a coordinate vacant in `m`.
pub open spec fn fits_in(w: i8, h: i8, m: Map<Cell, Occupant>, s: Set<Cell>, vx: int, vy: int) -> bool {
    forall|c: Cell| #[trigger] s.contains(c) ==> vacant_in(w, h, m, vx - c.0, vy - c.1)
}

/// `(vx, vy)` is a fitting placement of `s` that reaches the first grid
/// position, in row-major order, that any fitting placement of `s` covers.
pub open spec fn first_fit(w: i8, h: i8, m: Map<Cell, Occupant>, s: Set<Cell>, vx: int, vy: int) -> bool {
    &&& fits_in(w, h, m, s, vx, vy)
    &&& exists|a: Cell|
        #[trigger] s.contains(a) && forall|ux: int, uy: int, c: Cell|
            #![trigger fits_in(w, h, m, s, ux, uy), s.contains(c)]
            fits_in(w, h, m, s, ux, uy) && s.contains(c) ==> !scanned_before(target(ux, uy, c), target(vx, vy, a))
}

/// The placement vector the search uses for `s` on the map `m`: the first
/// fitting placement in scan order (there is at most one), if any.
pub open spec fn first_vector(w: i8, h: i8, m: Map<Cell, Occupant>, s: Set<Cell>) -> Option<(int, int)> {
    if exists|v: (int, int)| first_fit(w, h, m, s, v.0, v.1) {
        Some(choose|v: (int, int)| first_fit(w, h, m, s, v.0, v.1))
    } else {
        None
    }
}

/// Two first placements of one set on one map are the same vector.
proof fn lemma_first_fit_unique(w: i8, h: i8, m: Map<Cell, Occupant>, s: Set<Cell>, vx: int, vy: int, ux: int, uy: int)
    requires
        first_fit(w, h, m, s, vx, vy),
        first_fit(w, h, m, s, ux, uy),
    ensures
        vx == ux && vy == uy,
{
    let a = choose|a: Cell|
        #[trigger] s.contains(a) && forall|ux: int, uy: int, c: Cell|
            #![trigger fits_in(w, h, m, s, ux, uy), s.contains(c)]
            fits_in(w, h, m, s, ux, uy) && s.contains(c) ==> !scanned_before(target(ux, uy, c), target(vx, vy, a));
    let b = choose|b: Cell|
        #[trigger] s.contains(b) && forall|wx: int, wy: int, c: Cell|
            #![trigger fits_in(w, h, m, s, wx, wy), s.contains(c)]
            fits_in(w, h, m, s, wx, wy) && s.contains(c) ==> !scanned_before(target(wx, wy, c), target(ux, uy, b));
    assert(!scanned_before(target(ux, uy, b), target(vx, vy, a)));
    assert(!scanned_before(target(vx, vy, a), target(ux, uy, b)));
    assert(!scanned_before(target(ux, uy, a), target(vx, vy, a)));
    assert(!scanned_before(target(vx, vy, b), target(ux, uy, b)));
}

proof fn lemma_first_vector_some(w: i8, h: i8, m: Map<Cell, Occupant>, s: Set<Cell>, vx: int, vy: int)
    requires
        first_fit(w, h, m, s, vx, vy),
    ensures
        first_vector(w, h, m, s) == Some((vx, vy)),
{
    let v = choose|v: (int, int)| first_fit(w, h, m, s, v.0, v.1);
    assert(first_fit(w, h, m, s, (vx, vy).0, (vx, vy).1));
    lemma_first_fit_unique(w, h, m, s, vx, vy, v.0, v.1);
}

proof fn lemma_first_fit_intro(w: i8, h: i8, m: Map<Cell, Occupant>, s: Set<Cell>, vx: int, vy: int, a: Cell, gx: int, gy: int)
    requires
        fits_in(w, h, m, s, vx, vy),
        s.contains(a),
        target(vx, vy, a) == (gx, gy),
        forall|ux: int, uy: int, c: Cell|
            #![trigger fits_in(w, h, m, s, ux, uy), s.contains(c)]
            fits_in(w, h, m, s, ux, uy) && s.contains(c) ==> !scanned_before(target(ux, uy, c), (gx, gy)),
    ensures
        first_vector(w, h, m, s) == Some((vx, vy)),
{
    assert(first_fit(w, h, m, s, vx, vy));
    lemma_first_vector_some(w, h, m, s, vx, vy);
}

proof fn lemma_first_vector_none(w: i8, h: i8, m: Map<Cell, Occupant>, s: Set<Cell>)
    requires
        forall|vx: int, vy: int| #[trigger] fits_in(w, h, m, s, vx, vy) ==> s.is_empty(),
    ensures
        first_vector(w, h, m, s) is None,
{
    assert forall|v: (int, int)| !first_fit(w, h, m, s, v.0, v.1) by {
        if first_fit(w, h, m, s, v.0, v.1) {
            let a = choose|a: Cell|
                #[trigger] s.contains(a) && forall|ux: int, uy: int, c: Cell|
                    #![trigger fits_in(w, h, m, s, ux, uy), s.contains(c)]
                    fits_in(w, h, m, s, ux, uy) && s.contains(c) ==> !scanned_before(target(ux, uy, c), target(v.0, v.1, a));
            assert(s.contains(a));
        }
    }
}

/// The search of one level: shapes from index `i` on, and orientations from
/// `j` on for shape `i`, each tried at its first vector. Gives the outcome and
/// the final map; `fuel` bounds the depth.
pub open spec fn search_from(
    w: i8,
    h: i8,
    m: Map<Cell, Occupant>,
    s: Seq<(&Shape, usize)>,
    index: usize,
    fuel: nat,
    i: int,
    j: int,
) -> (bool, Map<Cell, Occupant>)
    decreases fuel, 0int, s.len() - i, s[i].0.orientations().len() - j,
{
    if fuel == 0 || i < 0 || i >= s.len() {
        (false, m)
    } else if s[i].1 == 0 || j < 0 || j >= s[i].0.orientations().len() {
        search_from(w, h, m, s, index, fuel, i + 1, 0)
    } else {
        let o = s[i].0.orientations()[j];
        match first_vector(w, h, m, o) {
            None => search_from(w, h, m, s, index, fuel, i, j + 1),
            Some(v) => {
                let m1 = m.union_prefer_right(placed(o, v.0, v.1, index, s[i].0.glyph));
                let s1 = s.update(i, (s[i].0, (s[i].1 - 1) as usize));
                let res = search(w, h, m1, s1, (index + 1) as usize, (fuel - 1) as nat);
                if res.0 {
                    res
                } else {
                    search_from(w, h, m, s, index, fuel, i, j + 1)
                }
            },
        }
    }
}

/// The backtracking search on the map `m` with the counts of `s`: success
/// at once when every count is zero, else the first level from shape 0.
pub open spec fn search(
    w: i8,
    h: i8,
    m: Map<Cell, Occupant>,
    s: Seq<(&Shape, usize)>,
    index: usize,
    fuel: nat,
) -> (bool, Map<Cell, Occupant>)
    decreases fuel, 1int, 0int, 0int,
{
    if all_zero(s) {
        (true, m)
    } else {
        search_from(w, h, m, s, index, fuel, 0, 0)
    }
}

/// The grid coordinates covered by the set `s` placed at `(vx, vy)`.
pub open spec fn footprint(s: Set<Cell>, vx: int, vy: int) -> Set<Cell> {
    Set::new(|t: Cell| exists|c: Cell| #[trigger] s.contains(c) && target(vx, vy, c) == (t.0 as int, t.1 as int))
}

/// The entries that placing `s` at `(vx, vy)` records.
pub open spec fn placed(s: Set<Cell>, vx: int, vy: int, index: usize, glyph: char) -> Map<Cell, Occupant> {
    Map::new(|t: Cell| footprint(s, vx, vy).contains(t), |t: Cell| (index, glyph))
}

/// The coordinates covered by the first `n` listed offsets placed at `(vx, vy)`.
pub open spec fn footprint_prefix(m: Seq<Cell>, n: int, vx: int, vy: int) -> Set<Cell> {
    Set::new(|t: Cell| exists|k: int| 0 <= k < n && target(vx, vy, #[trigger] m[k]) == (t.0 as int, t.1 as int))
}

/// The instances still to place: the sum of the counts.
pub open spec fn total(s: Seq<(&Shape, usize)>) -> nat
    decreases s.len(),
{
    if s.len() == 0 {
        0
    } else {
        (total(s.drop_last()) + s.last().1) as nat
    }
}

/// The cells still to cover: each count times the size of its shape.
pub open spec fn demand(s: Seq<(&Shape, usize)>) -> nat
    decreases s.len(),
{
    if s.len() == 0 {
        0
    } else {
        (demand(s.drop_last()) + s.last().1 * s.last().0.pieces@.len()) as nat
    }
}

/// Every count is zero.
pub open spec fn all_zero(s: Seq<(&Shape, usize)>) -> bool {
    forall|i: int| 0 <= i < s.len() ==> (#[trigger] s[i]).1 == 0
}

/// Every shape is well formed.
pub open spec fn shapes_wf(s: Seq<(&Shape, usize)>) -> bool {
    forall|i: int| 0 <= i < s.len() ==> (#[trigger] s[i]).0.wf()
}

/// Some count is positive, and no orientation of any shape with a positive
/// count can be placed anywhere on the grid.
pub open spec fn stuck(g: Grid, s: Seq<(&Shape, usize)>) -> bool {
    &&& exists|i: int| 0 <= i < s.len() && (#[trigger] s[i]).1 > 0
    &&& forall|i: int, j: int, vx: int, vy: int|
        0 <= i < s.len() && (#[trigger] s[i]).1 > 0 && 0 <= j < s[i].0.orientations().len()
            && #[trigger] g.fits(s[i].0.orientations()[j], vx, vy) ==> s[i].0.orientations()[j].is_empty()
}

proof fn lemma_counts_update(s: Seq<(&Shape, usize)>, i: int, c: usize)
    requires
        0 <= i < s.len(),
    ensures
        total(s.update(i, (s[i].0, c))) == total(s) - s[i].1 + c,
        demand(s.update(i, (s[i].0, c))) == demand(s) - s[i].1 * s[i].0.pieces@.len() + c * s[i].0.pieces@.len(),
        total(s) >= s[i].1,
        demand(s) >= s[i].1 * s[i].0.pieces@.len(),
    decreases s.len(),
{
    let u = s.update(i, (s[i].0, c));
    if i == s.len() - 1 {
        assert(u.drop_last() =~= s.drop_last());
    } else {
        lemma_counts_update(s.drop_last(), i, c);
        assert(u.drop_last() =~= s.drop_last().update(i, (s[i].0, c)));
    }
}

/// The cells present in `after`, absent from `before`, that carry placement index `k`.
pub open spec fn laid(before: Map<Cell, Occupant>, after: Map<Cell, Occupant>, k: usize) -> Set<Cell> {
    Set::new(|p: Cell| after.contains_key(p) && !before.contains_key(p) && after[p].0 == k)
}

/// The cells laid under index `k` are exactly one orientation of one listed
/// shape, placed at some vector, each carrying that shape's glyph.
pub open spec fn laid_as_shape(before: Map<Cell, Occupant>, after: Map<Cell, Occupant>, s: Seq<(&Shape, usize)>, k: usize) -> bool {
    exists|i: int, j: int, vx: int, vy: int|
        0 <= i < s.len() && 0 <= j < s[i].0.orientations().len()
            && #[trigger] footprint(s[i].0.orientations()[j], vx, vy) == laid(before, after, k)
            && forall|p: Cell| #[trigger] laid(before, after, k).contains(p) ==> after[p].1 == s[i].0.glyph
}

proof fn lemma_laid_step(
    o: Map<Cell, Occupant>,
    g1: Map<Cell, Occupant>,
    f: Map<Cell, Occupant>,
    s: Seq<(&Shape, usize)>,
    reduced: Seq<(&Shape, usize)>,
    i: int,
    j: int,
    vx: int,
    vy: int,
    pi: usize,
    n: nat,
)
    requires
        0 <= i < s.len(),
        0 <= j < s[i].0.orientations().len(),
        reduced.len() == s.len(),
        forall|q: int| 0 <= q < s.len() ==> (#[trigger] reduced[q]).0 == s[q].0,
        forall|p: Cell| #[trigger] footprint(s[i].0.orientations()[j], vx, vy).contains(p) ==> !o.contains_key(p),
        g1 == o.union_prefer_right(placed(s[i].0.orientations()[j], vx, vy, pi, s[i].0.glyph)),
        g1.submap_of(f),
        forall|p: Cell| #[trigger] f.contains_key(p) && !g1.contains_key(p) ==> pi + 1 <= f[p].0 < pi + 1 + n,
        forall|k: usize| pi + 1 <= k < pi + 1 + n ==> #[trigger] laid_as_shape(g1, f, reduced, k),
    ensures
        forall|k: usize| pi <= k < pi + 1 + n ==> #[trigger] laid_as_shape(o, f, s, k),
{
    let orient = s[i].0.orientations()[j];
    assert forall|k: usize| pi <= k < pi + 1 + n implies #[trigger] laid_as_shape(o, f, s, k) by {
        if k == pi {
            assert(footprint(orient, vx, vy) =~= laid(o, f, k)) by {
                assert forall|p: Cell| footprint(orient, vx, vy).contains(p) implies laid(o, f, k).contains(p) by {
                    assert(placed(orient, vx, vy, pi, s[i].0.glyph).contains_key(p));
                    assert(g1.contains_key(p));
                    assert(g1[p] == (pi, s[i].0.glyph));
                    assert(g1.dom().contains(p) ==> f.dom().contains(p) && g1[p] == f[p]);
                }
                assert forall|p: Cell| laid(o, f, k).contains(p) implies footprint(orient, vx, vy).contains(p) by {
                    if !g1.contains_key(p) {
                        assert(f.contains_key(p) && !g1.contains_key(p));
                    }
                }
            }
            assert forall|p: Cell| #[trigger] laid(o, f, k).contains(p) implies f[p].1 == s[i].0.glyph by {
                assert(footprint(orient, vx, vy).contains(p));
                assert(placed(orient, vx, vy, pi, s[i].0.glyph).contains_key(p));
                assert(g1.contains_key(p));
                assert(g1.dom().contains(p) ==> f.dom().contains(p) && g1[p] == f[p]);
            }
            assert(footprint(s[i].0.orientations()[j], vx, vy) == laid(o, f, k));
        } else {
            assert(laid_as_shape(g1, f, reduced, k));
            assert(laid(g1, f, k) =~= laid(o, f, k)) by {
                assert forall|p: Cell| laid(o, f, k).contains(p) implies !g1.contains_key(p) by {
                    if g1.contains_key(p) {
                        assert(footprint(orient, vx, vy).contains(p));
                        assert(g1.dom().contains(p) ==> f.dom().contains(p) && g1[p] == f[p]);
                    }
                }
                assert forall|p: Cell| laid(g1, f, k).contains(p) implies !o.contains_key(p) by {
                    if o.contains_key(p) {
                        assert(g1.contains_key(p));
                    }
                }
            }
            let (i2, j2, wx, wy) = choose|i2: int, j2: int, wx: int, wy: int|
                0 <= i2 < reduced.len() && 0 <= j2 < reduced[i2].0.orientations().len()
                    && #[trigger] footprint(reduced[i2].0.orientations()[j2], wx, wy) == laid(g1, f, k)
                    && forall|p: Cell| #[trigger] laid(g1, f, k).contains(p) ==> f[p].1 == reduced[i2].0.glyph;
            assert(reduced[i2].0 == s[i2].0);
            assert(footprint(s[i2].0.orientations()[j2], wx, wy) == laid(o, f, k));
        }
    }
}

proof fn lemma_total_zero(s: Seq<(&Shape, usize)>)
    requires
        total(s) == 0,
    ensures
        all_zero(s),
    decreases s.len(),
{
    if s.len() > 0 {
        lemma_total_zero(s.drop_last());
        assert forall|i: int| 0 <= i < s.len() implies (#[trigger] s[i]).1 == 0 by {
            if i < s.len() - 1 {
                assert(s[i] == s.drop_last()[i]);
            }
        }
    }
}

proof fn lemma_counts_zero(s: Seq<(&Shape, usize)>)
    requires
        all_zero(s),
    ensures
        total(s) == 0,
        demand(s) == 0,
    decreases s.len(),
{
    if s.len() > 0 {
        assert(s.last().1 == 0);
        lemma_counts_zero(s.drop_last());
    }
}

proof fn lemma_total_prefix(s: Seq<(&Shape, usize)>, i: int)
    requires
        0 <= i <= s.len(),
    ensures
        total(s.subrange(0, i)) <= total(s),
    decreases s.len(),
{
    if i == s.len() {
        assert(s.subrange(0, i) =~= s);
    } else {
        assert(s.drop_last().subrange(0, i) =~= s.subrange(0, i));
        lemma_total_prefix(s.drop_last(), i);
    }
}

/// The number of instances requested over all shapes, or `None` when it
/// exceeds `usize::MAX`.
pub fn requested_total(shapes: &Vec<(&Shape, usize)>) -> (r: Option<usize>)
    ensures
        match r {
            Some(n) => n == total(shapes@),
            None => total(shapes@) > usize::MAX,
        },
{
    let mut sum: usize = 0;
    let mut i: usize = 0;
    while i < shapes.len()
        invariant
            0 <= i <= shapes@.len(),
            sum == total(shapes@.subrange(0, i as int)),
        decreases shapes@.len() - i,
    {
        assert(shapes@.subrange(0, i as int + 1).drop_last() =~= shapes@.subrange(0, i as int));
        match sum.checked_add(shapes[i].1) {
            Some(next) => {
                sum = next;
            },
            None => {
                proof {
                    lemma_total_prefix(shapes@, i as int + 1);
                }
                return None;
            },
        }
        i = i + 1;
    }
    assert(shapes@.subrange(0, i as int) =~= shapes@);
    Some(sum)
}

/// A rectangle of cells, each vacant or occupied by one placement.
pub struct Grid {
    pub width: i8,
    pub height: i8,
    pub cells: CellMap,
}

impl Grid {
    /// Dimensions are not negative; every occupied cell lies inside the rectangle.
    pub open spec fn wf(&self) -> bool {
        &&& self.width >= 0
        &&& self.height >= 0
        &&& self.cells@.dom().finite()
        &&& forall|k: Cell| #[trigger] self.cells@.contains_key(k) ==> in_bounds(self.width, self.height, k.0 as int, k.1 as int)
            && self.cells@[k].0 < usize::MAX
    }

    /// `(x, y)` is inside the rectangle and no placement occupies it.
    pub open spec fn vacant(&self, x: int, y: int) -> bool {
        vacant_in(self.width, self.height, self.cells@, x, y)
    }

    /// Every cell of `s` placed at `(vx, vy)` lands inside the rectangle.
    pub open spec fn lands_inside(&self, s: Set<Cell>, vx: int, vy: int) -> bool {
        forall|c: Cell| #[trigger] s.contains(c) ==> in_bounds(self.width, self.height, vx - c.0, vy - c.1)
    }

    /// Every cell of `s` placed at `(vx, vy)` lands on a vacant coordinate.
    pub open spec fn fits(&self, s: Set<Cell>, vx: int, vy: int) -> bool {
        fits_in(self.width, self.height, self.cells@, s, vx, vy)
    }

    /// An empty grid of the given size.
    pub fn new(width: i8, height: i8) -> (r: Grid)
        requires
            width >= 0,
            height >= 0,
        ensures
            r.wf(),
            r.width == width,
            r.height == height,
            r.cells@ == Map::<Cell, Occupant>::empty(),
    {
        let cells = CellMap::default();
        assert(cells@ =~= Map::<Cell, Occupant>::empty());
        Grid { width, height, cells }
    }

    /// Whether `p` is inside the rectangle and unoccupied; out of bounds is never vacant.
    pub fn is_vacant(&self, p: (i16, i16)) -> (r: bool)
        ensures
            r == self.vacant(p.0 as int, p.1 as int),
    {
        let (x, y) = p;
        if x < 0 || y < 0 {
            return false;
        }
        if x >= self.width as i16 || y >= self.height as i16 {
            return false;
        }
        !map_contains(&self.cells, (x as i8, y as i8))
    }

    /// Whether every listed offset, placed at `(vx, vy)`, lands on a vacant coordinate.
    fn all_vacant(&self, members: &Vec<Cell>, vx: i16, vy: i16) -> (r: bool)
        requires
            self.wf(),
            -255 < vx < 255,
            -255 < vy < 255,
        ensures
            r == (forall|k: int| 0 <= k < members@.len() ==> self.vacant(vx - (#[trigger] members@[k]).0, vy - members@[k].1)),
    {
        let mut k: usize = 0;
        while k < members.len()
            invariant
                self.wf(),
                -255 < vx < 255,
                -255 < vy < 255,
                0 <= k <= members@.len(),
                forall|i: int| 0 <= i < k ==> self.vacant(vx - (#[trigger] members@[i]).0, vy - members@[i].1),
            decreases members@.len() - k,
        {
            let (cx, cy) = members[k];
            if !self.is_vacant((vx - cx as i16, vy - cy as i16)) {
                return false;
            }
            k = k + 1;
        }
        true
    }

    /// The first placement of `pieces` on vacant cells: grid positions are
    /// scanned row by row, and at each position every offset of the set is
    /// tried as the one that lands there. `None` when no placement exists.
    pub fn find_placement_vector(&self, pieces: &CellSet) -> (r: Option<(i16, i16)>)
        requires
            self.wf(),
        ensures
            match r {
                Some(v) => {
                    &&& self.fits(pieces@, v.0 as int, v.1 as int)
                    &&& exists|a: Cell|
                        #[trigger] pieces@.contains(a) && forall|vx: int, vy: int, c: Cell| #![trigger self.fits(pieces@, vx, vy), pieces@.contains(c)]
                            self.fits(pieces@, vx, vy) && pieces@.contains(c) ==> !scanned_before(
                                target(vx, vy, c),
                                target(v.0 as int, v.1 as int, a),
                            )
                },
                None => forall|vx: int, vy: int| #[trigger] self.fits(pieces@, vx, vy) ==> pieces@.is_empty(),
            },
            first_vector(self.width, self.height, self.cells@, pieces@) == (match r {
                Some(v) => Some((v.0 as int, v.1 as int)),
                None => None::<(int, int)>,
            }),
    {
        let members = set_members(pieces);
        let mut gy: i8 = 0;
        while gy < self.height
            invariant
                self.wf(),
                forall|p: Cell| pieces@.contains(p) <==> members@.contains(p),
                0 <= gy <= self.height,
                forall|vx: int, vy: int, c: Cell| #![trigger self.fits(pieces@, vx, vy), pieces@.contains(c)]
                    self.fits(pieces@, vx, vy) && pieces@.contains(c) ==> !scanned_before(
                        target(vx, vy, c),
                        (0, gy as int),
                    ),
            decreases self.height - gy,
        {
            let mut gx: i8 = 0;
            while gx < self.width
                invariant
                    self.wf(),
                        forall|p: Cell| pieces@.contains(p) <==> members@.contains(p),
                    0 <= gy < self.height,
                    0 <= gx <= self.width,
                    forall|vx: int, vy: int, c: Cell| #![trigger self.fits(pieces@, vx, vy), pieces@.contains(c)]
                        self.fits(pieces@, vx, vy) && pieces@.contains(c) ==> !scanned_before(
                            target(vx, vy, c),
                            (gx as int, gy as int),
                        ),
                decreases self.width - gx,
            {
                let mut ai: usize = 0;
                while ai < members.len()
                    invariant
                        self.wf(),
                                forall|p: Cell| pieces@.contains(p) <==> members@.contains(p),
                        0 <= gy < self.height,
                        0 <= gx < self.width,
                        0 <= ai <= members@.len(),
                        forall|vx: int, vy: int, c: Cell| #![trigger self.fits(pieces@, vx, vy), pieces@.contains(c)]
                            self.fits(pieces@, vx, vy) && pieces@.contains(c) ==> !scanned_before(
                                target(vx, vy, c),
                                (gx as int, gy as int),
                            ),
                        forall|i: int|
                            0 <= i < ai ==> !self.fits(
                                pieces@,
                                gx + (#[trigger] members@[i]).0,
                                gy + members@[i].1,
                            ),
                    decreases members@.len() - ai,
                {
                    let (ax, ay) = members[ai];
                    assert(members@.contains(members@[ai as int]));
                    let vx: i16 = gx as i16 + ax as i16;
                    let vy: i16 = gy as i16 + ay as i16;
                    let ok = self.all_vacant(&members, vx, vy);
                    if ok {
                        proof {
                            assert forall|c: Cell| #[trigger] pieces@.contains(c) implies self.vacant(vx - c.0, vy - c.1) by {
                                let k = choose|k: int| 0 <= k < members@.len() && members@[k] == c;
                            }
                            assert(pieces@.contains(members@[ai as int]));
                            assert(target(vx as int, vy as int, members@[ai as int]) == (gx as int, gy as int));
                            assert forall|ux: int, uy: int, c: Cell|
                                #![trigger fits_in(self.width, self.height, self.cells@, pieces@, ux, uy), pieces@.contains(c)]
                                fits_in(self.width, self.height, self.cells@, pieces@, ux, uy) && pieces@.contains(c)
                                implies !scanned_before(target(ux, uy, c), (gx as int, gy as int)) by {
                                assert(self.fits(pieces@, ux, uy));
                            }
                            lemma_first_fit_intro(self.width, self.height, self.cells@, pieces@, vx as int, vy as int,
                                members@[ai as int], gx as int, gy as int);
                        }
                        return Some((vx, vy));
                    }
                    proof {
                        let k = choose|k: int| 0 <= k < members@.len() && !self.vacant(vx - (#[trigger] members@[k]).0, vy - members@[k].1);
                        assert(members@.contains(members@[k]));
                        assert(pieces@.contains(members@[k]));
                    }
                    ai = ai + 1;
                }
                proof {
                    assert forall|vx: int, vy: int, c: Cell| #![trigger self.fits(pieces@, vx, vy), pieces@.contains(c)]
                        self.fits(pieces@, vx, vy) && pieces@.contains(c) implies !scanned_before(
                            target(vx, vy, c),
                            (gx as int + 1, gy as int),
                        ) by {
                        if target(vx, vy, c) == (gx as int, gy as int) {
                            let k = choose|k: int| 0 <= k < members@.len() && members@[k] == c;
                            assert(vx == gx + members@[k].0 && vy == gy + members@[k].1);
                        }
                    }
                }
                gx = gx + 1;
            }
            proof {
                assert forall|vx: int, vy: int, c: Cell| #![trigger self.fits(pieces@, vx, vy), pieces@.contains(c)]
                    self.fits(pieces@, vx, vy) && pieces@.contains(c) implies !scanned_before(
                        target(vx, vy, c),
                        (0, gy as int + 1),
                    ) by {
                    let t = target(vx, vy, c);
                    if t.1 == gy {
                        assert(self.vacant(vx - c.0, vy - c.1));
                    }
                }
            }
            gy = gy + 1;
        }
        proof {
            assert forall|vx: int, vy: int| #[trigger] self.fits(pieces@, vx, vy) implies pieces@.is_empty() by {
                if !pieces@.is_empty() {
                    let c = pieces@.choose();
                    assert(pieces@.contains(c));
                    assert(self.vacant(vx - c.0, vy - c.1));
                }
            }
            assert forall|vx: int, vy: int| #[trigger] fits_in(self.width, self.height, self.cells@, pieces@, vx, vy)
                implies pieces@.is_empty() by {
                assert(self.fits(pieces@, vx, vy));
            }
            lemma_first_vector_none(self.width, self.height, self.cells@, pieces@);
        }
        None
    }

    /// Records `(placement_index, glyph)` at every coordinate that `pieces`
    /// covers when placed at `placement_vector`. There is no overlap check: an
    /// occupied coordinate is overwritten.
    pub fn place(&mut self, pieces: &CellSet, placement_vector: (i16, i16), placement_index: usize, glyph: char)
        requires
            old(self).wf(),
            pieces@.finite(),
            old(self).lands_inside(pieces@, placement_vector.0 as int, placement_vector.1 as int),
            placement_index < usize::MAX,
        ensures
            final(self).wf(),
            final(self).width == old(self).width,
            final(self).height == old(self).height,
            final(self).cells@ == old(self).cells@.union_prefer_right(
                placed(pieces@, placement_vector.0 as int, placement_vector.1 as int, placement_index, glyph),
            ),
            old(self).fits(pieces@, placement_vector.0 as int, placement_vector.1 as int)
                ==> final(self).cells@.len() == old(self).cells@.len() + pieces@.len(),
    {
        let (vx, vy) = placement_vector;
        let members = set_members(pieces);
        let ghost start = self.cells@;
        let mut j: usize = 0;
        while j < members.len()
            invariant
                self.wf(),
                self.width == old(self).width,
                self.height == old(self).height,
                start == old(self).cells@,
                old(self).lands_inside(pieces@, vx as int, vy as int),
                placement_index < usize::MAX,
                members@.no_duplicates(),
                forall|p: Cell| pieces@.contains(p) <==> members@.contains(p),
                0 <= j <= members@.len(),
                self.cells@ == start.union_prefer_right(
                    Map::new(
                        |t: Cell| footprint_prefix(members@, j as int, vx as int, vy as int).contains(t),
                        |t: Cell| (placement_index, glyph),
                    ),
                ),
                old(self).fits(pieces@, vx as int, vy as int) ==> self.cells@.len() == start.len() + j,
            decreases members@.len() - j,
        {
            let (cx, cy) = members[j];
            let ghost c = members@[j as int];
            proof {
                assert(members@.contains(c));
                assert(pieces@.contains(c));
                assert(in_bounds(self.width, self.height, vx - c.0, vy - c.1));
            }
            let t: Cell = ((vx - cx as i16) as i8, (vy - cy as i16) as i8);
            proof {
                assert(target(vx as int, vy as int, c) == (t.0 as int, t.1 as int));
                assert(old(self).fits(pieces@, vx as int, vy as int) ==> !self.cells@.contains_key(t)) by {
                    if old(self).fits(pieces@, vx as int, vy as int) {
                        assert(old(self).vacant(vx - c.0, vy - c.1));
                    }
                    if old(self).fits(pieces@, vx as int, vy as int) && footprint_prefix(members@, j as int, vx as int, vy as int).contains(t) {
                        let k = choose|k: int| 0 <= k < j && target(vx as int, vy as int, #[trigger] members@[k]) == (t.0 as int, t.1 as int);
                        assert(members@[k] == members@[j as int]);
                    }
                }
                assert(Map::new(
                    |u: Cell| footprint_prefix(members@, j as int + 1, vx as int, vy as int).contains(u),
                    |u: Cell| (placement_index, glyph),
                ) =~= Map::new(
                    |u: Cell| footprint_prefix(members@, j as int, vx as int, vy as int).contains(u),
                    |u: Cell| (placement_index, glyph),
                ).insert(t, (placement_index, glyph)));
            }
            map_insert(&mut self.cells, t, (placement_index, glyph));
            proof {
                assert(self.cells@ =~= start.union_prefer_right(
                    Map::new(
                        |u: Cell| footprint_prefix(members@, j as int + 1, vx as int, vy as int).contains(u),
                        |u: Cell| (placement_index, glyph),
                    ),
                ));
            }
            j = j + 1;
        }
        proof {
            lemma_members_len(pieces@, members@);
            assert(footprint_prefix(members@, j as int, vx as int, vy as int) =~= footprint(pieces@, vx as int, vy as int)) by {
                assert forall|t: Cell| footprint(pieces@, vx as int, vy as int).contains(t) implies
                    footprint_prefix(members@, j as int, vx as int, vy as int).contains(t) by {
                    let c = choose|c: Cell| #[trigger] pieces@.contains(c) && target(vx as int, vy as int, c) == (t.0 as int, t.1 as int);
                    assert(members@.contains(c));
                    let k = choose|k: int| 0 <= k < members@.len() && members@[k] == c;
                }
                assert forall|t: Cell| footprint_prefix(members@, j as int, vx as int, vy as int).contains(t) implies
                    footprint(pieces@, vx as int, vy as int).contains(t) by {
                    let k = choose|k: int| 0 <= k < j && target(vx as int, vy as int, #[trigger] members@[k]) == (t.0 as int, t.1 as int);
                    assert(members@.contains(members@[k]));
                    assert(pieces@.contains(members@[k]));
                }
            }
            assert(Map::new(
                |u: Cell| footprint_prefix(members@, j as int, vx as int, vy as int).contains(u),
                |u: Cell| (placement_index, glyph),
            ) =~= placed(pieces@, vx as int, vy as int, placement_index, glyph));
        }
    }

    /// Clears every coordinate that `pieces` covers when placed at `placement_vector`.
    pub fn remove(&mut self, pieces: &CellSet, placement_vector: (i16, i16))
        requires
            old(self).wf(),
        ensures
            final(self).wf(),
            final(self).width == old(self).width,
            final(self).height == old(self).height,
            final(self).cells@ == old(self).cells@.remove_keys(
                footprint(pieces@, placement_vector.0 as int, placement_vector.1 as int),
            ),
    {
        let (vx, vy) = placement_vector;
        let members = set_members(pieces);
        let ghost start = self.cells@;
        let mut j: usize = 0;
        while j < members.len()
            invariant
                self.wf(),
                self.width == old(self).width,
                self.height == old(self).height,
                start == old(self).cells@,
                old(self).wf(),
                forall|p: Cell| pieces@.contains(p) <==> members@.contains(p),
                0 <= j <= members@.len(),
                self.cells@ == start.remove_keys(footprint_prefix(members@, j as int, vx as int, vy as int)),
            decreases members@.len() - j,
        {
            let (cx, cy) = members[j];
            let tx: i32 = vx as i32 - cx as i32;
            let ty: i32 = vy as i32 - cy as i32;
            let ghost before = self.cells@;
            if 0 <= tx && tx < self.width as i32 && 0 <= ty && ty < self.height as i32 {
                map_remove(&mut self.cells, (tx as i8, ty as i8));
                assert(self.cells@ =~= start.remove_keys(footprint_prefix(members@, j as int + 1, vx as int, vy as int)));
            } else {
                assert(self.cells@ =~= start.remove_keys(footprint_prefix(members@, j as int + 1, vx as int, vy as int))) by {
                    assert forall|t: Cell| footprint_prefix(members@, j as int + 1, vx as int, vy as int).contains(t)
                        && !footprint_prefix(members@, j as int, vx as int, vy as int).contains(t) implies
                        !start.contains_key(t) by {
                        let k = choose|k: int| 0 <= k < j + 1 && target(vx as int, vy as int, #[trigger] members@[k]) == (t.0 as int, t.1 as int);
                        if k < j {
                            assert(footprint_prefix(members@, j as int, vx as int, vy as int).contains(t));
                        }
                        assert(old(self).cells@.contains_key(t) ==> in_bounds(self.width, self.height, t.0 as int, t.1 as int));
                    }
                }
            }
            j = j + 1;
        }
        proof {
            assert(footprint_prefix(members@, j as int, vx as int, vy as int) =~= footprint(pieces@, vx as int, vy as int)) by {
                assert forall|t: Cell| footprint(pieces@, vx as int, vy as int).contains(t) implies
                    footprint_prefix(members@, j as int, vx as int, vy as int).contains(t) by {
                    let c = choose|c: Cell| #[trigger] pieces@.contains(c) && target(vx as int, vy as int, c) == (t.0 as int, t.1 as int);
                    assert(members@.contains(c));
                    let k = choose|k: int| 0 <= k < members@.len() && members@[k] == c;
                }
                assert forall|t: Cell| footprint_prefix(members@, j as int, vx as int, vy as int).contains(t) implies
                    footprint(pieces@, vx as int, vy as int).contains(t) by {
                    let k = choose|k: int| 0 <= k < j && target(vx as int, vy as int, #[trigger] members@[k]) == (t.0 as int, t.1 as int);
                    assert(members@.contains(members@[k]));
                    assert(pieces@.contains(members@[k]));
                }
            }
        }
    }

    /// Whether no instance remains to be placed.
    fn all_placed(shapes: &Vec<(&Shape, usize)>) -> (r: bool)
        ensures
            r == all_zero(shapes@),
    {
        let mut i: usize = 0;
        while i < shapes.len()
            invariant
                0 <= i <= shapes@.len(),
                forall|k: int| 0 <= k < i ==> (#[trigger] shapes@[k]).1 == 0,
            decreases shapes@.len() - i,
        {
            if shapes[i].1 != 0 {
                return false;
            }
            i = i + 1;
        }
        true
    }

    /// Depth-first backtracking: places one instance of some shape with a
    /// positive count per level, in some orientation, at the first vacant
    /// placement for that orientation, and recurses with the next placement
    /// index. On success the placements stay and every count is zero; on
    /// failure the grid and the counts are as they were.
    pub fn fill_with_rec(&mut self, shapes: &mut Vec<(&Shape, usize)>, placement_index: usize) -> (r: bool)
        requires
            old(self).wf(),
            shapes_wf(old(shapes)@),
            placement_index + total(old(shapes)@) <= usize::MAX,
        ensures
            final(self).wf(),
            final(self).width == old(self).width,
            final(self).height == old(self).height,
            final(shapes)@.len() == old(shapes)@.len(),
            forall|i: int| 0 <= i < old(shapes)@.len() ==> (#[trigger] final(shapes)@[i]).0 == old(shapes)@[i].0,
            r ==> all_zero(final(shapes)@),
            r ==> old(self).cells@.submap_of(final(self).cells@),
            r ==> final(self).cells@.len() == old(self).cells@.len() + demand(old(shapes)@),
            r ==> forall|k: Cell|
                #[trigger] final(self).cells@.contains_key(k) && !old(self).cells@.contains_key(k) ==> placement_index
                    <= final(self).cells@[k].0 < placement_index + total(old(shapes)@),
            r ==> forall|k: usize|
                placement_index <= k < placement_index + total(old(shapes)@) ==> #[trigger] laid_as_shape(
                    old(self).cells@,
                    final(self).cells@,
                    old(shapes)@,
                    k,
                ),
            !r ==> final(self).cells@ == old(self).cells@ && final(shapes)@ == old(shapes)@,
            (r, final(self).cells@) == search(
                old(self).width,
                old(self).height,
                old(self).cells@,
                old(shapes)@,
                placement_index,
                total(old(shapes)@),
            ),
            all_zero(old(shapes)@) ==> r,
            stuck(*old(self), old(shapes)@) ==> !r,
            !r && total(old(shapes)@) == 1 ==> stuck(*old(self), old(shapes)@),
        decreases total(old(shapes)@),
    {
        if Self::all_placed(shapes) {
            proof {
                lemma_counts_zero(shapes@);
                assert(self.cells@.submap_of(self.cells@));
            }
            return true;
        }
        proof {
            if total(old(shapes)@) == 0 {
                lemma_total_zero(old(shapes)@);
            }
        }
        let mut i: usize = 0;
        while i < shapes.len()
            invariant
                total(old(shapes)@) > 0,
                search(old(self).width, old(self).height, old(self).cells@, old(shapes)@, placement_index, total(old(shapes)@)) == search_from(old(self).width, old(self).height, old(self).cells@, old(shapes)@, placement_index, total(old(shapes)@), i as int, 0),
                self.wf(),
                self.width == old(self).width,
                self.height == old(self).height,
                self.cells@ == old(self).cells@,
                shapes@ == old(shapes)@,
                shapes_wf(old(shapes)@),
                placement_index + total(old(shapes)@) <= usize::MAX,
                !all_zero(old(shapes)@),
                0 <= i <= shapes@.len(),
                total(old(shapes)@) == 1 ==> forall|i2: int, j2: int, vx: int, vy: int|
                    0 <= i2 < i && (#[trigger] old(shapes)@[i2]).1 > 0 && 0 <= j2 < old(shapes)@[i2].0.orientations().len()
                        && #[trigger] old(self).fits(old(shapes)@[i2].0.orientations()[j2], vx, vy)
                        ==> old(shapes)@[i2].0.orientations()[j2].is_empty(),
            decreases shapes@.len() - i,
        {
            let (shape, amount) = shapes[i];
            if amount == 0 {
                assert(search_from(old(self).width, old(self).height, old(self).cells@, old(shapes)@, placement_index, total(old(shapes)@), i as int, 0) == search_from(old(self).width, old(self).height, old(self).cells@, old(shapes)@, placement_index, total(old(shapes)@), i as int + 1, 0));
                i = i + 1;
                continue;
            }
            proof {
                lemma_counts_update(shapes@, i as int, (amount - 1) as usize);
                assert(shape.wf());
                let len = shape.pieces@.len();
                assert(amount * len - (amount - 1) * len == len) by (nonlinear_arith);
            }
            shapes.set(i, (shape, amount - 1));
            let ghost reduced = shapes@;
            let rots = shape.all_rotations();
            let mut j: usize = 0;
            while j < rots.len()
                invariant
                    self.wf(),
                    self.width == old(self).width,
                    self.height == old(self).height,
                    self.cells@ == old(self).cells@,
                    0 <= i < old(shapes)@.len(),
                    old(shapes)@[i as int] == (shape, amount),
                    amount > 0,
                    shape.wf(),
                    shapes@ == reduced,
                    reduced == old(shapes)@.update(i as int, (shape, (amount - 1) as usize)),
                    total(reduced) == total(old(shapes)@) - 1,
                    demand(reduced) == demand(old(shapes)@) - shape.pieces@.len(),
                    shapes_wf(old(shapes)@),
                    placement_index + total(old(shapes)@) <= usize::MAX,
                    !all_zero(old(shapes)@),
                    rots@.len() == shape.orientations().len(),
                    forall|k: int| 0 <= k < rots@.len() ==> (#[trigger] rots@[k])@ == shape.orientations()[k],
                    0 <= j <= rots@.len(),
                    total(old(shapes)@) > 0,
                    search(old(self).width, old(self).height, old(self).cells@, old(shapes)@, placement_index, total(old(shapes)@)) == search_from(old(self).width, old(self).height, old(self).cells@, old(shapes)@, placement_index, total(old(shapes)@), i as int, j as int),
                    total(old(shapes)@) == 1 ==> forall|i2: int, j2: int, vx: int, vy: int|
                        0 <= i2 < i && (#[trigger] old(shapes)@[i2]).1 > 0 && 0 <= j2 < old(shapes)@[i2].0.orientations().len()
                            && #[trigger] old(self).fits(old(shapes)@[i2].0.orientations()[j2], vx, vy)
                            ==> old(shapes)@[i2].0.orientations()[j2].is_empty(),
                    total(old(shapes)@) == 1 ==> forall|j2: int, vx: int, vy: int|
                        0 <= j2 < j && #[trigger] old(self).fits(shape.orientations()[j2], vx, vy)
                            ==> shape.orientations()[j2].is_empty(),
                decreases rots@.len() - j,
            {
                let pieces = rots[j];
                proof {
                    assert(pieces@ == shape.orientations()[j as int]);
                    if j > 0 {
                        assert(shape.orientations()[j as int] == shape.additional_rotations@[j - 1]@);
                        assert(shape.additional_rotations@[j - 1]@.finite());
                    } else {
                        assert(shape.orientations()[0] == shape.pieces@);
                    }
                    assert(pieces@.finite() && all_turnable(pieces@) && pieces@.len() == shape.pieces@.len());
                }
                match self.find_placement_vector(pieces) {
                    None => {
                        proof {
                            assert(search_from(old(self).width, old(self).height, old(self).cells@, old(shapes)@, placement_index, total(old(shapes)@), i as int, j as int) == search_from(old(self).width, old(self).height, old(self).cells@, old(shapes)@, placement_index, total(old(shapes)@), i as int, j as int + 1));
                            assert forall|vx: int, vy: int| #[trigger] old(self).fits(shape.orientations()[j as int], vx, vy)
                                implies shape.orientations()[j as int].is_empty() by {
                                assert(self.fits(pieces@, vx, vy));
                            }
                        }
                    },
                    Some(v) => {
                        proof {
                            assert(!stuck(*old(self), old(shapes)@)) by {
                                let a = choose|a: Cell| #[trigger] pieces@.contains(a) && forall|vx: int, vy: int, c: Cell|
                                    #![trigger self.fits(pieces@, vx, vy), pieces@.contains(c)]
                                    self.fits(pieces@, vx, vy) && pieces@.contains(c) ==> !scanned_before(
                                        target(vx, vy, c),
                                        target(v.0 as int, v.1 as int, a),
                                    );
                                assert(old(self).fits(old(shapes)@[i as int].0.orientations()[j as int], v.0 as int, v.1 as int));
                            }
                        }
                        let ghost g0: Grid = *self;
                        self.place(pieces, v, placement_index, shape.glyph);
                        let ghost g1: Grid = *self;
                        if self.fill_with_rec(shapes, placement_index + 1) {
                            proof {
                                assert forall|k: Cell| #[trigger] g0.cells@.contains_key(k) implies !placed(
                                    pieces@, v.0 as int, v.1 as int, placement_index, shape.glyph).contains_key(k) by {
                                    if footprint(pieces@, v.0 as int, v.1 as int).contains(k) {
                                        let c = choose|c: Cell| #[trigger] pieces@.contains(c) && target(v.0 as int, v.1 as int, c) == (k.0 as int, k.1 as int);
                                        assert(g0.vacant(v.0 - c.0, v.1 - c.1));
                                    }
                                }
                                assert(g0.cells@.submap_of(g1.cells@));
                                assert forall|p: Cell| #[trigger] footprint(shape.orientations()[j as int], v.0 as int, v.1 as int).contains(p)
                                    implies !g0.cells@.contains_key(p) by {
                                    let c = choose|c: Cell| #[trigger] pieces@.contains(c) && target(v.0 as int, v.1 as int, c) == (p.0 as int, p.1 as int);
                                    assert(g0.vacant(v.0 - c.0, v.1 - c.1));
                                }
                                assert forall|q: int| 0 <= q < old(shapes)@.len() implies (#[trigger] reduced[q]).0 == old(shapes)@[q].0 by {}
                                lemma_laid_step(g0.cells@, g1.cells@, self.cells@, old(shapes)@, reduced, i as int, j as int,
                                    v.0 as int, v.1 as int, placement_index, total(reduced));
                                assert forall|k: Cell| #[trigger] g0.cells@.contains_key(k) implies self.cells@.contains_key(k)
                                    && g0.cells@[k] == self.cells@[k] by {
                                    assert(g1.cells@.contains_key(k));
                                }
                                assert(g0.cells@.submap_of(self.cells@));
                                assert forall|k: int| 0 <= k < old(shapes)@.len() implies (#[trigger] shapes@[k]).0 == old(shapes)@[k].0 by {
                                    assert(shapes@[k].0 == reduced[k].0);
                                }
                            }
                            assert(search_from(old(self).width, old(self).height, old(self).cells@, old(shapes)@, placement_index, total(old(shapes)@), i as int, j as int) == (true, self.cells@));
                            return true;
                        }
                        proof {
                            if total(old(shapes)@) == 1 {
                                lemma_total_zero(reduced);
                            }
                        }
                        self.remove(pieces, v);
                        proof {
                            assert(search_from(old(self).width, old(self).height, old(self).cells@, old(shapes)@, placement_index, total(old(shapes)@), i as int, j as int) == search_from(old(self).width, old(self).height, old(self).cells@, old(shapes)@, placement_index, total(old(shapes)@), i as int, j as int + 1));
                            lemma_place_remove_inverse(g0, pieces@, v.0 as int, v.1 as int, placement_index, shape.glyph);
                        }
                    },
                }
                j = j + 1;
            }
            assert(search_from(old(self).width, old(self).height, old(self).cells@, old(shapes)@, placement_index, total(old(shapes)@), i as int, j as int) == search_from(old(self).width, old(self).height, old(self).cells@, old(shapes)@, placement_index, total(old(shapes)@), i as int + 1, 0));
            shapes.set(i, (shape, amount));
            assert(shapes@ =~= old(shapes)@);
            i = i + 1;
        }
        proof {
            if total(old(shapes)@) == 1 {
                let k = choose|k: int| 0 <= k < old(shapes)@.len() && (#[trigger] old(shapes)@[k]).1 != 0;
            }
            assert(search_from(old(self).width, old(self).height, old(self).cells@, old(shapes)@, placement_index, total(old(shapes)@), i as int, 0) == (false, old(self).cells@));
        }
        false
    }

    /// What occupies `(x, y)`, if anything.
    pub fn placement_at(&self, x: i8, y: i8) -> (r: Option<Occupant>)
        ensures
            r == (if self.cells@.contains_key((x, y)) { Some(self.cells@[(x, y)]) } else { None::<Occupant> }),
    {
        map_get(&self.cells, (x, y))
    }

    /// How many distinct colours a rendering needs: one more than the largest
    /// placement index on the grid, and never fewer than two.
    pub fn color_count(&self) -> (r: usize)
        requires
            self.wf(),
        ensures
            r >= 2,
            forall|k: Cell| #[trigger] self.cells@.contains_key(k) ==> self.cells@[k].0 < r,
            r == 2 || exists|k: Cell| #[trigger] self.cells@.contains_key(k) && self.cells@[k].0 + 1 == r,
    {
        let mut r: usize = 2;
        let mut y: i8 = 0;
        while y < self.height
            invariant
                self.wf(),
                0 <= y <= self.height,
                r >= 2,
                forall|k: Cell| #[trigger] self.cells@.contains_key(k) && k.1 < y ==> self.cells@[k].0 < r,
                r == 2 || exists|k: Cell| #[trigger] self.cells@.contains_key(k) && self.cells@[k].0 + 1 == r,
            decreases self.height - y,
        {
            let mut x: i8 = 0;
            while x < self.width
                invariant
                    self.wf(),
                    0 <= y < self.height,
                    0 <= x <= self.width,
                    r >= 2,
                    forall|k: Cell|
                        #[trigger] self.cells@.contains_key(k) && (k.1 < y || (k.1 == y && k.0 < x)) ==> self.cells@[k].0 < r,
                    r == 2 || exists|k: Cell| #[trigger] self.cells@.contains_key(k) && self.cells@[k].0 + 1 == r,
                decreases self.width - x,
            {
                match map_get(&self.cells, (x, y)) {
                    Some(occupant) => {
                        if occupant.0 + 1 > r {
                            r = occupant.0 + 1;
                        }
                    },
                    None => {},
                }
                x = x + 1;
            }
            y = y + 1;
        }
        r
    }
}

/// Out-of-bounds coordinates are never vacant, whatever the grid holds.
pub proof fn lemma_out_of_bounds_not_vacant(g: Grid, x: int, y: int)
    requires
        x < 0 || y < 0 || x >= g.width || y >= g.height,
    ensures
        !g.vacant(x, y),
{
}


/// Placing a set on vacant coordinates and then removing it from the same
/// vector gives back exactly the map it was placed on.
pub proof fn lemma_place_remove_inverse(g: Grid, s: Set<Cell>, vx: int, vy: int, index: usize, glyph: char)
    requires
        g.wf(),
        g.fits(s, vx, vy),
    ensures
        g.cells@.union_prefer_right(placed(s, vx, vy, index, glyph)).remove_keys(footprint(s, vx, vy)) == g.cells@,
{
    assert forall|t: Cell| footprint(s, vx, vy).contains(t) implies !g.cells@.contains_key(t) by {
        let c = choose|c: Cell| #[trigger] s.contains(c) && target(vx, vy, c) == (t.0 as int, t.1 as int);
        assert(g.vacant(vx - c.0, vy - c.1));
    }
    assert(g.cells@.union_prefer_right(placed(s, vx, vy, index, glyph)).remove_keys(footprint(s, vx, vy)) =~= g.cells@);
}

} // verus!
