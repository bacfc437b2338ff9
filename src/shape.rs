//! Tile shapes: a base set of cell offsets and its precomputed quarter turns.

use crate::cells::{lemma_members_len, set_contains, set_insert, set_members, string_push, Cell, CellSet};
use vstd::prelude::*;
use vstd::string::*;

verus! {

/// An offset whose negation is again an `i8`, so that it can be turned.
pub open spec fn turnable(p: Cell) -> bool {
    p.0 > -128 && p.1 > -128
}

/// Every offset of the set can be turned.
pub open spec fn all_turnable(s: Set<Cell>) -> bool {
    forall|p: Cell| #[trigger] s.contains(p) ==> turnable(p)
}

/// The quarter turn of one offset: `(x, y)` goes to `(y, -x)`.
pub open spec fn turn_point(p: Cell) -> Cell {
    (p.1, (-p.0) as i8)
}

/// The quarter turn of a set: the turns of its members.
pub open spec fn turn_set(s: Set<Cell>) -> Set<Cell> {
    Set::new(|p: Cell| p.1 > -128 && s.contains(((-p.1) as i8, p.0)))
}

/// The set after `n` quarter turns.
pub open spec fn turn_n(s: Set<Cell>, n: nat) -> Set<Cell>
    decreases n,
{
    if n == 0 {
        s
    } else {
        turn_set(turn_n(s, (n - 1) as nat))
    }
}

/// The row of the character at position `i` of a pattern: the line breaks before it.
pub open spec fn row_of(s: Seq<char>, i: int) -> int
    decreases i,
{
    if i <= 0 {
        0
    } else if s[i - 1] == '\n' {
        row_of(s, i - 1) + 1
    } else {
        row_of(s, i - 1)
    }
}

/// The column of the character at position `i` of a pattern: the characters
/// between it and the line break before it.
pub open spec fn col_of(s: Seq<char>, i: int) -> int
    decreases i,
{
    if i <= 0 {
        0
    } else if s[i - 1] == '\n' {
        0
    } else {
        col_of(s, i - 1) + 1
    }
}

/// The offsets `(column, row)` of the markers among the first `n` characters.
pub open spec fn marked_prefix(s: Seq<char>, n: int) -> Set<Cell> {
    Set::new(
        |p: Cell|
            exists|i: int|
                0 <= i < n && s[i] == '#' && p.0 as int == col_of(s, i) && p.1 as int == row_of(
                    s,
                    i,
                ),
    )
}

/// Every marker of the pattern lies in a column and a row below 128, so its
/// offset is an `i8`.
pub open spec fn markers_fit(s: Seq<char>) -> bool {
    forall|i: int| 0 <= i < s.len() && s[i] == '#' ==> col_of(s, i) < 128 && row_of(s, i) < 128
}

/// The offsets `(column, row)` of the markers `#` of a pattern.
pub open spec fn marked_cells(s: Seq<char>) -> Set<Cell> {
    marked_prefix(s, s.len() as int)
}

proof fn lemma_row_col_bounded(s: Seq<char>, i: int)
    requires
        0 <= i,
    ensures
        0 <= row_of(s, i) <= i,
        0 <= col_of(s, i) <= i,
    decreases i,
{
    if i > 0 {
        lemma_row_col_bounded(s, i - 1);
    }
}

/// `e` is the bounding box `(min_x, min_y, max_x, max_y)` of `s`; all zero when `s` is empty.
pub open spec fn is_extent(s: Set<Cell>, e: (i8, i8, i8, i8)) -> bool {
    if s.is_empty() {
        e == (0i8, 0i8, 0i8, 0i8)
    } else {
        &&& forall|p: Cell| #[trigger] s.contains(p) ==> e.0 <= p.0 <= e.2 && e.1 <= p.1 <= e.3
        &&& exists|p: Cell| #[trigger] s.contains(p) && p.0 == e.0
        &&& exists|p: Cell| #[trigger] s.contains(p) && p.1 == e.1
        &&& exists|p: Cell| #[trigger] s.contains(p) && p.0 == e.2
        &&& exists|p: Cell| #[trigger] s.contains(p) && p.1 == e.3
    }
}

/// The character drawn for `(x, y)`: the glyph where the set has an offset, else a space.
pub open spec fn drawn(s: Set<Cell>, glyph: char, x: int, y: int) -> char {
    if s.contains((x as i8, y as i8)) {
        glyph
    } else {
        ' '
    }
}

/// Row `y` drawn from column `x0` up to, not including, column `x`.
pub open spec fn row_text(s: Set<Cell>, glyph: char, y: int, x0: int, x: int) -> Seq<char>
    decreases x - x0,
{
    if x <= x0 {
        Seq::empty()
    } else {
        row_text(s, glyph, y, x0, x - 1).push(drawn(s, glyph, x - 1, y))
    }
}

/// The rows of the bounding box `e` above row `y`, each ended by a line break.
pub open spec fn block_text(s: Set<Cell>, glyph: char, e: (i8, i8, i8, i8), y: int) -> Seq<char>
    decreases y - e.1,
{
    if y <= e.1 {
        Seq::empty()
    } else {
        block_text(s, glyph, e, y - 1) + row_text(s, glyph, y - 1, e.0 as int, e.2 + 1).push('\n')
    }
}

/// One tile type: its base offsets, its extra orientations and its glyph.
pub struct Shape {
    pub pieces: CellSet,
    pub additional_rotations: Vec<CellSet>,
    pub glyph: char,
}

impl Shape {
    /// The orientations in the order the search tries them: the base, then each turn.
    pub open spec fn orientations(&self) -> Seq<Set<Cell>> {
        seq![self.pieces@].add(self.additional_rotations@.map_values(|r: CellSet| r@))
    }

    pub open spec fn wf(&self) -> bool {
        &&& self.pieces@.finite()
        &&& all_turnable(self.pieces@)
        &&& forall|j: int|
            0 <= j < self.additional_rotations@.len() ==> #[trigger] self.additional_rotations@[j]@
                == turn_n(self.pieces@, (j + 1) as nat)
        &&& forall|j: int|
            0 <= j < self.additional_rotations@.len() ==> #[trigger] self.additional_rotations@[j]@.finite()
                && self.additional_rotations@[j]@.len() == self.pieces@.len()
                && all_turnable(self.additional_rotations@[j]@)
    }

    /// Builds a shape from a pattern whose `#` characters mark the occupied
    /// cells, at (column, row), with `num_additional_rotations` quarter turns
    /// precomputed after the base.
    pub fn from_str(s: &str, num_additional_rotations: usize, glyph: char) -> (r: Shape)
        requires
            markers_fit(s@),
        ensures
            r.wf(),
            r.pieces@ == marked_cells(s@),
            r.additional_rotations@.len() == num_additional_rotations,
            r.glyph == glyph,
    {
        let n = s.unicode_len();
        let mut pieces = CellSet::default();
        let mut x: usize = 0;
        let mut y: usize = 0;
        let mut i: usize = 0;
        while i < n
            invariant
                n == s@.len(),
                markers_fit(s@),
                0 <= i <= n,
                x as int == col_of(s@, i as int),
                y as int == row_of(s@, i as int),
                pieces@ == marked_prefix(s@, i as int),
                pieces@.finite(),
                pieces@.len() <= i,
                all_turnable(pieces@),
            decreases n - i,
        {
            proof {
                lemma_row_col_bounded(s@, i as int);
            }
            let ch = s.get_char(i);
            if ch == '#' {
                let p: Cell = (x as i8, y as i8);
                proof {
                    assert(p.0 as int == col_of(s@, i as int) && p.1 as int == row_of(s@, i as int));
                    if pieces@.contains(p) {
                        assert(marked_prefix(s@, i as int + 1) =~= pieces@);
                    } else {
                        assert(marked_prefix(s@, i as int + 1) =~= pieces@.insert(p));
                    }
                }
                set_insert(&mut pieces, p);
            } else {
                assert(marked_prefix(s@, i as int + 1) =~= pieces@);
            }
            if ch == '\n' {
                x = 0;
                y = y + 1;
            } else {
                x = x + 1;
            }
            i = i + 1;
        }
        let mut additional_rotations: Vec<CellSet> = Vec::new();
        let mut k: usize = 0;
        while k < num_additional_rotations
            invariant
                k <= num_additional_rotations,
                additional_rotations@.len() == k,
                pieces@.finite(),
                all_turnable(pieces@),
                forall|j: int|
                    0 <= j < k ==> #[trigger] additional_rotations@[j]@ == turn_n(
                        pieces@,
                        (j + 1) as nat,
                    ),
                forall|j: int|
                    0 <= j < k ==> #[trigger] additional_rotations@[j]@.finite()
                        && additional_rotations@[j]@.len() == pieces@.len()
                        && all_turnable(additional_rotations@[j]@),
            decreases num_additional_rotations - k,
        {
            proof {
                if k > 0 {
                    assert(additional_rotations@[k - 1]@.finite());
                }
                assert(turn_n(pieces@, (k + 1) as nat) == turn_set(turn_n(pieces@, k as nat)));
                assert(turn_n(pieces@, 0) == pieces@);
            }
            let next = if k == 0 {
                Self::rotate_pieces(&pieces)
            } else {
                Self::rotate_pieces(&additional_rotations[k - 1])
            };
            additional_rotations.push(next);
            k = k + 1;
        }
        Shape { pieces, additional_rotations, glyph }
    }

    /// The quarter turn `(x, y) -> (y, -x)` of every offset of the set.
    pub fn rotate_pieces(pieces: &CellSet) -> (r: CellSet)
        requires
            pieces@.finite(),
            all_turnable(pieces@),
        ensures
            r@ == turn_set(pieces@),
            r@.finite(),
            r@.len() == pieces@.len(),
            all_turnable(r@),
    {
        let members = set_members(pieces);
        let mut r = CellSet::default();
        let mut j: usize = 0;
        while j < members.len()
            invariant
                0 <= j <= members@.len(),
                members@.no_duplicates(),
                forall|p: Cell| pieces@.contains(p) <==> members@.contains(p),
                all_turnable(pieces@),
                r@ == Set::new(
                    |p: Cell| exists|k: int| 0 <= k < j && p == turn_point(#[trigger] members@[k]),
                ),
                r@.finite(),
                r@.len() == j,
            decreases members@.len() - j,
        {
            let (px, py) = members[j];
            assert(members@.contains(members@[j as int]));
            let q: Cell = (py, -px);
            proof {
                assert(!r@.contains(q)) by {
                    if r@.contains(q) {
                        let k = choose|k: int| 0 <= k < j && q == turn_point(#[trigger] members@[k]);
                        assert(members@.contains(members@[k]));
                        assert(pieces@.contains(members@[k]));
                        assert(pieces@.contains(members@[j as int]));
                        assert(members@[k] == members@[j as int]);
                    }
                }
                assert(r@.insert(q) =~= Set::new(
                    |p: Cell| exists|k: int| 0 <= k < j + 1 && p == turn_point(#[trigger] members@[k]),
                )) by {
                    assert(q == turn_point(members@[j as int]));
                }
            }
            set_insert(&mut r, q);
            j = j + 1;
        }
        proof {
            lemma_members_len(pieces@, members@);
            assert(r@ =~= turn_set(pieces@)) by {
                assert forall|p: Cell| r@.contains(p) implies turn_set(pieces@).contains(p) by {
                    let k = choose|k: int| 0 <= k < j && p == turn_point(#[trigger] members@[k]);
                    assert(members@.contains(members@[k]));
                }
                assert forall|p: Cell| turn_set(pieces@).contains(p) implies r@.contains(p) by {
                    let o: Cell = ((-p.1) as i8, p.0);
                    assert(members@.contains(o));
                    let k = choose|k: int| 0 <= k < members@.len() && members@[k] == o;
                    assert(p == turn_point(members@[k]));
                }
            }
        }
        r
    }

    /// The bounding box of a set of offsets.
    fn extent(pieces: &CellSet) -> (e: (i8, i8, i8, i8))
        ensures
            is_extent(pieces@, e),
    {
        let members = set_members(pieces);
        if members.len() == 0 {
            proof {
                if !pieces@.is_empty() {
                    assert(members@.contains(pieces@.choose()));
                }
            }
            return (0, 0, 0, 0);
        }
        let (x0, y0) = members[0];
        let mut e: (i8, i8, i8, i8) = (x0, y0, x0, y0);
        let mut j: usize = 1;
        while j < members.len()
            invariant
                1 <= j <= members@.len(),
                forall|p: Cell| pieces@.contains(p) <==> members@.contains(p),
                forall|k: int| 0 <= k < j ==> e.0 <= (#[trigger] members@[k]).0 <= e.2 && e.1 <= members@[k].1 <= e.3,
                exists|k: int| 0 <= k < j && (#[trigger] members@[k]).0 == e.0,
                exists|k: int| 0 <= k < j && (#[trigger] members@[k]).1 == e.1,
                exists|k: int| 0 <= k < j && (#[trigger] members@[k]).0 == e.2,
                exists|k: int| 0 <= k < j && (#[trigger] members@[k]).1 == e.3,
            decreases members@.len() - j,
        {
            let (x, y) = members[j];
            if x < e.0 {
                e.0 = x;
            }
            if y < e.1 {
                e.1 = y;
            }
            if x > e.2 {
                e.2 = x;
            }
            if y > e.3 {
                e.3 = y;
            }
            j = j + 1;
        }
        proof {
            assert(members@.contains(members@[0]));
            assert forall|p: Cell| #[trigger] pieces@.contains(p) implies e.0 <= p.0 <= e.2 && e.1 <= p.1 <= e.3 by {
                let k = choose|k: int| 0 <= k < members@.len() && members@[k] == p;
            }
            let k0 = choose|k: int| 0 <= k < j && (#[trigger] members@[k]).0 == e.0;
            let k1 = choose|k: int| 0 <= k < j && (#[trigger] members@[k]).1 == e.1;
            let k2 = choose|k: int| 0 <= k < j && (#[trigger] members@[k]).0 == e.2;
            let k3 = choose|k: int| 0 <= k < j && (#[trigger] members@[k]).1 == e.3;
            assert(members@.contains(members@[k0]) && pieces@.contains(members@[k0]));
            assert(members@.contains(members@[k1]) && pieces@.contains(members@[k1]));
            assert(members@.contains(members@[k2]) && pieces@.contains(members@[k2]));
            assert(members@.contains(members@[k3]) && pieces@.contains(members@[k3]));
        }
        e
    }

    /// The base orientation drawn over its bounding box: one line per row,
    /// the glyph where an offset lies and a space elsewhere.
    pub fn render(&self) -> (r: String)
        ensures
            exists|e: (i8, i8, i8, i8)| is_extent(self.pieces@, e) && r@ == block_text(self.pieces@, self.glyph, e, e.3 + 1),
    {
        let e = Self::extent(&self.pieces);
        let mut out = String::new();
        let ghost s = self.pieces@;
        let mut y: i16 = e.1 as i16;
        assert(e.0 <= e.2 && e.1 <= e.3);
        while y <= e.3 as i16
            invariant
                e.0 <= e.2,
                e.1 <= y <= e.3 + 1,
                s == self.pieces@,
                out@ == block_text(s, self.glyph, e, y as int),
            decreases e.3 + 1 - y,
        {
            let mut x: i16 = e.0 as i16;
            while x <= e.2 as i16
                invariant
                    e.0 <= x <= e.2 + 1,
                    e.1 <= y <= e.3,
                    s == self.pieces@,
                    out@ == block_text(s, self.glyph, e, y as int) + row_text(s, self.glyph, y as int, e.0 as int, x as int),
                decreases e.2 + 1 - x,
            {
                let c = if set_contains(&self.pieces, (x as i8, y as i8)) {
                    self.glyph
                } else {
                    ' '
                };
                string_push(&mut out, c);
                proof {
                    assert(block_text(s, self.glyph, e, y as int) + row_text(s, self.glyph, y as int, e.0 as int, x + 1)
                        =~= (block_text(s, self.glyph, e, y as int) + row_text(s, self.glyph, y as int, e.0 as int, x as int)).push(c));
                }
                x = x + 1;
            }
            string_push(&mut out, '\n');
            proof {
                assert(block_text(s, self.glyph, e, y + 1) =~= out@);
            }
            y = y + 1;
        }
        out
    }

    /// The orientations the search tries, in order: the base, then each turn.
    pub fn all_rotations(&self) -> (r: Vec<&CellSet>)
        ensures
            r@.len() == self.orientations().len(),
            forall|j: int| 0 <= j < r@.len() ==> (#[trigger] r@[j])@ == self.orientations()[j],
    {
        let mut r: Vec<&CellSet> = Vec::new();
        r.push(&self.pieces);
        let mut j: usize = 0;
        while j < self.additional_rotations.len()
            invariant
                0 <= j <= self.additional_rotations@.len(),
                r@.len() == j + 1,
                r@[0]@ == self.pieces@,
                forall|k: int| 0 <= k < j ==> (#[trigger] r@[k + 1])@ == self.additional_rotations@[k]@,
            decreases self.additional_rotations@.len() - j,
        {
            r.push(&self.additional_rotations[j]);
            j = j + 1;
        }
        proof {
            assert forall|k: int| 0 <= k < r@.len() implies (#[trigger] r@[k])@ == self.orientations()[k] by {
                if k > 0 {
                    assert(r@[(k - 1) + 1]@ == self.additional_rotations@[k - 1]@);
                }
            }
        }
        r
    }
}

/// Turning a set of turnable offsets four times gives the set back.
pub proof fn lemma_rotation_cycle(s: Set<Cell>)
    requires
        all_turnable(s),
    ensures
        turn_n(s, 4) == s,
{
    let one = turn_n(s, 1);
    let two = turn_n(s, 2);
    let three = turn_n(s, 3);
    assert(turn_n(s, 0) == s);
    assert(two =~= Set::new(|p: Cell| p.0 > -128 && p.1 > -128 && s.contains(((-p.0) as i8, (-p.1) as i8))));
    assert(three =~= Set::new(|p: Cell| p.0 > -128 && p.1 > -128 && s.contains((p.1, (-p.0) as i8))));
    assert(turn_n(s, 4) =~= s);
}

} // verus!
