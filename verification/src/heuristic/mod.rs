//! Estimates of the number of moves that separate a board from the target.

pub mod dijkstra;
pub mod euclidean;
pub mod manhattan;
pub mod miss_placed;
pub mod out_of_raw;

pub use self::dijkstra::Dijkstra;
pub use self::euclidean::Euclidean;
pub use self::manhattan::Manhattan;
pub use self::miss_placed::MissPlaced;
pub use self::out_of_raw::OutOfRaw;

use vstd::prelude::*;
use crate::board::{into_boxed, lemma_blank, lemma_side_bound, Board, Layout, Tile};
use crate::tile_move::Move;

verus! {

/// The sum of the numbers in `s`.
pub open spec fn total(s: Seq<nat>) -> nat
    decreases s.len(),
{
    if s.len() == 0 {
        0
    } else {
        total(s.drop_last()) + s.last()
    }
}

/// One more entry taken adds that entry to the sum.
pub proof fn lemma_total_take(s: Seq<nat>, k: int)
    requires
        0 <= k < s.len(),
    ensures
        total(s.take(k + 1)) == total(s.take(k)) + s[k],
{
    assert(s.take(k + 1).drop_last() =~= s.take(k));
}

/// Replacing one entry changes the sum by the difference.
pub proof fn lemma_total_update(s: Seq<nat>, i: int, v: nat)
    requires
        0 <= i < s.len(),
    ensures
        total(s.update(i, v)) + s[i] == total(s) + v,
    decreases s.len(),
{
    if i == s.len() - 1 {
        assert(s.update(i, v).drop_last() =~= s.drop_last());
    } else {
        lemma_total_update(s.drop_last(), i, v);
        assert(s.update(i, v).drop_last() =~= s.drop_last().update(i, v));
    }
}

/// A sum of zeros is zero.
pub proof fn lemma_total_zero(s: Seq<nat>)
    requires
        forall|i: int| 0 <= i < s.len() ==> s[i] == 0,
    ensures
        total(s) == 0,
    decreases s.len(),
{
    if s.len() > 0 {
        lemma_total_zero(s.drop_last());
    }
}

/// The distance between two numbers.
pub open spec fn gap(a: int, b: int) -> nat {
    if a <= b {
        (b - a) as nat
    } else {
        (a - b) as nat
    }
}

impl Layout {
    /// The place at which the value `v` stands.
    pub open spec fn place_of(self, v: Tile) -> int {
        self.tiles.index_of(v)
    }

    /// The column of place `i`.
    pub open spec fn column(self, i: int) -> int {
        i % (self.side as int)
    }

    /// The row of place `i`.
    pub open spec fn row(self, i: int) -> int {
        i / (self.side as int)
    }

    /// How many columns lie between place `i` and the place at which the
    /// target `self` has the tile `t`.
    pub open spec fn columns_off(self, t: Tile, i: int) -> nat {
        gap(self.column(i), self.column(self.place_of(t)))
    }

    /// How many rows lie between place `i` and the place at which the
    /// target `self` has the tile `t`.
    pub open spec fn rows_off(self, t: Tile, i: int) -> nat {
        gap(self.row(i), self.row(self.place_of(t)))
    }
}

/// Whether `table` gives, for every value of `target`, the column and the
/// row at which it stands there.
pub open spec fn is_index_of(table: Seq<(isize, isize)>, target: Layout) -> bool {
    &&& table.len() == target.tiles.len()
    &&& forall|v: Tile|
        v < target.tiles.len() ==> #[trigger] table[v as int] == (
            target.column(target.place_of(v)) as isize,
            target.row(target.place_of(v)) as isize,
        )
}

/// Every value of a valid layout stands at its place, and nowhere else.
pub proof fn lemma_place_of(l: Layout, i: int)
    requires
        l.valid(),
        0 <= i < l.tiles.len(),
    ensures
        l.place_of(l.tiles[i]) == i,
{
    let v = l.tiles[i];
    assert(l.tiles.contains(v));
}

/// The place of a value lies on the board, in a column and a row below
/// the side.
pub proof fn lemma_place_bounds(l: Layout, v: Tile)
    requires
        l.valid(),
        v < l.tiles.len(),
    ensures
        0 <= l.place_of(v) < l.tiles.len(),
        l.tiles[l.place_of(v)] == v,
        0 <= l.column(l.place_of(v)) < l.side,
        0 <= l.row(l.place_of(v)) < l.side,
{
    assert(l.tiles.contains(v));
    lemma_cell(l, l.place_of(v));
}

/// A place on the board lies in a column and a row below the side, and is
/// its row times the side plus its column.
pub proof fn lemma_cell(l: Layout, i: int)
    requires
        l.valid(),
        0 <= i < l.tiles.len(),
    ensures
        0 <= l.column(i) < l.side,
        0 <= l.row(i) < l.side,
        i == l.row(i) * l.side + l.column(i),
{
    let n = l.side as int;
    vstd::arithmetic::div_mod::lemma_fundamental_div_mod(i, n);
    vstd::arithmetic::div_mod::lemma_mod_bound(i, n);
    assert(n * (i / n) == (i / n) * n) by (nonlinear_arith);
    if i / n >= n {
        assert((i / n) * n >= n * n) by (nonlinear_arith)
            requires
                i / n >= n,
                n > 0,
        ;
    }
    if i / n < 0 {
        assert((i / n) * n <= -n) by (nonlinear_arith)
            requires
                i / n <= -1,
                n > 0,
        ;
    }
}

/// On a board of side at most 16 a tile is at most 15 columns and 15 rows
/// away from its place in the target.
pub proof fn far_apart(target: Layout, current: Layout, i: int)
    requires
        target.valid(),
        current.valid(),
        target.side == current.side,
        0 <= i < current.tiles.len(),
    ensures
        target.columns_off(current.tiles[i], i) <= 15,
        target.rows_off(current.tiles[i], i) <= 15,
{
    lemma_cell(current, i);
    lemma_place_bounds(target, current.tiles[i]);
}

/// A table is the index of one valid layout only.
pub proof fn lemma_table_fits_one(table: Seq<(isize, isize)>, a: Layout, b: Layout)
    requires
        a.valid(),
        b.valid(),
        a.side == b.side,
        is_index_of(table, a),
        is_index_of(table, b),
    ensures
        a == b,
{
    assert forall|i: int| 0 <= i < a.tiles.len() implies a.tiles[i] == b.tiles[i] by {
        let v = a.tiles[i];
        lemma_place_of(a, i);
        lemma_place_bounds(b, v);
        let j = b.place_of(v);
        lemma_cell(a, i);
        lemma_cell(b, j);
        assert(table[v as int] == (a.column(i) as isize, a.row(i) as isize));
        assert(table[v as int] == (b.column(j) as isize, b.row(j) as isize));
        assert(a.column(i) == b.column(j));
        assert(a.row(i) == b.row(j));
    }
    assert(a.tiles =~= b.tiles);
}

/// A move takes the blank to the next cell of its row or of its column.
pub proof fn lemma_next_cell(l: Layout, m: Move)
    requires
        l.valid(),
        l.can_slide(m),
    ensures
        match m {
            Move::Up => l.column(l.landing(m)) == l.column(l.blank()) && l.row(l.landing(m))
                == l.row(l.blank()) + 1,
            Move::Down => l.column(l.landing(m)) == l.column(l.blank()) && l.row(l.landing(m))
                == l.row(l.blank()) - 1,
            Move::Left => l.column(l.landing(m)) == l.column(l.blank()) + 1 && l.row(
                l.landing(m),
            ) == l.row(l.blank()),
            Move::Right => l.column(l.landing(m)) == l.column(l.blank()) - 1 && l.row(
                l.landing(m),
            ) == l.row(l.blank()),
        },
{
    lemma_blank(l);
    let n = l.side as int;
    let z = l.blank();
    lemma_cell(l, z);
    let q = z / n;
    let r = z % n;
    match m {
        Move::Up => {
            assert((q + 1) * n == q * n + n) by (nonlinear_arith);
            vstd::arithmetic::div_mod::lemma_fundamental_div_mod_converse(z + n, n, q + 1, r);
        },
        Move::Down => {
            assert((q - 1) * n == q * n - n) by (nonlinear_arith);
            vstd::arithmetic::div_mod::lemma_fundamental_div_mod_converse(z - n, n, q - 1, r);
        },
        Move::Left => {
            vstd::arithmetic::div_mod::lemma_fundamental_div_mod_converse(z + 1, n, q, r + 1);
        },
        Move::Right => {
            vstd::arithmetic::div_mod::lemma_fundamental_div_mod_converse(z - 1, n, q, r - 1);
        },
    }
}

/// When two lists of terms differ at two places only, the first list has
/// nothing at the one place and the second nothing at the other, the sums
/// differ as the two remaining terms do.
pub proof fn lemma_total_moved(before: Seq<nat>, after: Seq<nat>, from: int, to: int)
    requires
        before.len() == after.len(),
        0 <= from < before.len(),
        0 <= to < before.len(),
        from != to,
        forall|i: int| 0 <= i < before.len() && i != from && i != to ==> before[i] == after[i],
        before[to] == 0,
        after[from] == 0,
    ensures
        total(before) + after[to] == total(after) + before[from],
{
    let mid = before.update(to, after[to]);
    lemma_total_update(before, to, after[to]);
    lemma_total_update(mid, from, 0);
    assert(mid.update(from, 0) =~= after);
}

/// The table that gives, for each tile value of the board, the column and
/// the row at which it stands.
pub fn index_positions(board: &Board) -> (positions: Box<[(isize, isize)]>)
    requires
        board.wf(),
    ensures
        is_index_of(positions@, board@),
{
    let line_size = board.line_size;
    let len = board.data.len();
    let ghost l = board@;
    proof {
        lemma_side_bound(l);
    }
    let mut positions: Vec<(isize, isize)> = Vec::with_capacity(len);
    let mut k: usize = 0;
    while k < len
        invariant
            k <= len,
            positions@.len() == k,
        decreases len - k,
    {
        positions.push((0, 0));
        k += 1;
    }
    let mut i: usize = 0;
    while i < len
        invariant
            i <= len,
            len == board.data@.len(),
            len == positions@.len(),
            len <= 256,
            3 <= line_size <= 16,
            l == board@,
            l.valid(),
            line_size == l.side,
            forall|j: int|
                0 <= j < i ==> #[trigger] positions@[l.tiles[j] as int] == (
                    l.column(j) as isize,
                    l.row(j) as isize,
                ),
        decreases len - i,
    {
        let p = board.data[i];
        positions.set(p as usize, ((i % line_size) as isize, (i / line_size) as isize));
        i += 1;
    }
    proof {
        assert forall|v: Tile| v < l.tiles.len() implies #[trigger] positions@[v as int] == (
            l.column(l.place_of(v)) as isize,
            l.row(l.place_of(v)) as isize,
        ) by {
            lemma_place_bounds(l, v);
        }
    }
    into_boxed(positions)
}

/// A cost-to-go estimate: built once from the target, then asked for the
/// distance of any board of the same size.
pub trait Heuristic: Sized {
    /// The estimate that the variant gives for `current` on the way to
    /// `target`.
    spec fn estimate(target: Layout, current: Layout) -> nat;

    /// Whether this value was built from `target`.
    spec fn built_from(&self, target: Layout) -> bool;

    /// Prepares the estimate for the target `expected`.
    fn new(expected: &Board) -> (h: Self)
        requires
            expected.wf(),
        ensures
            h.built_from(expected@),
    ;

    /// The estimated number of moves from `current` to the target.
    fn distance(&self, current: &Board) -> (d: usize)
        requires
            current.wf(),
            exists|t: Layout| t.valid() && t.side == current@.side && #[trigger] self.built_from(t),
        ensures
            forall|t: Layout|
                t.valid() && t.side == current@.side && #[trigger] self.built_from(t) ==> d
                    == Self::estimate(t, current@),
    ;
}

} // verus!
