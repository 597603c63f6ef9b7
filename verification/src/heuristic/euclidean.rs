//! The estimate by straight-line distance, with the whole-number square
//! root that it needs.

use vstd::prelude::*;
use crate::board::{lemma_blank, lemma_side_bound, lemma_slide, Board, Layout};
use crate::heuristic::{
    far_apart, index_positions, is_index_of, lemma_next_cell, lemma_table_fits_one,
    lemma_total_moved, lemma_total_take, lemma_total_zero, total, Heuristic,
};
use crate::search::{admissible, consistent, lemma_consistent_is_admissible};
use crate::tile_move::Move;

verus! {

/// Whether `r` is the square root of `v`, rounded down.
pub open spec fn is_floor_sqrt(v: nat, r: nat) -> bool {
    r * r <= v < (r + 1) * (r + 1)
}

/// The square root of `v`, rounded down.
pub open spec fn floor_sqrt(v: nat) -> nat {
    choose|r: nat| is_floor_sqrt(v, r)
}

/// A number has one rounded-down square root only.
pub proof fn lemma_floor_sqrt_unique(v: nat, a: nat, b: nat)
    requires
        is_floor_sqrt(v, a),
        is_floor_sqrt(v, b),
    ensures
        a == b,
{
    if a < b {
        assert((a + 1) * (a + 1) <= b * b) by (nonlinear_arith)
            requires
                a + 1 <= b,
        ;
    }
    if b < a {
        assert((b + 1) * (b + 1) <= a * a) by (nonlinear_arith)
            requires
                b + 1 <= a,
        ;
    }
}

/// The rounded-down root of a sum of two squares is at most the sum of
/// the two numbers.
pub proof fn lemma_floor_sqrt_of_squares(x: nat, y: nat)
    ensures
        floor_sqrt(x * x + y * y) <= x + y,
        is_floor_sqrt(x * x + y * y, floor_sqrt(x * x + y * y)),
{
    let v = x * x + y * y;
    lemma_floor_sqrt_exists(v);
    let r = floor_sqrt(v);
    if r > x + y {
        assert(r * r > x * x + y * y) by (nonlinear_arith)
            requires
                r >= x + y + 1,
        ;
    }
}

/// Every number has a rounded-down square root.
pub proof fn lemma_floor_sqrt_exists(v: nat)
    ensures
        is_floor_sqrt(v, floor_sqrt(v)),
    decreases v,
{
    if v == 0 {
        assert((0nat + 1) * (0nat + 1) == 1) by (nonlinear_arith);
        assert(is_floor_sqrt(0, 0));
    } else {
        lemma_floor_sqrt_exists((v - 1) as nat);
        let r = floor_sqrt((v - 1) as nat);
        if (r + 1) * (r + 1) <= v {
            assert(v < (r + 2) * (r + 2)) by (nonlinear_arith)
                requires
                    (r + 1) * (r + 1) == v,
            ;
            assert(is_floor_sqrt(v, r + 1));
        } else {
            assert(is_floor_sqrt(v, r));
        }
    }
}

/// One step along one axis adds at most one to the rounded-down root of
/// the sum of the squares.
pub proof fn lemma_floor_sqrt_step(x: nat, further: nat, y: nat)
    requires
        further <= x + 1,
    ensures
        floor_sqrt(further * further + y * y) <= floor_sqrt(x * x + y * y) + 1,
        floor_sqrt(y * y + further * further) <= floor_sqrt(y * y + x * x) + 1,
{
    let a = x * x + y * y;
    let b = further * further + y * y;
    lemma_floor_sqrt_exists(a);
    lemma_floor_sqrt_exists(b);
    let r = floor_sqrt(a);
    let r2 = floor_sqrt(b);
    if r2 >= r + 2 {
        assert(x <= r) by (nonlinear_arith)
            requires
                x * x + y * y < (r + 1) * (r + 1),
        ;
        assert(b <= a + 2 * x + 1) by (nonlinear_arith)
            requires
                further <= x + 1,
                a == x * x + y * y,
                b == further * further + y * y,
        ;
        assert(r2 * r2 >= (r + 1) * (r + 1) + 2 * r + 3) by (nonlinear_arith)
            requires
                r2 >= r + 2,
        ;
    }
}

/// The square root of `v`, rounded down.
pub fn root(v: u32) -> (r: u32)
    ensures
        r == floor_sqrt(v as nat),
{
    let mut r: u64 = 0;
    let wide: u64 = v as u64;
    while (r + 1) * (r + 1) <= wide
        invariant
            r * r <= wide,
            wide == v,
            r <= 65536,
            (r + 1) * (r + 1) <= 0x1_0002_0001,
        decreases wide - r * r,
    {
        assert((r + 1) * (r + 1) > r * r) by (nonlinear_arith);
        assert(r + 1 <= 65536) by (nonlinear_arith)
            requires
                (r + 1) * (r + 1) <= wide,
                wide < 0x1_0000_0000,
        ;
        r += 1;
        assert((r + 1) * (r + 1) <= 0x1_0002_0001) by (nonlinear_arith)
            requires
                r <= 65536,
        ;
    }
    proof {
        lemma_floor_sqrt_unique(v as nat, r as nat, floor_sqrt(v as nat));
    }
    r as u32
}

/// The sum, over the tiles, of the straight-line distance between a tile
/// and its place in the target, each rounded down to a whole number. The
/// blank is no tile and is not counted.
pub struct Euclidean {
    positions: Box<[(isize, isize)]>,
}

impl Euclidean {
    /// What the tile at place `i` of `current` adds to the estimate.
    pub open spec fn term(target: Layout, current: Layout, i: int) -> nat {
        let t = current.tiles[i];
        if t == 0 {
            0
        } else {
            floor_sqrt(
                target.columns_off(t, i) * target.columns_off(t, i) + target.rows_off(t, i)
                    * target.rows_off(t, i),
            )
        }
    }

    /// The terms of all places.
    pub open spec fn terms(target: Layout, current: Layout) -> Seq<nat> {
        Seq::new(current.tiles.len(), |i: int| Self::term(target, current, i))
    }

    /// At the target itself the estimate is zero.
    pub proof fn lemma_zero_at_target(target: Layout)
        requires
            target.valid(),
        ensures
            Self::estimate(target, target) == 0,
    {
        let terms = Self::terms(target, target);
        assert forall|i: int| 0 <= i < terms.len() implies terms[i] == 0 by {
            lemma_floor_sqrt_of_squares(0, 0);
        }
        lemma_total_zero(terms);
    }

    /// One move takes at most one off the estimate: only the tile that
    /// changes places with the blank changes its term.
    pub proof fn lemma_one_move(target: Layout, l: Layout, m: Move)
        requires
            target.valid(),
            l.valid(),
            l.side == target.side,
            l.can_slide(m),
        ensures
            Self::estimate(target, l) <= Self::estimate(target, l.slide(m)) + 1,
    {
        lemma_blank(l);
        lemma_slide(l, m);
        lemma_next_cell(l, m);
        let next = l.slide(m);
        let from = l.landing(m);
        let to = l.blank();
        let tile = l.tiles[from];
        lemma_floor_sqrt_step(
            target.columns_off(tile, to),
            target.columns_off(tile, from),
            target.rows_off(tile, to),
        );
        lemma_floor_sqrt_step(
            target.rows_off(tile, to),
            target.rows_off(tile, from),
            target.columns_off(tile, to),
        );
        lemma_total_moved(Self::terms(target, l), Self::terms(target, next), from, to);
    }

    /// The estimate falls by at most one with each move, and so never
    /// exceeds the number of moves that lead to the target.
    pub proof fn lemma_admissible(target: Layout)
        requires
            target.valid(),
        ensures
            consistent::<Euclidean>(target),
            admissible::<Euclidean>(target),
    {
        assert forall|l: Layout, m: Move|
            l.valid() && l.side == target.side && #[trigger] l.can_slide(m) implies Self::estimate(
            target,
            l,
        ) <= Self::estimate(target, l.slide(m)) + 1 by {
            Self::lemma_one_move(target, l, m);
        }
        Self::lemma_zero_at_target(target);
        lemma_consistent_is_admissible::<Euclidean>(target);
    }
}

impl Heuristic for Euclidean {
    open spec fn estimate(target: Layout, current: Layout) -> nat {
        total(Self::terms(target, current))
    }

    closed spec fn built_from(&self, target: Layout) -> bool {
        is_index_of(self.positions@, target)
    }

    fn new(expected: &Board) -> (h: Self) {
        Self { positions: index_positions(expected) }
    }

    fn distance(&self, current: &Board) -> (d: usize) {
        let ghost t = choose|t: Layout|
            t.valid() && t.side == current@.side && #[trigger] self.built_from(t);
        let ghost c = current@;
        let ghost terms = Self::terms(t, c);
        proof {
            lemma_side_bound(c);
            assert forall|i: int| 0 <= i < terms.len() implies terms[i] <= 30 by {
                far_apart(t, c, i);
                lemma_floor_sqrt_of_squares(
                    t.columns_off(c.tiles[i], i),
                    t.rows_off(c.tiles[i], i),
                );
            }
        }
        let line_size = current.line_size as isize;
        let len = current.data.len();
        let mut cost: usize = 0;
        let mut i: usize = 0;
        while i < len
            invariant
                i <= len,
                len == c.tiles.len(),
                len <= 256,
                c == current@,
                c.valid(),
                t.valid(),
                t.side == c.side,
                line_size == c.side,
                is_index_of(self.positions@, t),
                terms == Self::terms(t, c),
                cost == total(terms.take(i as int)),
                cost <= i * 30,
            decreases len - i,
        {
            let tile = current.data[i];
            proof {
                lemma_total_take(terms, i as int);
                far_apart(t, c, i as int);
                lemma_floor_sqrt_of_squares(
                    t.columns_off(tile, i as int),
                    t.rows_off(tile, i as int),
                );
            }
            if tile != 0 {
                let place = i as isize;
                let (exp_x, exp_y) = self.positions[tile as usize];
                let (cur_x, cur_y) = (place % line_size, place / line_size);
                let x_gap = if exp_x < cur_x {
                    cur_x - exp_x
                } else {
                    exp_x - cur_x
                };
                let y_gap = if exp_y < cur_y {
                    cur_y - exp_y
                } else {
                    exp_y - cur_y
                };
                assert(x_gap * x_gap + y_gap * y_gap <= 450) by (nonlinear_arith)
                    requires
                        0 <= x_gap <= 15,
                        0 <= y_gap <= 15,
                ;
                cost += root((x_gap * x_gap + y_gap * y_gap) as u32) as usize;
            }
            i += 1;
        }
        proof {
            assert(terms.take(len as int) == terms);
            assert forall|other: Layout|
                other.valid() && other.side == current@.side && #[trigger] self.built_from(
                    other,
                ) implies cost == Self::estimate(other, current@) by {
                lemma_table_fits_one(self.positions@, t, other);
            }
        }
        cost
    }
}

} // verus!
