//! Boards: their tiles, their validity, the boards one move away and the
//! count of inversions.

use vstd::prelude::*;
use crate::solver::Error;
use crate::tile_move::Move;

verus! {

/// A tile value; `0` is the blank.
pub type Tile = u8;

/// The tiles of `s` with the entries at `i` and `j` exchanged.
pub open spec fn exchanged(s: Seq<Tile>, i: int, j: int) -> Seq<Tile> {
    s.update(i, s[j]).update(j, s[i])
}

/// What a board is, mathematically: its tiles in row-major order and the
/// length of a row.
pub struct Layout {
    pub tiles: Seq<Tile>,
    pub side: nat,
}

impl Layout {
    /// A square of side 3 or more on which every value below `side * side`
    /// stands exactly once. A tile is a byte, so the side is at most 16.
    pub open spec fn valid(self) -> bool {
        &&& 3 <= self.side <= 16
        &&& self.tiles.len() == self.side * self.side
        &&& once_each(self.tiles)
        &&& forall|v: Tile| v < self.tiles.len() ==> #[trigger] self.tiles.contains(v)
    }

    /// The index of the blank.
    pub open spec fn blank(self) -> int {
        self.tiles.index_of(0)
    }

    /// Whether the blank can make the move without leaving the square.
    pub open spec fn can_slide(self, m: Move) -> bool {
        let z = self.blank();
        let n = self.side as int;
        match m {
            Move::Down => z >= n,
            Move::Up => z < n * (n - 1),
            Move::Right => z % n > 0,
            Move::Left => z % n < n - 1,
        }
    }

    /// Where the blank stands after the move.
    pub open spec fn landing(self, m: Move) -> int {
        self.blank() + m.offset(self.side as int)
    }

    /// The layout after the move: the blank and the tile at its landing
    /// place exchanged.
    pub open spec fn slide(self, m: Move) -> Layout {
        Layout { tiles: exchanged(self.tiles, self.blank(), self.landing(m)), side: self.side }
    }

    /// The layout after the move, if the move is possible.
    pub open spec fn step(self, m: Move) -> Option<Layout> {
        if self.can_slide(m) {
            Some(self.slide(m))
        } else {
            None
        }
    }

    /// The layout after the move as a sequence of one, or nothing.
    pub open spec fn toward(self, m: Move) -> Seq<Layout> {
        if self.can_slide(m) {
            seq![self.slide(m)]
        } else {
            Seq::empty()
        }
    }

    /// Every layout one move away, in the order in which `Board::children`
    /// lists them: the blank one row up the grid, one row down, one column
    /// left, one column right.
    pub open spec fn neighbours(self) -> Seq<Layout> {
        self.toward(Move::Down) + self.toward(Move::Up) + self.toward(Move::Right) + self.toward(
            Move::Left,
        )
    }

    /// The move that gives the neighbour at place `i` of `neighbours`.
    pub open spec fn nth_move(self, i: int) -> Move {
        let down = self.toward(Move::Down).len();
        let up = self.toward(Move::Up).len();
        let right = self.toward(Move::Right).len();
        if i < down {
            Move::Down
        } else if i < down + up {
            Move::Up
        } else if i < down + up + right {
            Move::Right
        } else {
            Move::Left
        }
    }

    /// How many moves the blank has.
    pub open spec fn degree(self) -> nat {
        self.neighbours().len()
    }

    /// The number of inversions: pairs of real tiles of which the larger
    /// stands first.
    pub open spec fn inversions(self) -> nat {
        inversions_upto(self.tiles, self.tiles.len() as int)
    }

    /// The blank stands in the first row.
    pub open spec fn blank_on_top(self) -> bool {
        self.blank() < self.side
    }

    /// The blank stands in the last row.
    pub open spec fn blank_on_bottom(self) -> bool {
        self.blank() >= self.side * (self.side - 1)
    }

    /// The blank stands in the first column.
    pub open spec fn blank_on_left(self) -> bool {
        self.blank() % (self.side as int) == 0
    }

    /// The blank stands in the last column.
    pub open spec fn blank_on_right(self) -> bool {
        self.blank() % (self.side as int) == self.side - 1
    }

    /// The row of the blank, counted from the top, starting at 0.
    pub open spec fn blank_row(self) -> int {
        self.blank() / (self.side as int)
    }

    /// The parity that no move changes: that of the inversions on a board
    /// of odd side, that of the inversions plus the blank's row on a board
    /// of even side.
    pub open spec fn parity(self) -> int {
        if self.side % 2 == 0 {
            (self.inversions() + self.blank_row()) % 2
        } else {
            (self.inversions() as int) % 2
        }
    }

    /// Whether the parity test lets `target` be reached from here.
    pub open spec fn solvable(self, target: Layout) -> bool {
        self.parity() == target.parity()
    }
}

/// How many of the places `from..upto` hold a real tile smaller than the
/// real tile `tile`; nothing counts where either is the blank.
pub open spec fn smaller_between(tiles: Seq<Tile>, tile: Tile, from: int, upto: int) -> nat
    decreases upto - from,
{
    if upto <= from {
        0
    } else {
        smaller_between(tiles, tile, from, upto - 1) + if tile != 0 && tiles[upto - 1] != 0
            && tiles[upto - 1] < tile {
            1nat
        } else {
            0nat
        }
    }
}

/// The number of pairs `i < j` with `i < upto` in which the earlier tile is
/// the larger one and neither is the blank.
pub open spec fn inversions_upto(tiles: Seq<Tile>, upto: int) -> nat
    decreases upto,
{
    if upto <= 0 {
        0
    } else {
        inversions_upto(tiles, upto - 1) + smaller_between(
            tiles,
            tiles[upto - 1],
            upto,
            tiles.len() as int,
        )
    }
}

/// Whether no tile occurs twice and each is smaller than their number.
pub open spec fn once_each(tiles: Seq<Tile>) -> bool {
    &&& forall|i: int| 0 <= i < tiles.len() ==> (#[trigger] tiles[i]) < tiles.len()
    &&& forall|i: int, j: int|
        0 <= i < tiles.len() && 0 <= j < tiles.len() && tiles[i] == tiles[j] ==> i == j
}

/// Whether the value `v` stands at one of the first `upto` places.
pub open spec fn stands_before(tiles: Seq<Tile>, upto: int, v: int) -> bool {
    exists|j: int| 0 <= j < upto && #[trigger] tiles[j] == v
}

/// What the tile at place `i` adds to a board's fingerprint: its low four
/// bits, shifted to the nibble `i mod 8`.
pub open spec fn nibble(tile: Tile, i: u64) -> u64 {
    ((tile & 0xF) as u64) << ((i & 7) << 2)
}

/// The exclusive or of the nibbles of the first `upto` tiles.
pub open spec fn fingerprint_upto(tiles: Seq<Tile>, upto: int) -> u64
    decreases upto,
{
    if upto <= 0 {
        0
    } else {
        fingerprint_upto(tiles, upto - 1) ^ nibble(tiles[upto - 1], (upto - 1) as u64)
    }
}

/// The fingerprint of a sequence of tiles: equal tiles, equal fingerprint.
pub open spec fn fingerprint_of(tiles: Seq<Tile>) -> u64 {
    fingerprint_upto(tiles, tiles.len() as int)
}

/// The number of tiles of a valid layout lies between 9 and 256.
pub proof fn lemma_side_bound(l: Layout)
    requires
        l.valid(),
    ensures
        9 <= l.tiles.len() <= 256,
{
    let n = l.side as int;
    assert(9 <= n * n <= 256) by (nonlinear_arith)
        requires
            3 <= n <= 16,
    ;
}

/// `Vec::into_boxed_slice`: the boxed slice holds the elements that the
/// vector held, in the same order.
#[verifier::external_body]
pub(crate) fn into_boxed<T>(v: Vec<T>) -> (b: Box<[T]>)
    ensures
        b@ == v@,
{
    v.into_boxed_slice()
}

/// For each byte, whether it is one of the tiles; `None` when a tile
/// occurs twice or is not smaller than their number.
pub fn tally(tiles: &[Tile]) -> (r: Option<Vec<bool>>)
    ensures
        match r {
            Some(seen) => {
                &&& once_each(tiles@)
                &&& seen@.len() == 256
                &&& forall|v: Tile| #[trigger] seen@[v as int] == tiles@.contains(v)
            },
            None => !once_each(tiles@),
        },
{
    let len = tiles.len();
    let mut seen: Vec<bool> = Vec::with_capacity(256);
    let mut k: usize = 0;
    while k < 256
        invariant
            k <= 256,
            seen@.len() == k,
            forall|v: int| 0 <= v < k ==> !#[trigger] seen@[v],
        decreases 256 - k,
    {
        seen.push(false);
        k += 1;
    }
    let mut i: usize = 0;
    while i < len
        invariant
            i <= len,
            len == tiles@.len(),
            seen@.len() == 256,
            forall|j: int| 0 <= j < i ==> (#[trigger] tiles@[j]) < len,
            forall|j: int, k: int| 0 <= j < i && 0 <= k < i && tiles@[j] == tiles@[k] ==> j == k,
            forall|v: int|
                0 <= v < 256 ==> (#[trigger] seen@[v] <==> stands_before(tiles@, i as int, v)),
        decreases len - i,
    {
        let t: usize = tiles[i] as usize;
        if t >= len {
            return None;
        }
        if seen[t] {
            return None;
        }
        seen.set(t, true);
        i += 1;
    }
    Some(seen)
}

/// A board: `line_size * line_size` tiles in row-major order.
#[derive(Debug, PartialEq, Eq, Hash)]
pub struct Board {
    pub data: Box<[Tile]>,
    pub line_size: usize,
}

impl View for Board {
    type V = Layout;

    open spec fn view(&self) -> Layout {
        Layout { tiles: self.data@, side: self.line_size as nat }
    }
}

impl Clone for Board {
    fn clone(&self) -> (r: Self)
        ensures
            r == *self,
    {
        let mut tiles: Vec<Tile> = Vec::with_capacity(self.data.len());
        let mut i: usize = 0;
        while i < self.data.len()
            invariant
                i <= self.data@.len(),
                tiles@ == self.data@.take(i as int),
            decreases self.data@.len() - i,
        {
            tiles.push(self.data[i]);
            i += 1;
        }
        let r = Board { data: into_boxed(tiles), line_size: self.line_size };
        assert(r.data =~= self.data);
        r
    }
}

impl Board {
    /// The board's layout is valid.
    pub open spec fn wf(&self) -> bool {
        self@.valid()
    }

    /// Makes a board of the tiles, or refuses them with `InvalidBoard` when
    /// they are not a valid layout of side `line_size`.
    pub fn new(data: Box<[Tile]>, line_size: usize) -> (r: Result<Board, Error>)
        ensures
            match r {
                Ok(b) => b.wf() && b.data@ == data@ && b.line_size == line_size,
                Err(e) => e == Error::InvalidBoard && !(Layout {
                    tiles: data@,
                    side: line_size as nat,
                }).valid(),
            },
    {
        if line_size < 3 || line_size > 16 {
            return Err(Error::InvalidBoard);
        }
        assert(line_size * line_size <= 256) by (nonlinear_arith)
            requires
                line_size <= 16,
        ;
        let count: usize = line_size * line_size;
        if data.len() != count {
            return Err(Error::InvalidBoard);
        }
        let seen = match tally(&data) {
            Some(seen) => seen,
            None => {
                return Err(Error::InvalidBoard);
            },
        };
        let mut v: usize = 0;
        while v < count
            invariant
                v <= count <= 256,
                count == data@.len(),
                seen@.len() == 256,
                forall|w: Tile| seen@[w as int] == data@.contains(w),
                forall|w: Tile| w < v ==> #[trigger] data@.contains(w),
            decreases count - v,
        {
            if !seen[v] {
                return Err(Error::InvalidBoard);
            }
            v += 1;
        }
        Ok(Board { data, line_size })
    }

    /// Whether the two boards hold the same tiles in the same order.
    pub fn same_tiles(&self, other: &Board) -> (r: bool)
        ensures
            r == (self.data@ == other.data@),
    {
        if self.data.len() != other.data.len() {
            return false;
        }
        let mut i: usize = 0;
        while i < self.data.len()
            invariant
                i <= self.data@.len(),
                self.data@.len() == other.data@.len(),
                self.data@.take(i as int) == other.data@.take(i as int),
            decreases self.data@.len() - i,
        {
            if self.data[i] != other.data[i] {
                return false;
            }
            i += 1;
        }
        assert(self.data@ == self.data@.take(i as int));
        assert(other.data@ == other.data@.take(i as int));
        true
    }

    /// The index of the blank.
    pub fn blank_index(&self) -> (z: usize)
        requires
            self.wf(),
        ensures
            z == self@.blank(),
            z < self.data@.len(),
            self.data@[z as int] == 0,
    {
        let mut i: usize = 0;
        proof {
            lemma_blank(self@);
        }
        while i < self.data.len()
            invariant
                i <= self.data@.len(),
                self.wf(),
                0 <= self@.blank() < self.data@.len(),
                self.data@[self@.blank()] == 0,
                forall|j: int| 0 <= j < i ==> self.data@[j] != 0,
            decreases self.data@.len() - i,
        {
            if self.data[i] == 0 {
                return i;
            }
            i += 1;
        }
        0
    }

    /// A copy of the board with the tiles at `i` and `j` exchanged.
    fn exchange(&self, i: usize, j: usize) -> (r: Board)
        requires
            i < self.data@.len(),
            j < self.data@.len(),
        ensures
            r@ == (Layout { tiles: exchanged(self.data@, i as int, j as int), side: self@.side }),
    {
        let ghost want = exchanged(self.data@, i as int, j as int);
        let mut tiles: Vec<Tile> = Vec::with_capacity(self.data.len());
        let mut k: usize = 0;
        while k < self.data.len()
            invariant
                k <= self.data@.len(),
                i < self.data@.len(),
                j < self.data@.len(),
                want == exchanged(self.data@, i as int, j as int),
                tiles@ == want.take(k as int),
            decreases self.data@.len() - k,
        {
            let t = if k == i {
                self.data[j]
            } else if k == j {
                self.data[i]
            } else {
                self.data[k]
            };
            tiles.push(t);
            k += 1;
        }
        assert(tiles@ == want);
        Board { data: into_boxed(tiles), line_size: self.line_size }
    }

    /// The boards one move away: the blank exchanged with the tile above
    /// it, below it, left of it and right of it, in this order, leaving out
    /// what would lie outside the square.
    pub fn children(&self) -> (r: Vec<Board>)
        requires
            self.wf(),
        ensures
            r@.len() == self@.neighbours().len(),
            forall|i: int| 0 <= i < r@.len() ==> (#[trigger] r@[i])@ == self@.neighbours()[i],
            forall|i: int| 0 <= i < r@.len() ==> (#[trigger] r@[i]).wf(),
            forall|i: int|
                0 <= i < r@.len() ==> exists|m: Move|
                    self@.can_slide(m) && (#[trigger] r@[i])@ == self@.slide(m),
            2 <= r@.len() <= 4,
    {
        let mut children: Vec<Board> = Vec::with_capacity(4);
        let zero = self.blank_index();
        let line_size = self.line_size;
        proof {
            lemma_side_bound(self@);
            lemma_neighbours(self@);
            assert(line_size * (line_size - 1) == line_size * line_size - line_size)
                by (nonlinear_arith);
        }
        let ghost l = self@;
        if zero >= line_size {
            proof {
                lemma_slide(l, Move::Down);
            }
            children.push(self.exchange(zero, zero - line_size));
        }
        if zero < line_size * (line_size - 1) {
            proof {
                lemma_slide(l, Move::Up);
            }
            children.push(self.exchange(zero, zero + line_size));
        }
        if zero % line_size > 0 {
            proof {
                lemma_slide(l, Move::Right);
            }
            children.push(self.exchange(zero, zero - 1));
        }
        if zero % line_size < line_size - 1 {
            proof {
                lemma_slide(l, Move::Left);
            }
            children.push(self.exchange(zero, zero + 1));
        }
        children
    }

    /// The number of inversions of the board.
    pub fn inversions(&self) -> (r: usize)
        requires
            self.wf(),
        ensures
            r == self@.inversions(),
            r <= 65536,
    {
        proof {
            lemma_side_bound(self@);
        }
        let len = self.data.len();
        let mut total: usize = 0;
        let mut i: usize = 0;
        while i < len
            invariant
                i <= len,
                len == self.data@.len(),
                len <= 256,
                total == inversions_upto(self.data@, i as int),
                total <= i * 256,
            decreases len - i,
        {
            let current = self.data[i];
            let mut found: usize = 0;
            let mut j: usize = i + 1;
            while j < len
                invariant
                    i < j <= len,
                    len == self.data@.len(),
                    current == self.data@[i as int],
                    found == smaller_between(self.data@, current, i + 1, j as int),
                    found <= j - i - 1,
                decreases len - j,
            {
                let x = self.data[j];
                if x < current && current != 0 && x != 0 {
                    found += 1;
                }
                j += 1;
            }
            total += found;
            i += 1;
        }
        total
    }

    /// A 64-bit digest of the tiles. Boards with the same tiles have the
    /// same fingerprint.
    pub fn fingerprint(&self) -> (h: u64)
        ensures
            h == fingerprint_of(self.data@),
    {
        let mut hash: u64 = 0;
        let mut i: usize = 0;
        while i < self.data.len()
            invariant
                i <= self.data@.len(),
                hash == fingerprint_upto(self.data@, i as int),
            decreases self.data@.len() - i,
        {
            let tile = self.data[i];
            let place: u64 = i as u64;
            assert((place & 7) << 2 < 64) by (bit_vector);
            hash = hash ^ (((tile & 0xF) as u64) << ((place & 7) << 2));
            i += 1;
        }
        hash
    }

    /// The board after the move, or `None` where the move would take the
    /// blank out of the square.
    pub fn apply(&self, m: Move) -> (r: Option<Board>)
        requires
            self.wf(),
        ensures
            match r {
                Some(b) => self@.step(m) == Some(b@) && b.wf(),
                None => self@.step(m) is None,
            },
    {
        let zero = self.blank_index();
        let line_size = self.line_size;
        proof {
            lemma_side_bound(self@);
            assert(line_size * (line_size - 1) == line_size * line_size - line_size)
                by (nonlinear_arith);
            if self@.can_slide(m) {
                lemma_slide(self@, m);
            }
        }
        match m {
            Move::Down => {
                if zero >= line_size {
                    Some(self.exchange(zero, zero - line_size))
                } else {
                    None
                }
            },
            Move::Up => {
                if zero < line_size * (line_size - 1) {
                    Some(self.exchange(zero, zero + line_size))
                } else {
                    None
                }
            },
            Move::Right => {
                if zero % line_size > 0 {
                    Some(self.exchange(zero, zero - 1))
                } else {
                    None
                }
            },
            Move::Left => {
                if zero % line_size < line_size - 1 {
                    Some(self.exchange(zero, zero + 1))
                } else {
                    None
                }
            },
        }
    }
}

/// A valid layout has its blank, at one place only.
pub proof fn lemma_blank(l: Layout)
    requires
        l.valid(),
    ensures
        0 <= l.blank() < l.tiles.len(),
        l.tiles[l.blank()] == 0,
        forall|i: int| 0 <= i < l.tiles.len() && l.tiles[i] == 0 ==> i == l.blank(),
{
    lemma_side_bound(l);
    let zero: Tile = 0;
    assert(l.tiles.contains(zero));
}

/// Exchanging two tiles of a valid layout gives a valid layout.
pub proof fn lemma_exchanged_valid(l: Layout, i: int, j: int)
    requires
        l.valid(),
        0 <= i < l.tiles.len(),
        0 <= j < l.tiles.len(),
    ensures
        (Layout { tiles: exchanged(l.tiles, i, j), side: l.side }).valid(),
{
    let t = exchanged(l.tiles, i, j);
    assert forall|v: Tile| v < t.len() implies #[trigger] t.contains(v) by {
        assert(l.tiles.contains(v));
        let a = choose|a: int| 0 <= a < l.tiles.len() && l.tiles[a] == v;
        let b = if a == i {
            j
        } else if a == j {
            i
        } else {
            a
        };
        assert(t[b] == v);
    }
    assert forall|a: int, b: int| 0 <= a < t.len() && 0 <= b < t.len() && t[a] == t[b] implies a
        == b by {
        let a0 = if a == i {
            j
        } else if a == j {
            i
        } else {
            a
        };
        let b0 = if b == i {
            j
        } else if b == j {
            i
        } else {
            b
        };
        assert(t[a] == l.tiles[a0] && t[b] == l.tiles[b0]);
    }
}

/// A possible move lands inside the square, on another place than the
/// blank's.
pub proof fn lemma_landing(l: Layout, m: Move)
    requires
        l.valid(),
        l.can_slide(m),
    ensures
        0 <= l.landing(m) < l.tiles.len(),
        l.landing(m) != l.blank(),
{
    lemma_blank(l);
    let n = l.side as int;
    let z = l.blank();
    assert(n * (n - 1) == n * n - n) by (nonlinear_arith);
    if m == Move::Left && z + 1 >= n * n {
        assert((n - 1) * n + (n - 1) == n * n - 1) by (nonlinear_arith);
        vstd::arithmetic::div_mod::lemma_fundamental_div_mod_converse(z, n, n - 1, n - 1);
    }
    if m == Move::Right && z == 0 {
        vstd::arithmetic::div_mod::lemma_small_mod(0, n as nat);
    }
}

/// After a possible move the layout is still valid, the blank stands at
/// the landing place and the tile that stood there stands where the blank
/// was.
pub proof fn lemma_slide(l: Layout, m: Move)
    requires
        l.valid(),
        l.can_slide(m),
    ensures
        l.slide(m).valid(),
        l.slide(m).blank() == l.landing(m),
        l.slide(m).tiles[l.blank()] == l.tiles[l.landing(m)],
        0 <= l.landing(m) < l.tiles.len(),
        l.landing(m) != l.blank(),
{
    lemma_blank(l);
    lemma_landing(l, m);
    lemma_exchanged_valid(l, l.blank(), l.landing(m));
    lemma_blank(l.slide(m));
    assert(l.slide(m).tiles[l.landing(m)] == 0);
}

/// Every possible move gives one of the neighbours, and every neighbour
/// comes of a possible move; there are between two and four of them.
pub proof fn lemma_neighbours(l: Layout)
    requires
        l.valid(),
    ensures
        2 <= l.neighbours().len() <= 4,
        forall|m: Move| l.can_slide(m) ==> l.neighbours().contains(#[trigger] l.slide(m)),
        forall|i: int|
            0 <= i < l.neighbours().len() ==> exists|m: Move|
                l.can_slide(m) && #[trigger] l.neighbours()[i] == l.slide(m),
{
    lemma_blank(l);
    let n = l.side as int;
    let a = l.toward(Move::Down);
    let b = l.toward(Move::Up);
    let c = l.toward(Move::Right);
    let d = l.toward(Move::Left);
    let all = l.neighbours();
    assert(n * (n - 1) == n * n - n) by (nonlinear_arith);
    assert(n * n >= 3 * n) by (nonlinear_arith)
        requires
            n >= 3,
    ;
    assert(all.len() == a.len() + b.len() + c.len() + d.len());
    assert forall|m: Move| l.can_slide(m) implies all.contains(#[trigger] l.slide(m)) by {
        match m {
            Move::Down => {
                assert(all[0] == l.slide(m));
            },
            Move::Up => {
                assert(all[a.len() as int] == l.slide(m));
            },
            Move::Right => {
                assert(all[(a.len() + b.len()) as int] == l.slide(m));
            },
            Move::Left => {
                assert(all[(a.len() + b.len() + c.len()) as int] == l.slide(m));
            },
        }
    }
    assert forall|i: int| 0 <= i < all.len() implies exists|m: Move|
        l.can_slide(m) && #[trigger] all[i] == l.slide(m) by {
        if i < a.len() {
            assert(l.can_slide(Move::Down) && all[i] == l.slide(Move::Down));
        } else if i < a.len() + b.len() {
            assert(l.can_slide(Move::Up) && all[i] == l.slide(Move::Up));
        } else if i < a.len() + b.len() + c.len() {
            assert(l.can_slide(Move::Right) && all[i] == l.slide(Move::Right));
        } else {
            assert(l.can_slide(Move::Left) && all[i] == l.slide(Move::Left));
        }
    }
}

/// Each neighbour comes of a move of its own.
pub proof fn lemma_nth_move(l: Layout, i: int)
    requires
        l.valid(),
        0 <= i < l.neighbours().len(),
    ensures
        l.can_slide(l.nth_move(i)),
        l.neighbours()[i] == l.slide(l.nth_move(i)),
        forall|j: int|
            0 <= j < l.neighbours().len() && j != i ==> #[trigger] l.nth_move(j) != l.nth_move(i),
{
    let a = l.toward(Move::Down);
    let b = l.toward(Move::Up);
    let c = l.toward(Move::Right);
    let d = l.toward(Move::Left);
    assert(l.neighbours().len() == a.len() + b.len() + c.len() + d.len());
}

/// A move can be taken back: after it the opposite move is possible and
/// leads to the layout one came from.
pub proof fn lemma_slide_back(l: Layout, m: Move)
    requires
        l.valid(),
        l.can_slide(m),
    ensures
        l.slide(m).can_slide(m.opposite()),
        l.slide(m).slide(m.opposite()) == l,
{
    lemma_slide(l, m);
    let n = l.side as int;
    let z = l.blank();
    let back = l.slide(m);
    let z2 = l.landing(m);
    lemma_blank(l);
    assert(back.blank() == z2);
    assert(back.side == l.side);
    assert(n * (n - 1) == n * n - n) by (nonlinear_arith);
    match m {
        Move::Right => {
            vstd::arithmetic::div_mod::lemma_fundamental_div_mod(z, n);
            assert((z / n) * n == n * (z / n)) by (nonlinear_arith);
            vstd::arithmetic::div_mod::lemma_fundamental_div_mod_converse(
                z - 1,
                n,
                z / n,
                z % n - 1,
            );
            assert(z2 % n == z % n - 1);
            assert(back.can_slide(Move::Left));
        },
        Move::Left => {
            vstd::arithmetic::div_mod::lemma_fundamental_div_mod(z, n);
            assert((z / n) * n == n * (z / n)) by (nonlinear_arith);
            vstd::arithmetic::div_mod::lemma_fundamental_div_mod_converse(
                z + 1,
                n,
                z / n,
                z % n + 1,
            );
            assert(z2 % n == z % n + 1);
            assert(back.can_slide(Move::Right));
        },
        Move::Up => {
            assert(back.can_slide(Move::Down));
        },
        Move::Down => {
            assert(back.can_slide(Move::Up));
        },
    }
    assert(back.landing(m.opposite()) == z);
    assert(back.slide(m.opposite()).tiles =~= l.tiles);
}

/// Each neighbour of a layout has that layout among its own neighbours.
pub proof fn lemma_neighbour_of_neighbour(l: Layout, i: int)
    requires
        l.valid(),
        0 <= i < l.neighbours().len(),
    ensures
        l.neighbours()[i].valid(),
        l.neighbours()[i].neighbours().contains(l),
{
    lemma_neighbours(l);
    let c = l.neighbours()[i];
    let m = choose|m: Move| l.can_slide(m) && c == l.slide(m);
    lemma_slide(l, m);
    lemma_slide_back(l, m);
    lemma_neighbours(c);
}

/// With the blank in a corner there are two neighbours, with the blank
/// elsewhere on the rim three, and four with the blank inside.
pub proof fn lemma_degree(l: Layout)
    requires
        l.valid(),
    ensures
        !(l.blank_on_top() && l.blank_on_bottom()),
        !(l.blank_on_left() && l.blank_on_right()),
        (l.blank_on_top() || l.blank_on_bottom()) && (l.blank_on_left() || l.blank_on_right())
            ==> l.degree() == 2,
        (l.blank_on_top() || l.blank_on_bottom()) != (l.blank_on_left() || l.blank_on_right())
            ==> l.degree() == 3,
        !(l.blank_on_top() || l.blank_on_bottom() || l.blank_on_left() || l.blank_on_right())
            ==> l.degree() == 4,
        l.blank_on_top() && l.blank_on_left() ==> l.neighbours() == seq![
            l.slide(Move::Up),
            l.slide(Move::Left),
        ],
        l.blank_on_top() && l.blank_on_right() ==> l.neighbours() == seq![
            l.slide(Move::Up),
            l.slide(Move::Right),
        ],
        l.blank_on_bottom() && l.blank_on_left() ==> l.neighbours() == seq![
            l.slide(Move::Down),
            l.slide(Move::Left),
        ],
        l.blank_on_bottom() && l.blank_on_right() ==> l.neighbours() == seq![
            l.slide(Move::Down),
            l.slide(Move::Right),
        ],
{
    lemma_blank(l);
    let n = l.side as int;
    let z = l.blank();
    assert(n * (n - 1) == n * n - n) by (nonlinear_arith);
    assert(n * n >= 3 * n) by (nonlinear_arith)
        requires
            n >= 3,
    ;
    vstd::arithmetic::div_mod::lemma_mod_bound(z, n);
    let a = l.toward(Move::Down);
    let b = l.toward(Move::Up);
    let c = l.toward(Move::Right);
    let d = l.toward(Move::Left);
    assert(l.neighbours().len() == a.len() + b.len() + c.len() + d.len());
    if l.blank_on_top() && l.blank_on_left() {
        assert(l.neighbours() =~= seq![l.slide(Move::Up), l.slide(Move::Left)]);
    }
    if l.blank_on_top() && l.blank_on_right() {
        assert(l.neighbours() =~= seq![l.slide(Move::Up), l.slide(Move::Right)]);
    }
    if l.blank_on_bottom() && l.blank_on_left() {
        assert(l.neighbours() =~= seq![l.slide(Move::Down), l.slide(Move::Left)]);
    }
    if l.blank_on_bottom() && l.blank_on_right() {
        assert(l.neighbours() =~= seq![l.slide(Move::Down), l.slide(Move::Right)]);
    }
}

} // verus!
