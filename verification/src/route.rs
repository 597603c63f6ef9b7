//! Sequences of moves and what they lead to.

use vstd::prelude::*;
use crate::board::{lemma_slide, Layout};
use crate::tile_move::Move;

verus! {

impl Layout {
    /// The layout that the moves lead to when made in order, or `None`
    /// when one of them is not possible where it is due.
    pub open spec fn follow(self, moves: Seq<Move>) -> Option<Layout>
        decreases moves.len(),
    {
        if moves.len() == 0 {
            Some(self)
        } else {
            match self.follow(moves.drop_last()) {
                Some(l) => l.step(moves.last()),
                None => None,
            }
        }
    }

    /// Whether some sequence of moves leads from here to `target`.
    pub open spec fn reaches(self, target: Layout) -> bool {
        exists|moves: Seq<Move>| self.follow(moves) == Some(target)
    }

    /// Whether `moves` leads from here to `target` and no shorter sequence
    /// does.
    pub open spec fn shortest(self, moves: Seq<Move>, target: Layout) -> bool {
        &&& self.follow(moves) == Some(target)
        &&& forall|other: Seq<Move>| #[trigger]
            self.follow(other) == Some(target) ==> moves.len() <= other.len()
    }
}

/// One more move at the end is one more step from where the others led.
pub proof fn lemma_follow_push(l: Layout, moves: Seq<Move>, m: Move)
    ensures
        l.follow(moves.push(m)) == match l.follow(moves) {
            Some(x) => x.step(m),
            None => None,
        },
{
    assert(moves.push(m).drop_last() =~= moves);
}

/// Moves that can be followed from a valid layout lead to a valid layout
/// of the same side.
pub proof fn lemma_follow_valid(l: Layout, moves: Seq<Move>)
    requires
        l.valid(),
        l.follow(moves) is Some,
    ensures
        l.follow(moves).unwrap().valid(),
        l.follow(moves).unwrap().side == l.side,
    decreases moves.len(),
{
    if moves.len() > 0 {
        lemma_follow_valid(l, moves.drop_last());
        lemma_slide(l.follow(moves.drop_last()).unwrap(), moves.last());
    }
}

/// Following two sequences one after the other is following their
/// concatenation.
pub proof fn lemma_follow_concat(l: Layout, first: Seq<Move>, second: Seq<Move>)
    ensures
        l.follow(first + second) == match l.follow(first) {
            Some(x) => x.follow(second),
            None => None,
        },
    decreases second.len(),
{
    if second.len() == 0 {
        assert(first + second =~= first);
    } else {
        lemma_follow_concat(l, first, second.drop_last());
        assert((first + second).drop_last() =~= first + second.drop_last());
    }
}

/// When moves can be followed, so can each beginning of them.
pub proof fn lemma_follow_prefix(l: Layout, moves: Seq<Move>, k: int)
    requires
        l.follow(moves) is Some,
        0 <= k <= moves.len(),
    ensures
        l.follow(moves.take(k)) is Some,
        l.follow(moves.take(k)).unwrap().follow(moves.skip(k)) == l.follow(moves),
{
    assert(moves =~= moves.take(k) + moves.skip(k));
    lemma_follow_concat(l, moves.take(k), moves.skip(k));
}

/// Two shortest ways to one target are of one length.
pub proof fn lemma_shortest_agree(l: Layout, target: Layout, one: Seq<Move>, other: Seq<Move>)
    requires
        l.shortest(one, target),
        l.shortest(other, target),
    ensures
        one.len() == other.len(),
{
}

/// An upper count of the sequences of one to `longest` moves: four for
/// each length of one, four times as many for each move more.
pub open spec fn ways_upto(longest: nat) -> nat
    decreases longest,
{
    if longest == 0 {
        0
    } else {
        4 * ways_upto((longest - 1) as nat) + 4
    }
}

/// The number that stands for a sequence of moves, no two sequences having
/// the same.
pub open spec fn code(moves: Seq<Move>) -> nat
    decreases moves.len(),
{
    if moves.len() == 0 {
        0
    } else {
        4 * code(moves.drop_last()) + match moves.last() {
            Move::Up => 1nat,
            Move::Down => 2nat,
            Move::Left => 3nat,
            Move::Right => 4nat,
        }
    }
}

/// The count for a length is at least the length and does not fall when
/// the length grows.
pub proof fn lemma_ways_grow(shorter: nat, longer: nat)
    requires
        shorter <= longer,
    ensures
        shorter <= ways_upto(shorter) <= ways_upto(longer),
    decreases longer,
{
    if shorter < longer {
        lemma_ways_grow(shorter, (longer - 1) as nat);
    } else if shorter > 0 {
        lemma_ways_grow((shorter - 1) as nat, (shorter - 1) as nat);
    }
}

/// The number of a sequence of moves is at most the count for its length,
/// and is not zero unless the sequence is empty.
pub proof fn lemma_code_bound(moves: Seq<Move>)
    ensures
        code(moves) <= ways_upto(moves.len()),
        moves.len() > 0 ==> code(moves) >= 1,
    decreases moves.len(),
{
    if moves.len() > 0 {
        lemma_code_bound(moves.drop_last());
    }
}

/// Two sequences of moves with the same number are the same.
pub proof fn lemma_code_tells(one: Seq<Move>, other: Seq<Move>)
    requires
        code(one) == code(other),
    ensures
        one == other,
    decreases one.len(),
{
    lemma_code_bound(one);
    lemma_code_bound(other);
    if one.len() > 0 && other.len() > 0 {
        lemma_code_tells(one.drop_last(), other.drop_last());
        assert(one =~= one.drop_last().push(one.last()));
        assert(other =~= other.drop_last().push(other.last()));
    } else {
        assert(one =~= other);
    }
}

/// Sequences of one to `longest` moves of which no two are the same are
/// at most `ways_upto(longest)`.
pub proof fn lemma_ways_counted(all: Seq<Seq<Move>>, longest: nat)
    requires
        all.no_duplicates(),
        forall|i: int| 0 <= i < all.len() ==> 1 <= (#[trigger] all[i]).len() <= longest,
    ensures
        all.len() <= ways_upto(longest),
{
    let codes = all.map_values(|moves: Seq<Move>| code(moves) as int);
    let room = vstd::set_lib::set_int_range(1, ways_upto(longest) as int + 1);
    assert forall|i: int, j: int| 0 <= i < codes.len() && 0 <= j < codes.len() && i != j implies codes[i]
        != codes[j] by {
        if code(all[i]) == code(all[j]) {
            lemma_code_tells(all[i], all[j]);
        }
    }
    assert forall|c: int| codes.to_set().contains(c) implies room.contains(c) by {
        let i = choose|i: int| 0 <= i < codes.len() && codes[i] == c;
        lemma_code_bound(all[i]);
        lemma_ways_grow(all[i].len(), longest);
    }
    codes.unique_seq_to_set();
    vstd::set_lib::lemma_int_range(1, ways_upto(longest) as int + 1);
    vstd::set_lib::lemma_len_subset(codes.to_set(), room);
}

} // verus!
