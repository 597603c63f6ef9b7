//! What holds of the frontier and of the expanded nodes while a search
//! runs, and what follows for the node that leaves the frontier.

use vstd::prelude::*;
use vstd::multiset::Multiset;
use crate::board::{lemma_neighbours, lemma_nth_move, Layout, Tile};
use crate::heuristic::Heuristic;
use crate::route::{
    lemma_follow_prefix, lemma_follow_push, lemma_follow_valid, lemma_ways_counted, ways_upto,
};
use crate::state::State;
use crate::tile_move::Move;

verus! {

/// Whether the estimate of `H` never exceeds the number of moves that
/// really lead to `target`.
pub open spec fn admissible<H: Heuristic>(target: Layout) -> bool {
    forall|l: Layout, moves: Seq<Move>|
        l.valid() && #[trigger] l.follow(moves) == Some(target) ==> H::estimate(target, l)
            <= moves.len()
}

/// Whether the estimate of `H` falls by at most one with each move.
pub open spec fn consistent<H: Heuristic>(target: Layout) -> bool {
    forall|l: Layout, m: Move|
        l.valid() && l.side == target.side && #[trigger] l.can_slide(m) ==> H::estimate(target, l)
            <= H::estimate(target, l.slide(m)) + 1
}

/// An estimate that falls by at most one with each move is at most the
/// estimate at the end of any sequence of moves plus their number.
pub proof fn lemma_consistent_along<H: Heuristic>(target: Layout, l: Layout, moves: Seq<Move>)
    requires
        target.valid(),
        l.valid(),
        l.side == target.side,
        consistent::<H>(target),
        l.follow(moves) is Some,
    ensures
        H::estimate(target, l) <= H::estimate(target, l.follow(moves).unwrap()) + moves.len(),
    decreases moves.len(),
{
    if moves.len() > 0 {
        let before = moves.drop_last();
        lemma_consistent_along::<H>(target, l, before);
        lemma_follow_valid(l, before);
        let mid = l.follow(before).unwrap();
        assert(mid.can_slide(moves.last()));
    }
}

/// An estimate that is zero at the target and falls by at most one with
/// each move never exceeds the number of moves that lead to the target.
pub proof fn lemma_consistent_is_admissible<H: Heuristic>(target: Layout)
    requires
        target.valid(),
        consistent::<H>(target),
        H::estimate(target, target) == 0,
    ensures
        admissible::<H>(target),
{
    assert forall|l: Layout, moves: Seq<Move>|
        l.valid() && #[trigger] l.follow(moves) == Some(target) implies H::estimate(target, l)
        <= moves.len() by {
        lemma_follow_valid(l, moves);
        lemma_consistent_along::<H>(target, l, moves);
    }
}

/// Whether the layout `l` is accounted for at cost `g`: a node with this
/// layout and this cost waits in the frontier, or the layout was expanded
/// at this cost or a smaller one.
pub open spec fn covered(
    open: Multiset<State>,
    expanded: Set<(Layout, nat)>,
    l: Layout,
    g: nat,
) -> bool {
    ||| exists|s: State| #[trigger] open.count(s) > 0 && s.board@ == l && s.cost == g
    ||| exists|g2: nat| g2 <= g && #[trigger] expanded.contains((l, g2))
}

/// Whether every neighbour of every layout in `done` is accounted for at
/// one more than the cost at which the layout was expanded.
pub open spec fn closure(
    open: Multiset<State>,
    expanded: Set<(Layout, nat)>,
    done: Set<(Layout, nat)>,
) -> bool {
    forall|l: Layout, g: nat, m: Move|
        #[trigger] done.contains((l, g)) && #[trigger] l.can_slide(m) ==> covered(
            open,
            expanded,
            l.slide(m),
            g + 1,
        )
}

/// Whether every node of the frontier is well formed, hangs from the
/// start, has its depth as its cost, at most `pushed`, and carries the
/// estimate of `H` for its board.
pub open spec fn nodes_fit<H: Heuristic>(
    open: Multiset<State>,
    start: Layout,
    target: Layout,
    pushed: nat,
) -> bool {
    forall|s: State| #[trigger] open.count(s) > 0 ==> node_fits::<H>(s, start, target, pushed)
}

/// Whether the node is well formed, hangs from the start, has its depth
/// as its cost, at most `pushed`, and carries the estimate of `H` for its
/// board.
pub open spec fn node_fits<H: Heuristic>(
    s: State,
    start: Layout,
    target: Layout,
    pushed: nat,
) -> bool {
    &&& s.wf()
    &&& s.counted()
    &&& s.origin() == start
    &&& s.board@.side == start.side
    &&& s.cost <= pushed
    &&& s.distance == H::estimate(target, s.board@)
}

/// Whether every cost that the closed set records is one at which the
/// tiles were expanded.
pub open spec fn closed_fits(
    closed: Map<Seq<Tile>, usize>,
    expanded: Set<(Layout, nat)>,
    side: nat,
) -> bool {
    forall|tiles: Seq<Tile>| #[trigger]
        closed.contains_key(tiles) ==> expanded.contains(
            (Layout { tiles, side }, closed[tiles] as nat),
        )
}

/// Whether the target is none of the expanded layouts.
pub open spec fn never_target(expanded: Set<(Layout, nat)>, target: Layout) -> bool {
    forall|l: Layout, c: nat| #[trigger] expanded.contains((l, c)) ==> l != target
}

/// Whether `all` are the children of `s` in a search from `start` to
/// `target`: one for each neighbour of its board, in their order.
pub open spec fn offspring<H: Heuristic>(
    all: Seq<State>,
    s: State,
    start: Layout,
    target: Layout,
) -> bool {
    &&& all.len() == s.board@.neighbours().len()
    &&& forall|i: int|
        0 <= i < all.len() ==> {
            &&& (#[trigger] all[i]).board@ == s.board@.neighbours()[i]
            &&& all[i].cost == s.cost + 1
            &&& all[i].path() == s.path().push(s.board@.nth_move(i))
            &&& node_fits::<H>(all[i], start, target, (s.cost + 1) as nat)
        }
}

/// Whether `best` is a shortest way from `start` to `target` for which
/// the limit on pushed nodes is large enough: at least the count of the
/// ways of up to one move more.
pub open spec fn owes(start: Layout, target: Layout, limit: nat, best: Seq<Move>) -> bool {
    start.shortest(best, target) && limit >= ways_upto(best.len() + 1)
}

/// Whether the book that is kept of the ways of the nodes is in order:
/// `pushed` holds the way of each node that was pushed after the root,
/// none of them twice, and `popped` the ways of the nodes that have left
/// the frontier. No two nodes of the frontier came the same way, none of
/// them came a way that has left, and each way that was pushed goes on
/// from one that has left.
#[verifier::opaque]
pub open spec fn ways_fit(
    open: Multiset<State>,
    pushed: Seq<Seq<Move>>,
    popped: Set<Seq<Move>>,
) -> bool {
    &&& pushed.no_duplicates()
    &&& forall|i: int|
        0 <= i < pushed.len() ==> (#[trigger] pushed[i]).len() >= 1 && popped.contains(
            pushed[i].drop_last(),
        )
    &&& forall|s: State| #[trigger]
        open.count(s) > 0 ==> {
            &&& open.count(s) == 1
            &&& !popped.contains(s.path())
            &&& (s.path().len() == 0 || pushed.contains(s.path()))
        }
    &&& forall|a: State, b: State|
        #![trigger open.count(a), open.count(b)]
        open.count(a) > 0 && open.count(b) > 0 && a.path() == b.path() ==> a == b
    &&& forall|way: Seq<Move>| #[trigger]
        popped.contains(way) ==> way.len() == 0 || pushed.contains(way)
}

/// Whether none of the ways has more than `longest` moves.
pub open spec fn short_ways(ways: Seq<Seq<Move>>, longest: nat) -> bool {
    forall|i: int| 0 <= i < ways.len() ==> (#[trigger] ways[i]).len() <= longest
}

/// The book is in order when the root alone is in the frontier.
pub proof fn lemma_ways_at_start(root: State)
    requires
        root.parent is None,
    ensures
        ways_fit(Multiset::<State>::empty().insert(root), Seq::empty(), Set::empty()),
{
    broadcast use vstd::multiset::group_multiset_axioms;

    reveal(ways_fit);
}

/// A way that was not pushed yet is one more among ways of which there
/// can only be so many: as long as none has more than `longest` moves,
/// fewer than `ways_upto(longest)` were pushed.
pub proof fn lemma_ways_room(
    open: Multiset<State>,
    pushed: Seq<Seq<Move>>,
    popped: Set<Seq<Move>>,
    way: Seq<Move>,
    longest: nat,
)
    requires
        ways_fit(open, pushed, popped),
        short_ways(pushed, longest),
        !pushed.contains(way),
        1 <= way.len() <= longest,
    ensures
        pushed.len() < ways_upto(longest),
{
    reveal(ways_fit);
    let all = pushed.push(way);
    assert forall|i: int, j: int| 0 <= i < all.len() && 0 <= j < all.len() && i != j implies all[i]
        != all[j] by {
        if i < pushed.len() && j < pushed.len() {
        } else if i < pushed.len() {
            assert(pushed[i] != way);
        } else {
            assert(pushed[j] != way);
        }
    }
    lemma_ways_counted(all, longest);
}

/// The book stays in order when a node leaves the frontier, and no way
/// that goes on from the way of this node was pushed before.
pub proof fn lemma_ways_after_pop(
    open: Multiset<State>,
    pushed: Seq<Seq<Move>>,
    popped: Set<Seq<Move>>,
    s: State,
)
    requires
        ways_fit(open, pushed, popped),
        open.count(s) > 0,
    ensures
        ways_fit(open.remove(s), pushed, popped.insert(s.path())),
        forall|m: Move| !pushed.contains(#[trigger] s.path().push(m)),
{
    broadcast use vstd::multiset::group_multiset_axioms;

    reveal(ways_fit);
    let after = open.remove(s);
    assert forall|t: State| #[trigger] after.count(t) > 0 implies after.count(t) == 1
        && !popped.insert(s.path()).contains(t.path()) && (t.path().len() == 0 || pushed.contains(
        t.path(),
    )) by {
        assert(open.count(t) > 0);
        assert(t != s);
    }
    assert forall|a: State, b: State|
        #![trigger after.count(a), after.count(b)]
        after.count(a) > 0 && after.count(b) > 0 && a.path() == b.path() implies a == b by {
        assert(open.count(a) > 0 && open.count(b) > 0);
    }
    assert forall|m: Move| !pushed.contains(#[trigger] s.path().push(m)) by {
        let way = s.path().push(m);
        if pushed.contains(way) {
            let i = choose|i: int| 0 <= i < pushed.len() && pushed[i] == way;
            assert(way.drop_last() =~= s.path());
            assert(popped.contains(pushed[i].drop_last()));
        }
    }
}

/// The book stays in order when a node joins the frontier by a way that
/// was not pushed before and goes on from a way that has left.
pub proof fn lemma_ways_after_push(
    open: Multiset<State>,
    pushed: Seq<Seq<Move>>,
    popped: Set<Seq<Move>>,
    child: State,
)
    requires
        ways_fit(open, pushed, popped),
        child.path().len() >= 1,
        popped.contains(child.path().drop_last()),
        !pushed.contains(child.path()),
    ensures
        ways_fit(open.insert(child), pushed.push(child.path()), popped),
{
    broadcast use vstd::multiset::group_multiset_axioms;

    reveal(ways_fit);
    let more = open.insert(child);
    let longer = pushed.push(child.path());
    assert(open.count(child) == 0) by {
        if open.count(child) > 0 {
            assert(pushed.contains(child.path()));
        }
    }
    assert forall|i: int| 0 <= i < pushed.len() implies longer[i] == pushed[i] by {}
    assert(longer[pushed.len() as int] == child.path());
    assert forall|s: State| #[trigger] more.count(s) > 0 implies more.count(s) == 1
        && !popped.contains(s.path()) && (s.path().len() == 0 || longer.contains(s.path())) by {
        if s == child {
        } else {
            assert(open.count(s) > 0);
            if s.path().len() > 0 {
                let i = choose|i: int| 0 <= i < pushed.len() && pushed[i] == s.path();
                assert(longer[i] == s.path());
            }
        }
    }
    assert forall|a: State, b: State|
        #![trigger more.count(a), more.count(b)]
        more.count(a) > 0 && more.count(b) > 0 && a.path() == b.path() implies a == b by {
        if a != child {
            assert(open.count(a) > 0);
        }
        if b != child {
            assert(open.count(b) > 0);
        }
    }
    assert forall|way: Seq<Move>| #[trigger] popped.contains(way) implies way.len() == 0
        || longer.contains(way) by {
        if way.len() > 0 {
            let i = choose|i: int| 0 <= i < pushed.len() && pushed[i] == way;
            assert(longer[i] == way);
        }
    }
}

/// A child of a node comes by the way of the node and one move more.
pub proof fn lemma_offspring_way<H: Heuristic>(
    all: Seq<State>,
    s: State,
    start: Layout,
    target: Layout,
    i: int,
)
    requires
        offspring::<H>(all, s, start, target),
        0 <= i < all.len(),
    ensures
        all[i].path().len() == s.path().len() + 1,
        all[i].path().drop_last() == s.path(),
{
    assert(s.path().push(s.board@.nth_move(i)).drop_last() =~= s.path());
}

/// Two children of a node come by different ways.
pub proof fn lemma_offspring_ways_differ<H: Heuristic>(
    all: Seq<State>,
    s: State,
    start: Layout,
    target: Layout,
    i: int,
    j: int,
)
    requires
        s.board@.valid(),
        offspring::<H>(all, s, start, target),
        0 <= i < all.len(),
        0 <= j < all.len(),
        i != j,
    ensures
        all[i].path() != all[j].path(),
{
    lemma_nth_move(s.board@, i);
    let one = s.path().push(s.board@.nth_move(i));
    let other = s.path().push(s.board@.nth_move(j));
    assert(one.last() != other.last());
}

/// What was accounted for stays so when a node leaves the frontier to be
/// expanded.
pub proof fn lemma_cover_after_pop(
    open: Multiset<State>,
    expanded: Set<(Layout, nat)>,
    s: State,
    l: Layout,
    g: nat,
)
    requires
        covered(open, expanded, l, g),
    ensures
        covered(open.remove(s), expanded.insert((s.board@, s.cost as nat)), l, g),
{
    let after = open.remove(s);
    let more = expanded.insert((s.board@, s.cost as nat));
    if exists|w: State| #[trigger] open.count(w) > 0 && w.board@ == l && w.cost == g {
        let w = choose|w: State| #[trigger] open.count(w) > 0 && w.board@ == l && w.cost == g;
        if w == s {
            assert(more.contains((l, g)));
        } else {
            assert(after.count(w) > 0);
        }
    } else {
        let g2 = choose|g2: nat| g2 <= g && #[trigger] expanded.contains((l, g2));
        assert(more.contains((l, g2)));
    }
}

/// What was accounted for stays so when a node joins the frontier.
pub proof fn lemma_cover_after_push(
    open: Multiset<State>,
    expanded: Set<(Layout, nat)>,
    s: State,
    l: Layout,
    g: nat,
)
    requires
        covered(open, expanded, l, g),
    ensures
        covered(open.insert(s), expanded, l, g),
{
    if exists|w: State| #[trigger] open.count(w) > 0 && w.board@ == l && w.cost == g {
        let w = choose|w: State| #[trigger] open.count(w) > 0 && w.board@ == l && w.cost == g;
        assert(open.insert(s).count(w) > 0);
    }
}

/// The neighbours of what was expanded stay accounted for when a node
/// leaves the frontier to be expanded.
pub proof fn lemma_closure_after_pop(
    open: Multiset<State>,
    expanded: Set<(Layout, nat)>,
    s: State,
)
    requires
        closure(open, expanded, expanded),
    ensures
        closure(open.remove(s), expanded.insert((s.board@, s.cost as nat)), expanded),
{
    let after = open.remove(s);
    let more = expanded.insert((s.board@, s.cost as nat));
    assert forall|l: Layout, g: nat, m: Move| #[trigger]
        expanded.contains((l, g)) && #[trigger] l.can_slide(m) implies covered(
        after,
        more,
        l.slide(m),
        g + 1,
    ) by {
        lemma_cover_after_pop(open, expanded, s, l.slide(m), g + 1);
    }
}

/// The neighbours of what was expanded stay accounted for when a node
/// joins the frontier.
pub proof fn lemma_closure_after_push(
    open: Multiset<State>,
    expanded: Set<(Layout, nat)>,
    done: Set<(Layout, nat)>,
    s: State,
)
    requires
        closure(open, expanded, done),
    ensures
        closure(open.insert(s), expanded, done),
{
    assert forall|l: Layout, g: nat, m: Move| #[trigger]
        done.contains((l, g)) && #[trigger] l.can_slide(m) implies covered(
        open.insert(s),
        expanded,
        l.slide(m),
        g + 1,
    ) by {
        lemma_cover_after_push(open, expanded, s, l.slide(m), g + 1);
    }
}

/// Once every neighbour of the node that was taken out is accounted for,
/// the node counts among the expanded ones.
pub proof fn lemma_closure_complete(
    open: Multiset<State>,
    expanded: Set<(Layout, nat)>,
    s: State,
)
    requires
        s.board@.valid(),
        closure(open, expanded.insert((s.board@, s.cost as nat)), expanded),
        forall|i: int|
            0 <= i < s.board@.neighbours().len() ==> covered(
                open,
                expanded.insert((s.board@, s.cost as nat)),
                #[trigger] s.board@.neighbours()[i],
                (s.cost + 1) as nat,
            ),
    ensures
        closure(
            open,
            expanded.insert((s.board@, s.cost as nat)),
            expanded.insert((s.board@, s.cost as nat)),
        ),
{
    let more = expanded.insert((s.board@, s.cost as nat));
    lemma_neighbours(s.board@);
    assert forall|l: Layout, g: nat, m: Move| #[trigger]
        more.contains((l, g)) && #[trigger] l.can_slide(m) implies covered(
        open,
        more,
        l.slide(m),
        g + 1,
    ) by {
        if !expanded.contains((l, g)) {
            assert(l == s.board@ && g == s.cost);
            assert(s.board@.neighbours().contains(l.slide(m)));
            let i = choose|i: int|
                0 <= i < s.board@.neighbours().len() && s.board@.neighbours()[i] == l.slide(m);
            assert(covered(open, more, s.board@.neighbours()[i], (s.cost + 1) as nat));
        }
    }
}

/// With an admissible estimate, no way from the start to the target has
/// fewer moves than the cost plus the estimate of the node that leaves
/// the frontier first.
pub proof fn lemma_first_out_is_shortest<H: Heuristic>(
    open: Multiset<State>,
    expanded: Set<(Layout, nat)>,
    start: Layout,
    target: Layout,
    pushed: nat,
    s: State,
    other: Seq<Move>,
)
    requires
        start.valid(),
        admissible::<H>(target),
        nodes_fit::<H>(open, start, target, pushed),
        closure(open, expanded, expanded),
        never_target(expanded, target),
        covered(open, expanded, start, 0),
        forall|e: State| #[trigger] open.count(e) > 0 ==> !e.before(&s),
        start.follow(other) == Some(target),
    ensures
        s.cost + s.distance <= other.len(),
{
    assert(other.take(0) =~= Seq::<Move>::empty());
    let (w, i) = lemma_frontier_holds_way(open, expanded, start, target, other, 0, 0);
    let here = start.follow(other.take(i as int)).unwrap();
    lemma_follow_prefix(start, other, i as int);
    lemma_follow_valid(start, other.take(i as int));
    assert(here.follow(other.skip(i as int)) == Some(target));
    assert(H::estimate(target, here) <= other.skip(i as int).len());
    assert(node_fits::<H>(w, start, target, pushed));
    assert(!w.before(&s));
}

/// On every way from the start to a target that was never expanded, some
/// node of the frontier stands, at a cost that is at most the number of
/// moves made up to there.
pub proof fn lemma_frontier_holds_way(
    open: Multiset<State>,
    expanded: Set<(Layout, nat)>,
    start: Layout,
    target: Layout,
    moves: Seq<Move>,
    i: nat,
    g: nat,
) -> (r: (State, nat))
    requires
        closure(open, expanded, expanded),
        never_target(expanded, target),
        start.follow(moves) == Some(target),
        i <= moves.len(),
        g <= i,
        covered(open, expanded, start.follow(moves.take(i as int)).unwrap(), g),
    ensures
        open.count(r.0) > 0,
        r.1 <= moves.len(),
        r.0.board@ == start.follow(moves.take(r.1 as int)).unwrap(),
        r.0.cost <= r.1,
    decreases moves.len() - i,
{
    lemma_follow_prefix(start, moves, i as int);
    let here = start.follow(moves.take(i as int)).unwrap();
    if exists|s: State| #[trigger] open.count(s) > 0 && s.board@ == here && s.cost == g {
        let s = choose|s: State| #[trigger] open.count(s) > 0 && s.board@ == here && s.cost == g;
        (s, i)
    } else {
        let g2 = choose|g2: nat| g2 <= g && #[trigger] expanded.contains((here, g2));
        if i == moves.len() {
            assert(moves.take(i as int) =~= moves);
            assert(false);
            arbitrary()
        } else {
            let m = moves[i as int];
            assert(moves.take(i as int + 1) =~= moves.take(i as int).push(m));
            lemma_follow_push(start, moves.take(i as int), m);
            lemma_follow_prefix(start, moves, i as int + 1);
            assert(here.can_slide(m));
            assert(start.follow(moves.take(i as int + 1)) == Some(here.slide(m)));
            lemma_frontier_holds_way(open, expanded, start, target, moves, i + 1, g2 + 1)
        }
    }
}

} // verus!
