use crate::board::{
    bomb_at, bomb_near, bombs_around, count_bombs, count_matching, count_uncovered, glyph_for,
    lemma_count_matching_bounds, lemma_count_matching_congruence, lemma_count_matching_update,
    lemma_count_matching_zero, uncovered_at, Board, SquareState,
};
use crate::error::GameError;
use crate::geometry::{
    adjacent, index_of, lemma_index_position_roundtrip, lemma_safe_region_size_bounds,
    pos_in_bounds, pos_of, safe_region_size, surrounding_squares, Position,
};
use rand::seq::IteratorRandom;
use vstd::prelude::*;

verus! {

broadcast use vstd::seq_lib::lemma_seq_contains_after_push;

/// How a successfully played move leaves the game.
#[derive(Debug, Clone, Copy, PartialEq, Eq, Structural)]
pub enum MoveOutcome {
    /// The game goes on: some empty cell is still covered.
    Continue,
    /// Every empty cell is now uncovered.
    Won,
    /// The move hit a bomb.
    Lost,
}

/// Every in-bounds Moore neighbor of cell `i` is uncovered in `s`.
pub open spec fn saturated(s: Seq<SquareState>, w: int, i: int) -> bool {
    forall|j: int|
        #![trigger s[j]]
        0 <= j < s.len() && adjacent(pos_of(i, w), pos_of(j, w)) ==> s[j] is Uncovered
}

/// Flood-filling is complete: every uncovered cell with no bombs near it
/// has its whole neighborhood uncovered.
pub open spec fn quiescent(s: Seq<SquareState>, w: int) -> bool {
    forall|i: int|
        0 <= i < s.len() && s[i] is Uncovered && bombs_around(s, w, i) == 0
            ==> #[trigger] saturated(s, w, i)
}

/// Cell `j` borders some cell with no bombs near it (possibly itself).
/// Flood-filling uncovers no other cells.
pub open spec fn borders_zero_cell(s: Seq<SquareState>, w: int, j: int) -> bool {
    exists|c: int|
        0 <= c < s.len() && adjacent(pos_of(c, w), pos_of(j, w)) && #[trigger] bombs_around(
            s,
            w,
            c,
        ) == 0
}

/// How many integers in `[0, upto)` appear in `vals`.
pub open spec fn count_members_below(vals: Seq<usize>, upto: int) -> int
    decreases upto,
{
    if upto <= 0 {
        0
    } else {
        count_members_below(vals, upto - 1) + if vals.contains((upto - 1) as usize) {
            1int
        } else {
            0
        }
    }
}

/// A sequence without members contributes nothing to the count.
proof fn lemma_count_members_empty(vals: Seq<usize>, upto: int)
    requires
        vals.len() == 0,
    ensures
        count_members_below(vals, upto) == 0,
    decreases upto,
{
    if upto > 0 {
        lemma_count_members_empty(vals, upto - 1);
    }
}

/// Appending a fresh value raises the count by one exactly when the
/// value lies below the bound.
proof fn lemma_count_members_push(vals: Seq<usize>, v: usize, upto: int)
    requires
        !vals.contains(v),
        upto <= usize::MAX,
    ensures
        count_members_below(vals.push(v), upto) == count_members_below(vals, upto) + if v < upto {
            1int
        } else {
            0
        },
    decreases upto,
{
    if upto > 0 {
        lemma_count_members_push(vals, v, upto - 1);
    }
}

/// A duplicate-free sequence of values below `n` has exactly its length
/// counted in `[0, n)`.
proof fn lemma_count_members_all(vals: Seq<usize>, n: int)
    requires
        vals.no_duplicates(),
        forall|a: int| 0 <= a < vals.len() ==> vals[a] < n,
        n <= usize::MAX,
    ensures
        count_members_below(vals, n) == vals.len(),
    decreases vals.len(),
{
    if vals.len() == 0 {
        lemma_count_members_empty(vals, n);
    } else {
        let dl = vals.drop_last();
        let last = vals.last();
        assert(vals[vals.len() - 1] < n);
        assert(!dl.contains(last)) by {
            if dl.contains(last) {
                let a = choose|a: int| 0 <= a < dl.len() && dl[a] == last;
                assert(vals[a] == vals[vals.len() - 1]);
            }
        }
        lemma_count_members_all(dl, n);
        lemma_count_members_push(dl, last, n);
        assert(dl.push(last) =~= vals);
    }
}

/// Whether `v` holds `x`.
fn vec_contains(v: &Vec<usize>, x: usize) -> (r: bool)
    ensures
        r == v@.contains(x),
{
    let mut a: usize = 0;
    while a < v.len()
        invariant
            a <= v@.len(),
            forall|b: int| 0 <= b < a ==> v@[b] != x,
        decreases v@.len() - a,
    {
        if v[a] == x {
            proof {
                assert(v@[a as int] == x);
            }
            return true;
        }
        a = a + 1;
    }
    false
}

/// Draws `amount` distinct values from `[0, n)`, or all of them when
/// fewer than `amount` exist.
///
/// Relies on rand's `IteratorRandom::sample` with the thread-local
/// generator: it returns `min(amount, n)` elements of the iterator,
/// chosen uniformly without replacement, so on a range the results are
/// distinct and in bounds.
#[verifier::external_body]
fn sample_distinct(n: usize, amount: usize) -> (picks: Vec<usize>)
    ensures
        picks@.no_duplicates(),
        forall|a: int| 0 <= a < picks@.len() ==> picks@[a] < n,
        picks@.len() == if amount <= n {
            amount as int
        } else {
            n as int
        },
{
    let mut rng = rand::rng();
    (0..n).sample(&mut rng, amount)
}

/// No cell is ever both mined and uncovered: the two are distinct
/// variants of one state, and playing moves keeps every mined cell mined
/// (see the bomb-preservation clauses of `make_move`).
pub proof fn lemma_mined_never_uncovered(s: Seq<SquareState>, i: int)
    ensures
        !(s[i] is Bomb && s[i] is Uncovered),
{
}

/// A zero-bomb trail: every entry names an in-bounds cell with no bombs
/// near it, and consecutive entries are Moore neighbors.
pub open spec fn zero_trail(s: Seq<SquareState>, w: int, trail: Seq<int>) -> bool {
    &&& forall|a: int|
        0 <= a < trail.len() ==> 0 <= #[trigger] trail[a] < s.len() && bombs_around(
            s,
            w,
            trail[a],
        ) == 0
    &&& forall|a: int|
        0 < a < trail.len() ==> adjacent(pos_of(trail[a - 1], w), pos_of(#[trigger] trail[a], w))
}

/// Revealing spreads through zero-bomb regions: on a quiescent board,
/// every cell reachable from an uncovered cell along a trail of cells
/// that all have no bombs near them is itself uncovered.
pub proof fn lemma_zero_trail_uncovered(s: Seq<SquareState>, w: int, trail: Seq<int>)
    requires
        quiescent(s, w),
        zero_trail(s, w, trail),
        trail.len() > 0,
        s[trail[0]] is Uncovered,
    ensures
        forall|a: int| 0 <= a < trail.len() ==> s[#[trigger] trail[a]] is Uncovered,
    decreases trail.len(),
{
    if trail.len() > 1 {
        let dl = trail.drop_last();
        assert(zero_trail(s, w, dl)) by {
            assert(forall|a: int| 0 <= a < dl.len() ==> #[trigger] dl[a] == trail[a]);
        }
        lemma_zero_trail_uncovered(s, w, dl);
        let last_at = trail.len() - 1;
        let prev = trail[last_at - 1];
        assert forall|a: int| 0 <= a < trail.len() implies s[#[trigger] trail[a]]
            is Uncovered by {
            if a < last_at {
                assert(dl[a] == trail[a]);
                assert(s[dl[a]] is Uncovered);
            } else {
                assert(dl[last_at - 1] == prev);
                assert(s[prev] is Uncovered);
                assert(saturated(s, w, prev));
            }
        }
    }
}

/// Boards with bombs in the same cells agree on every neighborhood count.
proof fn lemma_bombs_around_agree(s1: Seq<SquareState>, s2: Seq<SquareState>, w: int, c: int)
    requires
        s1.len() == s2.len(),
        forall|j: int| 0 <= j < s1.len() ==> ((#[trigger] s1[j]) is Bomb <==> s2[j] is Bomb),
    ensures
        bombs_around(s1, w, c) == bombs_around(s2, w, c),
{
    lemma_count_matching_congruence(s1, s2, bomb_near(w, c), bomb_near(w, c), s1.len() as int);
}

/// The move counter after one more move; it sticks at the top of its
/// range rather than wrap.
pub open spec fn bumped(m: usize) -> usize {
    if m == usize::MAX {
        m
    } else {
        (m + 1) as usize
    }
}

/// One Minesweeper game: a board, the number of bombs hidden in it, and
/// the count of moves made so far (the opening counts as the first).
#[derive(Debug)]
pub struct Game {
    pub bomb_count: usize,
    pub board: Board,
    pub move_count: usize,
}

impl Game {
    /// Structural soundness: the board is well formed, it holds exactly
    /// `bomb_count` mined cells, and the opening move has been counted.
    pub open spec fn wf_core(self) -> bool {
        &&& self.board.wf()
        &&& count_bombs(self.board.squares@) == self.bomb_count
        &&& self.move_count >= 1
    }

    /// The full invariant: additionally, flood-filling is complete.
    pub open spec fn wf(self) -> bool {
        &&& self.wf_core()
        &&& quiescent(self.board.squares@, self.board.width as int)
    }

    /// Whether the game is won: no empty cell is still covered, so every
    /// cell is either uncovered or a bomb.
    pub fn check_won(&self) -> (r: bool)
        ensures
            r <==> (forall|i: int|
                0 <= i < self.board.squares@.len() ==> !(#[trigger] self.board.squares@[i]
                    is Covered)),
            r ==> forall|i: int|
                0 <= i < self.board.squares@.len() ==> (#[trigger] self.board.squares@[i]
                    is Uncovered || self.board.squares@[i] is Bomb),
    {
        let n = self.board.squares.len();
        let mut i: usize = 0;
        while i < n
            invariant
                i <= n,
                n == self.board.squares@.len(),
                forall|j: int| 0 <= j < i ==> !(#[trigger] self.board.squares@[j] is Covered),
            decreases n - i,
        {
            if self.board.squares[i] == SquareState::Covered {
                return false;
            }
            i = i + 1;
        }
        true
    }

    /// Uncovers the whole Moore neighborhood of the cell at linear index
    /// `index`, which must have no bombs near it, and flood-fills onward:
    /// every newly uncovered cell with no bombs near it gets its own
    /// neighborhood uncovered in turn, until nothing more spreads.
    pub fn clear_safe_square(&mut self, index: usize)
        requires
            old(self).board.wf(),
            index < old(self).board.squares@.len(),
            bombs_around(old(self).board.squares@, old(self).board.width as int, index as int)
                == 0,
        ensures
            final(self).board.wf(),
            final(self).board.width == old(self).board.width,
            final(self).board.height == old(self).board.height,
            final(self).bomb_count == old(self).bomb_count,
            final(self).move_count == old(self).move_count,
            final(self).board.squares@.len() == old(self).board.squares@.len(),
            forall|j: int|
                0 <= j < old(self).board.squares@.len() ==> ((#[trigger] final(
                    self).board.squares@[j]) is Bomb <==> old(self).board.squares@[j] is Bomb),
            forall|j: int|
                0 <= j < old(self).board.squares@.len() && old(self).board.squares@[j]
                    is Uncovered ==> (#[trigger] final(self).board.squares@[j]) is Uncovered,
            forall|c: int|
                0 <= c < old(self).board.squares@.len() && (#[trigger] final(
                    self).board.squares@[c]) is Uncovered && bombs_around(
                    final(self).board.squares@,
                    old(self).board.width as int,
                    c,
                ) == 0 && (c == index || !(old(self).board.squares@[c] is Uncovered))
                    ==> saturated(final(self).board.squares@, old(self).board.width as int, c),
            forall|j: int|
                0 <= j < old(self).board.squares@.len() && (#[trigger] final(
                    self).board.squares@[j]) is Uncovered && !(old(self).board.squares@[j]
                    is Uncovered) ==> borders_zero_cell(
                    old(self).board.squares@,
                    old(self).board.width as int,
                    j,
                ),
    {
        let ghost w = self.board.width as int;
        let ghost orig = self.board.squares@;
        let ghost n = orig.len() as int;
        let mut worklist: Vec<usize> = Vec::new();
        worklist.push(index);
        proof {
            lemma_count_matching_bounds(orig, uncovered_at(), n);
        }
        while worklist.len() > 0
            invariant
                self.board.wf(),
                self.board.width == old(self).board.width,
                self.board.height == old(self).board.height,
                self.bomb_count == old(self).bomb_count,
                self.move_count == old(self).move_count,
                w == self.board.width as int,
                orig == old(self).board.squares@,
                n == orig.len() as int,
                self.board.squares@.len() == n,
                index < n,
                bombs_around(orig, w, index as int) == 0,
                count_uncovered(self.board.squares@) <= n,
                forall|j: int|
                    0 <= j < n ==> ((#[trigger] self.board.squares@[j]) is Bomb <==> orig[j]
                        is Bomb),
                forall|j: int|
                    0 <= j < n && orig[j] is Uncovered ==> (#[trigger] self.board.squares@[j])
                        is Uncovered,
                forall|a: int|
                    0 <= a < worklist@.len() ==> (#[trigger] worklist@[a]) < n && bombs_around(
                        orig,
                        w,
                        worklist@[a] as int,
                    ) == 0,
                forall|j: int|
                    0 <= j < n && (#[trigger] self.board.squares@[j]) is Uncovered && !(orig[j]
                        is Uncovered) ==> borders_zero_cell(orig, w, j),
                forall|c: int|
                    0 <= c < n && (#[trigger] self.board.squares@[c]) is Uncovered
                        && bombs_around(orig, w, c) == 0 && (c == index || !(orig[c]
                        is Uncovered)) ==> (saturated(self.board.squares@, w, c)
                        || worklist@.contains(c as usize)),
            decreases n - count_uncovered(self.board.squares@) + worklist@.len(),
        {
            let ghost s_iter = self.board.squares@;
            let ghost wl0 = worklist@;
            let ghost measure0 = n - count_uncovered(s_iter) + wl0.len();
            let i = worklist.pop().unwrap();
            proof {
                assert(wl0[wl0.len() - 1] == i);
                assert(worklist@ =~= wl0.drop_last());
                assert forall|c: usize|
                    #[trigger] wl0.contains(c) && c != i implies worklist@.contains(c) by {
                    let a = choose|a: int| 0 <= a < wl0.len() && wl0[a] == c;
                    assert(worklist@[a] == c);
                }
            }
            let neighbors = self.board.surrounding_squares_indexes(i);
            let mut t: usize = 0;
            while t < neighbors.len()
                invariant
                    self.board.wf(),
                    self.board.width == old(self).board.width,
                    self.board.height == old(self).board.height,
                    self.bomb_count == old(self).bomb_count,
                    self.move_count == old(self).move_count,
                    w == self.board.width as int,
                    orig == old(self).board.squares@,
                    n == orig.len() as int,
                    self.board.squares@.len() == n,
                    index < n,
                    bombs_around(orig, w, index as int) == 0,
                    count_uncovered(self.board.squares@) <= n,
                    i < n,
                    bombs_around(orig, w, i as int) == 0,
                    t <= neighbors@.len(),
                    forall|jx: usize|
                        #[trigger] neighbors@.contains(jx) <==> (jx < n && adjacent(
                            pos_of(i as int, w),
                            pos_of(jx as int, w),
                        )),
                    forall|j: int|
                        0 <= j < n ==> ((#[trigger] self.board.squares@[j]) is Bomb <==> orig[j]
                            is Bomb),
                    forall|j: int|
                        0 <= j < n && orig[j] is Uncovered ==> (
                        #[trigger] self.board.squares@[j]) is Uncovered,
                    forall|a: int|
                        0 <= a < worklist@.len() ==> (#[trigger] worklist@[a]) < n
                            && bombs_around(orig, w, worklist@[a] as int) == 0,
                    forall|a: int|
                        0 <= a < t ==> (#[trigger] self.board.squares@[neighbors@[a] as int])
                            is Uncovered,
                    forall|j: int|
                        0 <= j < n && (#[trigger] self.board.squares@[j]) is Uncovered && !(orig[j]
                            is Uncovered) ==> borders_zero_cell(orig, w, j),
                    n - count_uncovered(self.board.squares@) + worklist@.len() <= measure0 - 1,
                    forall|c: int|
                        0 <= c < n && (#[trigger] self.board.squares@[c]) is Uncovered
                            && bombs_around(orig, w, c) == 0 && (c == index || !(orig[c]
                            is Uncovered)) ==> (saturated(self.board.squares@, w, c)
                            || worklist@.contains(c as usize) || c == i as int),
                decreases neighbors@.len() - t,
            {
                let j = neighbors[t];
                proof {
                    assert(neighbors@[t as int] == j);
                    assert(neighbors@.contains(j));
                }
                if self.board.squares[j] != SquareState::Uncovered {
                    proof {
                        lemma_count_matching_zero(orig, bomb_near(w, i as int), n);
                        assert(!(orig[j as int] is Bomb));
                    }
                    let ghost s_before = self.board.squares@;
                    self.board.squares[j] = SquareState::Uncovered;
                    proof {
                        let s_after = self.board.squares@;
                        assert(s_after =~= s_before.update(j as int, SquareState::Uncovered));
                        lemma_count_matching_update(
                            s_before,
                            uncovered_at(),
                            j as int,
                            SquareState::Uncovered,
                            n,
                        );
                        lemma_count_matching_bounds(s_after, uncovered_at(), n);
                        assert forall|c: int|
                            0 <= c < n && saturated(s_before, w, c) implies saturated(
                            s_after,
                            w,
                            c,
                        ) by {
                            assert forall|k: int|
                                0 <= k < n && adjacent(pos_of(c, w), pos_of(k, w)) implies (
                            #[trigger] s_after[k]) is Uncovered by {
                                if k != j {
                                    assert(s_before[k] is Uncovered);
                                }
                            }
                        }
                    }
                    let bombs_j = self.board.surrounding_bombs_from_index(j);
                    proof {
                        lemma_bombs_around_agree(self.board.squares@, orig, w, j as int);
                    }
                    if bombs_j == 0 {
                        worklist.push(j);
                    }
                    proof {
                        assert(self.board.squares@[j as int] is Uncovered);
                        assert(bombs_around(orig, w, i as int) == 0);
                        assert(borders_zero_cell(orig, w, j as int));
                        assert forall|a: int|
                            0 <= a < t implies (
                        #[trigger] self.board.squares@[neighbors@[a] as int]) is Uncovered by {
                            assert(neighbors@.contains(neighbors@[a]));
                            if neighbors@[a] as int != j as int {
                                assert(s_before[neighbors@[a] as int] is Uncovered);
                            }
                        }
                    }
                } else {
                    proof {
                        assert(self.board.squares@[neighbors@[t as int] as int] is Uncovered);
                    }
                }
                t = t + 1;
            }
            proof {
                assert forall|jx: int|
                    0 <= jx < n && adjacent(pos_of(i as int, w), pos_of(jx, w)) implies (
                #[trigger] self.board.squares@[jx]) is Uncovered by {
                    assert(neighbors@.contains(jx as usize));
                    let a = choose|a: int|
                        0 <= a < neighbors@.len() && neighbors@[a] == jx as usize;
                    assert(self.board.squares@[neighbors@[a] as int] is Uncovered);
                }
                assert(saturated(self.board.squares@, w, i as int));
            }
        }
        proof {
            assert forall|c: int|
                0 <= c < n && (#[trigger] self.board.squares@[c]) is Uncovered && bombs_around(
                    self.board.squares@,
                    w,
                    c,
                ) == 0 && (c == index || !(orig[c] is Uncovered)) implies saturated(
                self.board.squares@,
                w,
                c,
            ) by {
                lemma_bombs_around_agree(self.board.squares@, orig, w, c);
            }
        }
    }

    /// Flood-fills the whole board: sweeps every cell and spreads from
    /// each uncovered cell with no bombs near it, leaving the board
    /// quiescent.
    pub fn clear_safe_squares(&mut self)
        requires
            old(self).board.wf(),
        ensures
            final(self).board.wf(),
            final(self).board.width == old(self).board.width,
            final(self).board.height == old(self).board.height,
            final(self).bomb_count == old(self).bomb_count,
            final(self).move_count == old(self).move_count,
            final(self).board.squares@.len() == old(self).board.squares@.len(),
            forall|j: int|
                0 <= j < old(self).board.squares@.len() ==> ((#[trigger] final(
                    self).board.squares@[j]) is Bomb <==> old(self).board.squares@[j] is Bomb),
            forall|j: int|
                0 <= j < old(self).board.squares@.len() && old(self).board.squares@[j]
                    is Uncovered ==> (#[trigger] final(self).board.squares@[j]) is Uncovered,
            forall|j: int|
                0 <= j < old(self).board.squares@.len() && (#[trigger] final(
                    self).board.squares@[j]) is Uncovered && !(old(self).board.squares@[j]
                    is Uncovered) ==> borders_zero_cell(
                    old(self).board.squares@,
                    old(self).board.width as int,
                    j,
                ),
            quiescent(final(self).board.squares@, old(self).board.width as int),
    {
        let ghost w = self.board.width as int;
        let ghost entry = self.board.squares@;
        let ghost n = entry.len() as int;
        let total = self.board.squares.len();
        let mut index: usize = 0;
        while index < total
            invariant
                self.board.wf(),
                self.board.width == old(self).board.width,
                self.board.height == old(self).board.height,
                self.bomb_count == old(self).bomb_count,
                self.move_count == old(self).move_count,
                w == self.board.width as int,
                entry == old(self).board.squares@,
                n == entry.len() as int,
                self.board.squares@.len() == n,
                total == n,
                index <= total,
                forall|j: int|
                    0 <= j < n ==> ((#[trigger] self.board.squares@[j]) is Bomb <==> entry[j]
                        is Bomb),
                forall|j: int|
                    0 <= j < n && entry[j] is Uncovered ==> (#[trigger] self.board.squares@[j])
                        is Uncovered,
                forall|j: int|
                    0 <= j < n && (#[trigger] self.board.squares@[j]) is Uncovered && !(entry[j]
                        is Uncovered) ==> borders_zero_cell(entry, w, j),
                forall|c: int|
                    0 <= c < n && (#[trigger] self.board.squares@[c]) is Uncovered
                        && bombs_around(entry, w, c) == 0 && (c < index || !(entry[c]
                        is Uncovered)) ==> saturated(self.board.squares@, w, c),
            decreases total - index,
        {
            if self.board.squares[index] == SquareState::Uncovered {
                let b = self.board.surrounding_bombs_from_index(index);
                proof {
                    lemma_bombs_around_agree(self.board.squares@, entry, w, index as int);
                }
                if b == 0 {
                    let ghost pre = self.board.squares@;
                    self.clear_safe_square(index);
                    proof {
                        assert forall|j: int|
                            0 <= j < n implies ((#[trigger] self.board.squares@[j]) is Bomb
                            <==> entry[j] is Bomb) by {
                            assert(pre[j] is Bomb <==> entry[j] is Bomb);
                        }
                        assert forall|j: int|
                            0 <= j < n && entry[j] is Uncovered implies (
                        #[trigger] self.board.squares@[j]) is Uncovered by {
                            assert(pre[j] is Uncovered);
                        }
                        assert forall|j: int|
                            0 <= j < n && (#[trigger] self.board.squares@[j]) is Uncovered && !(
                            entry[j] is Uncovered) implies borders_zero_cell(entry, w, j) by {
                            if pre[j] is Uncovered {
                                assert(borders_zero_cell(entry, w, j));
                            } else {
                                assert(borders_zero_cell(pre, w, j));
                                let c = choose|c: int|
                                    0 <= c < pre.len() && adjacent(pos_of(c, w), pos_of(j, w)) && (
                                    #[trigger] bombs_around(pre, w, c)) == 0;
                                lemma_bombs_around_agree(pre, entry, w, c);
                                assert(bombs_around(entry, w, c) == 0);
                            }
                        }
                        assert forall|c: int|
                            0 <= c < n && (#[trigger] self.board.squares@[c]) is Uncovered
                                && bombs_around(entry, w, c) == 0 && (c < index + 1 || !(entry[c]
                                is Uncovered)) implies saturated(self.board.squares@, w, c) by {
                            lemma_bombs_around_agree(self.board.squares@, pre, w, c);
                            lemma_bombs_around_agree(pre, entry, w, c);
                            if c == index as int || !(pre[c] is Uncovered) {
                                assert(saturated(self.board.squares@, w, c));
                            } else {
                                assert(saturated(pre, w, c));
                                assert forall|k: int|
                                    0 <= k < n && adjacent(pos_of(c, w), pos_of(k, w)) implies (
                                #[trigger] self.board.squares@[k]) is Uncovered by {
                                    assert(pre[k] is Uncovered);
                                }
                            }
                        }
                    }
                }
            }
            index = index + 1;
        }
        proof {
            assert forall|i: int|
                0 <= i < n && (#[trigger] self.board.squares@[i]) is Uncovered && bombs_around(
                    self.board.squares@,
                    w,
                    i,
                ) == 0 implies saturated(self.board.squares@, w, i) by {
                lemma_bombs_around_agree(self.board.squares@, entry, w, i);
            }
            assert(quiescent(self.board.squares@, w));
        }
    }

    /// Plays a move at `position`. An out-of-bounds or already-revealed
    /// move fails and leaves the game untouched. Revealing a bomb loses
    /// the game and leaves the board as it stands; revealing an empty
    /// cell uncovers it, flood-fills, and wins when no empty cell stays
    /// covered.
    pub fn make_move(&mut self, position: Position) -> (r: Result<MoveOutcome, GameError>)
        requires
            old(self).wf_core(),
        ensures
            final(self).wf_core(),
            final(self).board.width == old(self).board.width,
            final(self).board.height == old(self).board.height,
            final(self).board.squares@.len() == old(self).board.squares@.len(),
            final(self).bomb_count == old(self).bomb_count,
            old(self).wf() ==> final(self).wf(),
            !pos_in_bounds(position, old(self).board.width as int, old(self).board.height as int)
                ==> r == Err::<MoveOutcome, GameError>(GameError::InvalidMoveError) && *final(self)
                == *old(self),
            pos_in_bounds(position, old(self).board.width as int, old(self).board.height as int)
                ==> ({
                let idx = index_of(position, old(self).board.width as int);
                &&& (old(self).board.squares@[idx] is Uncovered ==> r == Err::<
                    MoveOutcome,
                    GameError,
                >(GameError::RepeatMoveError) && *final(self) == *old(self))
                &&& (old(self).board.squares@[idx] is Bomb ==> r == Ok::<
                    MoveOutcome,
                    GameError,
                >(MoveOutcome::Lost) && final(self).board == old(self).board && final(
                    self).move_count == bumped(old(self).move_count))
                &&& (old(self).board.squares@[idx] is Covered ==> {
                    &&& final(self).move_count == bumped(old(self).move_count)
                    &&& (#[trigger] final(self).board.squares@[idx]) is Uncovered
                    &&& forall|j: int|
                        0 <= j < old(self).board.squares@.len() ==> ((#[trigger] final(
                            self).board.squares@[j]) is Bomb <==> old(self).board.squares@[j]
                            is Bomb)
                    &&& forall|j: int|
                        0 <= j < old(self).board.squares@.len() && old(self).board.squares@[j]
                            is Uncovered ==> (#[trigger] final(self).board.squares@[j])
                            is Uncovered
                    &&& forall|j: int|
                        0 <= j < old(self).board.squares@.len() && (#[trigger] final(
                            self).board.squares@[j]) is Covered ==> old(self).board.squares@[j]
                            is Covered
                    &&& forall|j: int|
                        0 <= j < old(self).board.squares@.len() && (#[trigger] final(
                            self).board.squares@[j]) is Uncovered && !(old(self).board.squares@[j]
                            is Uncovered) && j != idx ==> borders_zero_cell(
                            old(self).board.squares@,
                            old(self).board.width as int,
                            j,
                        )
                    &&& quiescent(final(self).board.squares@, old(self).board.width as int)
                    &&& (r == Ok::<MoveOutcome, GameError>(MoveOutcome::Won) || r == Ok::<
                        MoveOutcome,
                        GameError,
                    >(MoveOutcome::Continue))
                    &&& (r == Ok::<MoveOutcome, GameError>(MoveOutcome::Won) <==> (forall|j: int|
                        0 <= j < final(self).board.squares@.len() ==> !((#[trigger] final(
                            self).board.squares@[j]) is Covered)))
                })
            }),
    {
        if !self.board.contains(&position) {
            return Err(GameError::InvalidMoveError);
        }
        let index = self.board.index_from_position(&position);
        let state = self.board.squares[index];
        if state == SquareState::Uncovered {
            return Err(GameError::RepeatMoveError);
        }
        if state == SquareState::Bomb {
            self.move_count = if self.move_count == usize::MAX {
                self.move_count
            } else {
                self.move_count + 1
            };
            return Ok(MoveOutcome::Lost);
        }
        let ghost pre = self.board.squares@;
        let ghost n = pre.len() as int;
        self.board.squares[index] = SquareState::Uncovered;
        let ghost mid = self.board.squares@;
        proof {
            assert(mid =~= pre.update(index as int, SquareState::Uncovered));
            lemma_count_matching_update(pre, bomb_at(), index as int, SquareState::Uncovered, n);
        }
        self.clear_safe_squares();
        proof {
            lemma_count_matching_congruence(
                self.board.squares@,
                mid,
                bomb_at(),
                bomb_at(),
                n,
            );
            assert forall|j: int|
                0 <= j < n implies ((#[trigger] self.board.squares@[j]) is Bomb <==> pre[j]
                is Bomb) by {
                assert(mid[j] is Bomb <==> pre[j] is Bomb);
            }
            assert forall|j: int|
                0 <= j < n && pre[j] is Uncovered implies (#[trigger] self.board.squares@[j])
                is Uncovered by {
                assert(mid[j] is Uncovered);
            }
            assert(mid[index as int] is Uncovered);
            assert(self.board.squares@[index as int] is Uncovered);
            assert forall|j: int|
                0 <= j < n && (#[trigger] self.board.squares@[j]) is Uncovered && !(pre[j]
                    is Uncovered) && j != index as int implies borders_zero_cell(
                pre,
                self.board.width as int,
                j,
            ) by {
                let w = self.board.width as int;
                assert(!(mid[j] is Uncovered));
                assert(borders_zero_cell(mid, w, j));
                let c = choose|c: int|
                    0 <= c < mid.len() && adjacent(pos_of(c, w), pos_of(j, w)) && (
                    #[trigger] bombs_around(mid, w, c)) == 0;
                lemma_bombs_around_agree(mid, pre, w, c);
                assert(bombs_around(pre, w, c) == 0);
            }
        }
        self.move_count = if self.move_count == usize::MAX {
            self.move_count
        } else {
            self.move_count + 1
        };
        if self.check_won() {
            Ok(MoveOutcome::Won)
        } else {
            Ok(MoveOutcome::Continue)
        }
    }

    /// Builds the opening board that a given bomb sample dictates.
    /// `picks` chooses the homes of the bombs among the cells outside the
    /// opening's safe region, counted in increasing linear-index order,
    /// and must fit that region's complement. The safe region starts
    /// uncovered and the opening flood-fill has already run.
    pub fn start_with_picks(
        width: usize,
        height: usize,
        bomb_count: usize,
        start_move: Position,
        picks: &Vec<usize>,
    ) -> (game: Game)
        requires
            pos_in_bounds(start_move, width as int, height as int),
            width * height <= usize::MAX,
            bomb_count + safe_region_size(start_move, width as int, height as int) <= width
                * height,
            picks@.no_duplicates(),
            picks@.len() == bomb_count,
            forall|a: int|
                0 <= a < picks@.len() ==> (#[trigger] picks@[a]) < width * height
                    - safe_region_size(start_move, width as int, height as int),
        ensures
            game.wf(),
            game.board.width == width,
            game.board.height == height,
            game.bomb_count == bomb_count,
            game.move_count == 1,
            forall|q: Position|
                pos_in_bounds(q, width as int, height as int) && adjacent(start_move, q) ==> (
                #[trigger] game.board.squares@[index_of(q, width as int)]) is Uncovered,
            forall|j: int|
                0 <= j < game.board.squares@.len() && (#[trigger] game.board.squares@[j])
                    is Uncovered ==> (adjacent(start_move, pos_of(j, width as int))
                    || borders_zero_cell(game.board.squares@, width as int, j)),
    {
        let ghost w = width as int;
        let ghost h = height as int;
        let ghost k_spec = safe_region_size(start_move, w, h);
        let total = width * height;
        let ghost n = total as int;
        let mut squares: Vec<SquareState> = Vec::new();
        let mut v: usize = 0;
        while v < total
            invariant
                v <= total,
                squares@.len() == v,
            decreases total - v,
        {
            squares.push(SquareState::Covered);
            v = v + 1;
        }
        let mut board = Board { squares, height, width };
        let first_index = board.index_from_position(&start_move);
        proof {
            lemma_index_position_roundtrip(w, h, first_index as int, start_move);
            assert(pos_of(first_index as int, w) == start_move);
        }
        let cleared_indexes = board.surrounding_squares_indexes(first_index);
        proof {
            assert(cleared_indexes@.len() == k_spec);
            assert forall|a: int|
                0 <= a < cleared_indexes@.len() implies (#[trigger] cleared_indexes@[a])
                < total by {
                assert(cleared_indexes@.contains(cleared_indexes@[a]));
            }
            lemma_count_members_all(cleared_indexes@, n);
        }
        let mut non_safe: Vec<usize> = Vec::new();
        let mut u: usize = 0;
        while u < total
            invariant
                u <= total,
                n == total as int,
                non_safe@.len() == u - count_members_below(cleared_indexes@, u as int),
                forall|a: int|
                    0 <= a < non_safe@.len() ==> (#[trigger] non_safe@[a]) < u
                        && !cleared_indexes@.contains(non_safe@[a]),
                non_safe@.no_duplicates(),
            decreases total - u,
        {
            if !vec_contains(&cleared_indexes, u) {
                proof {
                    if non_safe@.contains(u) {
                        let a = choose|a: int|
                            0 <= a < non_safe@.len() && non_safe@[a] == u;
                        assert(non_safe@[a] < u);
                    }
                }
                non_safe.push(u);
            }
            u = u + 1;
        }
        proof {
            assert(count_members_below(cleared_indexes@, n) == k_spec);
            assert(non_safe@.len() == n - k_spec);
        }
        let mut bombs: Vec<usize> = Vec::new();
        let mut t: usize = 0;
        while t < picks.len()
            invariant
                t <= picks@.len(),
                bombs@.len() == t,
                picks@.no_duplicates(),
                non_safe@.no_duplicates(),
                n == total as int,
                non_safe@.len() == n - k_spec,
                forall|a: int|
                    0 <= a < picks@.len() ==> (#[trigger] picks@[a]) < n - k_spec,
                forall|a: int|
                    0 <= a < non_safe@.len() ==> (#[trigger] non_safe@[a]) < total
                        && !cleared_indexes@.contains(non_safe@[a]),
                forall|a: int| 0 <= a < t ==> (#[trigger] bombs@[a]) == non_safe@[picks@[a] as int],
                forall|a: int|
                    0 <= a < t ==> (#[trigger] bombs@[a]) < total && !cleared_indexes@.contains(
                        bombs@[a],
                    ),
                bombs@.no_duplicates(),
            decreases picks@.len() - t,
        {
            let p = picks[t];
            let b = non_safe[p];
            proof {
                let ghost prev = bombs@;
                if prev.contains(b) {
                    let a = choose|a: int| 0 <= a < prev.len() && prev[a] == b;
                    assert(prev[a] == non_safe@[picks@[a] as int]);
                    assert(picks@[a] != picks@[t as int]);
                }
            }
            bombs.push(b);
            t = t + 1;
        }
        let mut fill: usize = 0;
        while fill < total
            invariant
                fill <= total,
                n == total as int,
                board.squares@.len() == n,
                board.width == width,
                board.height == height,
                forall|a: int|
                    0 <= a < bombs@.len() ==> (#[trigger] bombs@[a]) < total
                        && !cleared_indexes@.contains(bombs@[a]),
                forall|j: int|
                    0 <= j < fill ==> ((#[trigger] board.squares@[j]) is Uncovered
                        <==> cleared_indexes@.contains(j as usize)),
                forall|j: int|
                    0 <= j < fill ==> ((#[trigger] board.squares@[j]) is Bomb
                        <==> bombs@.contains(j as usize)),
                count_matching(board.squares@, bomb_at(), fill as int) == count_members_below(
                    bombs@,
                    fill as int,
                ),
            decreases total - fill,
        {
            let ghost before = board.squares@;
            let st: SquareState = if vec_contains(&cleared_indexes, fill) {
                proof {
                    if bombs@.contains(fill) {
                        let a = choose|a: int| 0 <= a < bombs@.len() && bombs@[a] == fill;
                        assert(!cleared_indexes@.contains(bombs@[a]));
                    }
                }
                SquareState::Uncovered
            } else if vec_contains(&bombs, fill) {
                SquareState::Bomb
            } else {
                SquareState::Covered
            };
            board.squares[fill] = st;
            proof {
                lemma_count_matching_update(before, bomb_at(), fill as int, st, fill as int);
            }
            fill = fill + 1;
        }
        proof {
            assert(count_bombs(board.squares@) == count_members_below(bombs@, n));
            assert(forall|a: int| 0 <= a < bombs@.len() ==> (#[trigger] bombs@[a]) < n);
            lemma_count_members_all(bombs@, n);
            assert(count_bombs(board.squares@) == bomb_count);
        }
        let mut game = Game { bomb_count, board, move_count: 1 };
        proof {
            assert forall|q: Position|
                pos_in_bounds(q, w, h) && adjacent(start_move, q) implies (
            #[trigger] game.board.squares@[index_of(q, w)]) is Uncovered by {
                lemma_index_position_roundtrip(w, h, 0, q);
                let idx = index_of(q, w);
                assert(pos_of(idx, w) == q);
                assert(cleared_indexes@.contains(idx as usize));
            }
        }
        let ghost pre_flood = game.board.squares@;
        game.clear_safe_squares();
        proof {
            lemma_count_matching_congruence(game.board.squares@, pre_flood, bomb_at(), bomb_at(), n);
            assert forall|q: Position|
                pos_in_bounds(q, w, h) && adjacent(start_move, q) implies (
            #[trigger] game.board.squares@[index_of(q, w)]) is Uncovered by {
                lemma_index_position_roundtrip(w, h, 0, q);
                assert(pre_flood[index_of(q, w)] is Uncovered);
            }
            assert forall|j: int|
                0 <= j < n && (#[trigger] game.board.squares@[j]) is Uncovered implies (adjacent(
                start_move,
                pos_of(j, w),
            ) || borders_zero_cell(game.board.squares@, w, j)) by {
                if pre_flood[j] is Uncovered {
                    assert(cleared_indexes@.contains(j as usize));
                    assert(adjacent(pos_of(first_index as int, w), pos_of(j, w)));
                } else {
                    assert(borders_zero_cell(pre_flood, w, j));
                    let c = choose|c: int|
                        0 <= c < pre_flood.len() && adjacent(pos_of(c, w), pos_of(j, w)) && (
                        #[trigger] bombs_around(pre_flood, w, c)) == 0;
                    lemma_bombs_around_agree(pre_flood, game.board.squares@, w, c);
                    assert(bombs_around(game.board.squares@, w, c) == 0);
                }
            }
        }
        game
    }

    /// Starts a fresh game on a `width` by `height` board, hiding
    /// `bomb_count` bombs drawn uniformly at random among the cells
    /// outside the safe region around `start_move`. The safe region opens
    /// immediately and the opening flood-fill runs before the game is
    /// handed back.
    pub fn start(
        width: usize,
        height: usize,
        bomb_count: usize,
        start_move: Position,
    ) -> (r: Result<Game, GameError>)
        ensures
            r is Ok <==> (pos_in_bounds(start_move, width as int, height as int) && width * height
                <= usize::MAX && bomb_count + safe_region_size(
                start_move,
                width as int,
                height as int,
            ) <= width * height),
            !pos_in_bounds(start_move, width as int, height as int) ==> r == Err::<
                Game,
                GameError,
            >(GameError::OutOfBoundsError { x: start_move.x, y: start_move.y }),
            pos_in_bounds(start_move, width as int, height as int) && !(width * height
                <= usize::MAX && bomb_count + safe_region_size(
                start_move,
                width as int,
                height as int,
            ) <= width * height) ==> r == Err::<Game, GameError>(GameError::InvalidConfigError),
            r matches Ok(game) ==> {
                &&& game.wf()
                &&& game.board.width == width
                &&& game.board.height == height
                &&& game.bomb_count == bomb_count
                &&& game.move_count == 1
                &&& forall|q: Position|
                    pos_in_bounds(q, width as int, height as int) && adjacent(start_move, q) ==> (
                    #[trigger] game.board.squares@[index_of(q, width as int)]) is Uncovered
                &&& forall|j: int|
                    0 <= j < game.board.squares@.len() && (#[trigger] game.board.squares@[j])
                        is Uncovered ==> (adjacent(start_move, pos_of(j, width as int))
                        || borders_zero_cell(game.board.squares@, width as int, j))
            },
    {
        if !(start_move.x < width && start_move.y < height) {
            return Err(GameError::OutOfBoundsError { x: start_move.x, y: start_move.y });
        }
        let total = match width.checked_mul(height) {
            Some(t) => t,
            None => {
                return Err(GameError::InvalidConfigError);
            },
        };
        let cleared = surrounding_squares(start_move, width, height);
        let k = cleared.len();
        proof {
            lemma_safe_region_size_bounds(start_move, width as int, height as int);
        }
        if bomb_count > total - k {
            return Err(GameError::InvalidConfigError);
        }
        let picks = sample_distinct(total - k, bomb_count);
        Ok(Self::start_with_picks(width, height, bomb_count, start_move, &picks))
    }

    /// The number of moves made so far.
    pub fn move_count(&self) -> (r: usize)
        ensures
            r == self.move_count,
    {
        self.move_count
    }

    /// The width and height of the board.
    pub fn dimensions(&self) -> (r: (usize, usize))
        ensures
            r.0 == self.board.width,
            r.1 == self.board.height,
    {
        (self.board.width, self.board.height)
    }

    /// The glyph to draw for the cell at `position`.
    pub fn render_cell(&self, position: Position) -> (c: char)
        requires
            self.board.wf(),
            pos_in_bounds(position, self.board.width as int, self.board.height as int),
        ensures
            c == glyph_for(
                self.board.squares@[index_of(position, self.board.width as int)],
                bombs_around(
                    self.board.squares@,
                    self.board.width as int,
                    index_of(position, self.board.width as int),
                ),
            ),
    {
        let index = self.board.index_from_position(&position);
        self.board.render(index)
    }
}

} // verus!
