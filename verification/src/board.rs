use crate::geometry::{
    adjacent, index_of, lemma_index_position_roundtrip, neighbor_rank, pos_in_bounds, pos_of,
    safe_region_size, surrounding_squares, Position,
};
use vstd::prelude::*;

verus! {

broadcast use vstd::seq_lib::lemma_seq_contains_after_push;

/// What one cell of the board holds: hidden and empty, shown, or mined.
#[derive(Debug, Clone, Copy, PartialEq, Eq, Structural)]
pub enum SquareState {
    Covered,
    Uncovered,
    Bomb,
}

/// How many of the first `upto` cells of `s` satisfy `f`, which judges a
/// cell together with its index.
pub open spec fn count_matching(
    s: Seq<SquareState>,
    f: spec_fn(int, SquareState) -> bool,
    upto: int,
) -> int
    decreases upto,
{
    if upto <= 0 {
        0
    } else {
        count_matching(s, f, upto - 1) + if f(upto - 1, s[upto - 1]) {
            1int
        } else {
            0
        }
    }
}

/// Judges a cell to be a bomb.
pub open spec fn bomb_at() -> spec_fn(int, SquareState) -> bool {
    |j: int, st: SquareState| st is Bomb
}

/// Judges a cell to be uncovered.
pub open spec fn uncovered_at() -> spec_fn(int, SquareState) -> bool {
    |j: int, st: SquareState| st is Uncovered
}

/// Judges a cell to be a bomb lying in the Moore neighborhood of index
/// `i` on a board of width `w`.
pub open spec fn bomb_near(w: int, i: int) -> spec_fn(int, SquareState) -> bool {
    |j: int, st: SquareState| adjacent(pos_of(i, w), pos_of(j, w)) && st is Bomb
}

/// The number of bombs on the whole board.
pub open spec fn count_bombs(s: Seq<SquareState>) -> int {
    count_matching(s, bomb_at(), s.len() as int)
}

/// The number of uncovered cells on the whole board.
pub open spec fn count_uncovered(s: Seq<SquareState>) -> int {
    count_matching(s, uncovered_at(), s.len() as int)
}

/// The number of bombs in the Moore neighborhood of index `i` (a mined
/// cell counts itself).
pub open spec fn bombs_around(s: Seq<SquareState>, w: int, i: int) -> int {
    count_matching(s, bomb_near(w, i), s.len() as int)
}

/// A cell count lies between 0 and the number of cells examined.
pub(crate) proof fn lemma_count_matching_bounds(
    s: Seq<SquareState>,
    f: spec_fn(int, SquareState) -> bool,
    upto: int,
)
    requires
        0 <= upto <= s.len(),
    ensures
        0 <= count_matching(s, f, upto) <= upto,
    decreases upto,
{
    if upto > 0 {
        lemma_count_matching_bounds(s, f, upto - 1);
    }
}

/// A count of zero means no examined cell satisfies the test.
pub(crate) proof fn lemma_count_matching_zero(
    s: Seq<SquareState>,
    f: spec_fn(int, SquareState) -> bool,
    upto: int,
)
    requires
        0 <= upto <= s.len(),
        count_matching(s, f, upto) == 0,
    ensures
        forall|j: int| 0 <= j < upto ==> !f(j, s[j]),
    decreases upto,
{
    if upto > 0 {
        lemma_count_matching_bounds(s, f, upto - 1);
        lemma_count_matching_zero(s, f, upto - 1);
    }
}

/// Overwriting one cell moves a count by at most the weight of that cell.
pub(crate) proof fn lemma_count_matching_update(
    s: Seq<SquareState>,
    f: spec_fn(int, SquareState) -> bool,
    j: int,
    v: SquareState,
    upto: int,
)
    requires
        0 <= j < s.len(),
        upto <= s.len(),
    ensures
        count_matching(s.update(j, v), f, upto) == count_matching(s, f, upto) + (if 0 <= j < upto {
            (if f(j, v) {
                1int
            } else {
                0
            }) - (if f(j, s[j]) {
                1int
            } else {
                0
            })
        } else {
            0
        }),
    decreases upto,
{
    if upto > 0 {
        lemma_count_matching_update(s, f, j, v, upto - 1);
    }
}

/// Two boards whose cells are judged alike cell by cell have equal counts.
pub(crate) proof fn lemma_count_matching_congruence(
    s1: Seq<SquareState>,
    s2: Seq<SquareState>,
    f: spec_fn(int, SquareState) -> bool,
    g: spec_fn(int, SquareState) -> bool,
    upto: int,
)
    requires
        forall|j: int| 0 <= j < upto ==> f(j, s1[j]) == g(j, s2[j]),
    ensures
        count_matching(s1, f, upto) == count_matching(s2, g, upto),
    decreases upto,
{
    if upto > 0 {
        lemma_count_matching_congruence(s1, s2, f, g, upto - 1);
    }
}

/// The scan ranks around cell `i` at which a mined cell stands among the
/// first `upto` cells.
spec fn bomb_ranks(s: Seq<SquareState>, w: int, i: int, upto: int) -> Set<int> {
    Set::new(
        |r: int|
            exists|j: int|
                0 <= j < upto && adjacent(pos_of(i, w), #[trigger] pos_of(j, w)) && s[j] is Bomb
                    && neighbor_rank(pos_of(i, w), pos_of(j, w)) == r,
    )
}

/// Cells counted near `i` occupy distinct scan ranks, all nine or fewer.
proof fn lemma_bomb_ranks_count(s: Seq<SquareState>, w: int, h: int, i: int, upto: int)
    requires
        s.len() == w * h,
        1 <= w <= usize::MAX,
        1 <= h <= usize::MAX,
        0 <= i < s.len(),
        0 <= upto <= s.len(),
    ensures
        bomb_ranks(s, w, i, upto).finite(),
        bomb_ranks(s, w, i, upto).subset_of(vstd::set_lib::set_int_range(0, 9)),
        count_matching(s, bomb_near(w, i), upto) <= bomb_ranks(s, w, i, upto).len(),
    decreases upto,
{
    let p = pos_of(i, w);
    assert forall|r: int| bomb_ranks(s, w, i, upto).contains(r) implies 0 <= r < 9 by {
        let j = choose|j: int|
            0 <= j < upto && adjacent(p, #[trigger] pos_of(j, w)) && s[j] is Bomb
                && neighbor_rank(p, pos_of(j, w)) == r;
        assert(0 <= pos_of(j, w).x - p.x + 1 <= 2);
        assert(0 <= pos_of(j, w).y - p.y + 1 <= 2);
    }
    if upto == 0 {
        assert(bomb_ranks(s, w, i, 0) =~= Set::<int>::empty());
    } else {
        lemma_bomb_ranks_count(s, w, h, i, upto - 1);
        let prev = bomb_ranks(s, w, i, upto - 1);
        let cur = bomb_ranks(s, w, i, upto);
        let q = pos_of(upto - 1, w);
        if adjacent(p, q) && s[upto - 1] is Bomb {
            let r = neighbor_rank(p, q);
            assert(cur.contains(r));
            assert(!prev.contains(r)) by {
                if prev.contains(r) {
                    let j = choose|j: int|
                        0 <= j < upto - 1 && adjacent(p, #[trigger] pos_of(j, w)) && s[j] is Bomb
                            && neighbor_rank(p, pos_of(j, w)) == r;
                    vstd::arithmetic::div_mod::lemma_fundamental_div_mod_converse(
                        r,
                        3,
                        pos_of(j, w).x - p.x + 1,
                        pos_of(j, w).y - p.y + 1,
                    );
                    vstd::arithmetic::div_mod::lemma_fundamental_div_mod_converse(
                        r,
                        3,
                        q.x - p.x + 1,
                        q.y - p.y + 1,
                    );
                    assert(pos_of(j, w) == q);
                    lemma_index_position_roundtrip(w, h, j, pos_of(j, w));
                    lemma_index_position_roundtrip(w, h, upto - 1, q);
                    assert(index_of(pos_of(j, w), w) == j);
                    assert(index_of(q, w) == upto - 1);
                }
            }
            assert(cur =~= prev.insert(r)) by {
                assert forall|r2: int| cur.contains(r2) implies prev.insert(r).contains(r2) by {
                    let j = choose|j: int|
                        0 <= j < upto && adjacent(p, #[trigger] pos_of(j, w)) && s[j] is Bomb
                            && neighbor_rank(p, pos_of(j, w)) == r2;
                    if j < upto - 1 {
                        assert(prev.contains(r2));
                    }
                }
                assert forall|r2: int| prev.insert(r).contains(r2) implies cur.contains(r2) by {
                    if r2 != r {
                        let j = choose|j: int|
                            0 <= j < upto - 1 && adjacent(p, #[trigger] pos_of(j, w)) && s[j]
                                is Bomb && neighbor_rank(p, pos_of(j, w)) == r2;
                        assert(cur.contains(r2));
                    }
                }
            }
        } else {
            assert(cur =~= prev) by {
                assert forall|r2: int| cur.contains(r2) implies prev.contains(r2) by {
                    let j = choose|j: int|
                        0 <= j < upto && adjacent(p, #[trigger] pos_of(j, w)) && s[j] is Bomb
                            && neighbor_rank(p, pos_of(j, w)) == r2;
                    assert(j < upto - 1);
                }
            }
        }
    }
}

/// A cell's Moore neighborhood holds at most nine cells, itself among
/// them, so its bomb count is at most nine; a cell that is not itself
/// mined sees at most eight.
pub proof fn lemma_bombs_around_bounds(s: Seq<SquareState>, w: int, h: int, i: int)
    requires
        s.len() == w * h,
        1 <= w <= usize::MAX,
        1 <= h <= usize::MAX,
        0 <= i < s.len(),
    ensures
        0 <= bombs_around(s, w, i) <= 9,
        !(s[i] is Bomb) ==> bombs_around(s, w, i) <= 8,
{
    let n = s.len() as int;
    let p = pos_of(i, w);
    lemma_count_matching_bounds(s, bomb_near(w, i), n);
    lemma_bomb_ranks_count(s, w, h, i, n);
    let ranks = bomb_ranks(s, w, i, n);
    vstd::set_lib::lemma_int_range(0, 9);
    vstd::set_lib::lemma_len_subset(ranks, vstd::set_lib::set_int_range(0, 9));
    if !(s[i] is Bomb) {
        assert(!ranks.contains(4)) by {
            if ranks.contains(4) {
                let j = choose|j: int|
                    0 <= j < n && adjacent(p, #[trigger] pos_of(j, w)) && s[j] is Bomb
                        && neighbor_rank(p, pos_of(j, w)) == 4;
                vstd::arithmetic::div_mod::lemma_fundamental_div_mod_converse(
                    4,
                    3,
                    pos_of(j, w).x - p.x + 1,
                    pos_of(j, w).y - p.y + 1,
                );
                assert(pos_of(j, w) == p);
                lemma_index_position_roundtrip(w, h, j, pos_of(j, w));
                lemma_index_position_roundtrip(w, h, i, p);
                assert(j == i);
            }
        }
        let small = vstd::set_lib::set_int_range(0, 9).remove(4);
        assert(ranks.subset_of(small));
        vstd::set_lib::lemma_len_subset(ranks, small);
        assert(small.len() == 8);
    }
}

/// The glyph shown for a cell: a space or a digit on an uncovered cell,
/// depending on how many bombs are near it, and a hiding mark otherwise.
pub open spec fn glyph_for(st: SquareState, bombs: int) -> char {
    if !(st is Uncovered) {
        'x'
    } else if bombs == 0 {
        ' '
    } else if bombs == 1 {
        '1'
    } else if bombs == 2 {
        '2'
    } else if bombs == 3 {
        '3'
    } else if bombs == 4 {
        '4'
    } else if bombs == 5 {
        '5'
    } else if bombs == 6 {
        '6'
    } else if bombs == 7 {
        '7'
    } else if bombs == 8 {
        '8'
    } else {
        '?'
    }
}

/// Whether two positions are Moore neighbors; a position neighbors
/// itself.
pub fn positions_adjacent(p: &Position, q: &Position) -> (r: bool)
    ensures
        r == adjacent(*p, *q),
{
    let dx_ok: bool = if p.x >= q.x {
        p.x - q.x <= 1
    } else {
        q.x - p.x <= 1
    };
    let dy_ok: bool = if p.y >= q.y {
        p.y - q.y <= 1
    } else {
        q.y - p.y <= 1
    };
    dx_ok && dy_ok
}

/// The playing field: one cell per position of a `width` by `height`
/// grid, stored row by row.
#[derive(Debug)]
pub struct Board {
    pub squares: Vec<SquareState>,
    pub height: usize,
    pub width: usize,
}

impl Board {
    /// The board is well formed: positive sides and one cell per position.
    pub open spec fn wf(self) -> bool {
        &&& self.width >= 1
        &&& self.height >= 1
        &&& self.squares.len() == self.width * self.height
    }

    /// Whether `position` lies on this board.
    pub fn contains(&self, position: &Position) -> (r: bool)
        ensures
            r == pos_in_bounds(*position, self.width as int, self.height as int),
    {
        position.x < self.width && position.y < self.height
    }

    /// The linear index that addresses `position` in the cell array.
    pub fn index_from_position(&self, position: &Position) -> (r: usize)
        requires
            self.wf(),
            pos_in_bounds(*position, self.width as int, self.height as int),
        ensures
            r == index_of(*position, self.width as int),
            r < self.squares@.len(),
    {
        proof {
            lemma_index_position_roundtrip(
                self.width as int,
                self.height as int,
                0,
                *position,
            );
        }
        position.y * self.width + position.x
    }

    /// The position addressed by linear index `index`.
    pub fn position_from_index(&self, index: usize) -> (r: Position)
        requires
            self.wf(),
            index < self.squares@.len(),
        ensures
            r == pos_of(index as int, self.width as int),
            pos_in_bounds(r, self.width as int, self.height as int),
            index_of(r, self.width as int) == index,
    {
        proof {
            lemma_index_position_roundtrip(
                self.width as int,
                self.height as int,
                index as int,
                pos_of(index as int, self.width as int),
            );
            lemma_index_position_roundtrip(
                self.width as int,
                self.height as int,
                0,
                pos_of(index as int, self.width as int),
            );
        }
        Position { x: index % self.width, y: index / self.width }
    }

    /// The in-bounds Moore neighbors of `position`, as positions.
    pub fn surrounding_squares_positions(&self, position: Position) -> (out: Vec<Position>)
        requires
            self.wf(),
            pos_in_bounds(position, self.width as int, self.height as int),
        ensures
            out@.no_duplicates(),
            forall|q: Position|
                #[trigger] out@.contains(q) <==> (pos_in_bounds(
                    q,
                    self.width as int,
                    self.height as int,
                ) && adjacent(position, q)),
            out@.len() == safe_region_size(position, self.width as int, self.height as int),
    {
        surrounding_squares(position, self.width, self.height)
    }

    /// The in-bounds Moore neighbors of the cell at linear index `index`,
    /// as linear indices.
    pub fn surrounding_squares_indexes(&self, index: usize) -> (out: Vec<usize>)
        requires
            self.wf(),
            index < self.squares@.len(),
        ensures
            out@.no_duplicates(),
            forall|j: usize|
                #[trigger] out@.contains(j) <==> (j < self.squares@.len() && adjacent(
                    pos_of(index as int, self.width as int),
                    pos_of(j as int, self.width as int),
                )),
            out@.len() == safe_region_size(
                pos_of(index as int, self.width as int),
                self.width as int,
                self.height as int,
            ),
    {
        let ghost w = self.width as int;
        let ghost h = self.height as int;
        let position = self.position_from_index(index);
        let positions = self.surrounding_squares_positions(position);
        let mut out: Vec<usize> = Vec::new();
        let mut t: usize = 0;
        while t < positions.len()
            invariant
                self.wf(),
                w == self.width as int,
                h == self.height as int,
                t <= positions.len(),
                out@.len() == t,
                positions@.no_duplicates(),
                forall|q: Position|
                    #[trigger] positions@.contains(q) <==> (pos_in_bounds(q, w, h) && adjacent(
                        position,
                        q,
                    )),
                forall|a: int| 0 <= a < t ==> out@[a] == index_of(positions@[a], w),
            decreases positions.len() - t,
        {
            proof {
                assert(positions@.contains(positions@[t as int]));
            }
            let next = self.index_from_position(&positions[t]);
            out.push(next);
            t = t + 1;
        }
        proof {
            assert forall|a: int, b: int|
                0 <= a < out@.len() && 0 <= b < out@.len() && a != b implies out@[a] != out@[b] by {
                assert(positions@.contains(positions@[a]));
                assert(positions@.contains(positions@[b]));
                lemma_index_position_roundtrip(w, h, 0, positions@[a]);
                lemma_index_position_roundtrip(w, h, 0, positions@[b]);
                if positions@[a] != positions@[b] && out@[a] == out@[b] {
                    assert(pos_of(index_of(positions@[a], w), w) == positions@[a]);
                    assert(pos_of(index_of(positions@[b], w), w) == positions@[b]);
                }
            }
            assert forall|j: usize| #[trigger] out@.contains(j) implies (j
                < self.squares@.len() && adjacent(
                pos_of(index as int, w),
                pos_of(j as int, w),
            )) by {
                let a = choose|a: int| 0 <= a < out@.len() && out@[a] == j;
                assert(positions@.contains(positions@[a]));
                lemma_index_position_roundtrip(w, h, 0, positions@[a]);
                assert(pos_of(j as int, w) == positions@[a]);
            }
            assert forall|j: usize|
                j < self.squares@.len() && adjacent(
                    pos_of(index as int, w),
                    pos_of(j as int, w),
                ) implies #[trigger] out@.contains(j) by {
                lemma_index_position_roundtrip(w, h, j as int, pos_of(j as int, w));
                let q = pos_of(j as int, w);
                assert(positions@.contains(q));
                let a = choose|a: int| 0 <= a < positions@.len() && positions@[a] == q;
                assert(out@[a] == index_of(q, w));
                assert(out@[a] == j as int);
                assert(out@.contains(out@[a]));
            }
        }
        out
    }

    /// How many bombs lie in the Moore neighborhood of the cell at
    /// linear index `index`.
    pub fn surrounding_bombs_from_index(&self, index: usize) -> (count: usize)
        requires
            self.wf(),
            index < self.squares@.len(),
        ensures
            count == bombs_around(self.squares@, self.width as int, index as int),
    {
        let ghost w = self.width as int;
        let me = self.position_from_index(index);
        let n = self.squares.len();
        let mut count: usize = 0;
        let mut j: usize = 0;
        while j < n
            invariant
                self.wf(),
                w == self.width as int,
                index < self.squares@.len(),
                n == self.squares@.len(),
                me == pos_of(index as int, w),
                j <= n,
                count <= j,
                count == count_matching(self.squares@, bomb_near(w, index as int), j as int),
            decreases n - j,
        {
            let q = self.position_from_index(j);
            if positions_adjacent(&me, &q) && self.squares[j] == SquareState::Bomb {
                count = count + 1;
            }
            j = j + 1;
        }
        count
    }

    /// The glyph to draw for the cell at linear index `index`.
    pub fn render(&self, index: usize) -> (c: char)
        requires
            self.wf(),
            index < self.squares@.len(),
        ensures
            c == glyph_for(
                self.squares@[index as int],
                bombs_around(self.squares@, self.width as int, index as int),
            ),
    {
        if self.squares[index] != SquareState::Uncovered {
            return 'x';
        }
        let bombs = self.surrounding_bombs_from_index(index);
        if bombs == 0 {
            ' '
        } else if bombs == 1 {
            '1'
        } else if bombs == 2 {
            '2'
        } else if bombs == 3 {
            '3'
        } else if bombs == 4 {
            '4'
        } else if bombs == 5 {
            '5'
        } else if bombs == 6 {
            '6'
        } else if bombs == 7 {
            '7'
        } else if bombs == 8 {
            '8'
        } else {
            // an uncovered cell is not mined, so it sees at most 8 bombs
            proof {
                lemma_bombs_around_bounds(
                    self.squares@,
                    self.width as int,
                    self.height as int,
                    index as int,
                );
                assert(false);
            }
            '?'
        }
    }
}

} // verus!
