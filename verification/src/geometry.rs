use vstd::prelude::*;

verus! {

/// A coordinate pair on the board: `x` counts columns, `y` counts rows.
#[derive(Debug, Clone, Copy, PartialEq, Eq, Structural)]
pub struct Position {
    pub x: usize,
    pub y: usize,
}

/// Whether `p` lies on a `width` by `height` board.
pub open spec fn pos_in_bounds(p: Position, width: int, height: int) -> bool {
    p.x < width && p.y < height
}

/// Whether `q` is in the Moore neighborhood of `p`; `p` counts as its
/// own neighbor.
pub open spec fn adjacent(p: Position, q: Position) -> bool {
    -1 <= q.x - p.x <= 1 && -1 <= q.y - p.y <= 1
}

/// The linear index of `p` on a board of the given width.
pub open spec fn index_of(p: Position, width: int) -> int {
    p.y * width + p.x
}

/// The position encoded by linear index `i` on a board of the given width.
pub open spec fn pos_of(i: int, width: int) -> Position {
    Position { x: (i % width) as usize, y: (i / width) as usize }
}

/// The rank of neighbor `q` in the scan order used by
/// `surrounding_squares`: columns left to right, rows top to bottom.
pub open spec fn neighbor_rank(p: Position, q: Position) -> int {
    (q.x - p.x + 1) * 3 + (q.y - p.y + 1)
}

/// Whether scan step `k` of the neighborhood of `p` names an in-bounds
/// position.
pub open spec fn candidate_ok(p: Position, width: int, height: int, k: int) -> bool {
    ({
        let dx = k / 3;
        dx == 1 || (dx == 0 && p.x > 0) || (dx == 2 && p.x + 1 < width)
    }) && ({
        let dy = k % 3;
        dy == 1 || (dy == 0 && p.y > 0) || (dy == 2 && p.y + 1 < height)
    })
}

/// How many of the first `k` scan steps around `p` name in-bounds
/// positions.
pub open spec fn count_candidates(p: Position, width: int, height: int, k: int) -> int
    decreases k,
{
    if k <= 0 {
        0
    } else {
        count_candidates(p, width, height, k - 1)
            + if candidate_ok(p, width, height, k - 1) {
                1int
            } else {
                0
            }
    }
}

/// How many of `{c - 1, c, c + 1}` lie in `[0, limit)`, for `0 <= c < limit`.
pub open spec fn span(c: int, limit: int) -> int {
    1 + (if c > 0 {
        1int
    } else {
        0
    }) + (if c + 1 < limit {
        1int
    } else {
        0
    })
}

/// The number of in-bounds Moore neighbors of `p`, `p` itself included:
/// 4 on a corner, 6 on an edge, 9 in the interior (fewer on boards with
/// a side of length 1 or 2).
pub open spec fn safe_region_size(p: Position, width: int, height: int) -> int {
    span(p.x as int, width) * span(p.y as int, height)
}

/// The full neighborhood scan finds exactly `safe_region_size` in-bounds
/// positions.
proof fn lemma_count_candidates_full(p: Position, width: int, height: int)
    requires
        pos_in_bounds(p, width, height),
    ensures
        count_candidates(p, width, height, 9) == safe_region_size(p, width, height),
{
    reveal_with_fuel(count_candidates, 10);
    let sx = span(p.x as int, width);
    let sy = span(p.y as int, height);
    assert(1 <= sx <= 3 && 1 <= sy <= 3);
    assert(sx * sy == if sx == 1 {
        sy
    } else if sx == 2 {
        sy + sy
    } else {
        sy + sy + sy
    }) by (nonlinear_arith)
        requires
            1 <= sx <= 3,
    ;
}

/// A safe region is never empty and never covers more than the board.
pub proof fn lemma_safe_region_size_bounds(p: Position, width: int, height: int)
    requires
        pos_in_bounds(p, width, height),
    ensures
        1 <= safe_region_size(p, width, height) <= width * height,
        safe_region_size(p, width, height) <= 9,
{
    let sx = span(p.x as int, width);
    let sy = span(p.y as int, height);
    assert(1 <= sx <= 3 && sx <= width);
    assert(1 <= sy <= 3 && sy <= height);
    assert(sx * sy >= 1 && sx * sy <= width * height && sx * sy <= 9) by (nonlinear_arith)
        requires
            1 <= sx <= 3,
            1 <= sy <= 3,
            sx <= width,
            sy <= height,
    ;
}

/// All in-bounds positions in the Moore neighborhood of `position`,
/// `position` itself included, each listed exactly once.
pub fn surrounding_squares(position: Position, width: usize, height: usize) -> (out: Vec<
    Position,
>)
    requires
        pos_in_bounds(position, width as int, height as int),
    ensures
        out@.no_duplicates(),
        forall|q: Position|
            #[trigger] out@.contains(q) <==> (pos_in_bounds(q, width as int, height as int)
                && adjacent(position, q)),
        out@.len() == safe_region_size(position, width as int, height as int),
{
    let mut out: Vec<Position> = Vec::new();
    let mut k: usize = 0;
    while k < 9
        invariant
            k <= 9,
            pos_in_bounds(position, width as int, height as int),
            out@.no_duplicates(),
            forall|q: Position|
                #[trigger] out@.contains(q) <==> (pos_in_bounds(q, width as int, height as int)
                    && adjacent(position, q) && neighbor_rank(position, q) < k),
            out@.len() == count_candidates(position, width as int, height as int, k as int),
        decreases 9 - k,
    {
        let dx: usize = k / 3;
        let dy: usize = k % 3;
        let ok_x: bool = dx == 1 || (dx == 0 && position.x > 0) || (dx == 2 && position.x + 1
            < width);
        let ok_y: bool = dy == 1 || (dy == 0 && position.y > 0) || (dy == 2 && position.y + 1
            < height);
        let ghost prev = out@;
        if ok_x && ok_y {
            let nx: usize = if dx == 0 {
                position.x - 1
            } else if dx == 1 {
                position.x
            } else {
                position.x + 1
            };
            let ny: usize = if dy == 0 {
                position.y - 1
            } else if dy == 1 {
                position.y
            } else {
                position.y + 1
            };
            let q = Position { x: nx, y: ny };
            proof {
                vstd::arithmetic::div_mod::lemma_fundamental_div_mod(k as int, 3);
                assert(neighbor_rank(position, q) == k);
                assert(!prev.contains(q));
                assert forall|r: Position|
                    pos_in_bounds(r, width as int, height as int) && adjacent(position, r)
                        && neighbor_rank(position, r) == k implies r == q by {
                    vstd::arithmetic::div_mod::lemma_fundamental_div_mod_converse(
                        k as int,
                        3,
                        r.x - position.x + 1,
                        r.y - position.y + 1,
                    );
                }
            }
            out.push(q);
            proof {
                let cur = out@;
                assert(cur[cur.len() - 1] == q);
                assert forall|r: Position| #[trigger] cur.contains(r) implies (prev.contains(r)
                    || r == q) by {
                    let w = choose|w: int| 0 <= w < cur.len() && cur[w] == r;
                    if w < prev.len() {
                        assert(prev[w] == r);
                    }
                }
                assert forall|r: Position| prev.contains(r) implies #[trigger] cur.contains(
                    r,
                ) by {
                    let w = choose|w: int| 0 <= w < prev.len() && prev[w] == r;
                    assert(cur[w] == r);
                }
                assert(cur.contains(q));
            }
        } else {
            proof {
                assert forall|r: Position|
                    pos_in_bounds(r, width as int, height as int) && adjacent(position, r)
                        && neighbor_rank(position, r) == k implies false by {
                    vstd::arithmetic::div_mod::lemma_fundamental_div_mod_converse(
                        k as int,
                        3,
                        r.x - position.x + 1,
                        r.y - position.y + 1,
                    );
                }
            }
        }
        k = k + 1;
    }
    proof {
        lemma_count_candidates_full(position, width as int, height as int);
        assert forall|q: Position|
            pos_in_bounds(q, width as int, height as int) && adjacent(position, q) implies out@
            .contains(q) by {
            assert(0 <= neighbor_rank(position, q) < 9);
        }
    }
    out
}

/// Both directions of the index/position round trip: decoding an index
/// and re-encoding it is the identity, and so is the reverse, for every
/// in-bounds index and position.
pub proof fn lemma_index_position_roundtrip(width: int, height: int, i: int, p: Position)
    requires
        1 <= width <= usize::MAX,
        1 <= height <= usize::MAX,
    ensures
        0 <= i < width * height ==> {
            &&& pos_in_bounds(pos_of(i, width), width, height)
            &&& index_of(pos_of(i, width), width) == i
        },
        pos_in_bounds(p, width, height) ==> {
            &&& 0 <= index_of(p, width) < width * height
            &&& pos_of(index_of(p, width), width) == p
        },
{
    if 0 <= i < width * height {
        vstd::arithmetic::div_mod::lemma_fundamental_div_mod(i, width);
        vstd::arithmetic::div_mod::lemma_mod_bound(i, width);
        let q = i / width;
        let r = i % width;
        assert(0 <= q < height) by (nonlinear_arith)
            requires
                width >= 1,
                height >= 1,
                0 <= i < width * height,
                i == width * q + r,
                0 <= r < width,
        ;
        assert(pos_of(i, width).x == r);
        assert(pos_of(i, width).y == q);
        assert(q * width + r == i) by (nonlinear_arith)
            requires
                i == width * q + r,
        ;
        assert(index_of(pos_of(i, width), width) == i);
    }
    if pos_in_bounds(p, width, height) {
        assert(p.y * width + p.x < width * height) by (nonlinear_arith)
            requires
                width >= 1,
                height >= 1,
                0 <= p.x < width,
                0 <= p.y < height,
        ;
        let i2 = index_of(p, width);
        vstd::arithmetic::div_mod::lemma_fundamental_div_mod_converse(
            i2,
            width,
            p.y as int,
            p.x as int,
        );
    }
}

} // verus!
