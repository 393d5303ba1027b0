use vstd::arithmetic::div_mod::lemma_fundamental_div_mod_converse;
use vstd::prelude::*;

verus! {

/// Column step of each of the eight neighbour directions, in scan order:
/// (-1,-1), (0,-1), (1,-1), (-1,0), (1,0), (-1,1), (0,1), (1,1).
pub open spec fn dir_dx(d: int) -> int {
    if d == 0 || d == 3 || d == 5 {
        -1
    } else if d == 1 || d == 6 {
        0
    } else {
        1
    }
}

/// Row step of each of the eight neighbour directions, in scan order.
pub open spec fn dir_dy(d: int) -> int {
    if d <= 2 {
        -1
    } else if d <= 4 {
        0
    } else {
        1
    }
}

/// Row-major index of cell `(x, y)` on a grid `w` cells wide.
pub open spec fn cell_index(x: int, y: int, w: int) -> int {
    y * w + x
}

/// The index of the neighbour of `(x, y)` in direction `d`, or `None` where it
/// falls outside the `w` by `h` grid.
pub open spec fn neighbor_at(x: int, y: int, d: int, w: int, h: int) -> Option<int> {
    let nx = x + dir_dx(d);
    let ny = y + dir_dy(d);
    if 0 <= nx < w && 0 <= ny < h {
        Some(cell_index(nx, ny, w))
    } else {
        None
    }
}

/// A cell's coordinates survive the trip through its row-major index: the
/// index lies in the grid and gives back `x` as its remainder and `y` as its
/// quotient by the width.
pub proof fn lemma_index_round_trip(x: int, y: int, w: int, h: int)
    requires
        0 <= x < w,
        0 <= y < h,
    ensures
        0 <= cell_index(x, y, w) < w * h,
        cell_index(x, y, w) % w == x,
        cell_index(x, y, w) / w == y,
{
    assert(0 <= y * w + x < w * h) by (nonlinear_arith)
        requires
            0 <= x < w,
            0 <= y < h,
    ;
    lemma_fundamental_div_mod_converse(y * w + x, w, y, x);
}

/// Every index of the grid is the row-major index of the cell given by its
/// quotient and remainder by the width.
pub proof fn lemma_coords_round_trip(i: int, w: int, h: int)
    requires
        0 <= i < w * h,
        w > 0,
    ensures
        0 <= i % w < w,
        0 <= i / w < h,
        cell_index(i % w, i / w, w) == i,
{
    vstd::arithmetic::div_mod::lemma_fundamental_div_mod(i, w);
    vstd::arithmetic::div_mod::lemma_mod_bound(i, w);
    vstd::arithmetic::div_mod::lemma_div_pos_is_pos(i, w);
    let q = i / w;
    let r = i % w;
    assert(q < h) by (nonlinear_arith)
        requires
            i == w * q + r,
            0 <= r < w,
            i < w * h,
            w > 0,
    ;
    vstd::arithmetic::mul::lemma_mul_is_commutative(w, q);
}

/// The neighbour of `(x, y)` in direction `d`, where it lies in the grid.
pub fn neighbor(x: usize, y: usize, d: usize, w: usize, h: usize) -> (r: Option<usize>)
    requires
        d < 8,
        x < w,
        y < h,
        w * h <= usize::MAX,
    ensures
        r.is_some() == neighbor_at(x as int, y as int, d as int, w as int, h as int).is_some(),
        r.is_some() ==> r.unwrap() as int == neighbor_at(
            x as int,
            y as int,
            d as int,
            w as int,
            h as int,
        ).unwrap(),
        r.is_some() ==> r.unwrap() < w * h,
{
    let left = d == 0 || d == 3 || d == 5;
    let right = d == 2 || d == 4 || d == 7;
    let up = d <= 2;
    let down = d >= 5;
    if (left && x == 0) || (right && x + 1 >= w) || (up && y == 0) || (down && y + 1 >= h) {
        return None;
    }
    let nx: usize = if left {
        x - 1
    } else if right {
        x + 1
    } else {
        x
    };
    let ny: usize = if up {
        y - 1
    } else if down {
        y + 1
    } else {
        y
    };
    proof {
        lemma_index_round_trip(nx as int, ny as int, w as int, h as int);
    }
    Some(ny * w + nx)
}

/// Cell `i` of a `w`-wide, `h`-high grid lies at least `m` cells away from
/// every edge.
pub open spec fn within_margin(i: int, w: int, h: int, m: int) -> bool {
    m <= i % w < w - m && m <= i / w < h - m
}

/// The row-major indices, in ascending order, of the cells that lie at least
/// `margin` cells away from every edge of a `width` by `height` grid.
pub fn cells_within_margin(width: usize, height: usize, margin: usize) -> (r: Vec<usize>)
    requires
        width * height <= usize::MAX,
    ensures
        forall|k: int|
            0 <= k < r@.len() ==> #[trigger] r@[k] < width * height && within_margin(
                r@[k] as int,
                width as int,
                height as int,
                margin as int,
            ),
        forall|a: int, b: int| 0 <= a < b < r@.len() ==> r@[a] < r@[b],
        forall|i: int|
            0 <= i < width * height && within_margin(i, width as int, height as int, margin as int)
                ==> r@.contains(i as usize),
{
    let mut r: Vec<usize> = Vec::new();
    let ghost w = width as int;
    let ghost h = height as int;
    let ghost m = margin as int;
    if width <= margin || height <= margin || width - margin <= margin || height - margin <= margin {
        proof {
            assert forall|i: int| 0 <= i < width * height && within_margin(i, w, h, m) implies r@.contains(
                i as usize,
            ) by {
                lemma_coords_round_trip(i, w, h);
            }
        }
        return r;
    }
    let mut y: usize = margin;
    while y < height - margin
        invariant
            w == width,
            h == height,
            m == margin,
            width * height <= usize::MAX,
            margin < width - margin,
            margin <= y <= height - margin,
            forall|k: int|
                0 <= k < r@.len() ==> #[trigger] r@[k] < cell_index(m, y as int, w) && r@[k] < w * h
                    && within_margin(r@[k] as int, w, h, m),
            forall|a: int, b: int| 0 <= a < b < r@.len() ==> r@[a] < r@[b],
            forall|xx: int, yy: int|
                m <= xx < w - m && m <= yy < y ==> r@.contains(#[trigger] cell_index(xx, yy, w) as usize),
        decreases height - margin - y,
    {
        let mut x: usize = margin;
        while x < width - margin
            invariant
                w == width,
                h == height,
                m == margin,
                width * height <= usize::MAX,
                margin <= x <= width - margin,
                margin <= y < height - margin,
                forall|k: int|
                    0 <= k < r@.len() ==> #[trigger] r@[k] < cell_index(x as int, y as int, w) && r@[k]
                        < w * h && within_margin(r@[k] as int, w, h, m),
                forall|a: int, b: int| 0 <= a < b < r@.len() ==> r@[a] < r@[b],
                forall|xx: int, yy: int|
                    (m <= xx < w - m && m <= yy < y) || (yy == y && m <= xx < x) ==> r@.contains(
                        #[trigger] cell_index(xx, yy, w) as usize,
                    ),
            decreases width - margin - x,
        {
            proof {
                lemma_index_round_trip(x as int, y as int, w, h);
            }
            let ghost before = r@;
            r.push(y * width + x);
            proof {
                assert forall|xx: int, yy: int|
                    (m <= xx < w - m && m <= yy < y) || (yy == y && m <= xx < x + 1) implies r@.contains(
                    #[trigger] cell_index(xx, yy, w) as usize,
                ) by {
                    if yy == y && xx == x {
                        assert(r@[before.len() as int] == cell_index(xx, yy, w) as usize);
                    } else {
                        assert(before.contains(cell_index(xx, yy, w) as usize));
                        let k = choose|k: int| 0 <= k < before.len() && before[k] == cell_index(xx, yy, w) as usize;
                        assert(r@[k] == before[k]);
                    }
                }
            }
            x = x + 1;
        }
        proof {
            assert(cell_index(x as int, y as int, w) <= cell_index(m, (y + 1) as int, w)) by (nonlinear_arith)
                requires
                    x == w - m,
                    0 <= m,
            ;
        }
        y = y + 1;
    }
    proof {
        assert forall|i: int| 0 <= i < width * height && within_margin(i, w, h, m) implies r@.contains(
            i as usize,
        ) by {
            lemma_coords_round_trip(i, w, h);
            assert(r@.contains(cell_index(i % w, i / w, w) as usize));
        }
    }
    r
}

} // verus!
