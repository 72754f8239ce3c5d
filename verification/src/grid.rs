//! Geometry of a rectangular board: row-major cell indices, the
//! eight-neighbourhood relation, and counting over neighbourhoods.

use vstd::prelude::*;

verus! {

/// Row-major index of the cell at column `x`, row `y` on a board `w` cells wide.
pub open spec fn cell_index(w: int, x: int, y: int) -> int {
    y * w + x
}

/// Column of cell `i` on a board `w` cells wide.
pub open spec fn x_of(i: int, w: int) -> int {
    i % w
}

/// Row of cell `i` on a board `w` cells wide.
pub open spec fn y_of(i: int, w: int) -> int {
    i / w
}

/// `i` is an index inside a `w` by `h` board.
pub open spec fn valid_cell(w: int, h: int, i: int) -> bool {
    0 <= i < w * h
}

/// `j` lies in the eight-neighbourhood of `i` (and both are on the board).
pub open spec fn is_nbr(w: int, h: int, i: int, j: int) -> bool {
    &&& valid_cell(w, h, i)
    &&& valid_cell(w, h, j)
    &&& i != j
    &&& -1 <= x_of(j, w) - x_of(i, w) <= 1
    &&& -1 <= y_of(j, w) - y_of(i, w) <= 1
}

/// Position of cell `i` in a column-major scan of the board
/// (all of column 0 first, then column 1, and so on).
pub open spec fn col_pos(i: int, w: int, h: int) -> int {
    x_of(i, w) * h + y_of(i, w)
}

/// Basic facts about the coordinates of a valid cell index.
pub proof fn lemma_coords(w: int, h: int, i: int)
    requires
        1 <= w,
        1 <= h,
        valid_cell(w, h, i),
    ensures
        0 <= x_of(i, w) < w,
        0 <= y_of(i, w) < h,
        i == cell_index(w, x_of(i, w), y_of(i, w)),
{
    vstd::arithmetic::div_mod::lemma_fundamental_div_mod(i, w);
    vstd::arithmetic::div_mod::lemma_mod_bound(i, w);
    vstd::arithmetic::mul::lemma_mul_is_commutative(w, i / w);
    assert(i == w * (i / w) + i % w);
    assert(0 <= i / w) by {
        if i / w < 0 {
            vstd::arithmetic::mul::lemma_mul_inequality(i / w, -1, w);
        }
    }
    assert(i / w < h) by {
        if i / w >= h {
            vstd::arithmetic::mul::lemma_mul_inequality(h, i / w, w);
        }
    }
}

/// A coordinate pair on the board determines its cell index, and the
/// index recovers the pair.
pub proof fn lemma_cell_index(w: int, h: int, x: int, y: int)
    requires
        1 <= w,
        1 <= h,
        0 <= x < w,
        0 <= y < h,
    ensures
        valid_cell(w, h, cell_index(w, x, y)),
        x_of(cell_index(w, x, y), w) == x,
        y_of(cell_index(w, x, y), w) == y,
{
    vstd::arithmetic::div_mod::lemma_fundamental_div_mod_converse(y * w + x, w, y, x);
    assert(0 <= y * w + x < w * h) by (nonlinear_arith)
        requires
            1 <= w,
            1 <= h,
            0 <= x < w,
            0 <= y < h,
    ;
}

/// Distinct coordinate pairs get distinct indices.
pub proof fn lemma_cell_index_injective(w: int, h: int)
    requires
        1 <= w,
        1 <= h,
    ensures
        forall|x1: int, y1: int, x2: int, y2: int|
            0 <= x1 < w && 0 <= y1 < h && 0 <= x2 < w && 0 <= y2 < h
                && #[trigger] cell_index(w, x1, y1) == #[trigger] cell_index(w, x2, y2)
                ==> x1 == x2 && y1 == y2,
{
    assert forall|x1: int, y1: int, x2: int, y2: int|
        0 <= x1 < w && 0 <= y1 < h && 0 <= x2 < w && 0 <= y2 < h
            && #[trigger] cell_index(w, x1, y1) == #[trigger] cell_index(w, x2, y2)
        implies x1 == x2 && y1 == y2 by {
        lemma_cell_index(w, h, x1, y1);
        lemma_cell_index(w, h, x2, y2);
    }
}

/// Column-major positions are a permutation of row-major indices:
/// a valid index is recovered from its column-major position.
pub proof fn lemma_col_pos_bounds(w: int, h: int, i: int)
    requires
        1 <= w,
        1 <= h,
        valid_cell(w, h, i),
    ensures
        0 <= col_pos(i, w, h) < w * h,
{
    lemma_coords(w, h, i);
    assert(x_of(i, w) * h <= (w - 1) * h) by {
        vstd::arithmetic::mul::lemma_mul_inequality(x_of(i, w), w - 1, h);
    }
    assert((w - 1) * h + h == w * h) by {
        vstd::arithmetic::mul::lemma_mul_is_distributive_sub_other_way(h, w, 1);
    }
    assert(0 <= x_of(i, w) * h) by {
        vstd::arithmetic::mul::lemma_mul_inequality(0, x_of(i, w), h);
    }
}

/// Two valid cells with the same column-major position are the same cell.
pub proof fn lemma_col_pos_injective(w: int, h: int, i: int, j: int)
    requires
        1 <= w,
        1 <= h,
        valid_cell(w, h, i),
        valid_cell(w, h, j),
        col_pos(i, w, h) == col_pos(j, w, h),
    ensures
        i == j,
{
    lemma_coords(w, h, i);
    lemma_coords(w, h, j);
    vstd::arithmetic::div_mod::lemma_fundamental_div_mod_converse(
        col_pos(i, w, h), h, x_of(i, w), y_of(i, w));
    vstd::arithmetic::div_mod::lemma_fundamental_div_mod_converse(
        col_pos(j, w, h), h, x_of(j, w), y_of(j, w));
}

/// 1 if the cell at (`x`, `y`) exists and holds status `v`, else 0.
pub open spec fn nbr_ind(data: Seq<u8>, w: int, h: int, x: int, y: int, v: u8) -> int {
    if 0 <= x < w && 0 <= y < h && data[cell_index(w, x, y)] == v {
        1
    } else {
        0
    }
}

/// How many of the (at most eight) in-grid neighbours of cell `i` hold status `v`.
pub open spec fn nbr_count(data: Seq<u8>, w: int, h: int, i: int, v: u8) -> int {
    let x = x_of(i, w);
    let y = y_of(i, w);
    nbr_ind(data, w, h, x - 1, y - 1, v) + nbr_ind(data, w, h, x - 1, y, v)
        + nbr_ind(data, w, h, x - 1, y + 1, v) + nbr_ind(data, w, h, x, y - 1, v)
        + nbr_ind(data, w, h, x, y + 1, v) + nbr_ind(data, w, h, x + 1, y - 1, v)
        + nbr_ind(data, w, h, x + 1, y, v) + nbr_ind(data, w, h, x + 1, y + 1, v)
}

/// A neighbourhood holds at most eight cells, so the count is at most eight.
pub proof fn lemma_nbr_count_bounds(data: Seq<u8>, w: int, h: int, i: int, v: u8)
    ensures
        0 <= nbr_count(data, w, h, i, v) <= 8,
{
}

/// The neighbour relation is symmetric.
pub proof fn lemma_nbr_symmetric(w: int, h: int, i: int, j: int)
    requires
        1 <= w,
        1 <= h,
    ensures
        is_nbr(w, h, i, j) == is_nbr(w, h, j, i),
{
}

/// `a` is a neighbour of `i` exactly when `a`'s coordinates are one of the
/// eight offsets around `i`'s.
pub proof fn lemma_nbr_offsets(w: int, h: int, i: int, a: int)
    requires
        1 <= w,
        1 <= h,
        valid_cell(w, h, i),
        valid_cell(w, h, a),
    ensures
        is_nbr(w, h, i, a) <==> {
            let x = x_of(i, w);
            let y = y_of(i, w);
            ||| a == cell_index(w, x - 1, y - 1) && 0 <= x - 1 && 0 <= y - 1
            ||| a == cell_index(w, x - 1, y) && 0 <= x - 1
            ||| a == cell_index(w, x - 1, y + 1) && 0 <= x - 1 && y + 1 < h
            ||| a == cell_index(w, x, y - 1) && 0 <= y - 1
            ||| a == cell_index(w, x, y + 1) && y + 1 < h
            ||| a == cell_index(w, x + 1, y - 1) && x + 1 < w && 0 <= y - 1
            ||| a == cell_index(w, x + 1, y) && x + 1 < w
            ||| a == cell_index(w, x + 1, y + 1) && x + 1 < w && y + 1 < h
        },
{
    lemma_coords(w, h, i);
    lemma_coords(w, h, a);
    let x = x_of(i, w);
    let y = y_of(i, w);
    let xa = x_of(a, w);
    let ya = y_of(a, w);
    if is_nbr(w, h, i, a) {
        lemma_cell_index(w, h, xa, ya);
        assert(a == cell_index(w, xa, ya));
    } else {
        if 0 <= x - 1 && 0 <= y - 1 {
            lemma_cell_index(w, h, x - 1, y - 1);
        }
        if 0 <= x - 1 {
            lemma_cell_index(w, h, x - 1, y);
        }
        if 0 <= x - 1 && y + 1 < h {
            lemma_cell_index(w, h, x - 1, y + 1);
        }
        if 0 <= y - 1 {
            lemma_cell_index(w, h, x, y - 1);
        }
        if y + 1 < h {
            lemma_cell_index(w, h, x, y + 1);
        }
        if x + 1 < w && 0 <= y - 1 {
            lemma_cell_index(w, h, x + 1, y - 1);
        }
        if x + 1 < w {
            lemma_cell_index(w, h, x + 1, y);
        }
        if x + 1 < w && y + 1 < h {
            lemma_cell_index(w, h, x + 1, y + 1);
        }
    }
}

/// Rewriting one cell changes each neighbourhood count by exactly the
/// change at that cell, and only for cells it neighbours.
pub proof fn lemma_nbr_count_update(data: Seq<u8>, w: int, h: int, i: int, v: u8, a: int, nv: u8)
    requires
        1 <= w,
        1 <= h,
        data.len() == w * h,
        valid_cell(w, h, i),
        valid_cell(w, h, a),
    ensures
        nbr_count(data.update(a, nv), w, h, i, v) == nbr_count(data, w, h, i, v)
            - (if is_nbr(w, h, i, a) && data[a] == v { 1int } else { 0int })
            + (if is_nbr(w, h, i, a) && nv == v { 1int } else { 0int }),
{
    lemma_nbr_offsets(w, h, i, a);
    lemma_coords(w, h, i);
    lemma_coords(w, h, a);
    let x = x_of(i, w);
    let y = y_of(i, w);
    lemma_nbr_ind_update(data, w, h, x - 1, y - 1, v, a, nv);
    lemma_nbr_ind_update(data, w, h, x - 1, y, v, a, nv);
    lemma_nbr_ind_update(data, w, h, x - 1, y + 1, v, a, nv);
    lemma_nbr_ind_update(data, w, h, x, y - 1, v, a, nv);
    lemma_nbr_ind_update(data, w, h, x, y + 1, v, a, nv);
    lemma_nbr_ind_update(data, w, h, x + 1, y - 1, v, a, nv);
    lemma_nbr_ind_update(data, w, h, x + 1, y, v, a, nv);
    lemma_nbr_ind_update(data, w, h, x + 1, y + 1, v, a, nv);
}

/// Rewriting cell `a` changes the single-cell indicator at (`xx`, `yy`)
/// only when that position is `a`'s.
proof fn lemma_nbr_ind_update(
    data: Seq<u8>,
    w: int,
    h: int,
    xx: int,
    yy: int,
    v: u8,
    a: int,
    nv: u8,
)
    requires
        1 <= w,
        1 <= h,
        data.len() == w * h,
        valid_cell(w, h, a),
    ensures
        nbr_ind(data.update(a, nv), w, h, xx, yy, v) == (
            if 0 <= xx < w && 0 <= yy < h && cell_index(w, xx, yy) == a {
                if nv == v { 1int } else { 0int }
            } else {
                nbr_ind(data, w, h, xx, yy, v)
            }),
        (0 <= xx < w && 0 <= yy < h && cell_index(w, xx, yy) == a)
            <==> (0 <= xx < w && 0 <= yy < h && xx == x_of(a, w) && yy == y_of(a, w)),
{
    lemma_coords(w, h, a);
    if 0 <= xx < w && 0 <= yy < h {
        lemma_cell_index(w, h, xx, yy);
    }
}

/// A neighbour holding status `v` makes the neighbourhood count positive;
/// contrapositively, a zero count rules the status out on every neighbour.
pub proof fn lemma_nbr_count_member(data: Seq<u8>, w: int, h: int, i: int, j: int, v: u8)
    requires
        1 <= w,
        1 <= h,
        data.len() == w * h,
        is_nbr(w, h, i, j),
        data[j] == v,
    ensures
        nbr_count(data, w, h, i, v) >= 1,
{
    lemma_nbr_offsets(w, h, i, j);
    lemma_coords(w, h, i);
    lemma_coords(w, h, j);
}

/// Counts how many entries of `data` before position `k` lie in `[lo, hi]`.
pub open spec fn count_in_range(data: Seq<u8>, lo: u8, hi: u8, k: int) -> int
    decreases k,
{
    if k <= 0 {
        0
    } else {
        count_in_range(data, lo, hi, k - 1) + (if lo <= data[k - 1] <= hi {
            1int
        } else {
            0int
        })
    }
}

pub proof fn lemma_count_in_range_bounds(data: Seq<u8>, lo: u8, hi: u8, k: int)
    ensures
        0 <= count_in_range(data, lo, hi, k) <= (if k >= 0 { k } else { 0 }),
    decreases k,
{
    if k > 0 {
        lemma_count_in_range_bounds(data, lo, hi, k - 1);
    }
}

/// Rewriting one cell changes a range count only at that cell.
pub proof fn lemma_count_in_range_update(data: Seq<u8>, lo: u8, hi: u8, k: int, a: int, nv: u8)
    requires
        0 <= a < data.len(),
        k <= data.len(),
    ensures
        count_in_range(data.update(a, nv), lo, hi, k) == count_in_range(data, lo, hi, k)
            - (if a < k && lo <= data[a] <= hi { 1int } else { 0int })
            + (if a < k && lo <= nv <= hi { 1int } else { 0int }),
    decreases k,
{
    if k > 0 {
        lemma_count_in_range_update(data, lo, hi, k - 1, a, nv);
    }
}

/// If a status predicate holds nowhere, the range count is zero; more
/// precisely, a positive count yields a witness position.
pub proof fn lemma_count_in_range_witness(data: Seq<u8>, lo: u8, hi: u8, k: int)
    requires
        count_in_range(data, lo, hi, k) > 0,
    ensures
        exists|j: int| 0 <= j < k && lo <= #[trigger] data[j] <= hi,
    decreases k,
{
    if k > 0 {
        if lo <= data[k - 1] <= hi {
            assert(0 <= k - 1 < k && lo <= data[k - 1] <= hi);
        } else {
            lemma_count_in_range_witness(data, lo, hi, k - 1);
        }
    }
}

/// Conversely, a witness makes the count positive.
pub proof fn lemma_count_in_range_positive(data: Seq<u8>, lo: u8, hi: u8, k: int, j: int)
    requires
        0 <= j < k,
        lo <= data[j] <= hi,
    ensures
        count_in_range(data, lo, hi, k) > 0,
    decreases k,
{
    if j < k - 1 {
        lemma_count_in_range_positive(data, lo, hi, k - 1, j);
        lemma_count_in_range_bounds(data, lo, hi, k - 1);
    } else {
        lemma_count_in_range_bounds(data, lo, hi, k - 1);
    }
}

/// A position in a row before row `y` sits strictly before row `y`'s start
/// in row-major order.
pub proof fn lemma_lex_index_bound(w1: int, y: int, yy: int, xx: int)
    requires
        1 <= w1,
        0 <= xx < w1,
        0 <= yy < y,
    ensures
        0 <= yy * w1 + xx < y * w1,
{
    assert(0 <= yy * w1 + xx < y * w1) by (nonlinear_arith)
        requires
            1 <= w1,
            0 <= xx < w1,
            0 <= yy < y,
    ;
}

/// Appending an element extends the member set by exactly that element.
pub proof fn lemma_push_contains<A>(s: Seq<A>, v: A, x: A)
    ensures
        s.push(v).contains(x) <==> (s.contains(x) || x == v),
{
    if s.push(v).contains(x) {
        let q = choose|q: int| 0 <= q < s.push(v).len() && s.push(v)[q] == x;
        if q < s.len() {
            assert(s[q] == x);
        }
    }
    if s.contains(x) {
        let q = choose|q: int| 0 <= q < s.len() && s[q] == x;
        assert(s.push(v)[q] == x);
    }
    if x == v {
        assert(s.push(v)[s.len() as int] == x);
    }
}

/// Appending a fresh element keeps a sequence duplicate-free.
pub proof fn lemma_push_no_duplicates<A>(s: Seq<A>, v: A)
    requires
        s.no_duplicates(),
        !s.contains(v),
    ensures
        s.push(v).no_duplicates(),
{
    let t = s.push(v);
    assert forall|p: int, q: int|
        0 <= p < t.len() && 0 <= q < t.len() && p != q implies t[p] != t[q] by {
        if p < s.len() && q < s.len() {
        } else if p < s.len() {
            assert(t[p] == s[p]);
            if s[p] == v {
                assert(s.contains(v));
            }
        } else if q < s.len() {
            assert(t[q] == s[q]);
            if s[q] == v {
                assert(s.contains(v));
            }
        }
    }
}

/// Removing the one occurrence of `val` from a duplicate-free sequence
/// takes exactly `val` out of the member set.
pub proof fn lemma_remove_at<A>(s: Seq<A>, k: int, val: A)
    requires
        s.no_duplicates(),
        0 <= k < s.len(),
        s[k] == val,
    ensures
        s.remove(k).no_duplicates(),
        forall|x: A| #![all_triggers] s.remove(k).contains(x) <==> (s.contains(x) && x != val),
        s.remove(k).len() == s.len() - 1,
{
    s.remove_ensures(k);
    let t = s.remove(k);
    assert forall|x: A| #![all_triggers]
        t.contains(x) <==> (s.contains(x) && x != val) by {
        if t.contains(x) {
            let q = choose|q: int| 0 <= q < t.len() && t[q] == x;
            if q < k {
                assert(s[q] == x);
            } else {
                assert(s[q + 1] == x);
            }
        }
        if s.contains(x) && x != val {
            let q = choose|q: int| 0 <= q < s.len() && s[q] == x;
            if q < k {
                assert(t[q] == x);
            } else if q > k {
                assert(t[q - 1] == x);
            }
        }
    }
    assert forall|p: int, q: int|
        0 <= p < t.len() && 0 <= q < t.len() && p != q implies t[p] != t[q] by {
        let sp: int = if p < k { p } else { p + 1 };
        let sq: int = if q < k { q } else { q + 1 };
        assert(t[p] == s[sp]);
        assert(t[q] == s[sq]);
    }
}

/// Pointwise dominance of one status assignment by another gives dominance
/// of the counts: wherever `data1` lies in the range, so does `data2`.
pub proof fn lemma_count_in_range_monotone(data1: Seq<u8>, data2: Seq<u8>, lo: u8, hi: u8, k: int)
    requires
        forall|j: int| 0 <= j < k && lo <= #[trigger] data1[j] <= hi
            ==> lo <= #[trigger] data2[j] <= hi,
    ensures
        count_in_range(data1, lo, hi, k) <= count_in_range(data2, lo, hi, k),
    decreases k,
{
    if k > 0 {
        lemma_count_in_range_monotone(data1, data2, lo, hi, k - 1);
    }
}

} // verus!
