//! The board: a rectangular grid of cells, each carrying a status code, a
//! running count of adjacent bugs, and the two impact-link lists that the
//! filler uses for constraint propagation.

use vstd::prelude::*;

use crate::grid::{
    cell_index, col_pos, count_in_range, is_nbr, lemma_cell_index, lemma_col_pos_bounds,
    lemma_col_pos_injective, lemma_coords, nbr_count, valid_cell,
};

verus! {

/// Status code of a bug (mine) cell.
pub const BUG: u8 = 9;

/// Status code of a hidden cell with no commitment yet.
pub const UNOPENED: u8 = 10;

/// Status code of a hidden cell committed to be bug-free.
pub const UNOPENED_BUGFREE: u8 = 11;

/// True for a revealed cell: an opened count `0..=8`, or a bug shown to the
/// player.
pub fn is_open(data: u8) -> (r: bool)
    ensures
        r == (data < UNOPENED),
{
    data < UNOPENED
}

/// One cell of the board.
pub struct Field {
    /// Status code: `0..=8` opened with that count, or one of [`BUG`],
    /// [`UNOPENED`], [`UNOPENED_BUGFREE`].
    pub data: u8,
    /// Indices of still-undecided neighbours that may yet change this
    /// cell's count (kept for opened cells).
    pub impacted_by: Vec<u8>,
    /// Indices of opened neighbours whose declared count this cell
    /// contributes to (kept for hidden cells).
    pub impacts: Vec<u8>,
    /// How many neighbours currently hold a bug.
    pub adjacent_bugs: u8,
}

/// Copies a byte vector element by element.
pub(crate) fn clone_vec_u8(v: &Vec<u8>) -> (r: Vec<u8>)
    ensures
        r@ == v@,
{
    let mut r: Vec<u8> = Vec::new();
    let mut k: usize = 0;
    while k < v.len()
        invariant
            k <= v@.len(),
            r@ =~= v@.subrange(0, k as int),
        decreases v@.len() - k,
    {
        r.push(v[k]);
        proof {
            assert(r@ =~= v@.subrange(0, k as int + 1));
        }
        k = k + 1;
    }
    proof {
        assert(r@ =~= v@);
    }
    r
}

impl Clone for Field {
    /// An exact copy of the cell, its impact links included.
    fn clone(&self) -> (r: Field)
        ensures
            r.data == self.data,
            r.adjacent_bugs == self.adjacent_bugs,
            r.impacts@ == self.impacts@,
            r.impacted_by@ == self.impacted_by@,
    {
        Field {
            data: self.data,
            impacted_by: clone_vec_u8(&self.impacted_by),
            impacts: clone_vec_u8(&self.impacts),
            adjacent_bugs: self.adjacent_bugs,
        }
    }
}

/// Cell-for-cell sameness of two boards: the shape and every field of
/// every cell agree.
pub open spec fn mirrors(a: GameData, b: GameData) -> bool {
    &&& b.width == a.width
    &&& b.height == a.height
    &&& b.num_open == a.num_open
    &&& b.fields@.len() == a.fields@.len()
    &&& forall|i: int| #![all_triggers] 0 <= i < a.fields@.len() ==> {
        &&& b.fields@[i].data == a.fields@[i].data
        &&& b.fields@[i].adjacent_bugs == a.fields@[i].adjacent_bugs
        &&& b.fields@[i].impacts@ == a.fields@[i].impacts@
        &&& b.fields@[i].impacted_by@ == a.fields@[i].impacted_by@
    }
}

/// Sameness carries the board invariant over.
pub proof fn lemma_mirrors_wf(a: GameData, b: GameData)
    requires
        a.wf(),
        mirrors(a, b),
    ensures
        b.wf(),
        b.statuses() == a.statuses(),
        a.counts_ok() ==> b.counts_ok(),
        a.no_open_cells() ==> b.no_open_cells(),
{
    assert(b.statuses() =~= a.statuses());
    assert forall|i: int| 0 <= i < b.n() implies
        #[trigger] b.fields@[i].adjacent_bugs as int
            == nbr_count(b.statuses(), b.width as int, b.height as int, i, BUG) by {
        assert(a.fields@[i].adjacent_bugs as int
            == nbr_count(a.statuses(), a.width as int, a.height as int, i, BUG));
    }
    assert forall|i: int| 0 <= i < b.n() implies #[trigger] b.status_at(i)
        <= UNOPENED_BUGFREE by {
        assert(a.status_at(i) <= UNOPENED_BUGFREE);
    }
    assert forall|i: int| 0 <= i < b.n() implies
        (#[trigger] b.fields@[i].impacted_by)@.no_duplicates() by {
        assert(a.fields@[i].impacted_by@.no_duplicates());
    }
    if a.counts_ok() {
        assert forall|i: int| 0 <= i < b.n() && #[trigger] b.status_at(i) <= 8 implies {
            &&& b.fields@[i].adjacent_bugs as int <= b.status_at(i) as int
            &&& b.status_at(i) as int
                <= b.fields@[i].adjacent_bugs as int + b.fields@[i].impacted_by@.len()
        } by {
            assert(a.status_at(i) <= 8);
        }
    }
    if a.no_open_cells() {
        assert forall|i: int| 0 <= i < b.n() implies #[trigger] b.status_at(i) > 8 by {
            assert(a.status_at(i) > 8);
        }
    }
    assert forall|i: int, k: int|
        0 <= i < b.n() && 0 <= k < b.fields@[i].impacted_by@.len() implies
        b.ib_entry_ok(i, #[trigger] b.fields@[i].impacted_by@[k]) by {
        assert(a.ib_entry_ok(i, a.fields@[i].impacted_by@[k]));
    }
    assert forall|i: int, jx: int| #![all_triggers]
        0 <= i < b.n() && 0 <= jx < b.n() && b.status_at(i) <= 8
            && crate::grid::is_nbr(b.width as int, b.height as int, i, jx)
            && b.status_at(jx) == UNOPENED implies
        b.fields@[i].impacted_by@.contains(jx as u8) by {
        assert(a.fields@[i].impacted_by@.contains(jx as u8));
    }
    assert forall|i: int, k: int|
        0 <= i < b.n() && 0 <= k < b.fields@[i].impacts@.len() implies
        crate::grid::is_nbr(b.width as int, b.height as int, i,
            (#[trigger] b.fields@[i].impacts@[k]) as int)
            && b.status_at(b.fields@[i].impacts@[k] as int) <= 8 by {
        assert(b.fields@[i].impacts@[k] == a.fields@[i].impacts@[k]);
    }
}

impl Clone for GameData {
    /// An exact copy of the board.
    fn clone(&self) -> (r: GameData)
        ensures
            mirrors(*self, r),
    {
        let mut fields: Vec<Field> = Vec::new();
        let mut k: usize = 0;
        while k < self.fields.len()
            invariant
                k <= self.fields@.len(),
                fields@.len() == k,
                forall|i: int| #![all_triggers] 0 <= i < k ==> {
                    &&& fields@[i].data == self.fields@[i].data
                    &&& fields@[i].adjacent_bugs == self.fields@[i].adjacent_bugs
                    &&& fields@[i].impacts@ == self.fields@[i].impacts@
                    &&& fields@[i].impacted_by@ == self.fields@[i].impacted_by@
                },
            decreases self.fields@.len() - k,
        {
            let f = self.fields[k].clone();
            fields.push(f);
            k = k + 1;
        }
        GameData { fields, width: self.width, height: self.height, num_open: self.num_open }
    }
}

/// A rectangular board of cells in row-major order.
pub struct GameData {
    /// The cells, row by row.
    pub fields: Vec<Field>,
    /// Board width in cells.
    pub width: u8,
    /// Board height in cells.
    pub height: u8,
    /// How many cells were opened (status below [`BUG`]) at construction.
    pub num_open: u8,
}

impl GameData {
    /// Number of cells.
    pub open spec fn n(self) -> int {
        self.width as int * self.height as int
    }

    /// The status codes of all cells, in row-major order.
    pub open spec fn statuses(self) -> Seq<u8> {
        self.fields@.map_values(|f: Field| f.data)
    }

    /// Status of cell `i`.
    pub open spec fn status_at(self, i: int) -> u8 {
        self.fields@[i].data
    }

    /// The board has its declared shape.
    pub open spec fn dims_ok(self) -> bool {
        &&& 1 <= self.width as int
        &&& 1 <= self.height as int
        &&& self.n() <= 255
        &&& self.fields@.len() == self.n()
    }

    /// Every status is one of the known codes.
    pub open spec fn statuses_valid(self) -> bool {
        forall|i: int| 0 <= i < self.n() ==> self.status_at(i) <= UNOPENED_BUGFREE
    }

    /// Every `adjacent_bugs` equals the number of neighbours whose status
    /// is [`BUG`].
    pub open spec fn adj_ok(self) -> bool {
        forall|i: int| 0 <= i < self.n()
            ==> #[trigger] self.fields@[i].adjacent_bugs as int
                == nbr_count(self.statuses(), self.width as int, self.height as int, i, BUG)
    }

    /// Entry `e` may stand in `impacted_by` of cell `i`: a neighbour that
    /// is still undecided.
    pub open spec fn ib_entry_ok(self, i: int, e: u8) -> bool {
        &&& is_nbr(self.width as int, self.height as int, i, e as int)
        &&& self.status_at(e as int) == UNOPENED
    }

    /// Every `impacted_by` list holds only undecided neighbours, each at
    /// most once.
    pub open spec fn ib_ok(self) -> bool {
        forall|i: int| 0 <= i < self.n() ==> {
            &&& (#[trigger] self.fields@[i].impacted_by)@.no_duplicates()
            &&& forall|k: int| 0 <= k < self.fields@[i].impacted_by@.len()
                ==> self.ib_entry_ok(i, #[trigger] self.fields@[i].impacted_by@[k])
        }
    }

    /// On opened cells, `impacted_by` is complete: it holds every
    /// undecided neighbour.
    pub open spec fn ib_complete(self) -> bool {
        forall|i: int, j: int| #![all_triggers]
            0 <= i < self.n() && 0 <= j < self.n() && self.status_at(i) <= 8
                && is_nbr(self.width as int, self.height as int, i, j)
                && self.status_at(j) == UNOPENED
                ==> self.fields@[i].impacted_by@.contains(j as u8)
    }

    /// Every `impacts` list holds only opened neighbours.
    pub open spec fn imp_ok(self) -> bool {
        forall|i: int, k: int|
            0 <= i < self.n() && 0 <= k < (#[trigger] self.fields@[i].impacts)@.len() ==> {
                &&& is_nbr(self.width as int, self.height as int, i,
                    #[trigger] self.fields@[i].impacts@[k] as int)
                &&& self.status_at(self.fields@[i].impacts@[k] as int) <= 8
            }
    }

    /// The bookkeeping invariant of the board, established by [`GameData::new`]
    /// and preserved by the filler.
    pub open spec fn wf(self) -> bool {
        &&& self.dims_ok()
        &&& self.statuses_valid()
        &&& self.adj_ok()
        &&& self.ib_ok()
        &&& self.ib_complete()
        &&& self.imp_ok()
    }

    /// Every opened cell's declared count is still reachable: at least the
    /// bugs already around it, at most those plus the undecided neighbours.
    pub open spec fn counts_ok(self) -> bool {
        forall|i: int| 0 <= i < self.n() && #[trigger] self.status_at(i) <= 8 ==> {
            &&& self.fields@[i].adjacent_bugs as int <= self.status_at(i) as int
            &&& self.status_at(i) as int
                <= self.fields@[i].adjacent_bugs as int + self.fields@[i].impacted_by@.len()
        }
    }

    /// No cell is opened anywhere on the board.
    pub open spec fn no_open_cells(self) -> bool {
        forall|i: int| 0 <= i < self.n() ==> #[trigger] self.status_at(i) > 8
    }

    /// On a fresh board the impact links are exact on both sides: `impacts`
    /// of a hidden cell lists exactly its opened neighbours, `impacted_by`
    /// of an opened cell exactly its undecided neighbours, and every other
    /// list is empty.
    pub open spec fn freshly_wired(self) -> bool {
        &&& self.wf()
        &&& forall|i: int, j: int| #![all_triggers] 0 <= i < self.n() && 0 <= j < self.n() ==> {
            &&& (self.fields@[i].impacts@.contains(j as u8) <==> (
                self.status_at(i) == UNOPENED && self.status_at(j) <= 8
                    && is_nbr(self.width as int, self.height as int, i, j)))
            &&& (self.fields@[i].impacted_by@.contains(j as u8) <==> (
                self.status_at(i) <= 8 && self.status_at(j) == UNOPENED
                    && is_nbr(self.width as int, self.height as int, i, j)))
        }
    }

    /// The stored order of the impact lists, which the filler's determinism
    /// rests on: every `impacts` list ascends by cell index, and every
    /// `impacted_by` list ascends by its entries' column-major position
    /// (left column top to bottom first). Together with the membership
    /// characterization of a fresh board this pins each list exactly.
    pub open spec fn lists_ordered(self) -> bool {
        forall|c: int, p: int, q: int| #![all_triggers] 0 <= c < self.n() ==> {
            &&& (0 <= p < q < self.fields@[c].impacts@.len()
                ==> self.fields@[c].impacts@[p] < self.fields@[c].impacts@[q])
            &&& (0 <= p < q < self.fields@[c].impacted_by@.len()
                ==> col_pos(self.fields@[c].impacted_by@[p] as int, self.width as int,
                    self.height as int) < col_pos(self.fields@[c].impacted_by@[q] as int,
                    self.width as int, self.height as int))
        }
    }

    /// Builds a board from a row-major status vector, wiring the impact
    /// links and the adjacent-bug counts.
    pub fn new(width: u8, height: u8, data: Vec<u8>) -> (r: GameData)
        requires
            1 <= width,
            1 <= height,
            width as int * height as int <= 255,
            data@.len() == width as int * height as int,
            forall|i: int| 0 <= i < data@.len() ==> data@[i] <= UNOPENED_BUGFREE,
        ensures
            r.width == width,
            r.height == height,
            r.fields@.len() == data@.len(),
            forall|i: int| 0 <= i < data@.len() ==> r.status_at(i) == data@[i],
            r.statuses() =~= data@,
            r.freshly_wired(),
            r.lists_ordered(),
            r.num_open as int == count_in_range(data@, 0, 8, data@.len() as int),
            forall|i: int| 0 <= i < data@.len()
                ==> #[trigger] r.fields@[i].adjacent_bugs as int
                    == nbr_count(data@, width as int, height as int, i, BUG),
    {
        let w = width as usize;
        let h = height as usize;
        let n: usize = w * h;
        let ghost wi = width as int;
        let ghost hi = height as int;
        let mut fields: Vec<Field> = Vec::new();
        let mut num_open: u8 = 0;
        let mut i: usize = 0;
        while i < n
            invariant
                n == wi * hi,
                1 <= wi,
                1 <= hi,
                n <= 255,
                wi == width as int,
                hi == height as int,
                data@.len() == n,
                forall|c: int| 0 <= c < n ==> data@[c] <= UNOPENED_BUGFREE,
                i <= n,
                fields@.len() == i,
                num_open as int == count_in_range(data@, 0, 8, i as int),
                forall|c: int| 0 <= c < i ==> (#[trigger] fields@[c]).data == data@[c],
                forall|c: int| 0 <= c < i
                    ==> #[trigger] fields@[c].adjacent_bugs as int
                        == nbr_count(data@, wi, hi, c, BUG),
                forall|c: int| 0 <= c < i ==> (#[trigger] fields@[c].impacts)@.no_duplicates(),
                forall|c: int| 0 <= c < i ==> (#[trigger] fields@[c].impacted_by)@.no_duplicates(),
                forall|c: int, p: int, q: int| #![all_triggers] 0 <= c < i ==> {
                    &&& (0 <= p < q < fields@[c].impacts@.len()
                        ==> fields@[c].impacts@[p] < fields@[c].impacts@[q])
                    &&& (0 <= p < q < fields@[c].impacted_by@.len()
                        ==> col_pos(fields@[c].impacted_by@[p] as int, wi, hi)
                            < col_pos(fields@[c].impacted_by@[q] as int, wi, hi))
                },
                forall|c: int, j: int| #![all_triggers] 0 <= c < i && 0 <= j < n ==> (
                    fields@[c].impacts@.contains(j as u8) <==> (
                        data@[c] == UNOPENED && data@[j] <= 8 && is_nbr(wi, hi, c, j))),
                forall|c: int, j: int| #![all_triggers] 0 <= c < i && 0 <= j < n ==> (
                    fields@[c].impacted_by@.contains(j as u8) <==> (
                        data@[c] <= 8 && data@[j] == UNOPENED && is_nbr(wi, hi, c, j))),
                forall|c: int, k: int| 0 <= c < i
                    && 0 <= k < fields@[c].impacts@.len()
                    ==> (#[trigger] fields@[c].impacts@[k] as int) < n,
                forall|c: int, k: int| 0 <= c < i
                    && 0 <= k < fields@[c].impacted_by@.len()
                    ==> (#[trigger] fields@[c].impacted_by@[k] as int) < n,
            decreases n - i,
        {
            let di = data[i];
            let bugs = Self::count_adjacent(width, height, &data, i, BUG);
            let imp = Self::collect_impacts(width, height, &data, i);
            let ib = Self::collect_impacted_by(width, height, &data, i);
            if di < BUG {
                assert(count_in_range(data@, 0, 8, i as int + 1)
                    == count_in_range(data@, 0, 8, i as int) + 1);
                assert(num_open as int <= i as int) by {
                    crate::grid::lemma_count_in_range_bounds(data@, 0, 8, i as int);
                }
                num_open = num_open + 1;
            } else {
                assert(count_in_range(data@, 0, 8, i as int + 1)
                    == count_in_range(data@, 0, 8, i as int));
            }
            let ghost old_fields = fields@;
            fields.push(Field { data: di, impacted_by: ib, impacts: imp, adjacent_bugs: bugs });
            proof {
                assert forall|c: int, j: int| #![all_triggers] 0 <= c < i + 1 && 0 <= j < n implies (
                    fields@[c].impacts@.contains(j as u8) <==> (
                        data@[c] == UNOPENED && data@[j] <= 8 && is_nbr(wi, hi, c, j))) by {
                    if c < i {
                        assert(fields@[c] == old_fields[c]);
                        assert(old_fields[c].impacts@.contains(j as u8) <==> (
                            data@[c] == UNOPENED && data@[j] <= 8 && is_nbr(wi, hi, c, j)));
                    } else {
                        assert(fields@[c].impacts == imp);
                    }
                }
                assert forall|c: int, j: int| #![all_triggers] 0 <= c < i + 1 && 0 <= j < n implies (
                    fields@[c].impacted_by@.contains(j as u8) <==> (
                        data@[c] <= 8 && data@[j] == UNOPENED && is_nbr(wi, hi, c, j))) by {
                    if c < i {
                        assert(fields@[c] == old_fields[c]);
                        assert(old_fields[c].impacted_by@.contains(j as u8) <==> (
                            data@[c] <= 8 && data@[j] == UNOPENED && is_nbr(wi, hi, c, j)));
                    } else {
                        assert(fields@[c].impacted_by == ib);
                    }
                }
                assert forall|c: int, p: int, q: int| #![all_triggers] 0 <= c < i + 1 implies {
                    &&& (0 <= p < q < fields@[c].impacts@.len()
                        ==> fields@[c].impacts@[p] < fields@[c].impacts@[q])
                    &&& (0 <= p < q < fields@[c].impacted_by@.len()
                        ==> col_pos(fields@[c].impacted_by@[p] as int, wi, hi)
                            < col_pos(fields@[c].impacted_by@[q] as int, wi, hi))
                } by {
                    if c < i {
                        assert(fields@[c] == old_fields[c]);
                    } else {
                        assert(fields@[c].impacts == imp);
                        assert(fields@[c].impacted_by == ib);
                    }
                }
            }
            i = i + 1;
        }
        let r = GameData { fields, width, height, num_open };
        proof {
            assert(r.statuses() =~= data@);
            assert forall|c: int| 0 <= c < r.n() implies
                #[trigger] r.fields@[c].adjacent_bugs as int
                    == nbr_count(r.statuses(), wi, hi, c, BUG) by {
                assert(r.statuses() =~= data@);
            }
            assert forall|c: int, k: int|
                0 <= c < r.n() && 0 <= k < r.fields@[c].impacts@.len() implies
                is_nbr(wi, hi, c, (#[trigger] r.fields@[c].impacts@[k]) as int)
                    && r.status_at(r.fields@[c].impacts@[k] as int) <= 8 by {
                let e = r.fields@[c].impacts@[k];
                assert(r.fields@[c].impacts@.contains(e));
                assert((e as int) < r.n());
            }
            assert forall|c: int, k: int|
                0 <= c < r.n() && 0 <= k < r.fields@[c].impacted_by@.len() implies
                r.ib_entry_ok(c, #[trigger] r.fields@[c].impacted_by@[k]) by {
                let e = r.fields@[c].impacted_by@[k];
                assert(r.fields@[c].impacted_by@.contains(e));
                assert((e as int) < r.n());
            }
            assert forall|c: int, j: int|
                0 <= c < r.n() && 0 <= j < r.n() && r.status_at(c) <= 8
                    && is_nbr(wi, hi, c, j) && r.status_at(j) == UNOPENED implies
                #[trigger] r.fields@[c].impacted_by@.contains(j as u8) by {}
        }
        r
    }

    /// Counts the in-grid neighbours of cell `i` whose status in `data` is `v`.
    #[verifier::rlimit(30)]
    fn count_adjacent(width: u8, height: u8, data: &Vec<u8>, i: usize, v: u8) -> (r: u8)
        requires
            1 <= width,
            1 <= height,
            width as int * height as int <= 255,
            data@.len() == width as int * height as int,
            i < data@.len(),
        ensures
            r as int == nbr_count(data@, width as int, height as int, i as int, v),
    {
        let ghost wi = width as int;
        let ghost hi = height as int;
        let w = width as usize;
        let h = height as usize;
        let x = i % w;
        let y = i / w;
        proof {
            lemma_coords(wi, hi, i as int);
            let xs = x as int;
            let ys = y as int;
            if xs >= 1 && ys >= 1 {
                lemma_cell_index(wi, hi, xs - 1, ys - 1);
            }
            if xs >= 1 {
                lemma_cell_index(wi, hi, xs - 1, ys);
            }
            if xs >= 1 && ys + 1 < hi {
                lemma_cell_index(wi, hi, xs - 1, ys + 1);
            }
            if ys >= 1 {
                lemma_cell_index(wi, hi, xs, ys - 1);
            }
            if ys + 1 < hi {
                lemma_cell_index(wi, hi, xs, ys + 1);
            }
            if xs + 1 < wi && ys >= 1 {
                lemma_cell_index(wi, hi, xs + 1, ys - 1);
            }
            if xs + 1 < wi {
                lemma_cell_index(wi, hi, xs + 1, ys);
            }
            if xs + 1 < wi && ys + 1 < hi {
                lemma_cell_index(wi, hi, xs + 1, ys + 1);
            }
        }
        let mut r: u8 = 0;
        if x >= 1 && y >= 1 && data[(y - 1) * w + (x - 1)] == v {
            r = r + 1;
        }
        if x >= 1 && data[y * w + (x - 1)] == v {
            r = r + 1;
        }
        if x >= 1 && y + 1 < h && data[(y + 1) * w + (x - 1)] == v {
            r = r + 1;
        }
        if y >= 1 && data[(y - 1) * w + x] == v {
            r = r + 1;
        }
        if y + 1 < h && data[(y + 1) * w + x] == v {
            r = r + 1;
        }
        if x + 1 < w && y >= 1 && data[(y - 1) * w + (x + 1)] == v {
            r = r + 1;
        }
        if x + 1 < w && data[y * w + (x + 1)] == v {
            r = r + 1;
        }
        if x + 1 < w && y + 1 < h && data[(y + 1) * w + (x + 1)] == v {
            r = r + 1;
        }
        r
    }

    /// The opened neighbours of a hidden cell `i`, in ascending index order;
    /// empty unless `data[i]` is [`UNOPENED`].
    fn collect_impacts(width: u8, height: u8, data: &Vec<u8>, i: usize) -> (r: Vec<u8>)
        requires
            1 <= width,
            1 <= height,
            width as int * height as int <= 255,
            data@.len() == width as int * height as int,
            i < data@.len(),
        ensures
            r@.no_duplicates(),
            forall|j: int| #![all_triggers] 0 <= j < data@.len() ==> (r@.contains(j as u8) <==> (
                data@[i as int] == UNOPENED && data@[j] <= 8
                    && is_nbr(width as int, height as int, i as int, j))),
            forall|k: int| 0 <= k < r@.len() ==> (#[trigger] r@[k] as int) < data@.len(),
            forall|p: int, q: int| 0 <= p < q < r@.len()
                ==> #[trigger] r@[p] < #[trigger] r@[q],
    {
        let ghost wi = width as int;
        let ghost hi = height as int;
        let n: usize = data.len();
        let mut r: Vec<u8> = Vec::new();
        if data[i] == UNOPENED {
            let mut j: usize = 0;
            while j < n
                invariant
                    1 <= wi,
                    1 <= hi,
                    wi == width as int,
                    hi == height as int,
                    n == wi * hi,
                    n <= 255,
                    data@.len() == n,
                    i < n,
                    j <= n,
                    data@[i as int] == UNOPENED,
                    forall|p: int, q: int| 0 <= p < q < r@.len()
                        ==> #[trigger] r@[p] < #[trigger] r@[q],
                    forall|k: int| 0 <= k < r@.len() ==> (#[trigger] r@[k] as int) < j,
                    forall|e: int| #![all_triggers] 0 <= e < n ==> (r@.contains(e as u8) <==> (
                        e < j && data@[e] <= 8 && is_nbr(wi, hi, i as int, e))),
                decreases n - j,
            {
                if Self::nbr_exec(width, height, i, j) && data[j] <= 8 {
                    let ghost old_r = r@;
                    proof {
                        assert(!old_r.contains(j as u8)) by {
                            if old_r.contains(j as u8) {
                                assert(((j as u8) as int) < j);
                            }
                        }
                        crate::grid::lemma_push_no_duplicates(old_r, j as u8);
                    }
                    r.push(j as u8);
                    assert forall|e: int| #![all_triggers] 0 <= e < n implies (r@.contains(e as u8) <==> (
                        e < j + 1 && data@[e] <= 8 && is_nbr(wi, hi, i as int, e))) by {
                        crate::grid::lemma_push_contains(old_r, j as u8, e as u8);
                        assert(old_r.contains(e as u8) <==> (
                            e < j && data@[e] <= 8 && is_nbr(wi, hi, i as int, e)));
                    }
                    assert forall|p: int, q: int| 0 <= p < q < r@.len() implies
                        #[trigger] r@[p] < #[trigger] r@[q] by {
                        if q < r@.len() - 1 {
                            assert(old_r[p] == r@[p] && old_r[q] == r@[q]);
                        } else {
                            assert(r@[q] == j as u8);
                            assert(old_r[p] == r@[p]);
                            assert((r@[p] as int) < j);
                        }
                    }
                    assert forall|k: int| 0 <= k < r@.len() implies
                        (#[trigger] r@[k] as int) < j + 1 by {
                        if k < r@.len() - 1 {
                            assert(old_r[k] == r@[k]);
                        }
                    }
                }
                j = j + 1;
            }
        } else {
            assert forall|e: int| 0 <= e < n implies !(#[trigger] r@.contains(e as u8)) by {}
        }
        assert(r@.no_duplicates()) by {
            assert forall|p: int, q: int|
                0 <= p < r@.len() && 0 <= q < r@.len() && p != q implies r@[p] != r@[q] by {}
        }
        assert forall|k: int| 0 <= k < r@.len() implies (#[trigger] r@[k] as int) < n by {
            assert(r@.contains(r@[k]));
        }
        r
    }

    /// The undecided neighbours of an opened cell `i`, in column-major
    /// order (matching the order neighbours are walked everywhere else);
    /// empty unless `data[i]` is an opened count.
    fn collect_impacted_by(width: u8, height: u8, data: &Vec<u8>, i: usize) -> (r: Vec<u8>)
        requires
            1 <= width,
            1 <= height,
            width as int * height as int <= 255,
            data@.len() == width as int * height as int,
            i < data@.len(),
        ensures
            r@.no_duplicates(),
            forall|j: int| #![all_triggers] 0 <= j < data@.len() ==> (r@.contains(j as u8) <==> (
                data@[i as int] <= 8 && data@[j] == UNOPENED
                    && is_nbr(width as int, height as int, i as int, j))),
            forall|k: int| 0 <= k < r@.len() ==> (#[trigger] r@[k] as int) < data@.len(),
            forall|p: int, q: int| 0 <= p < q < r@.len()
                ==> col_pos(#[trigger] r@[p] as int, width as int, height as int)
                    < col_pos(#[trigger] r@[q] as int, width as int, height as int),
    {
        let ghost wi = width as int;
        let ghost hi = height as int;
        let w = width as usize;
        let h = height as usize;
        let n: usize = data.len();
        let mut r: Vec<u8> = Vec::new();
        if data[i] <= 8 {
            let mut x2: usize = 0;
            while x2 < w
                invariant
                    1 <= wi,
                    1 <= hi,
                    wi == width as int,
                    hi == height as int,
                    w == wi,
                    h == hi,
                    n == wi * hi,
                    n <= 255,
                    data@.len() == n,
                    i < n,
                    x2 <= w,
                    data@[i as int] <= 8,
                    forall|p: int| 0 <= p < r@.len()
                        ==> is_nbr(wi, hi, i as int, #[trigger] r@[p] as int),
                    forall|p: int, q: int| 0 <= p < q < r@.len()
                        ==> col_pos(#[trigger] r@[p] as int, wi, hi)
                            < col_pos(#[trigger] r@[q] as int, wi, hi),
                    forall|j: int| #![all_triggers] 0 <= j < n ==> (r@.contains(j as u8) <==> (
                        is_nbr(wi, hi, i as int, j) && data@[j] == UNOPENED
                            && col_pos(j, wi, hi) < x2 * hi)),
                decreases w - x2,
            {
                let mut y2: usize = 0;
                while y2 < h
                    invariant
                        1 <= wi,
                        1 <= hi,
                        wi == width as int,
                        hi == height as int,
                        w == wi,
                        h == hi,
                        n == wi * hi,
                        n <= 255,
                        data@.len() == n,
                        i < n,
                        x2 < w,
                        y2 <= h,
                        data@[i as int] <= 8,
                        forall|p: int| 0 <= p < r@.len()
                            ==> is_nbr(wi, hi, i as int, #[trigger] r@[p] as int),
                        forall|p: int, q: int| 0 <= p < q < r@.len()
                            ==> col_pos(#[trigger] r@[p] as int, wi, hi)
                                < col_pos(#[trigger] r@[q] as int, wi, hi),
                        forall|j: int| #![all_triggers] 0 <= j < n ==> (r@.contains(j as u8)
                            <==> (is_nbr(wi, hi, i as int, j) && data@[j] == UNOPENED
                                && col_pos(j, wi, hi) < x2 * hi + y2)),
                    decreases h - y2,
                {
                    proof {
                        lemma_cell_index(wi, hi, x2 as int, y2 as int);
                        vstd::arithmetic::div_mod::lemma_fundamental_div_mod_converse(
                            x2 as int * hi + y2 as int, hi, x2 as int, y2 as int);
                        assert(valid_cell(wi, hi, cell_index(wi, x2 as int, y2 as int)));
                    }
                    let j = y2 * w + x2;
                    proof {
                        assert(col_pos(j as int, wi, hi) == x2 as int * hi + y2 as int);
                    }
                    if Self::nbr_exec(width, height, i, j) && data[j] == UNOPENED {
                        let ghost old_r = r@;
                        r.push(j as u8);
                        assert forall|e: int| #![all_triggers] 0 <= e < n implies (
                            r@.contains(e as u8) <==> (is_nbr(wi, hi, i as int, e)
                                && data@[e] == UNOPENED
                                && col_pos(e, wi, hi) < x2 * hi + y2 + 1)) by {
                            crate::grid::lemma_push_contains(old_r, j as u8, e as u8);
                            if e as u8 == j as u8 {
                                assert(e == j);
                            }
                            if is_nbr(wi, hi, i as int, e)
                                && col_pos(e, wi, hi) == x2 * hi + y2 {
                                lemma_col_pos_injective(wi, hi, e, j as int);
                                assert(e == j);
                            }
                        }
                        assert forall|p: int, q: int| 0 <= p < q < r@.len() implies
                            col_pos(#[trigger] r@[p] as int, wi, hi)
                                < col_pos(#[trigger] r@[q] as int, wi, hi) by {
                            if q == r@.len() - 1 {
                                assert(r@[p] == old_r[p]);
                                assert(old_r.contains(old_r[p]));
                                assert(col_pos(r@[p] as int, wi, hi) < x2 * hi + y2);
                            } else {
                                assert(r@[p] == old_r[p] && r@[q] == old_r[q]);
                            }
                        }
                    } else {
                        assert forall|e: int| #![all_triggers] 0 <= e < n implies (
                            r@.contains(e as u8) <==> (is_nbr(wi, hi, i as int, e)
                                && data@[e] == UNOPENED
                                && col_pos(e, wi, hi) < x2 * hi + y2 + 1)) by {
                            if is_nbr(wi, hi, i as int, e)
                                && col_pos(e, wi, hi) == x2 * hi + y2 {
                                lemma_col_pos_injective(wi, hi, e, j as int);
                            }
                        }
                    }
                    y2 = y2 + 1;
                }
                proof {
                    assert(x2 as int * hi + hi == (x2 + 1) as int * hi) by {
                        vstd::arithmetic::mul::lemma_mul_is_distributive_add_other_way(
                            hi, x2 as int, 1);
                    }
                }
                x2 = x2 + 1;
            }
            proof {
                assert forall|j: int| #![all_triggers] 0 <= j < n
                    && is_nbr(wi, hi, i as int, j) && data@[j] == UNOPENED implies
                    r@.contains(j as u8) by {
                    lemma_col_pos_bounds(wi, hi, j);
                    assert(col_pos(j, wi, hi) < wi * hi);
                }
            }
        } else {
            assert forall|j: int| 0 <= j < n implies !(#[trigger] r@.contains(j as u8)) by {}
        }
        assert(r@.no_duplicates()) by {
            assert forall|p: int, q: int|
                0 <= p < r@.len() && 0 <= q < r@.len() && p != q implies r@[p] != r@[q] by {}
        }
        assert forall|k: int| 0 <= k < r@.len() implies (#[trigger] r@[k] as int) < n by {
            assert(r@.contains(r@[k]));
        }
        r
    }

    /// Whether cells `i` and `j` are distinct in-grid eight-neighbours.
    pub(crate) fn nbr_exec(width: u8, height: u8, i: usize, j: usize) -> (r: bool)
        requires
            1 <= width,
            1 <= height,
            width as int * height as int <= 255,
            i < width as int * height as int,
            j < width as int * height as int,
        ensures
            r == is_nbr(width as int, height as int, i as int, j as int),
    {
        let w = width as usize;
        let xi = i % w;
        let yi = i / w;
        let xj = j % w;
        let yj = j / w;
        proof {
            lemma_coords(width as int, height as int, i as int);
            lemma_coords(width as int, height as int, j as int);
        }
        i != j && xi + 1 >= xj && xj + 1 >= xi && yi + 1 >= yj && yj + 1 >= yi
    }

    /// The in-grid neighbours of cell `i`, in column-major order (left
    /// column top to bottom, then the centre column, then the right).
    #[verifier::rlimit(100)]
    pub(crate) fn surrounding_fields(width: u8, height: u8, i: usize) -> (r: Vec<u8>)
        requires
            1 <= width,
            1 <= height,
            width as int * height as int <= 255,
            i < width as int * height as int,
        ensures
            r@.no_duplicates(),
            forall|p: int| 0 <= p < r@.len()
                ==> is_nbr(width as int, height as int, i as int, #[trigger] r@[p] as int),
            forall|j: int| #![all_triggers] 0 <= j < width as int * height as int
                ==> (r@.contains(j as u8) <==> is_nbr(width as int, height as int, i as int, j)),
            forall|p: int, q: int| 0 <= p < q < r@.len()
                ==> col_pos(#[trigger] r@[p] as int, width as int, height as int)
                    < col_pos(#[trigger] r@[q] as int, width as int, height as int),
            r@.len() <= 8,
            2 <= width && 2 <= height ==> r@.len() >= 3,
    {
        let ghost wi = width as int;
        let ghost hi = height as int;
        let w = width as usize;
        let h = height as usize;
        let n = w * h;
        let mut r: Vec<u8> = Vec::new();
        let mut x2: usize = 0;
        while x2 < w
            invariant
                1 <= wi,
                1 <= hi,
                wi == width as int,
                hi == height as int,
                w == wi,
                h == hi,
                n == wi * hi,
                n <= 255,
                i < n,
                x2 <= w,
                forall|p: int| 0 <= p < r@.len()
                    ==> is_nbr(wi, hi, i as int, #[trigger] r@[p] as int),
                forall|p: int, q: int| 0 <= p < q < r@.len()
                    ==> col_pos(#[trigger] r@[p] as int, wi, hi)
                        < col_pos(#[trigger] r@[q] as int, wi, hi),
                forall|j: int| #![all_triggers] 0 <= j < n ==> (r@.contains(j as u8) <==> (
                    is_nbr(wi, hi, i as int, j) && col_pos(j, wi, hi) < x2 * hi)),
            decreases w - x2,
        {
            let mut y2: usize = 0;
            while y2 < h
                invariant
                    1 <= wi,
                    1 <= hi,
                    wi == width as int,
                    hi == height as int,
                    w == wi,
                    h == hi,
                    n == wi * hi,
                    n <= 255,
                    i < n,
                    x2 < w,
                    y2 <= h,
                    forall|p: int| 0 <= p < r@.len()
                        ==> is_nbr(wi, hi, i as int, #[trigger] r@[p] as int),
                    forall|p: int, q: int| 0 <= p < q < r@.len()
                        ==> col_pos(#[trigger] r@[p] as int, wi, hi)
                            < col_pos(#[trigger] r@[q] as int, wi, hi),
                    forall|j: int| #![all_triggers] 0 <= j < n ==> (r@.contains(j as u8) <==> (
                        is_nbr(wi, hi, i as int, j) && col_pos(j, wi, hi) < x2 * hi + y2)),
                decreases h - y2,
            {
                proof {
                    lemma_cell_index(wi, hi, x2 as int, y2 as int);
                    vstd::arithmetic::div_mod::lemma_fundamental_div_mod_converse(
                        x2 as int * hi + y2 as int, hi, x2 as int, y2 as int);
                    assert(valid_cell(wi, hi, cell_index(wi, x2 as int, y2 as int)));
                }
                let j = y2 * w + x2;
                proof {
                    assert(col_pos(j as int, wi, hi) == x2 as int * hi + y2 as int);
                }
                if Self::nbr_exec(width, height, i, j) {
                    let ghost old_r = r@;
                    r.push(j as u8);
                    assert forall|e: int| #![all_triggers] 0 <= e < n implies (r@.contains(e as u8) <==> (
                        is_nbr(wi, hi, i as int, e)
                            && col_pos(e, wi, hi) < x2 * hi + y2 + 1)) by {
                        crate::grid::lemma_push_contains(old_r, j as u8, e as u8);
                        if e as u8 == j as u8 {
                            assert(e == j);
                        }
                        if is_nbr(wi, hi, i as int, e)
                            && col_pos(e, wi, hi) == x2 * hi + y2 {
                            lemma_col_pos_injective(wi, hi, e, j as int);
                            assert(e == j);
                        }
                    }
                    assert forall|p: int, q: int| 0 <= p < q < r@.len() implies
                        col_pos(#[trigger] r@[p] as int, wi, hi)
                            < col_pos(#[trigger] r@[q] as int, wi, hi) by {
                        if q == r@.len() - 1 {
                            assert(r@[p] == old_r[p]);
                            assert(old_r.contains(old_r[p]));
                            assert(col_pos(r@[p] as int, wi, hi) < x2 * hi + y2);
                        } else {
                            assert(r@[p] == old_r[p] && r@[q] == old_r[q]);
                        }
                    }
                } else {
                    assert forall|e: int| #![all_triggers] 0 <= e < n implies (r@.contains(e as u8) <==> (
                        is_nbr(wi, hi, i as int, e)
                            && col_pos(e, wi, hi) < x2 * hi + y2 + 1)) by {
                        if is_nbr(wi, hi, i as int, e)
                            && col_pos(e, wi, hi) == x2 * hi + y2 {
                            lemma_col_pos_injective(wi, hi, e, j as int);
                        }
                    }
                }
                y2 = y2 + 1;
            }
            proof {
                assert(x2 as int * hi + hi == (x2 + 1) as int * hi) by {
                    vstd::arithmetic::mul::lemma_mul_is_distributive_add_other_way(
                        hi, x2 as int, 1);
                }
            }
            x2 = x2 + 1;
        }
        proof {
            assert forall|j: int| 0 <= j < n && is_nbr(wi, hi, i as int, j) implies
                r@.contains(j as u8) by {
                lemma_col_pos_bounds(wi, hi, j);
                assert(col_pos(j, wi, hi) < wi * hi);
            }
            assert(r@.no_duplicates()) by {
                assert forall|p: int, q: int|
                    0 <= p < r@.len() && 0 <= q < r@.len() && p != q implies
                    r@[p] != r@[q] by {}
            }
            Self::lemma_neighbour_list_bounds(wi, hi, i as int, r@);
        }
        r
    }


    /// A cell's neighbour list holds between three (on a board at least two
    /// cells wide and high) and eight entries.
    #[verifier::spinoff_prover]
    #[verifier::rlimit(100)]
    proof fn lemma_neighbour_list_bounds(wi: int, hi: int, i: int, r_at: Seq<u8>)
        requires
            1 <= wi,
            1 <= hi,
            wi * hi <= 255,
            0 <= i < wi * hi,
            r_at.no_duplicates(),
            forall|p: int| 0 <= p < r_at.len() ==> is_nbr(wi, hi, i, #[trigger] r_at[p] as int),
            forall|j: int| #![all_triggers] 0 <= j < wi * hi
                ==> (r_at.contains(j as u8) <==> is_nbr(wi, hi, i, j)),
        ensures
            r_at.len() <= 8,
            2 <= wi && 2 <= hi ==> r_at.len() >= 3,
    {
    // At most eight cells fit a Chebyshev-distance-one
    // neighbourhood: each entry maps injectively to its coordinate
    // offset, of which there are eight.
    assert(r_at.len() <= 8) by {
        if r_at.len() >= 9 {
            lemma_coords(wi, hi, i);
            let x = crate::grid::x_of(i, wi);
            let y = crate::grid::y_of(i, wi);
            assert forall|p: int| 0 <= p < 9 implies {
                let c = (crate::grid::x_of(#[trigger] r_at[p] as int, wi) - x + 1) * 3
                    + (crate::grid::y_of(r_at[p] as int, wi) - y + 1);
                0 <= c <= 8 && c != 4
            } by {
                lemma_coords(wi, hi, r_at[p] as int);
            }
            assert forall|p: int, q: int| 0 <= p < 9 && 0 <= q < 9 && p != q implies
                (crate::grid::x_of(#[trigger] r_at[p] as int, wi) - x + 1) * 3
                    + (crate::grid::y_of(r_at[p] as int, wi) - y + 1)
                != (crate::grid::x_of(#[trigger] r_at[q] as int, wi) - x + 1) * 3
                    + (crate::grid::y_of(r_at[q] as int, wi) - y + 1) by {
                lemma_coords(wi, hi, r_at[p] as int);
                lemma_coords(wi, hi, r_at[q] as int);
                if crate::grid::x_of(r_at[p] as int, wi)
                    == crate::grid::x_of(r_at[q] as int, wi)
                    && crate::grid::y_of(r_at[p] as int, wi)
                    == crate::grid::y_of(r_at[q] as int, wi) {
                    assert(r_at[p] as int == cell_index(wi,
                        crate::grid::x_of(r_at[p] as int, wi),
                        crate::grid::y_of(r_at[p] as int, wi)));
                    assert(r_at[p] == r_at[q]);
                }
            }
            let c0 = (crate::grid::x_of(r_at[0] as int, wi) - x + 1) * 3
                + (crate::grid::y_of(r_at[0] as int, wi) - y + 1);
            let c1 = (crate::grid::x_of(r_at[1] as int, wi) - x + 1) * 3
                + (crate::grid::y_of(r_at[1] as int, wi) - y + 1);
            let c2 = (crate::grid::x_of(r_at[2] as int, wi) - x + 1) * 3
                + (crate::grid::y_of(r_at[2] as int, wi) - y + 1);
            let c3 = (crate::grid::x_of(r_at[3] as int, wi) - x + 1) * 3
                + (crate::grid::y_of(r_at[3] as int, wi) - y + 1);
            let c4 = (crate::grid::x_of(r_at[4] as int, wi) - x + 1) * 3
                + (crate::grid::y_of(r_at[4] as int, wi) - y + 1);
            let c5 = (crate::grid::x_of(r_at[5] as int, wi) - x + 1) * 3
                + (crate::grid::y_of(r_at[5] as int, wi) - y + 1);
            let c6 = (crate::grid::x_of(r_at[6] as int, wi) - x + 1) * 3
                + (crate::grid::y_of(r_at[6] as int, wi) - y + 1);
            let c7 = (crate::grid::x_of(r_at[7] as int, wi) - x + 1) * 3
                + (crate::grid::y_of(r_at[7] as int, wi) - y + 1);
            let c8 = (crate::grid::x_of(r_at[8] as int, wi) - x + 1) * 3
                + (crate::grid::y_of(r_at[8] as int, wi) - y + 1);
            assert(false);
        }
    }
    // A board at least two cells wide and high gives every cell at
    // least the three neighbours of its corner-most configuration.
    if 2 <= wi && 2 <= hi {
        lemma_coords(wi, hi, i);
        let x = crate::grid::x_of(i, wi);
        let y = crate::grid::y_of(i, wi);
        let nx: int = if x > 0 { x - 1 } else { x + 1 };
        let ny: int = if y > 0 { y - 1 } else { y + 1 };
        lemma_cell_index(wi, hi, nx, y);
        lemma_cell_index(wi, hi, x, ny);
        lemma_cell_index(wi, hi, nx, ny);
        let j1 = cell_index(wi, nx, y);
        let j2 = cell_index(wi, x, ny);
        let j3 = cell_index(wi, nx, ny);
        assert(is_nbr(wi, hi, i, j1)) by {
            assert(crate::grid::x_of(j1, wi) == nx && crate::grid::y_of(j1, wi) == y);
        }
        assert(is_nbr(wi, hi, i, j2)) by {
            assert(crate::grid::x_of(j2, wi) == x && crate::grid::y_of(j2, wi) == ny);
        }
        assert(is_nbr(wi, hi, i, j3)) by {
            assert(crate::grid::x_of(j3, wi) == nx && crate::grid::y_of(j3, wi) == ny);
        }
        assert(r_at.contains(j1 as u8) && r_at.contains(j2 as u8)
            && r_at.contains(j3 as u8));
        let p1 = choose|p: int| 0 <= p < r_at.len() && r_at[p] == j1 as u8;
        let p2 = choose|p: int| 0 <= p < r_at.len() && r_at[p] == j2 as u8;
        let p3 = choose|p: int| 0 <= p < r_at.len() && r_at[p] == j3 as u8;
        assert(p1 != p2 && p1 != p3 && p2 != p3);
        assert(r_at.len() >= 3);
    }
    }

    /// The cell at column `x`, row `y`.
    pub fn get(&self, x: u8, y: u8) -> (r: &Field)
        requires
            self.dims_ok(),
            x < self.width,
            y < self.height,
        ensures
            *r == self.fields@[cell_index(self.width as int, x as int, y as int)],
    {
        proof {
            lemma_cell_index(self.width as int, self.height as int, x as int, y as int);
        }
        &self.fields[(y as usize) * (self.width as usize) + (x as usize)]
    }

    /// Overwrites the status of the cell at column `x`, row `y`. The
    /// impact links and counts are left to the caller to keep consistent.
    pub fn set_data(&mut self, x: u8, y: u8, data: u8)
        requires
            old(self).dims_ok(),
            x < old(self).width,
            y < old(self).height,
        ensures
            final(self).fields@ == old(self).fields@.update(
                cell_index(old(self).width as int, x as int, y as int),
                Field {
                    data,
                    ..old(self).fields@[cell_index(old(self).width as int, x as int, y as int)]
                },
            ),
            final(self).width == old(self).width,
            final(self).height == old(self).height,
            final(self).num_open == old(self).num_open,
    {
        proof {
            lemma_cell_index(self.width as int, self.height as int, x as int, y as int);
        }
        let i = (y as usize) * (self.width as usize) + (x as usize);
        self.fields[i].data = data;
    }

    /// Renders the board: `X` for a bug, `.` for anything else, one line
    /// per row.
    pub fn to_string(&self) -> (r: String)
        requires
            self.dims_ok(),
        ensures
            r@.len() == self.height as int * (self.width as int + 1),
            forall|x: int, y: int| 0 <= x < self.width as int && 0 <= y < self.height as int
                ==> #[trigger] r@[y * (self.width as int + 1) + x] == (
                    if self.status_at(cell_index(self.width as int, x, y)) == BUG {
                        'X'
                    } else {
                        '.'
                    }),
            forall|y: int| 0 <= y < self.height as int
                ==> #[trigger] r@[y * (self.width as int + 1) + self.width as int] == '\n',
    {
        let ghost wi = self.width as int;
        let ghost hi = self.height as int;
        let mut result = String::new();
        let mut y: usize = 0;
        while y < self.height as usize
            invariant
                self.dims_ok(),
                wi == self.width as int,
                hi == self.height as int,
                y <= hi,
                result@.len() == y * (wi + 1),
                forall|xx: int, yy: int| 0 <= xx < wi && 0 <= yy < y
                    ==> #[trigger] result@[yy * (wi + 1) + xx] == (
                        if self.status_at(cell_index(wi, xx, yy)) == BUG {
                            'X'
                        } else {
                            '.'
                        }),
                forall|yy: int| 0 <= yy < y
                    ==> #[trigger] result@[yy * (wi + 1) + wi] == '\n',
            decreases hi - y,
        {
            let mut x: usize = 0;
            while x < self.width as usize
                invariant
                    self.dims_ok(),
                    wi == self.width as int,
                    hi == self.height as int,
                    y < hi,
                    x <= wi,
                    result@.len() == y * (wi + 1) + x,
                    forall|xx: int, yy: int| 0 <= xx < wi && 0 <= yy < y
                        ==> #[trigger] result@[yy * (wi + 1) + xx] == (
                            if self.status_at(cell_index(wi, xx, yy)) == BUG {
                                'X'
                            } else {
                                '.'
                            }),
                    forall|yy: int| 0 <= yy < y
                        ==> #[trigger] result@[yy * (wi + 1) + wi] == '\n',
                    forall|xx: int| 0 <= xx < x
                        ==> #[trigger] result@[y * (wi + 1) + xx] == (
                            if self.status_at(cell_index(wi, xx, y as int)) == BUG {
                                'X'
                            } else {
                                '.'
                            }),
                decreases wi - x,
            {
                proof {
                    lemma_cell_index(wi, hi, x as int, y as int);
                    assert(y as int * (wi + 1) + wi < hi * (wi + 1)) by (nonlinear_arith)
                        requires
                            (y as int) < hi,
                            0 <= y as int,
                            1 <= wi,
                    ;
                }
                let i = y * (self.width as usize) + x;
                let ghost before = result@;
                if self.fields[i].data == BUG {
                    crate::strings::push_char(&mut result, 'X');
                } else {
                    crate::strings::push_char(&mut result, '.');
                }
                proof {
                    assert forall|xx2: int, yy2: int| 0 <= xx2 < wi + 1 && 0 <= yy2 < y implies
                        #[trigger] result@[yy2 * (wi + 1) + xx2]
                            == before[yy2 * (wi + 1) + xx2] by {
                        crate::grid::lemma_lex_index_bound(wi + 1, y as int, yy2, xx2);
                    }
                }
                x = x + 1;
            }
            let ghost before_nl = result@;
            crate::strings::push_char(&mut result, '\n');
            proof {
                assert forall|xx2: int, yy2: int| 0 <= xx2 < wi + 1 && 0 <= yy2 < y implies
                    #[trigger] result@[yy2 * (wi + 1) + xx2]
                        == before_nl[yy2 * (wi + 1) + xx2] by {
                    crate::grid::lemma_lex_index_bound(wi + 1, y as int, yy2, xx2);
                }
                assert((y as int + 1) * (wi + 1) == y as int * (wi + 1) + wi + 1)
                    by (nonlinear_arith);
                assert(result@[y as int * (wi + 1) + wi] == '\n');
            }
            y = y + 1;
        }
        result
    }
}

} // verus!
