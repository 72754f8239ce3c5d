//! Board-level laws: properties that relate several operations, stated and
//! proved over the same spec functions the operations' contracts use.

use vstd::prelude::*;

use crate::field::{GameData, BUG, UNOPENED};
use crate::grid::{count_in_range, is_nbr, lemma_nbr_symmetric};

verus! {

/// How many cells of the board hold a bug.
pub open spec fn bug_total(g: GameData) -> int {
    count_in_range(g.statuses(), BUG, BUG, g.n())
}

/// Impact symmetry. On a freshly built board, a hidden cell lists an opened
/// neighbour among its `impacts` exactly when that neighbour lists it back
/// in `impacted_by`; and a pair of cells that are not neighbours appears in
/// neither direction of either list.
pub proof fn lemma_impact_symmetry(g: GameData, h: int, o: int)
    requires
        g.freshly_wired(),
        0 <= h < g.n(),
        0 <= o < g.n(),
    ensures
        g.status_at(h) == UNOPENED && g.status_at(o) <= 8
            && is_nbr(g.width as int, g.height as int, h, o)
            ==> (g.fields@[h].impacts@.contains(o as u8)
                <==> g.fields@[o].impacted_by@.contains(h as u8)),
        !is_nbr(g.width as int, g.height as int, h, o) ==> {
            &&& !g.fields@[h].impacts@.contains(o as u8)
            &&& !g.fields@[o].impacted_by@.contains(h as u8)
            &&& !g.fields@[h].impacted_by@.contains(o as u8)
            &&& !g.fields@[o].impacts@.contains(h as u8)
        },
{
    lemma_nbr_symmetric(g.width as int, g.height as int, h, o);
}

/// Impact only at the boundary. An opened cell surrounded by opened cells
/// is linked to nothing: it has no information left to give or take, so on
/// a fresh board both of its impact lists are empty.
pub proof fn lemma_interior_cell_unlinked(g: GameData, c: int)
    requires
        g.freshly_wired(),
        0 <= c < g.n(),
        g.status_at(c) <= 8,
        forall|j: int| 0 <= j < g.n() && is_nbr(g.width as int, g.height as int, c, j)
            ==> g.status_at(j) <= 8,
    ensures
        g.fields@[c].impacts@.len() == 0,
        g.fields@[c].impacted_by@.len() == 0,
{
    if g.fields@[c].impacts@.len() > 0 {
        let e = g.fields@[c].impacts@[0];
        assert(g.fields@[c].impacts@.contains(e));
        assert(is_nbr(g.width as int, g.height as int, c, e as int));
        assert(g.fields@[c].impacts@.contains((e as int) as u8));
        assert(g.status_at(c) == UNOPENED);
    }
    if g.fields@[c].impacted_by@.len() > 0 {
        let e = g.fields@[c].impacted_by@[0];
        assert(g.fields@[c].impacted_by@.contains(e));
        assert(g.ib_entry_ok(c, e));
        assert(g.fields@[c].impacted_by@.contains((e as int) as u8));
        assert(g.status_at(e as int) <= 8);
    }
}

/// Determinism on boards with no opened cell. There the filler's output is
/// pinned cell by cell as a function of the board, the seed and the
/// percentage ([`GameData::filled_as_proposed`], which `fill_in` ensures),
/// so two successful runs on equal inputs decide every cell identically.
pub proof fn lemma_fill_deterministic_no_open(
    g: GameData,
    seed: u64,
    pct: u8,
    out1: GameData,
    out2: GameData,
)
    requires
        g.no_open_cells(),
        g.filled_as_proposed(seed, pct, out1),
        g.filled_as_proposed(seed, pct, out2),
    ensures
        forall|i: int| 0 <= i < g.n()
            ==> #[trigger] out1.status_at(i) == out2.status_at(i),
{
}

/// Density is monotone at the extremes on boards with no opened cell: a
/// zero percentage adds no bug at all, a hundred turns every undecided
/// cell into a bug, and any percentage in between yields a bug count
/// between those two.
pub proof fn lemma_density_extremes(
    g: GameData,
    seed: u64,
    pct: u8,
    out0: GameData,
    outp: GameData,
    out100: GameData,
)
    requires
        g.dims_ok(),
        g.no_open_cells(),
        pct <= 100,
        g.filled_as_proposed(seed, 0, out0),
        g.filled_as_proposed(seed, pct, outp),
        g.filled_as_proposed(seed, 100, out100),
        out0.fields@.len() == g.fields@.len() && out0.width == g.width
            && out0.height == g.height,
        outp.fields@.len() == g.fields@.len() && outp.width == g.width
            && outp.height == g.height,
        out100.fields@.len() == g.fields@.len() && out100.width == g.width
            && out100.height == g.height,
    ensures
        bug_total(out0) == bug_total(g),
        bug_total(out0) <= bug_total(outp),
        bug_total(outp) <= bug_total(out100),
{
    let n = g.n();
    assert forall|j: int| #![all_triggers] 0 <= j < n implies {
        &&& (out0.statuses()[j] == BUG <==> g.statuses()[j] == BUG)
        &&& (out0.statuses()[j] == BUG ==> outp.statuses()[j] == BUG)
        &&& (outp.statuses()[j] == BUG ==> out100.statuses()[j] == BUG)
    } by {
        assert(out0.status_at(j) == out0.statuses()[j]);
        assert(outp.status_at(j) == outp.statuses()[j]);
        assert(out100.status_at(j) == out100.statuses()[j]);
        assert(g.status_at(j) == g.statuses()[j]);
        assert(g.proposed_status(seed, 0, j) != BUG) by {
            assert(!crate::proposal::spec_bit(seed,
                (g.n() - 1 - crate::grid::col_pos(j, g.width as int, g.height as int)) as nat,
                0));
        }
        assert(g.proposed_status(seed, 100, j) == BUG);
        if outp.statuses()[j] == BUG {
            assert(g.status_at(j) == BUG || g.status_at(j) == UNOPENED);
        }
    }
    crate::grid::lemma_count_in_range_monotone(out0.statuses(), g.statuses(), BUG, BUG, n);
    crate::grid::lemma_count_in_range_monotone(g.statuses(), out0.statuses(), BUG, BUG, n);
    crate::grid::lemma_count_in_range_monotone(out0.statuses(), outp.statuses(), BUG, BUG, n);
    crate::grid::lemma_count_in_range_monotone(outp.statuses(), out100.statuses(), BUG, BUG, n);
}

} // verus!
