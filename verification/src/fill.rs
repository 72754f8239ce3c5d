//! The filler: a local, depth-first, proposal-biased backtracking solver
//! that commits every still-undecided cell to bug or bug-free while keeping
//! every opened cell's declared count reachable.

use vstd::prelude::*;

use crate::field::{GameData, BUG, UNOPENED, UNOPENED_BUGFREE};
use crate::grid::{
    cell_index, col_pos, count_in_range, is_nbr, lemma_cell_index, lemma_col_pos_bounds,
    lemma_coords, lemma_count_in_range_update, lemma_nbr_count_update, lemma_push_contains,
    lemma_push_no_duplicates, lemma_remove_at, nbr_count, valid_cell, x_of, y_of,
};

use crate::proposal::{build_proposal, spec_bit};

verus! {

/// The one failure the filler can report: some cell could be committed
/// neither way, so no completion was found.
#[derive(Debug)]
pub enum FillError {
    /// Both commitments of some cell broke an opened neighbour's count.
    FillFailed,
}

/// Removes the (at most one) occurrence of `val` from a duplicate-free
/// vector, keeping the order of the rest.
fn remove_value(v: &mut Vec<u8>, val: u8)
    requires
        old(v)@.no_duplicates(),
    ensures
        final(v)@.no_duplicates(),
        forall|x: u8| #![all_triggers] final(v)@.contains(x)
            <==> (old(v)@.contains(x) && x != val),
        final(v)@.len() == old(v)@.len()
            - (if old(v)@.contains(val) { 1int } else { 0int }),
{
    let mut k: usize = 0;
    while k < v.len()
        invariant
            v@ == old(v)@,
            old(v)@.no_duplicates(),
            k <= v@.len(),
            forall|p: int| 0 <= p < k ==> v@[p] != val,
        decreases v@.len() - k,
    {
        if v[k] == val {
            proof {
                assert(old(v)@[k as int] == val);
                lemma_remove_at(old(v)@, k as int, val);
            }
            v.remove(k);
            return;
        }
        k = k + 1;
    }
    proof {
        if old(v)@.contains(val) {
            let q = choose|q: int| 0 <= q < old(v)@.len() && old(v)@[q] == val;
        }
    }
}

/// Whether the work list already holds the cell (`x`, `y`).
fn wl_contains(l: &Vec<(u8, u8)>, x: u8, y: u8) -> (r: bool)
    ensures
        r == l@.contains((x, y)),
{
    let mut k: usize = 0;
    while k < l.len()
        invariant
            k <= l@.len(),
            forall|p: int| 0 <= p < k ==> l@[p] != (x, y),
        decreases l@.len() - k,
    {
        let (ex, ey) = l[k];
        if ex == x && ey == y {
            assert(l@[k as int] == (x, y));
            return true;
        }
        k = k + 1;
    }
    proof {
        if l@.contains((x, y)) {
            let q = choose|q: int| 0 <= q < l@.len() && l@[q] == (x, y);
        }
    }
    false
}

impl GameData {
    /// How many cells are still undecided.
    pub open spec fn unopened_count(self) -> int {
        count_in_range(self.statuses(), UNOPENED, UNOPENED, self.n())
    }

    /// Index of a work-list entry on this board.
    pub open spec fn wl_index(self, p: (u8, u8)) -> int {
        cell_index(self.width as int, p.0 as int, p.1 as int)
    }

    /// Work-list entries are in range, still undecided, and unrepeated.
    pub open spec fn worklist_ok(self, l: Seq<(u8, u8)>) -> bool {
        &&& forall|k: int| #![all_triggers] 0 <= k < l.len() ==> {
            &&& l[k].0 < self.width
            &&& l[k].1 < self.height
            &&& self.status_at(self.wl_index(l[k])) == UNOPENED
        }
        &&& l.no_duplicates()
    }

    /// Whether some work-list entry denotes cell `i`.
    pub open spec fn wl_has(self, l: Seq<(u8, u8)>, i: int) -> bool {
        exists|k: int| 0 <= k < l.len() && self.wl_index(#[trigger] l[k]) == i
    }

    /// The status the proposal bitmap prefers for cell `i`.
    pub open spec fn prop_choice(self, proposal: Seq<bool>, i: int) -> u8 {
        if proposal[col_pos(i, self.width as int, self.height as int)] {
            BUG
        } else {
            UNOPENED_BUGFREE
        }
    }

    /// What stays fixed across one solver step: the shape, the `impacts`
    /// lists, and every already-decided status; an undecided cell may only
    /// move to [`BUG`] or [`UNOPENED_BUGFREE`].
    pub open spec fn step_frame(self, b: GameData) -> bool {
        &&& b.width == self.width
        &&& b.height == self.height
        &&& b.num_open == self.num_open
        &&& b.fields@.len() == self.fields@.len()
        &&& forall|i: int| #![all_triggers] 0 <= i < self.n()
            ==> b.fields@[i].impacts == self.fields@[i].impacts
        &&& forall|i: int| #![all_triggers] 0 <= i < self.n() ==> (
            b.status_at(i) == self.status_at(i)
                || (self.status_at(i) == UNOPENED
                    && (b.status_at(i) == BUG || b.status_at(i) == UNOPENED_BUGFREE)))
    }

    /// What a failed solver step restores: every status, every bug count,
    /// and the length of every opened cell's `impacted_by` list.
    pub open spec fn restored_in(self, b: GameData) -> bool {
        forall|i: int| #![all_triggers] 0 <= i < self.n() ==> {
            &&& b.status_at(i) == self.status_at(i)
            &&& b.fields@[i].adjacent_bugs == self.fields@[i].adjacent_bugs
            &&& (self.status_at(i) <= 8 ==> b.fields@[i].impacted_by@.len()
                == self.fields@[i].impacted_by@.len())
        }
    }

    /// On a board with no opened cell every commitment succeeds, so the
    /// solver follows the proposal exactly: list cells take their proposed
    /// status, everything else keeps its status.
    pub open spec fn followed_proposal(
        self,
        l: Seq<(u8, u8)>,
        proposal: Seq<bool>,
        b: GameData,
    ) -> bool {
        forall|i: int| #![all_triggers] 0 <= i < self.n() ==> b.status_at(i) == (
            if self.wl_has(l, i) {
                self.prop_choice(proposal, i)
            } else {
                self.status_at(i)
            })
    }

    /// Tentatively commits the head of the work list to `is_bug`, updates
    /// and checks its neighbours, extends the work list with the cells
    /// newly coupled through the head's impact links, and recurses; undoes
    /// everything if the commitment cannot be completed.
    #[verifier::rlimit(100)]
    fn try_field(
        &mut self,
        handle_fields: &Vec<(u8, u8)>,
        proposal: &Vec<bool>,
        is_bug: bool,
    ) -> (res: Result<(), ()>)
        requires
            old(self).wf(),
            old(self).worklist_ok(handle_fields@),
            handle_fields@.len() >= 1,
            proposal@.len() == old(self).n(),
        ensures
            final(self).wf(),
            old(self).step_frame(*final(self)),
            old(self).counts_ok() ==> final(self).counts_ok(),
            res is Ok ==> final(self).status_at(old(self).wl_index(handle_fields@[0]))
                == (if is_bug { BUG } else { UNOPENED_BUGFREE }),
            res is Ok ==> forall|k: int| 0 <= k < handle_fields@.len()
                ==> final(self).status_at(old(self).wl_index(#[trigger] handle_fields@[k]))
                    != UNOPENED,
            res is Err ==> old(self).restored_in(*final(self)),
            old(self).no_open_cells() ==> res is Ok,
            old(self).no_open_cells() ==> forall|i: int| #![all_triggers]
                0 <= i < old(self).n() ==> final(self).status_at(i) == (
                    if i == old(self).wl_index(handle_fields@[0]) {
                        if is_bug { BUG } else { UNOPENED_BUGFREE }
                    } else if old(self).wl_has(handle_fields@.skip(1), i) {
                        old(self).prop_choice(proposal@, i)
                    } else {
                        old(self).status_at(i)
                    }),
        decreases old(self).unopened_count(), 0int,
    {
        let ghost g0 = *self;
        let ghost wi = self.width as int;
        let ghost hi = self.height as int;
        let ghost n = g0.n();
        let (x, y) = handle_fields[0];
        proof {
            lemma_cell_index(wi, hi, x as int, y as int);
        }
        let my: usize = (y as usize) * (self.width as usize) + (x as usize);
        let ghost myi = my as int;
        let nd: u8 = if is_bug { BUG } else { UNOPENED_BUGFREE };
        let ghost d0 = g0.statuses();
        let ghost d1 = d0.update(myi, nd);
        self.fields[my].data = nd;
        proof {
            assert(self.statuses() =~= d1);
        }

        // Local update and check: raise the neighbours' bug counts if a bug
        // was placed, unlink the head from their `impacted_by`, and test
        // that each opened neighbour's count is still reachable.
        let n_exec: usize = self.fields.len();
        let mut all_ok = true;
        let mut j: usize = 0;
        while j < n_exec
            invariant
                g0.wf(),
                self.width == g0.width,
                self.height == g0.height,
                self.num_open == g0.num_open,
                self.fields@.len() == n,
                wi == g0.width as int,
                hi == g0.height as int,
                n == wi * hi,
                n <= 255,
                n_exec == n,
                j <= n,
                my < n,
                myi == my as int,
                valid_cell(wi, hi, myi),
                d0 == g0.statuses(),
                d0[myi] == UNOPENED,
                nd == (if is_bug { BUG } else { UNOPENED_BUGFREE }),
                d1 == d0.update(myi, nd),
                forall|i: int| #![all_triggers] 0 <= i < n ==> self.status_at(i) == d1[i],
                forall|i: int| #![all_triggers] 0 <= i < n
                    ==> self.fields@[i].impacts == g0.fields@[i].impacts,
                forall|i: int| #![all_triggers] 0 <= i < n && i < j
                    ==> self.fields@[i].adjacent_bugs as int == nbr_count(d1, wi, hi, i, BUG),
                forall|i: int| #![all_triggers] j <= i < n
                    ==> self.fields@[i].adjacent_bugs == g0.fields@[i].adjacent_bugs,
                forall|i: int| #![all_triggers] 0 <= i < n && i < j ==> {
                    &&& self.fields@[i].impacted_by@.no_duplicates()
                    &&& (forall|e: u8| #![all_triggers] self.fields@[i].impacted_by@.contains(e)
                        <==> (g0.fields@[i].impacted_by@.contains(e) && e as int != myi))
                    &&& (d0[i] <= 8 ==> self.fields@[i].impacted_by@.len()
                        == g0.fields@[i].impacted_by@.len() - (
                        if is_nbr(wi, hi, myi, i) { 1int } else { 0int }))
                },
                forall|i: int| #![all_triggers] j <= i < n
                    ==> self.fields@[i].impacted_by == g0.fields@[i].impacted_by,
                all_ok <==> (forall|i: int| #![all_triggers]
                    0 <= i < j && is_nbr(wi, hi, myi, i) && d1[i] <= 8 ==> {
                        &&& self.fields@[i].adjacent_bugs as int <= d1[i] as int
                        &&& d1[i] as int <= self.fields@[i].adjacent_bugs as int
                            + self.fields@[i].impacted_by@.len()
                    }),
            decreases n - j,
        {
            if Self::nbr_exec(self.width, self.height, my, j) {
                proof {
                    lemma_nbr_count_update(d0, wi, hi, j as int, BUG, myi, nd);
                    assert(g0.fields@[j as int].adjacent_bugs as int
                        == nbr_count(d0, wi, hi, j as int, BUG));
                    crate::grid::lemma_nbr_count_bounds(d1, wi, hi, j as int, BUG);
                    crate::grid::lemma_nbr_symmetric(wi, hi, myi, j as int);
                    assert(g0.status_at(j as int) == d0[j as int]);
                    assert(g0.status_at(myi) == UNOPENED);
                    if d0[j as int] <= 8 {
                        // Opened lists are complete, so the head is listed.
                        assert(g0.fields@[j as int].impacted_by@.contains(my as u8));
                    } else {
                        // Hidden lists may or may not list the head; the
                        // length clause below does not speak of them.
                    }
                    assert(g0.fields@[j as int].impacted_by@.no_duplicates());
                }
                if is_bug {
                    self.fields[j].adjacent_bugs = self.fields[j].adjacent_bugs + 1;
                }
                remove_value(&mut self.fields[j].impacted_by, my as u8);
                proof {
                    assert forall|e: u8| #![all_triggers]
                        self.fields@[j as int].impacted_by@.contains(e)
                            <==> (g0.fields@[j as int].impacted_by@.contains(e)
                                && e as int != myi) by {
                        assert(e == my as u8 <==> e as int == myi);
                    }
                }
                let fd = self.fields[j].data;
                let adj = self.fields[j].adjacent_bugs;
                let ok_here = fd > 8 || (fd >= adj
                    && ((fd - adj) as usize) <= self.fields[j].impacted_by.len());
                all_ok = all_ok && ok_here;
            } else {
                proof {
                    lemma_nbr_count_update(d0, wi, hi, j as int, BUG, myi, nd);
                }
            }
            j = j + 1;
        }

        if all_ok {
            // Expand the work list: drop the head, then append every cell
            // that can still change the count of an opened cell the head
            // was contributing to.
            let mut new_fields: Vec<(u8, u8)> = Vec::new();
            let mut t: usize = 1;
            while t < handle_fields.len()
                invariant
                    1 <= t <= handle_fields@.len(),
                    new_fields@ =~= handle_fields@.subrange(1, t as int),
                decreases handle_fields@.len() - t,
            {
                let p = handle_fields[t];
                new_fields.push(p);
                proof {
                    assert(new_fields@ =~= handle_fields@.subrange(1, t as int + 1));
                }
                t = t + 1;
            }
            proof {
                assert(new_fields@ =~= handle_fields@.skip(1));
            }
            let ghost tail = handle_fields@.skip(1);
            proof {
                assert(tail.no_duplicates()) by {
                    assert forall|p: int, q: int|
                        0 <= p < tail.len() && 0 <= q < tail.len() && p != q implies
                        tail[p] != tail[q] by {
                        assert(tail[p] == handle_fields@[p + 1]);
                        assert(tail[q] == handle_fields@[q + 1]);
                    }
                }
                assert forall|k: int| #![all_triggers] 0 <= k < new_fields@.len() implies {
                    &&& new_fields@[k].0 < g0.width
                    &&& new_fields@[k].1 < g0.height
                    &&& d1[g0.wl_index(new_fields@[k])] == UNOPENED
                } by {
                    assert(new_fields@[k] == handle_fields@[k + 1]);
                    let e = handle_fields@[k + 1];
                    lemma_cell_index(wi, hi, e.0 as int, e.1 as int);
                    assert(d0[g0.wl_index(e)] == UNOPENED);
                    assert(e != handle_fields@[0]);
                    if g0.wl_index(e) == myi {
                        lemma_coords(wi, hi, myi);
                        assert(e.0 == x && e.1 == y);
                    }
                }
            }

            let mut a: usize = 0;
            while a < self.fields[my].impacts.len()
                invariant
                    g0.wf(),
                    self.width == g0.width,
                    self.height == g0.height,
                    self.num_open == g0.num_open,
                    self.fields@.len() == n,
                    wi == g0.width as int,
                    hi == g0.height as int,
                    n == wi * hi,
                    n <= 255,
                    my < n,
                    valid_cell(wi, hi, myi),
                    myi == my as int,
                    d0 == g0.statuses(),
                    d0[myi] == UNOPENED,
                    d1 == d0.update(myi, nd),
                    nd > 8,
                    a <= self.fields@[myi].impacts@.len(),
                    g0.worklist_ok(handle_fields@),
                    handle_fields@.len() >= 1,
                    tail == handle_fields@.skip(1),
                    myi == g0.wl_index(handle_fields@[0]),
                    forall|i: int| #![all_triggers] 0 <= i < n ==> self.status_at(i) == d1[i],
                    forall|i: int| #![all_triggers] 0 <= i < n
                        ==> self.fields@[i].impacts == g0.fields@[i].impacts,
                    forall|i: int| #![all_triggers] 0 <= i < n
                        ==> self.fields@[i].adjacent_bugs as int
                            == nbr_count(d1, wi, hi, i, BUG),
                    forall|i: int| #![all_triggers] 0 <= i < n ==> {
                        &&& self.fields@[i].impacted_by@.no_duplicates()
                        &&& (forall|e: u8| #![all_triggers]
                            self.fields@[i].impacted_by@.contains(e)
                                <==> (g0.fields@[i].impacted_by@.contains(e)
                                    && e as int != myi))
                        &&& (d0[i] <= 8 ==> self.fields@[i].impacted_by@.len()
                            == g0.fields@[i].impacted_by@.len() - (
                            if is_nbr(wi, hi, myi, i) { 1int } else { 0int }))
                    },
                    new_fields@.no_duplicates(),
                    forall|k: int| #![all_triggers] 0 <= k < new_fields@.len() ==> {
                        &&& new_fields@[k].0 < g0.width
                        &&& new_fields@[k].1 < g0.height
                        &&& d1[g0.wl_index(new_fields@[k])] == UNOPENED
                    },
                    forall|k: int| 0 <= k < tail.len()
                        ==> new_fields@.contains(#[trigger] tail[k]),
                    g0.no_open_cells() ==> new_fields@ == tail,
                decreases self.fields@[myi].impacts@.len() - a,
            {
                let o = self.fields[my].impacts[a];
                let ou = o as usize;
                proof {
                    assert(self.fields@[myi].impacts == g0.fields@[myi].impacts);
                    assert(o == g0.fields@[myi].impacts@[a as int]);
                    assert(is_nbr(wi, hi, myi, o as int) && g0.status_at(o as int) <= 8);
                    assert(d0[o as int] <= 8);
                    assert(o as int != myi);
                    assert(d1[o as int] <= 8);
                }
                let mut b: usize = 0;
                while b < self.fields[ou].impacted_by.len()
                    invariant
                        g0.wf(),
                        self.width == g0.width,
                        self.height == g0.height,
                        self.num_open == g0.num_open,
                        self.fields@.len() == n,
                        wi == g0.width as int,
                        hi == g0.height as int,
                        n == wi * hi,
                        n <= 255,
                        my < n,
                        valid_cell(wi, hi, myi),
                        myi == my as int,
                        d0 == g0.statuses(),
                        d0[myi] == UNOPENED,
                        d1 == d0.update(myi, nd),
                        nd > 8,
                        ou < n,
                        ou == o as int,
                        d0[o as int] <= 8,
                        b <= self.fields@[ou as int].impacted_by@.len(),
                        g0.worklist_ok(handle_fields@),
                        handle_fields@.len() >= 1,
                        tail == handle_fields@.skip(1),
                        myi == g0.wl_index(handle_fields@[0]),
                        forall|i: int| #![all_triggers] 0 <= i < n
                            ==> self.status_at(i) == d1[i],
                        forall|i: int| #![all_triggers] 0 <= i < n
                            ==> self.fields@[i].impacts == g0.fields@[i].impacts,
                        forall|i: int| #![all_triggers] 0 <= i < n
                            ==> self.fields@[i].adjacent_bugs as int
                                == nbr_count(d1, wi, hi, i, BUG),
                        forall|i: int| #![all_triggers] 0 <= i < n ==> {
                            &&& self.fields@[i].impacted_by@.no_duplicates()
                            &&& (forall|e: u8| #![all_triggers]
                                self.fields@[i].impacted_by@.contains(e)
                                    <==> (g0.fields@[i].impacted_by@.contains(e)
                                        && e as int != myi))
                            &&& (d0[i] <= 8 ==> self.fields@[i].impacted_by@.len()
                                == g0.fields@[i].impacted_by@.len() - (
                                if is_nbr(wi, hi, myi, i) { 1int } else { 0int }))
                        },
                        new_fields@.no_duplicates(),
                        forall|k: int| #![all_triggers] 0 <= k < new_fields@.len() ==> {
                            &&& new_fields@[k].0 < g0.width
                            &&& new_fields@[k].1 < g0.height
                            &&& d1[g0.wl_index(new_fields@[k])] == UNOPENED
                        },
                        forall|k: int| 0 <= k < tail.len()
                            ==> new_fields@.contains(#[trigger] tail[k]),
                        g0.no_open_cells() ==> new_fields@ == tail,
                    decreases self.fields@[ou as int].impacted_by@.len() - b,
                {
                    let tc = self.fields[ou].impacted_by[b];
                    proof {
                        assert(self.fields@[ou as int].impacted_by@.contains(tc));
                        assert(g0.fields@[ou as int].impacted_by@.contains(tc)
                            && tc as int != myi);
                        let q = choose|q: int| 0 <= q < g0.fields@[ou as int].impacted_by@.len()
                            && g0.fields@[ou as int].impacted_by@[q] == tc;
                        assert(g0.ib_entry_ok(ou as int, tc));
                        assert(valid_cell(wi, hi, tc as int));
                        lemma_coords(wi, hi, tc as int);
                        assert(d1[tc as int] == UNOPENED);
                        assert(!g0.no_open_cells()) by {
                            if g0.no_open_cells() {
                                assert(g0.status_at(o as int) > 8);
                            }
                        }
                    }
                    let tx = tc % self.width;
                    let ty = tc / self.width;
                    if !wl_contains(&new_fields, tx, ty) {
                        let ghost old_nf = new_fields@;
                        new_fields.push((tx, ty));
                        proof {
                            lemma_push_no_duplicates(old_nf, (tx, ty));
                            lemma_cell_index(wi, hi, tx as int, ty as int);
                            assert(g0.wl_index((tx, ty)) == tc as int);
                            assert forall|k: int| 0 <= k < tail.len() implies
                                new_fields@.contains(#[trigger] tail[k]) by {
                                assert(old_nf.contains(tail[k]));
                                lemma_push_contains(old_nf, (tx, ty), tail[k]);
                            }
                            assert forall|k: int| #![all_triggers]
                                0 <= k < new_fields@.len() implies {
                                &&& new_fields@[k].0 < g0.width
                                &&& new_fields@[k].1 < g0.height
                                &&& d1[g0.wl_index(new_fields@[k])] == UNOPENED
                            } by {
                                if k < new_fields@.len() - 1 {
                                    assert(new_fields@[k] == old_nf[k]);
                                }
                            }
                        }
                    }
                    b = b + 1;
                }
                a = a + 1;
            }

            // Recurse on the extended list.
            proof {
                assert(self.statuses() =~= d1);
                assert(self.wf()) by {
                    assert forall|i: int, jx: int| #![all_triggers]
                        0 <= i < n && 0 <= jx < n && self.status_at(i) <= 8
                            && is_nbr(wi, hi, i, jx) && self.status_at(jx) == UNOPENED
                        implies self.fields@[i].impacted_by@.contains(jx as u8) by {
                        assert(d1[i] <= 8 && d1[jx] == UNOPENED);
                        assert(i != myi && jx != myi);
                        assert(g0.status_at(i) <= 8 && g0.status_at(jx) == UNOPENED);
                        assert(g0.fields@[i].impacted_by@.contains(jx as u8));
                    }
                    assert forall|i: int, k: int|
                        0 <= i < n && 0 <= k < self.fields@[i].impacted_by@.len() implies
                        self.ib_entry_ok(i, #[trigger] self.fields@[i].impacted_by@[k]) by {
                        let e = self.fields@[i].impacted_by@[k];
                        assert(self.fields@[i].impacted_by@.contains(e));
                        assert(g0.fields@[i].impacted_by@.contains(e));
                        let q = choose|q: int| 0 <= q < g0.fields@[i].impacted_by@.len()
                            && g0.fields@[i].impacted_by@[q] == e;
                        assert(g0.ib_entry_ok(i, e));
                        assert(d1[e as int] == UNOPENED);
                    }
                    assert forall|i: int, k: int|
                        0 <= i < n && 0 <= k < self.fields@[i].impacts@.len() implies
                        is_nbr(wi, hi, i, (#[trigger] self.fields@[i].impacts@[k]) as int)
                            && self.status_at(self.fields@[i].impacts@[k] as int) <= 8 by {
                        assert(self.fields@[i].impacts == g0.fields@[i].impacts);
                        assert(g0.status_at(self.fields@[i].impacts@[k] as int) <= 8);
                        assert(self.fields@[i].impacts@[k] as int != myi);
                    }
                }
                assert(self.worklist_ok(new_fields@)) by {
                    assert forall|k: int| #![all_triggers]
                        0 <= k < new_fields@.len() implies {
                        &&& new_fields@[k].0 < self.width
                        &&& new_fields@[k].1 < self.height
                        &&& self.status_at(self.wl_index(new_fields@[k])) == UNOPENED
                    } by {
                        let e = new_fields@[k];
                        lemma_cell_index(wi, hi, e.0 as int, e.1 as int);
                        assert(d1[g0.wl_index(e)] == UNOPENED);
                    }
                }
                assert(self.unopened_count() == g0.unopened_count() - 1) by {
                    lemma_count_in_range_update(d0, UNOPENED, UNOPENED, n, myi, nd);
                }
                assert(g0.unopened_count() >= 0 && self.unopened_count() >= 0) by {
                    crate::grid::lemma_count_in_range_bounds(d0, UNOPENED, UNOPENED, n);
                    crate::grid::lemma_count_in_range_bounds(d1, UNOPENED, UNOPENED, n);
                }
                if g0.counts_ok() {
                    assert(self.counts_ok()) by {
                        assert forall|i: int|
                            0 <= i < n && #[trigger] self.status_at(i) <= 8 implies {
                            &&& self.fields@[i].adjacent_bugs as int <= self.status_at(i) as int
                            &&& self.status_at(i) as int <= self.fields@[i].adjacent_bugs as int
                                + self.fields@[i].impacted_by@.len()
                        } by {
                            assert(d1[i] <= 8 && i != myi && d0[i] == d1[i]);
                            assert(g0.status_at(i) <= 8);
                            if !is_nbr(wi, hi, myi, i) {
                                lemma_nbr_count_update(d0, wi, hi, i, BUG, myi, nd);
                            }
                        }
                    }
                }
            }
            let ghost gmid = *self;
            let rec = self.update_field(&new_fields, proposal);
            match rec {
                Ok(()) => {
                    proof {
                        assert(self.status_at(myi) == nd);
                        assert forall|k: int| 0 <= k < handle_fields@.len() implies
                            self.status_at(g0.wl_index(#[trigger] handle_fields@[k]))
                                != UNOPENED by {
                            if k == 0 {
                                assert(g0.wl_index(handle_fields@[0]) == myi);
                            } else {
                                assert(tail[k - 1] == handle_fields@[k]);
                                assert(new_fields@.contains(tail[k - 1]));
                                let pw = choose|pw: int| 0 <= pw < new_fields@.len()
                                    && new_fields@[pw] == tail[k - 1];
                                assert(gmid.wl_index(new_fields@[pw])
                                    == g0.wl_index(handle_fields@[k]));
                                assert(self.status_at(gmid.wl_index(new_fields@[pw]))
                                    != UNOPENED);
                            }
                        }
                        if g0.no_open_cells() {
                            assert(gmid.no_open_cells()) by {
                                assert forall|i: int| 0 <= i < n implies
                                    #[trigger] gmid.status_at(i) > 8 by {
                                    assert(g0.status_at(i) > 8);
                                    assert(d0[i] > 8);
                                    assert(gmid.status_at(i) == d1[i]);
                                }
                            }
                            assert(gmid.followed_proposal(new_fields@, proposal@, *self));
                            assert forall|i: int| #![all_triggers] 0 <= i < n implies
                                self.status_at(i) == (
                                if i == myi {
                                    nd
                                } else if g0.wl_has(tail, i) {
                                    g0.prop_choice(proposal@, i)
                                } else {
                                    g0.status_at(i)
                                }) by {
                                assert(gmid.status_at(i) == d1[i]);
                                if i == myi {
                                    assert(!gmid.wl_has(new_fields@, i)) by {
                                        if gmid.wl_has(new_fields@, i) {
                                            let k = choose|k: int|
                                                0 <= k < new_fields@.len()
                                                    && gmid.wl_index(new_fields@[k]) == i;
                                            assert(d1[g0.wl_index(new_fields@[k])]
                                                == UNOPENED);
                                        }
                                    }
                                    assert(self.status_at(i) == gmid.status_at(i));
                                } else if g0.wl_has(tail, i) {
                                    let k = choose|k: int| 0 <= k < tail.len()
                                        && g0.wl_index(tail[k]) == i;
                                    assert(new_fields@ == tail);
                                    assert(gmid.wl_index(new_fields@[k])
                                        == g0.wl_index(tail[k]));
                                    assert(gmid.wl_has(new_fields@, i));
                                    assert(gmid.prop_choice(proposal@, i)
                                        == g0.prop_choice(proposal@, i));
                                } else {
                                    if gmid.wl_has(new_fields@, i) {
                                        let k = choose|k: int| 0 <= k < new_fields@.len()
                                            && gmid.wl_index(new_fields@[k]) == i;
                                        assert(new_fields@ == tail);
                                        assert(g0.wl_index(tail[k]) == i);
                                        assert(g0.wl_has(tail, i));
                                    }
                                    assert(gmid.status_at(i) == d1[i] && d1[i] == d0[i]);
                                }
                            }
                        }
                    }
                    return Ok(());
                }
                Err(()) => {
                    proof {
                        assert(!g0.no_open_cells()) by {
                            if g0.no_open_cells() {
                                assert(gmid.no_open_cells()) by {
                                    assert forall|i: int| 0 <= i < n implies
                                        #[trigger] gmid.status_at(i) > 8 by {
                                        assert(g0.status_at(i) > 8);
                                        assert(d0[i] > 8);
                                        assert(gmid.status_at(i) == d1[i]);
                                    }
                                }
                            }
                        }
                    }
                }
            }
        }

        // Undo: restore the neighbours' bug counts, re-link the head into
        // their `impacted_by`, and put the head back to undecided.
        proof {
            assert(!g0.no_open_cells()) by {
                if g0.no_open_cells() && !all_ok {
                    let iw = choose|i: int|
                        0 <= i < n && is_nbr(wi, hi, myi, i) && d1[i] <= 8
                            && !(self.fields@[i].adjacent_bugs as int <= d1[i] as int
                                && d1[i] as int <= self.fields@[i].adjacent_bugs as int
                                    + self.fields@[i].impacted_by@.len());
                    assert(g0.status_at(iw) > 8);
                    assert(d0[iw] > 8 && iw != myi);
                    assert(d1[iw] > 8);
                }
            }
        }
        let ghost gc = *self;
        let mut j2: usize = 0;
        while j2 < n_exec
            invariant
                g0.wf(),
                self.width == g0.width,
                self.height == g0.height,
                self.num_open == g0.num_open,
                self.fields@.len() == n,
                wi == g0.width as int,
                hi == g0.height as int,
                n == wi * hi,
                n <= 255,
                n_exec == n,
                j2 <= n,
                my < n,
                valid_cell(wi, hi, myi),
                myi == my as int,
                d0 == g0.statuses(),
                d0[myi] == UNOPENED,
                d1 == d0.update(myi, nd),
                nd > 8,
                nd == (if is_bug { BUG } else { UNOPENED_BUGFREE }),
                gc.fields@.len() == n,
                forall|i: int| #![all_triggers] j2 <= i < n
                    ==> self.fields@[i] == gc.fields@[i],
                forall|i: int| #![all_triggers] 0 <= i < n ==> gc.status_at(i) == d1[i],
                forall|i: int| #![all_triggers] 0 <= i < n
                    ==> gc.fields@[i].adjacent_bugs as int == nbr_count(d1, wi, hi, i, BUG),
                forall|i: int| #![all_triggers] 0 <= i < n ==> {
                    &&& gc.fields@[i].impacted_by@.no_duplicates()
                    &&& (forall|e: u8| #![all_triggers]
                        gc.fields@[i].impacted_by@.contains(e)
                            ==> is_nbr(wi, hi, i, e as int) && d1[e as int] == UNOPENED)
                    &&& (forall|jx: int| #![all_triggers] d1[i] <= 8 && 0 <= jx < n
                        && is_nbr(wi, hi, i, jx) && d1[jx] == UNOPENED
                        ==> gc.fields@[i].impacted_by@.contains(jx as u8))
                    &&& (d0[i] <= 8 ==> gc.fields@[i].impacted_by@.len()
                        == g0.fields@[i].impacted_by@.len() - (
                        if is_nbr(wi, hi, myi, i) { 1int } else { 0int }))
                },
                forall|i: int| #![all_triggers] 0 <= i < n ==> self.status_at(i) == d1[i],
                forall|i: int| #![all_triggers] 0 <= i < n
                    ==> self.fields@[i].impacts == gc.fields@[i].impacts,
                forall|i: int| #![all_triggers] 0 <= i < n
                    ==> gc.fields@[i].impacts == g0.fields@[i].impacts,
                forall|i: int| #![all_triggers] 0 <= i < n && i < j2
                    ==> self.fields@[i].adjacent_bugs == g0.fields@[i].adjacent_bugs,
                forall|i: int| #![all_triggers] 0 <= i < n && i < j2 ==> {
                    &&& self.fields@[i].impacted_by@.no_duplicates()
                    &&& (forall|e: u8| #![all_triggers]
                        self.fields@[i].impacted_by@.contains(e)
                            ==> is_nbr(wi, hi, i, e as int)
                                && (d1[e as int] == UNOPENED || e as int == myi))
                    &&& (forall|jx: int| #![all_triggers] d1[i] <= 8 && 0 <= jx < n
                        && is_nbr(wi, hi, i, jx) && (d1[jx] == UNOPENED || jx == myi)
                        ==> self.fields@[i].impacted_by@.contains(jx as u8))
                    &&& (d0[i] <= 8 ==> self.fields@[i].impacted_by@.len()
                        == g0.fields@[i].impacted_by@.len())
                },
            decreases n - j2,
        {
            proof {
                assert(self.fields@[j2 as int] == gc.fields@[j2 as int]);
            }
            if Self::nbr_exec(self.width, self.height, my, j2) {
                proof {
                    lemma_nbr_count_update(d0, wi, hi, j2 as int, BUG, myi, nd);
                    crate::grid::lemma_nbr_symmetric(wi, hi, myi, j2 as int);
                    assert(!self.fields@[j2 as int].impacted_by@.contains(my as u8)) by {
                        if gc.fields@[j2 as int].impacted_by@.contains(my as u8) {
                            assert(d1[myi] == UNOPENED);
                        }
                    }
                    assert(g0.fields@[j2 as int].adjacent_bugs as int
                        == nbr_count(d0, wi, hi, j2 as int, BUG));
                    crate::grid::lemma_nbr_count_bounds(d0, wi, hi, j2 as int, BUG);
                }
                if is_bug {
                    self.fields[j2].adjacent_bugs = self.fields[j2].adjacent_bugs - 1;
                }
                let ghost old_ib = self.fields@[j2 as int].impacted_by@;
                self.fields[j2].impacted_by.push(my as u8);
                proof {
                    lemma_push_no_duplicates(old_ib, my as u8);
                    assert forall|e: u8| #![all_triggers]
                        self.fields@[j2 as int].impacted_by@.contains(e) implies
                        is_nbr(wi, hi, j2 as int, e as int)
                            && (d1[e as int] == UNOPENED || e as int == myi) by {
                        lemma_push_contains(old_ib, my as u8, e);
                        if e == my as u8 {
                            assert(e as int == myi);
                        } else {
                            assert(gc.fields@[j2 as int].impacted_by@.contains(e));
                        }
                    }
                    assert forall|jx: int| #![all_triggers]
                        d1[j2 as int] <= 8 && 0 <= jx < n && is_nbr(wi, hi, j2 as int, jx)
                            && (d1[jx] == UNOPENED || jx == myi) implies
                        self.fields@[j2 as int].impacted_by@.contains(jx as u8) by {
                        if jx == myi {
                            lemma_push_contains(old_ib, my as u8, my as u8);
                        } else {
                            assert(gc.fields@[j2 as int].impacted_by@.contains(jx as u8));
                            lemma_push_contains(old_ib, my as u8, jx as u8);
                        }
                    }
                    if d0[j2 as int] <= 8 {
                        assert(self.fields@[j2 as int].impacted_by@.len()
                            == g0.fields@[j2 as int].impacted_by@.len());
                    }
                }
            } else {
                proof {
                    lemma_nbr_count_update(d0, wi, hi, j2 as int, BUG, myi, nd);
                    crate::grid::lemma_nbr_symmetric(wi, hi, myi, j2 as int);
                    assert forall|e: u8| #![all_triggers]
                        self.fields@[j2 as int].impacted_by@.contains(e) implies
                        is_nbr(wi, hi, j2 as int, e as int)
                            && (d1[e as int] == UNOPENED || e as int == myi) by {
                        assert(gc.fields@[j2 as int].impacted_by@.contains(e));
                    }
                }
            }
            j2 = j2 + 1;
        }
        self.fields[my].data = UNOPENED;
        proof {
            assert(self.statuses() =~= d0);
            assert(self.wf()) by {
                assert forall|i: int, k: int|
                    0 <= i < n && 0 <= k < self.fields@[i].impacted_by@.len() implies
                    self.ib_entry_ok(i, #[trigger] self.fields@[i].impacted_by@[k]) by {
                    let e = self.fields@[i].impacted_by@[k];
                    assert(self.fields@[i].impacted_by@.contains(e));
                    assert(is_nbr(wi, hi, i, e as int)
                        && (d1[e as int] == UNOPENED || e as int == myi));
                    assert(self.status_at(e as int) == d0[e as int]);
                }
                assert forall|i: int, jx: int| #![all_triggers]
                    0 <= i < n && 0 <= jx < n && self.status_at(i) <= 8
                        && is_nbr(wi, hi, i, jx) && self.status_at(jx) == UNOPENED
                    implies self.fields@[i].impacted_by@.contains(jx as u8) by {
                    assert(d0[i] <= 8 && i != myi && d1[i] <= 8);
                    if jx == myi {
                    } else {
                        assert(d1[jx] == UNOPENED);
                    }
                }
                assert forall|i: int, k: int|
                    0 <= i < n && 0 <= k < self.fields@[i].impacts@.len() implies
                    is_nbr(wi, hi, i, (#[trigger] self.fields@[i].impacts@[k]) as int)
                        && self.status_at(self.fields@[i].impacts@[k] as int) <= 8 by {
                    assert(self.fields@[i].impacts == g0.fields@[i].impacts);
                    assert(g0.status_at(self.fields@[i].impacts@[k] as int) <= 8);
                    assert(self.fields@[i].impacts@[k] as int != myi);
                }
            }
            assert(g0.restored_in(*self));
            assert(g0.step_frame(*self));
            if g0.counts_ok() {
                assert(self.counts_ok()) by {
                    assert forall|i: int|
                        0 <= i < n && #[trigger] self.status_at(i) <= 8 implies {
                        &&& self.fields@[i].adjacent_bugs as int <= self.status_at(i) as int
                        &&& self.status_at(i) as int <= self.fields@[i].adjacent_bugs as int
                            + self.fields@[i].impacted_by@.len()
                    } by {
                        assert(self.status_at(i) == g0.status_at(i));
                        assert(g0.status_at(i) <= 8);
                    }
                }
            }
        }
        Err(())
    }


    /// The proposal's preferred status for cell `i`, written out over the
    /// seed: the draw whose bit position is `i`'s column-major position.
    pub open spec fn proposed_status(self, seed: u64, pct: u8, i: int) -> u8 {
        if spec_bit(seed, (self.n() - 1 - col_pos(i, self.width as int, self.height as int)) as nat, pct) {
            BUG
        } else {
            UNOPENED_BUGFREE
        }
    }

    /// On a board with no opened cell the filler follows the proposal
    /// exactly: every undecided cell takes its proposed status, every other
    /// cell keeps its status. This pins the whole result as a function of
    /// the board, the seed and the percentage.
    pub open spec fn filled_as_proposed(self, seed: u64, pct: u8, out: GameData) -> bool {
        forall|i: int| #![all_triggers] 0 <= i < self.n() ==> out.status_at(i) == (
            if self.status_at(i) == UNOPENED {
                self.proposed_status(seed, pct, i)
            } else {
                self.status_at(i)
            })
    }

    /// Commits every still-undecided cell to [`BUG`] or [`UNOPENED_BUGFREE`]
    /// so that every opened cell's declared count stays satisfiable,
    /// preferring for each cell the choice drawn from `rand` with
    /// probability `bug_percentage` per cent. The input board is untouched;
    /// the completed board is returned. Fails only when some cell can be
    /// committed neither way.
    pub fn fill_in(&self, rand: u64, bug_percentage: u8) -> (res: Result<GameData, FillError>)
        requires
            self.wf(),
            bug_percentage <= 100,
        ensures
            self.no_open_cells() ==> res is Ok,
            res is Err ==> !self.no_open_cells() && self.unopened_count() > 0,
            res matches Ok(out) ==> {
                &&& out.wf()
                &&& out.width == self.width
                &&& out.height == self.height
                &&& out.num_open == self.num_open
                &&& out.fields@.len() == self.fields@.len()
                &&& (forall|i: int| 0 <= i < self.n()
                    ==> #[trigger] out.fields@[i].impacts@ == self.fields@[i].impacts@)
                &&& forall|i: int| #![all_triggers] 0 <= i < self.n()
                    ==> out.status_at(i) != UNOPENED
                &&& forall|i: int| #![all_triggers] 0 <= i < self.n() ==> (
                    out.status_at(i) == self.status_at(i)
                        || (self.status_at(i) == UNOPENED
                            && (out.status_at(i) == BUG
                                || out.status_at(i) == UNOPENED_BUGFREE)))
                &&& (self.counts_ok() ==> forall|i: int| #![all_triggers]
                    0 <= i < self.n() && self.status_at(i) <= 8
                        ==> nbr_count(out.statuses(), self.width as int, self.height as int,
                            i, BUG) == self.status_at(i) as int)
                &&& (self.no_open_cells()
                    ==> self.filled_as_proposed(rand, bug_percentage, out))
            },
    {
        let ghost wi = self.width as int;
        let ghost hi = self.height as int;
        let ghost n = self.n();
        let count = self.fields.len();
        let proposal = build_proposal(rand, count, bug_percentage);
        let mut result = self.clone();
        proof {
            crate::field::lemma_mirrors_wf(*self, result);
        }
        let w = self.width as usize;
        let h = self.height as usize;
        let mut y: u8 = 0;
        while (y as usize) < h
            invariant
                self.wf(),
                bug_percentage <= 100,
                wi == self.width as int,
                hi == self.height as int,
                n == wi * hi,
                n <= 255,
                w == wi,
                h == hi,
                count == n,
                y as int <= hi,
                proposal@.len() == n,
                forall|m: int| 0 <= m < n
                    ==> #[trigger] proposal@[m] == spec_bit(rand, (n - 1 - m) as nat,
                        bug_percentage),
                result.wf(),
                result.width == self.width,
                result.height == self.height,
                result.num_open == self.num_open,
                result.fields@.len() == n,
                forall|i: int| 0 <= i < n
                    ==> #[trigger] result.fields@[i].impacts@ == self.fields@[i].impacts@,
                forall|i: int| #![all_triggers] 0 <= i < n ==> (
                    result.status_at(i) == self.status_at(i)
                        || (self.status_at(i) == UNOPENED
                            && (result.status_at(i) == BUG
                                || result.status_at(i) == UNOPENED_BUGFREE))),
                self.counts_ok() ==> result.counts_ok(),
                forall|i: int| #![all_triggers] 0 <= i < y as int * wi
                    ==> result.status_at(i) != UNOPENED,
                self.no_open_cells() ==> forall|i: int| #![all_triggers] 0 <= i < n
                    ==> result.status_at(i) == (
                    if i < y as int * wi && self.status_at(i) == UNOPENED {
                        self.proposed_status(rand, bug_percentage, i)
                    } else {
                        self.status_at(i)
                    }),
            decreases hi - y as int,
        {
            let mut x: u8 = 0;
            while (x as usize) < w
                invariant
                    self.wf(),
                    bug_percentage <= 100,
                    wi == self.width as int,
                    hi == self.height as int,
                    n == wi * hi,
                    n <= 255,
                    w == wi,
                    h == hi,
                    count == n,
                    (y as int) < hi,
                    x as int <= wi,
                    proposal@.len() == n,
                    forall|m: int| 0 <= m < n
                        ==> #[trigger] proposal@[m] == spec_bit(rand, (n - 1 - m) as nat,
                            bug_percentage),
                    result.wf(),
                    result.width == self.width,
                    result.height == self.height,
                    result.num_open == self.num_open,
                    result.fields@.len() == n,
                    forall|i: int| 0 <= i < n
                        ==> #[trigger] result.fields@[i].impacts@ == self.fields@[i].impacts@,
                    forall|i: int| #![all_triggers] 0 <= i < n ==> (
                        result.status_at(i) == self.status_at(i)
                            || (self.status_at(i) == UNOPENED
                                && (result.status_at(i) == BUG
                                    || result.status_at(i) == UNOPENED_BUGFREE))),
                    self.counts_ok() ==> result.counts_ok(),
                    forall|i: int| #![all_triggers] 0 <= i < y as int * wi + x as int
                        ==> result.status_at(i) != UNOPENED,
                    self.no_open_cells() ==> forall|i: int| #![all_triggers] 0 <= i < n
                        ==> result.status_at(i) == (
                        if i < y as int * wi + x as int && self.status_at(i) == UNOPENED {
                            self.proposed_status(rand, bug_percentage, i)
                        } else {
                            self.status_at(i)
                        }),
                decreases wi - x as int,
            {
                proof {
                    lemma_cell_index(wi, hi, x as int, y as int);
                }
                let idx = (y as usize) * w + (x as usize);
                let ghost idxi = idx as int;
                let ghost gpre = result;
                if result.fields[idx].data == UNOPENED {
                    let mut process_fields: Vec<(u8, u8)> = Vec::new();
                    process_fields.push((x, y));
                    proof {
                        assert(process_fields@.no_duplicates());
                        assert(gpre.worklist_ok(process_fields@)) by {
                            assert(process_fields@[0] == (x, y));
                            assert(gpre.wl_index((x, y)) == idxi);
                        }
                    }
                    let step = result.update_field(&process_fields, &proposal);
                    if step.is_err() {
                        proof {
                            if self.no_open_cells() {
                                assert(gpre.no_open_cells()) by {
                                    assert forall|i: int| 0 <= i < n implies
                                        #[trigger] gpre.status_at(i) > 8 by {
                                        assert(self.status_at(i) > 8);
                                    }
                                }
                            }
                            assert(self.status_at(idxi) == UNOPENED);
                            assert(self.statuses()[idxi] == UNOPENED);
                            crate::grid::lemma_count_in_range_positive(
                                self.statuses(), UNOPENED, UNOPENED, n, idxi);
                        }
                        return Err(FillError::FillFailed);
                    }
                    proof {
                        assert(gpre.wl_index(process_fields@[0]) == idxi);
                        assert(result.status_at(idxi) != UNOPENED);
                        if self.no_open_cells() {
                            assert(gpre.no_open_cells()) by {
                                assert forall|i: int| 0 <= i < n implies
                                    #[trigger] gpre.status_at(i) > 8 by {
                                    assert(self.status_at(i) > 8);
                                }
                            }
                            assert(gpre.followed_proposal(process_fields@, proposal@, result));
                            assert forall|i: int| #![all_triggers] 0 <= i < n implies
                                result.status_at(i) == (
                                if i < y as int * wi + x as int + 1
                                    && self.status_at(i) == UNOPENED {
                                    self.proposed_status(rand, bug_percentage, i)
                                } else {
                                    self.status_at(i)
                                }) by {
                                if gpre.wl_has(process_fields@, i) {
                                    let k = choose|k: int| 0 <= k < process_fields@.len()
                                        && gpre.wl_index(process_fields@[k]) == i;
                                    assert(i == idxi);
                                } else {
                                    assert(result.status_at(i) == gpre.status_at(i));
                                }
                                if i == idxi {
                                    assert(gpre.wl_has(process_fields@, i)) by {
                                        assert(gpre.wl_index(process_fields@[0]) == idxi);
                                    }
                                    lemma_col_pos_bounds(wi, hi, idxi);
                                    assert(proposal@[col_pos(idxi, wi, hi)] == spec_bit(
                                        rand, (n - 1 - col_pos(idxi, wi, hi)) as nat,
                                        bug_percentage));
                                    assert(gpre.prop_choice(proposal@, idxi)
                                        == self.proposed_status(rand, bug_percentage, idxi));
                                    assert(self.status_at(idxi) == UNOPENED);
                                }
                            }
                        }
                    }
                } else {
                    proof {
                        assert(result.status_at(idxi) != UNOPENED);
                    }
                }
                proof {
                    assert forall|i: int| #![all_triggers]
                        0 <= i < y as int * wi + x as int + 1 implies
                        result.status_at(i) != UNOPENED by {
                        if i < y as int * wi + x as int {
                            assert(gpre.status_at(i) != UNOPENED);
                        }
                    }
                }
                x = x + 1;
            }
            proof {
                assert(y as int * wi + wi == (y as int + 1) * wi) by (nonlinear_arith);
            }
            y = y + 1;
        }
        proof {
            assert forall|i: int| #![all_triggers] 0 <= i < n implies
                result.status_at(i) != UNOPENED by {
                lemma_coords(wi, hi, i);
                assert((y_of(i, wi) * wi + x_of(i, wi)) < hi * wi) by (nonlinear_arith)
                    requires
                        0 <= x_of(i, wi) < wi,
                        0 <= y_of(i, wi) < hi,
                        1 <= wi,
                ;
                assert(hi * wi == wi * hi) by (nonlinear_arith);
            }
            if self.counts_ok() {
                assert forall|i: int| #![all_triggers]
                    0 <= i < n && self.status_at(i) <= 8 implies
                    nbr_count(result.statuses(), wi, hi, i, BUG)
                        == self.status_at(i) as int by {
                    assert(result.status_at(i) == self.status_at(i));
                    assert(result.fields@[i].impacted_by@.len() == 0) by {
                        if result.fields@[i].impacted_by@.len() > 0 {
                            let e = result.fields@[i].impacted_by@[0];
                            assert(result.ib_entry_ok(i, e));
                            assert(result.status_at(e as int) != UNOPENED);
                        }
                    }
                    assert(result.fields@[i].adjacent_bugs as int
                        == nbr_count(result.statuses(), wi, hi, i, BUG));
                }
            }
        }
        Ok(result)
    }

    /// Decides the head of the work list, preferring the proposal's choice
    /// and falling back to its opposite; succeeds when the list is empty.
    #[verifier::rlimit(60)]
    fn update_field(&mut self, fields: &Vec<(u8, u8)>, proposal: &Vec<bool>) -> (res: Result<
        (),
        (),
    >)
        requires
            old(self).wf(),
            old(self).worklist_ok(fields@),
            proposal@.len() == old(self).n(),
        ensures
            final(self).wf(),
            old(self).step_frame(*final(self)),
            old(self).counts_ok() ==> final(self).counts_ok(),
            fields@.len() == 0 ==> res is Ok && *final(self) == *old(self),
            res is Ok ==> forall|k: int| 0 <= k < fields@.len()
                ==> final(self).status_at(old(self).wl_index(#[trigger] fields@[k]))
                    != UNOPENED,
            res is Err ==> old(self).restored_in(*final(self)),
            old(self).no_open_cells() ==> res is Ok,
            old(self).no_open_cells()
                ==> old(self).followed_proposal(fields@, proposal@, *final(self)),
        decreases old(self).unopened_count(), 1int,
    {
        let ghost g0 = *self;
        let ghost wi = self.width as int;
        let ghost hi = self.height as int;
        if fields.len() == 0 {
            proof {
                assert forall|i: int| #![all_triggers] 0 <= i < g0.n() implies
                    !g0.wl_has(fields@, i) by {
                    if g0.wl_has(fields@, i) {
                        let k = choose|k: int| 0 <= k < fields@.len()
                            && g0.wl_index(fields@[k]) == i;
                    }
                }
            }
            return Ok(());
        }
        let (x, y) = fields[0];
        proof {
            lemma_cell_index(wi, hi, x as int, y as int);
            vstd::arithmetic::div_mod::lemma_fundamental_div_mod_converse(
                x as int * hi + y as int, hi, x as int, y as int);
            assert((x as int * hi + y as int) < wi * hi) by (nonlinear_arith)
                requires
                    1 <= wi,
                    1 <= hi,
                    (x as int) < wi,
                    (y as int) < hi,
                    0 <= x as int,
                    0 <= y as int,
            ;
            assert(col_pos(cell_index(wi, x as int, y as int), wi, hi)
                == x as int * hi + y as int);
        }
        let pos: usize = (x as usize) * (self.height as usize) + (y as usize);
        let proposed_bug = proposal[pos];
        let r1 = self.try_field(fields, proposal, proposed_bug);
        match r1 {
            Ok(()) => {
                proof {
                    if g0.no_open_cells() {
                        let ghost head = fields@[0];
                        assert forall|i: int| #![all_triggers] 0 <= i < g0.n() implies
                            self.status_at(i) == (
                            if g0.wl_has(fields@, i) {
                                g0.prop_choice(proposal@, i)
                            } else {
                                g0.status_at(i)
                            }) by {
                            let myi = g0.wl_index(head);
                            if i == myi {
                                assert(g0.wl_has(fields@, i));
                            } else if g0.wl_has(fields@.skip(1), i) {
                                let k = choose|k: int| 0 <= k < fields@.skip(1).len()
                                    && g0.wl_index(fields@.skip(1)[k]) == i;
                                assert(fields@[k + 1] == fields@.skip(1)[k]);
                                assert(g0.wl_has(fields@, i));
                            } else {
                                if g0.wl_has(fields@, i) {
                                    let k = choose|k: int| 0 <= k < fields@.len()
                                        && g0.wl_index(fields@[k]) == i;
                                    assert(k != 0);
                                    assert(fields@.skip(1)[k - 1] == fields@[k]);
                                    assert(g0.wl_has(fields@.skip(1), i));
                                }
                            }
                        }
                    }
                }
                Ok(())
            }
            Err(()) => {
                proof {
                    assert(self.statuses() =~= g0.statuses());
                    assert(self.unopened_count() == g0.unopened_count());
                    assert(self.worklist_ok(fields@)) by {
                        assert forall|k: int| #![all_triggers]
                            0 <= k < fields@.len() implies {
                            &&& fields@[k].0 < self.width
                            &&& fields@[k].1 < self.height
                            &&& self.status_at(self.wl_index(fields@[k])) == UNOPENED
                        } by {
                            let e = fields@[k];
                            lemma_cell_index(wi, hi, e.0 as int, e.1 as int);
                            assert(g0.status_at(g0.wl_index(e)) == UNOPENED);
                            assert(self.status_at(g0.wl_index(e))
                                == g0.status_at(g0.wl_index(e)));
                        }
                    }
                    assert(self.wl_index(fields@[0]) == g0.wl_index(fields@[0]));
                }
                let ghost g1 = *self;
                let r2 = self.try_field(fields, proposal, !proposed_bug);
                proof {
                    assert(g0.step_frame(*self)) by {
                        assert forall|i: int| #![all_triggers] 0 <= i < g0.n() implies (
                            self.status_at(i) == g0.status_at(i)
                                || (g0.status_at(i) == UNOPENED
                                    && (self.status_at(i) == BUG
                                        || self.status_at(i) == UNOPENED_BUGFREE))) by {
                            assert(g1.status_at(i) == g0.status_at(i));
                        }
                    }
                    if r2 is Err {
                        assert(g0.restored_in(*self)) by {
                            assert forall|i: int| #![all_triggers] 0 <= i < g0.n() implies {
                                &&& self.status_at(i) == g0.status_at(i)
                                &&& self.fields@[i].adjacent_bugs
                                    == g0.fields@[i].adjacent_bugs
                                &&& (g0.status_at(i) <= 8
                                    ==> self.fields@[i].impacted_by@.len()
                                        == g0.fields@[i].impacted_by@.len())
                            } by {
                                assert(g1.status_at(i) == g0.status_at(i));
                            }
                        }
                    }
                }
                r2
            }
        }
    }
}

} // verus!
