//! The game around the board: guesses, first-move safety, flood-opening of
//! zero-count cells, the win and loss conditions, and the textual views.

use vstd::prelude::*;

use crate::field::{
    clone_vec_u8, is_open, GameData, BUG, UNOPENED, UNOPENED_BUGFREE,
};
use crate::grid::{
    cell_index, count_in_range, is_nbr, lemma_cell_index, lemma_coords,
    lemma_count_in_range_update, lemma_nbr_count_update, nbr_count,
};

verus! {

/// Board width of a game, in cells.
pub const WIDTH: u8 = 5;

/// Board height of a game, in cells.
pub const HEIGHT: u8 = 5;

/// Chance of every undecided cell being proposed as a bug, as a percentage.
pub const BUG_CHANCE_100: u8 = 20;

/// The game has not been started yet.
pub const STATE_NOT_STARTED: u8 = 0;

/// The game is running.
pub const STATE_PLAYING: u8 = 1;

/// The player opened a bug.
pub const STATE_LOST: u8 = 2;

/// Every bug-free cell has been opened.
pub const STATE_WON: u8 = 3;

/// Why a guess was rejected.
#[derive(Debug)]
pub enum GameError {
    /// The game has ended (or was never started).
    GameAlreadyOver,
    /// A new game was requested while one is still running.
    GameAlreadyStarted,
    /// The guessed cell is already open.
    FieldAlreadyOpened,
    /// The board admitted no completion (an internal inconsistency).
    FillFailed,
}

/// One game: the statuses revealed so far, row by row, and the game state.
pub struct Game {
    /// Status of every cell as the player sees it (opened counts, a bug,
    /// or hidden), row-major, [`WIDTH`] by [`HEIGHT`].
    pub cells: Vec<u8>,
    /// One of the four `STATE_` codes.
    pub state: u8,
}

impl Game {
    /// The cell vector has the fixed shape and holds only known codes.
    pub open spec fn wf(self) -> bool {
        &&& self.cells@.len() == WIDTH as int * HEIGHT as int
        &&& forall|i: int| 0 <= i < self.cells@.len()
            ==> #[trigger] self.cells@[i] <= UNOPENED_BUGFREE
    }

    /// Starts (or restarts) the game: every cell hidden, state playing.
    pub fn init(&mut self)
        ensures
            final(self).wf(),
            final(self).state == STATE_PLAYING,
            forall|i: int| 0 <= i < WIDTH as int * HEIGHT as int
                ==> #[trigger] final(self).cells@[i] == UNOPENED,
    {
        self.state = STATE_PLAYING;
        let n: usize = (WIDTH as usize) * (HEIGHT as usize);
        let mut cells: Vec<u8> = Vec::new();
        let mut k: usize = 0;
        while k < n
            invariant
                k <= n,
                cells@.len() == k,
                forall|i: int| 0 <= i < k ==> #[trigger] cells@[i] == UNOPENED,
            decreases n - k,
        {
            cells.push(UNOPENED);
            k = k + 1;
        }
        self.cells = cells;
    }

    /// Whether a game has been started.
    pub fn is_started(&self) -> (r: bool)
        ensures
            r == (self.state != STATE_NOT_STARTED),
    {
        self.state != STATE_NOT_STARTED
    }

    /// Whether the game has ended, by loss or by win.
    pub fn is_ended(&self) -> (r: bool)
        ensures
            r == (self.state == STATE_LOST || self.state == STATE_WON),
    {
        self.state == STATE_LOST || self.state == STATE_WON
    }

    /// The revealed board as a wired [`GameData`].
    fn get_field(&self) -> (r: GameData)
        requires
            self.wf(),
        ensures
            r.freshly_wired(),
            r.width == WIDTH,
            r.height == HEIGHT,
            r.fields@.len() == self.cells@.len(),
            forall|i: int| 0 <= i < self.cells@.len()
                ==> #[trigger] r.status_at(i) == self.cells@[i],
            r.num_open as int == count_in_range(self.cells@, 0, 8, self.cells@.len() as int),
    {
        GameData::new(WIDTH, HEIGHT, clone_vec_u8(&self.cells))
    }

    /// Flood-closedness: every opened cell with a zero bug count has every
    /// neighbour opened. Flood-opening starts from and leaves behind such
    /// a state.
    pub open spec fn flood_closed(b: GameData) -> bool {
        forall|c: int, j: int| #![all_triggers]
            0 <= c < b.n() && 0 <= j < b.n() && b.status_at(c) <= 8
                && b.fields@[c].adjacent_bugs == 0
                && is_nbr(b.width as int, b.height as int, c, j)
                ==> b.status_at(j) < UNOPENED
    }

    /// [`Game::flood_closed`] with one cell's obligation waived: the state
    /// right after that cell was opened with a zero count, before its
    /// neighbours are flooded.
    pub open spec fn flood_closed_except(b: GameData, e: int) -> bool {
        forall|c: int, j: int| #![all_triggers]
            0 <= c < b.n() && 0 <= j < b.n() && c != e && b.status_at(c) <= 8
                && b.fields@[c].adjacent_bugs == 0
                && is_nbr(b.width as int, b.height as int, c, j)
                ==> b.status_at(j) < UNOPENED
    }

    /// A flood path on board `b`: consecutive cells are neighbours, and
    /// every cell before the last has a zero bug count.
    pub open spec fn flood_path(b: GameData, path: Seq<int>, from: int, to: int) -> bool {
        &&& path.len() >= 1
        &&& path[0] == from
        &&& path[path.len() - 1] == to
        &&& (forall|k: int| 0 <= k < path.len() ==> 0 <= #[trigger] path[k] < b.n())
        &&& (forall|k: int| 0 <= k < path.len() - 1
            ==> is_nbr(b.width as int, b.height as int, #[trigger] path[k], path[k + 1]))
        &&& (forall|k: int| 0 <= k < path.len() - 1
            ==> b.fields@[#[trigger] path[k]].adjacent_bugs == 0)
    }

    /// `to` can be reached from `from` through a chain of zero-count cells.
    pub open spec fn flood_reaches(b: GameData, from: int, to: int) -> bool {
        exists|path: Seq<int>| Self::flood_path(b, path, from, to)
    }

    /// The flood law of the game: on a well-formed, flood-closed board,
    /// every cell that a chain of zero-count cells reaches from an opened
    /// cell is itself opened — and is never a bug, since a zero count
    /// leaves no bug to step onto.
    pub proof fn lemma_flood_reaches_open(b: GameData, path: Seq<int>, from: int, to: int)
        requires
            b.wf(),
            Self::flood_closed(b),
            b.status_at(from) <= 8,
            Self::flood_path(b, path, from, to),
        ensures
            b.status_at(to) <= 8,
        decreases path.len(),
    {
        let wi = b.width as int;
        let hi = b.height as int;
        if path.len() == 1 {
            assert(to == from);
        } else {
            let next = path[1];
            assert(b.fields@[from].adjacent_bugs == 0);
            assert(is_nbr(wi, hi, from, next));
            assert(b.status_at(next) < UNOPENED);
            assert(b.status_at(next) != BUG) by {
                if b.status_at(next) == BUG {
                    assert(b.statuses()[next] == BUG);
                    crate::grid::lemma_nbr_count_member(
                        b.statuses(), wi, hi, from, next, BUG);
                    assert(b.fields@[from].adjacent_bugs as int
                        == nbr_count(b.statuses(), wi, hi, from, BUG));
                }
            }
            let rest = path.skip(1);
            assert(Self::flood_path(b, rest, next, to)) by {
                assert forall|k: int| 0 <= k < rest.len() implies
                    0 <= #[trigger] rest[k] < b.n() by {
                    assert(rest[k] == path[k + 1]);
                }
                assert forall|k: int| 0 <= k < rest.len() - 1 implies
                    is_nbr(wi, hi, #[trigger] rest[k], rest[k + 1]) by {
                    assert(rest[k] == path[k + 1] && rest[k + 1] == path[k + 2]);
                }
                assert forall|k: int| 0 <= k < rest.len() - 1 implies
                    b.fields@[#[trigger] rest[k]].adjacent_bugs == 0 by {
                    assert(rest[k] == path[k + 1]);
                }
                assert(rest[0] == path[1]);
                assert(rest[rest.len() - 1] == path[path.len() - 1]);
            }
            Self::lemma_flood_reaches_open(b, rest, next, to);
        }
    }

    /// The board `b` is the sampled, flood-opened completion behind one
    /// guess: it decides every cell, preserves everything the player had
    /// already seen (in `self`) and everything revealed by the move (in
    /// `post`), carries the returned value `v` at the guessed cell `idx` —
    /// for a count, `v` is exactly the number of bug neighbours there — and
    /// the game is won exactly when no committed-safe cell is left on it.
    pub open spec fn guess_reflected(
        self,
        idx: int,
        v: u8,
        post: Game,
        b: GameData,
    ) -> bool {
        &&& b.width == WIDTH
        &&& b.height == HEIGHT
        &&& b.fields@.len() == self.cells@.len()
        &&& post.cells@.len() == self.cells@.len()
        &&& (forall|i: int| 0 <= i < self.cells@.len()
            ==> #[trigger] b.status_at(i) != UNOPENED)
        &&& (forall|i: int| 0 <= i < self.cells@.len()
            && #[trigger] self.cells@[i] < UNOPENED ==> b.status_at(i) == self.cells@[i])
        &&& (forall|i: int| 0 <= i < self.cells@.len()
            && #[trigger] post.cells@[i] < UNOPENED ==> b.status_at(i) == post.cells@[i])
        &&& (v == BUG ==> b.status_at(idx) == BUG)
        &&& (v <= 8 ==> b.status_at(idx) == v
            && v as int == nbr_count(b.statuses(), WIDTH as int, HEIGHT as int, idx, BUG))
        &&& (post.state == STATE_WON <==> (v <= 8 && forall|i: int|
            0 <= i < self.cells@.len() ==> #[trigger] b.status_at(i) != UNOPENED_BUGFREE))
    }

    /// Some sampled completion reflects the guess: see
    /// [`Game::guess_reflected`] for what the witness board carries.
    pub open spec fn guess_sampled(self, idx: int, v: u8, post: Game) -> bool {
        exists|b: GameData| self.guess_reflected(idx, v, post, b)
    }

    /// Makes a guess at (`x`, `y`): on the first guess the cell is
    /// pre-committed bug-free, then a completion of the hidden cells is
    /// sampled from `rand_seed`, and the cell is revealed on the sampled
    /// board. Opening a bug loses the game; opening a count opens the cell
    /// (and, for a zero count, floods outward); opening the last bug-free
    /// cell wins.
    pub fn make_guess(&mut self, x: u8, y: u8, rand_seed: u64) -> (res: Result<u8, GameError>)
        requires
            old(self).wf(),
            x < WIDTH,
            y < HEIGHT,
        ensures
            final(self).wf(),
            res matches Err(e) ==> {
                &&& final(self).state == old(self).state
                &&& final(self).cells@ == old(self).cells@
                &&& (e is GameAlreadyOver <==> old(self).state != STATE_PLAYING)
                &&& !(e is GameAlreadyStarted)
                &&& (e is FieldAlreadyOpened ==> old(self).cells@[cell_index(
                    WIDTH as int, x as int, y as int)] < UNOPENED)
            },
            old(self).state != STATE_PLAYING <==> (res matches Err(e) && e is GameAlreadyOver),
            (res matches Err(e) && e is FieldAlreadyOpened) <==> (
                old(self).state == STATE_PLAYING && old(self).cells@[cell_index(
                    WIDTH as int, x as int, y as int)] < UNOPENED),
            (res matches Err(e) && e is FillFailed) ==> count_in_range(
                old(self).cells@, 0, 8, old(self).cells@.len() as int) > 0,
            (old(self).state == STATE_PLAYING
                && count_in_range(old(self).cells@, 0, 8, old(self).cells@.len() as int) == 0
                && old(self).cells@[cell_index(WIDTH as int, x as int, y as int)]
                    >= UNOPENED)
                ==> (res matches Ok(v) && v <= 8),
            (res matches Ok(v) && v == 0) ==> forall|j: int|
                0 <= j < old(self).cells@.len()
                && is_nbr(WIDTH as int, HEIGHT as int,
                    cell_index(WIDTH as int, x as int, y as int), j)
                ==> #[trigger] final(self).cells@[j] < UNOPENED,
            res matches Ok(v) ==> old(self).guess_sampled(
                cell_index(WIDTH as int, x as int, y as int), v, *final(self)),
            res matches Ok(v) ==> {
                &&& old(self).state == STATE_PLAYING
                &&& old(self).cells@[cell_index(WIDTH as int, x as int, y as int)] >= UNOPENED
                &&& (v == BUG || v <= 8)
                &&& (v == BUG ==> final(self).state == STATE_LOST
                    && final(self).cells@[cell_index(WIDTH as int, x as int, y as int)] == BUG)
                &&& (v <= 8 ==> final(self).cells@[cell_index(
                    WIDTH as int, x as int, y as int)] == v
                    && (final(self).state == STATE_PLAYING
                        || final(self).state == STATE_WON))
            },
            forall|i: int| 0 <= i < old(self).cells@.len()
                && #[trigger] old(self).cells@[i] < UNOPENED
                ==> final(self).cells@[i] == old(self).cells@[i],
    {
        let ghost wi = WIDTH as int;
        let ghost hi = HEIGHT as int;
        if self.state != STATE_PLAYING {
            return Err(GameError::GameAlreadyOver);
        }
        proof {
            lemma_cell_index(wi, hi, x as int, y as int);
        }
        let mut field_data = self.get_field();
        let field = field_data.get(x, y).data;
        if is_open(field) {
            proof {
                assert(field == field_data.status_at(cell_index(wi, x as int, y as int)));
                assert(old(self).cells@[cell_index(wi, x as int, y as int)] < UNOPENED);
            }
            return Err(GameError::FieldAlreadyOpened);
        }
        proof {
            assert(field == field_data.status_at(cell_index(wi, x as int, y as int)));
            assert(old(self).cells@[cell_index(wi, x as int, y as int)] >= UNOPENED);
        }
        // First-move safety: before the very first reveal, pre-commit the
        // guessed cell to be bug-free; the filler then never makes it a bug.
        if field_data.num_open == 0 {
            proof {
                assert forall|i: int| 0 <= i < field_data.n() implies
                    #[trigger] field_data.status_at(i) > 8 by {
                    if field_data.status_at(i) <= 8 {
                        assert(self.cells@[i] <= 8);
                        crate::grid::lemma_count_in_range_positive(
                            self.cells@, 0, 8, self.cells@.len() as int, i);
                    }
                }
            }
            let ghost before = field_data;
            field_data.set_data(x, y, UNOPENED_BUGFREE);
            proof {
                lemma_precommit_preserves_wf(before, field_data,
                    cell_index(wi, x as int, y as int));
            }
        }
        let filled_res = field_data.fill_in(rand_seed, BUG_CHANCE_100);
        let mut filled_in = match filled_res {
            Ok(f) => f,
            Err(_) => {
                proof {
                    if count_in_range(old(self).cells@, 0, 8,
                        old(self).cells@.len() as int) == 0 {
                        assert(field_data.no_open_cells());
                        assert(false);
                    }
                }
                return Err(GameError::FillFailed);
            },
        };
        proof {
            assert forall|i: int| 0 <= i < self.cells@.len()
                && #[trigger] self.cells@[i] < UNOPENED implies
                filled_in.status_at(i) == self.cells@[i] by {
                assert(field_data.status_at(i) == self.cells@[i]);
            }
        }
        if filled_in.get(x, y).data == BUG {
            let i = (y as usize) * (WIDTH as usize) + (x as usize);
            proof {
                if count_in_range(old(self).cells@, 0, 8,
                    old(self).cells@.len() as int) == 0 {
                    assert(field_data.status_at(i as int) == UNOPENED_BUGFREE);
                    assert(filled_in.status_at(i as int) == UNOPENED_BUGFREE);
                    assert(false);
                }
            }
            self.cells[i] = BUG;
            self.state = STATE_LOST;
            proof {
                assert(self.cells@[cell_index(wi, x as int, y as int)] == BUG);
                assert forall|i2: int| 0 <= i2 < old(self).cells@.len()
                    && #[trigger] old(self).cells@[i2] < UNOPENED implies
                    self.cells@[i2] == old(self).cells@[i2] by {
                    assert(i2 != i as int);
                }
                assert forall|i2: int| 0 <= i2 < old(self).cells@.len()
                    && #[trigger] self.cells@[i2] < UNOPENED implies
                    filled_in.status_at(i2) == self.cells@[i2] by {
                    if i2 != i as int {
                        assert(old(self).cells@[i2] == self.cells@[i2]);
                    }
                }
                assert(old(self).guess_reflected(
                    cell_index(WIDTH as int, x as int, y as int), BUG, *self, filled_in));
                assert(old(self).guess_sampled(
                    cell_index(WIDTH as int, x as int, y as int), BUG, *self));
            }
            return Ok(BUG);
        }
        proof {
            let idx = cell_index(wi, x as int, y as int);
            assert(field_data.status_at(idx) >= UNOPENED);
            assert(filled_in.status_at(idx) != UNOPENED);
            assert(filled_in.status_at(idx) >= UNOPENED);
        }
        let ghost bpre = filled_in;
        let count = self.do_open(x, y, &mut filled_in);
        proof {
            let idx = cell_index(wi, x as int, y as int);
            assert(count as int == nbr_count(filled_in.statuses(), wi, hi, idx, BUG)) by {
                assert(count == bpre.fields@[idx].adjacent_bugs);
                assert(bpre.fields@[idx].adjacent_bugs as int
                    == nbr_count(bpre.statuses(), wi, hi, idx, BUG));
                assert(filled_in.fields@[idx].adjacent_bugs
                    == bpre.fields@[idx].adjacent_bugs);
                assert(filled_in.fields@[idx].adjacent_bugs as int
                    == nbr_count(filled_in.statuses(), wi, hi, idx, BUG));
            }
            assert forall|i2: int| 0 <= i2 < old(self).cells@.len()
                && #[trigger] old(self).cells@[i2] < UNOPENED implies
                filled_in.status_at(i2) == old(self).cells@[i2] by {
                assert(bpre.status_at(i2) == old(self).cells@[i2]);
                assert(bpre.status_at(i2) < UNOPENED);
            }
            if count == 0 {
                let idxg = cell_index(wi, x as int, y as int);
                assert forall|j: int| 0 <= j < old(self).cells@.len()
                    && is_nbr(wi, hi, idxg, j) implies
                    #[trigger] self.cells@[j] < UNOPENED by {
                    assert(filled_in.status_at(j) < UNOPENED);
                    // A zero count leaves no bug around the guess on the
                    // sampled board, so every neighbour carries a count.
                    assert(bpre.status_at(j) != BUG) by {
                        if bpre.status_at(j) == BUG {
                            assert(bpre.statuses()[j] == BUG);
                            crate::grid::lemma_nbr_count_member(
                                bpre.statuses(), wi, hi, idxg, j, BUG);
                            assert(bpre.fields@[idxg].adjacent_bugs as int
                                == nbr_count(bpre.statuses(), wi, hi, idxg, BUG));
                        }
                    }
                    if bpre.status_at(j) >= UNOPENED {
                        assert(filled_in.status_at(j) <= 8);
                        assert(self.cells@[j] == filled_in.status_at(j));
                    } else {
                        assert(bpre.status_at(j) <= 8);
                        assert(old(self).cells@[j] < UNOPENED) by {
                            if old(self).cells@[j] >= UNOPENED {
                                assert(j != idxg);
                                assert(field_data.status_at(j) >= UNOPENED);
                                assert(bpre.status_at(j) > 8);
                            }
                        }
                        assert(self.cells@[j] == old(self).cells@[j]);
                    }
                }
            }
        }
        let mut won = true;
        let mut k: usize = 0;
        let n: usize = (WIDTH as usize) * (HEIGHT as usize);
        while k < n
            invariant
                n == wi * hi,
                filled_in.fields@.len() == n,
                filled_in.width == WIDTH,
                filled_in.height == HEIGHT,
                k <= n,
                won <==> (forall|i2: int| 0 <= i2 < k
                    ==> #[trigger] filled_in.status_at(i2) != UNOPENED_BUGFREE),
            decreases n - k,
        {
            proof {
                assert(filled_in.status_at(k as int) == filled_in.fields@[k as int].data);
            }
            if filled_in.fields[k].data == UNOPENED_BUGFREE {
                won = false;
            }
            k = k + 1;
        }
        if won {
            self.state = STATE_WON;
        }
        proof {
            assert(old(self).guess_reflected(
                cell_index(WIDTH as int, x as int, y as int), count, *self, filled_in));
            assert(old(self).guess_sampled(
                cell_index(WIDTH as int, x as int, y as int), count, *self));
        }
        Ok(count)
    }

    /// Opens the cell at (`x`, `y`) on the sampled board, records its count
    /// in the revealed board, and floods outward when the count is zero.
    fn do_open(&mut self, x: u8, y: u8, field_data: &mut GameData) -> (count: u8)
        requires
            old(self).wf(),
            old(field_data).wf(),
            old(field_data).width == WIDTH,
            old(field_data).height == HEIGHT,
            x < WIDTH,
            y < HEIGHT,
            forall|i: int| 0 <= i < old(field_data).n()
                ==> #[trigger] old(field_data).status_at(i) != UNOPENED,
            old(field_data).status_at(cell_index(WIDTH as int, x as int, y as int))
                >= UNOPENED,
            forall|i: int| 0 <= i < old(self).cells@.len()
                && #[trigger] old(self).cells@[i] < UNOPENED
                ==> old(field_data).status_at(i) == old(self).cells@[i],
        ensures
            final(self).wf(),
            final(self).state == old(self).state,
            final(field_data).wf(),
            final(field_data).width == WIDTH,
            final(field_data).height == HEIGHT,
            count <= 8,
            count == old(field_data).fields@[cell_index(
                WIDTH as int, x as int, y as int)].adjacent_bugs,
            final(self).cells@[cell_index(WIDTH as int, x as int, y as int)] == count,
            final(field_data).status_at(cell_index(WIDTH as int, x as int, y as int))
                == count,
            forall|i: int| 0 <= i < old(field_data).n()
                ==> #[trigger] final(field_data).status_at(i) != UNOPENED,
            forall|i: int| 0 <= i < old(self).cells@.len()
                && #[trigger] old(self).cells@[i] < UNOPENED
                ==> final(self).cells@[i] == old(self).cells@[i],
            forall|i: int| 0 <= i < old(self).cells@.len()
                && #[trigger] final(self).cells@[i] < UNOPENED
                ==> final(field_data).status_at(i) == final(self).cells@[i],
            forall|i: int| 0 <= i < old(field_data).n() ==> (
                #[trigger] final(field_data).status_at(i) == old(field_data).status_at(i)
                    || final(field_data).status_at(i) <= 8),
            forall|i: int| 0 <= i < old(field_data).n()
                && #[trigger] old(field_data).status_at(i) < UNOPENED
                ==> final(field_data).status_at(i) == old(field_data).status_at(i),
            forall|i: int| 0 <= i < old(field_data).n()
                ==> #[trigger] final(field_data).fields@[i].adjacent_bugs
                    == old(field_data).fields@[i].adjacent_bugs,
            forall|i: int| 0 <= i < old(field_data).n()
                && #[trigger] old(field_data).status_at(i) >= UNOPENED
                && final(field_data).status_at(i) <= 8
                ==> final(self).cells@[i] == final(field_data).status_at(i),
            count == 0 ==> forall|j: int| 0 <= j < old(field_data).n()
                && is_nbr(WIDTH as int, HEIGHT as int,
                    cell_index(WIDTH as int, x as int, y as int), j)
                ==> #[trigger] final(field_data).status_at(j) < UNOPENED,
            forall|c: int, j: int| #![all_triggers] 0 <= c < old(field_data).n()
                && 0 <= j < old(field_data).n()
                && old(field_data).status_at(c) >= UNOPENED
                && final(field_data).status_at(c) <= 8
                && old(field_data).fields@[c].adjacent_bugs == 0
                && is_nbr(WIDTH as int, HEIGHT as int, c, j)
                ==> final(field_data).status_at(j) < UNOPENED,
            Game::flood_closed(*old(field_data))
                ==> Game::flood_closed(*final(field_data)),
            Game::flood_closed(*old(field_data))
                ==> forall|to: int| 0 <= to < old(field_data).n()
                    && Game::flood_reaches(*final(field_data),
                        cell_index(WIDTH as int, x as int, y as int), to)
                    ==> #[trigger] final(field_data).status_at(to) <= 8,
            crate::grid::count_in_range(final(field_data).statuses(), UNOPENED,
                UNOPENED_BUGFREE, old(field_data).n())
                < crate::grid::count_in_range(old(field_data).statuses(), UNOPENED,
                    UNOPENED_BUGFREE, old(field_data).n()),
        decreases count_in_range(old(field_data).statuses(), UNOPENED, UNOPENED_BUGFREE,
            old(field_data).n()), 0int,
    {
        let ghost wi = WIDTH as int;
        let ghost hi = HEIGHT as int;
        let ghost g0 = *field_data;
        let ghost d0 = g0.statuses();
        proof {
            lemma_cell_index(wi, hi, x as int, y as int);
        }
        let i = (y as usize) * (WIDTH as usize) + (x as usize);
        let ghost ii = i as int;
        let count = field_data.get(x, y).adjacent_bugs;
        proof {
            crate::grid::lemma_nbr_count_bounds(d0, wi, hi, ii, BUG);
        }
        proof {
            assert(old(self).cells@[ii] >= UNOPENED) by {
                if old(self).cells@[ii] < UNOPENED {
                    assert(g0.status_at(ii) == old(self).cells@[ii]);
                }
            }
        }
        self.cells[i] = count;
        field_data.set_data(x, y, count);
        proof {
            let d1 = d0.update(ii, count);
            assert(field_data.statuses() =~= d1);
            lemma_set_open_preserves_wf(g0, *field_data, ii, count);
            lemma_count_in_range_update(d0, UNOPENED, UNOPENED_BUGFREE, g0.n(), ii, count);
            crate::grid::lemma_count_in_range_bounds(d1, UNOPENED, UNOPENED_BUGFREE, g0.n());
            assert forall|i2: int| 0 <= i2 < self.cells@.len()
                && #[trigger] self.cells@[i2] < UNOPENED implies
                field_data.status_at(i2) == self.cells@[i2] by {
                if i2 != ii {
                    assert(old(self).cells@[i2] == self.cells@[i2]);
                    assert(field_data.status_at(i2) == g0.status_at(i2));
                }
            }
        }
        if count == 0 {
            let ghost smid = *self;
            let ghost gmid = *field_data;
            self.open_adjacent(x, y, field_data);
            proof {
                assert(self.cells@[ii] == count) by {
                    assert(smid.cells@[ii] == count && count < UNOPENED);
                }
                assert forall|i2: int| 0 <= i2 < old(self).cells@.len()
                    && #[trigger] old(self).cells@[i2] < UNOPENED implies
                    self.cells@[i2] == old(self).cells@[i2] by {
                    assert(i2 != ii);
                    assert(smid.cells@[i2] == old(self).cells@[i2]);
                }
                assert(field_data.status_at(ii) == count) by {
                    assert(gmid.status_at(ii) == count && count < UNOPENED);
                }
                assert forall|i2: int| 0 <= i2 < g0.n()
                    && #[trigger] g0.status_at(i2) >= UNOPENED
                    && field_data.status_at(i2) <= 8 implies
                    self.cells@[i2] == field_data.status_at(i2) by {
                    if i2 == ii {
                    } else {
                        assert(gmid.status_at(i2) == g0.status_at(i2));
                    }
                }
            }
        } else {
            proof {
                assert forall|i2: int| 0 <= i2 < g0.n()
                    && #[trigger] g0.status_at(i2) >= UNOPENED
                    && field_data.status_at(i2) <= 8 implies
                    self.cells@[i2] == field_data.status_at(i2) by {
                    if i2 != ii {
                        assert(field_data.status_at(i2) == g0.status_at(i2));
                    }
                }
            }
        }
        proof {
            if Game::flood_closed(g0) {
                assert forall|to: int| 0 <= to < g0.n()
                    && Game::flood_reaches(*field_data, ii, to) implies
                    #[trigger] field_data.status_at(to) <= 8 by {
                    let path = choose|path: Seq<int>| Game::flood_path(
                        *field_data, path, ii, to);
                    assert(field_data.status_at(ii) == count);
                    Game::lemma_flood_reaches_open(*field_data, path, ii, to);
                }
            }
        }
        count
    }

    /// Opens every still-hidden neighbour of (`x`, `y`); called when the
    /// cell's count is zero, so none of those neighbours is a bug.
    fn open_adjacent(&mut self, x: u8, y: u8, field_data: &mut GameData)
        requires
            old(self).wf(),
            old(field_data).wf(),
            old(field_data).width == WIDTH,
            old(field_data).height == HEIGHT,
            x < WIDTH,
            y < HEIGHT,
            old(field_data).status_at(cell_index(WIDTH as int, x as int, y as int)) <= 8,
            forall|i: int| 0 <= i < old(field_data).n()
                ==> #[trigger] old(field_data).status_at(i) != UNOPENED,
            forall|i: int| 0 <= i < old(self).cells@.len()
                && #[trigger] old(self).cells@[i] < UNOPENED
                ==> old(field_data).status_at(i) == old(self).cells@[i],
        ensures
            final(self).wf(),
            final(self).state == old(self).state,
            final(field_data).wf(),
            final(field_data).width == WIDTH,
            final(field_data).height == HEIGHT,
            forall|i: int| 0 <= i < old(field_data).n()
                ==> #[trigger] final(field_data).status_at(i) != UNOPENED,
            forall|i: int| 0 <= i < old(self).cells@.len()
                && #[trigger] old(self).cells@[i] < UNOPENED
                ==> final(self).cells@[i] == old(self).cells@[i],
            forall|i: int| 0 <= i < old(self).cells@.len()
                && #[trigger] final(self).cells@[i] < UNOPENED
                ==> final(field_data).status_at(i) == final(self).cells@[i],
            forall|i: int| 0 <= i < old(field_data).n() ==> (
                #[trigger] final(field_data).status_at(i) == old(field_data).status_at(i)
                    || final(field_data).status_at(i) <= 8),
            forall|i: int| 0 <= i < old(field_data).n()
                && #[trigger] old(field_data).status_at(i) < UNOPENED
                ==> final(field_data).status_at(i) == old(field_data).status_at(i),
            forall|i: int| 0 <= i < old(field_data).n()
                ==> #[trigger] final(field_data).fields@[i].adjacent_bugs
                    == old(field_data).fields@[i].adjacent_bugs,
            forall|i: int| 0 <= i < old(field_data).n()
                && #[trigger] old(field_data).status_at(i) >= UNOPENED
                && final(field_data).status_at(i) <= 8
                ==> final(self).cells@[i] == final(field_data).status_at(i),
            forall|j: int| 0 <= j < old(field_data).n()
                && is_nbr(WIDTH as int, HEIGHT as int,
                    cell_index(WIDTH as int, x as int, y as int), j)
                ==> #[trigger] final(field_data).status_at(j) < UNOPENED,
            forall|c: int, j: int| #![all_triggers] 0 <= c < old(field_data).n()
                && 0 <= j < old(field_data).n()
                && old(field_data).status_at(c) >= UNOPENED
                && final(field_data).status_at(c) <= 8
                && old(field_data).fields@[c].adjacent_bugs == 0
                && is_nbr(WIDTH as int, HEIGHT as int, c, j)
                ==> final(field_data).status_at(j) < UNOPENED,
            Game::flood_closed_except(*old(field_data),
                cell_index(WIDTH as int, x as int, y as int))
                ==> Game::flood_closed(*final(field_data)),
            Game::flood_closed_except(*old(field_data),
                cell_index(WIDTH as int, x as int, y as int))
                ==> forall|to: int| 0 <= to < old(field_data).n()
                    && Game::flood_reaches(*final(field_data),
                        cell_index(WIDTH as int, x as int, y as int), to)
                    ==> #[trigger] final(field_data).status_at(to) <= 8,
            crate::grid::count_in_range(final(field_data).statuses(), UNOPENED,
                UNOPENED_BUGFREE, old(field_data).n())
                <= crate::grid::count_in_range(old(field_data).statuses(), UNOPENED,
                    UNOPENED_BUGFREE, old(field_data).n()),
        decreases count_in_range(old(field_data).statuses(), UNOPENED, UNOPENED_BUGFREE,
            old(field_data).n()), 1int,
    {
        let ghost wi = WIDTH as int;
        let ghost hi = HEIGHT as int;
        let ghost g0 = *field_data;
        let ghost s0 = *self;
        proof {
            lemma_cell_index(wi, hi, x as int, y as int);
        }
        let i = (y as usize) * (WIDTH as usize) + (x as usize);
        let sf = GameData::surrounding_fields(WIDTH, HEIGHT, i);
        let mut k: usize = 0;
        while k < sf.len()
            invariant
                g0 == *old(field_data),
                s0 == *old(self),
                self.state == s0.state,
                self.wf(),
                field_data.wf(),
                field_data.width == WIDTH,
                field_data.height == HEIGHT,
                wi == WIDTH as int,
                hi == HEIGHT as int,
                g0.n() == wi * hi,
                field_data.fields@.len() == g0.n(),
                self.cells@.len() == s0.cells@.len(),
                s0.cells@.len() == g0.n(),
                k <= sf@.len(),
                forall|p: int| 0 <= p < sf@.len()
                    ==> is_nbr(wi, hi, i as int, #[trigger] sf@[p] as int),
                forall|i2: int| 0 <= i2 < g0.n()
                    ==> #[trigger] field_data.status_at(i2) != UNOPENED,
                forall|i2: int| 0 <= i2 < s0.cells@.len()
                    && #[trigger] s0.cells@[i2] < UNOPENED
                    ==> self.cells@[i2] == s0.cells@[i2],
                forall|i2: int| 0 <= i2 < s0.cells@.len()
                    && #[trigger] self.cells@[i2] < UNOPENED
                    ==> field_data.status_at(i2) == self.cells@[i2],
                forall|i2: int| 0 <= i2 < g0.n() ==> (
                    #[trigger] field_data.status_at(i2) == g0.status_at(i2)
                        || field_data.status_at(i2) <= 8),
                forall|i2: int| 0 <= i2 < g0.n()
                    && #[trigger] g0.status_at(i2) < UNOPENED
                    ==> field_data.status_at(i2) == g0.status_at(i2),
                forall|i2: int| 0 <= i2 < g0.n()
                    ==> #[trigger] field_data.fields@[i2].adjacent_bugs
                        == g0.fields@[i2].adjacent_bugs,
                forall|i2: int| 0 <= i2 < g0.n()
                    && #[trigger] g0.status_at(i2) >= UNOPENED
                    && field_data.status_at(i2) <= 8
                    ==> self.cells@[i2] == field_data.status_at(i2),
                forall|p: int| 0 <= p < k
                    ==> field_data.status_at(#[trigger] sf@[p] as int) < UNOPENED,
                forall|c: int, j: int| #![all_triggers] 0 <= c < g0.n() && 0 <= j < g0.n()
                    && g0.status_at(c) >= UNOPENED && field_data.status_at(c) <= 8
                    && g0.fields@[c].adjacent_bugs == 0 && is_nbr(wi, hi, c, j)
                    ==> field_data.status_at(j) < UNOPENED,
                count_in_range(field_data.statuses(), UNOPENED, UNOPENED_BUGFREE, g0.n())
                    <= count_in_range(g0.statuses(), UNOPENED, UNOPENED_BUGFREE, g0.n()),
            decreases sf@.len() - k,
        {
            let e = sf[k];
            proof {
                assert(is_nbr(wi, hi, i as int, e as int));
                lemma_coords(wi, hi, e as int);
            }
            let ex = e % WIDTH;
            let ey = e / WIDTH;
            let ghost gpre = *field_data;
            let ghost spre = *self;
            if !is_open(field_data.get(ex, ey).data) {
                proof {
                    assert(gpre.status_at(e as int) >= UNOPENED);
                    crate::grid::lemma_count_in_range_bounds(gpre.statuses(), UNOPENED,
                        UNOPENED_BUGFREE, g0.n());
                    crate::grid::lemma_count_in_range_bounds(g0.statuses(), UNOPENED,
                        UNOPENED_BUGFREE, g0.n());
                }
                self.do_open(ex, ey, field_data);
                proof {
                    assert(field_data.status_at(e as int) < UNOPENED) by {
                        assert(cell_index(wi, ex as int, ey as int) == e as int);
                    }
                    assert forall|c: int, j: int| #![all_triggers]
                        0 <= c < g0.n() && 0 <= j < g0.n()
                            && g0.status_at(c) >= UNOPENED && field_data.status_at(c) <= 8
                            && g0.fields@[c].adjacent_bugs == 0 && is_nbr(wi, hi, c, j)
                        implies field_data.status_at(j) < UNOPENED by {
                        if gpre.status_at(c) <= 8 {
                            assert(gpre.status_at(j) < UNOPENED);
                        } else {
                            assert(gpre.status_at(c) >= UNOPENED);
                            assert(gpre.fields@[c].adjacent_bugs
                                == g0.fields@[c].adjacent_bugs);
                        }
                    }
                    assert forall|i2: int| 0 <= i2 < g0.n()
                        && #[trigger] g0.status_at(i2) >= UNOPENED
                        && field_data.status_at(i2) <= 8 implies
                        self.cells@[i2] == field_data.status_at(i2) by {
                        if gpre.status_at(i2) < UNOPENED {
                            assert(field_data.status_at(i2) == gpre.status_at(i2));
                            assert(spre.cells@[i2] == field_data.status_at(i2));
                            assert(spre.cells@[i2] < UNOPENED);
                            assert(self.cells@[i2] == spre.cells@[i2]);
                        }
                    }
                    assert forall|p: int| 0 <= p < k + 1 implies
                        field_data.status_at(#[trigger] sf@[p] as int) < UNOPENED by {
                        if p < k {
                            assert(gpre.status_at(sf@[p] as int) < UNOPENED);
                        }
                    }
                }
            } else {
                proof {
                    assert(field_data.status_at(e as int) < UNOPENED) by {
                        assert(cell_index(wi, ex as int, ey as int) == e as int);
                        assert(field_data.status_at(cell_index(wi, ex as int, ey as int))
                            < UNOPENED);
                    }
                }
            }
            k = k + 1;
        }
        proof {
            assert forall|j: int| 0 <= j < g0.n()
                && is_nbr(wi, hi, cell_index(wi, x as int, y as int), j) implies
                #[trigger] field_data.status_at(j) < UNOPENED by {
                assert(cell_index(wi, x as int, y as int) == i as int);
                assert(sf@.contains(j as u8));
                let p = choose|p: int| 0 <= p < sf@.len() && sf@[p] == j as u8;
                assert(field_data.status_at(sf@[p] as int) < UNOPENED);
            }
            if Game::flood_closed_except(g0, i as int) {
                assert(Game::flood_closed(*field_data)) by {
                    assert forall|c: int, j: int| #![all_triggers]
                        0 <= c < g0.n() && 0 <= j < g0.n()
                            && field_data.status_at(c) <= 8
                            && field_data.fields@[c].adjacent_bugs == 0
                            && is_nbr(wi, hi, c, j)
                        implies field_data.status_at(j) < UNOPENED by {
                        assert(field_data.fields@[c].adjacent_bugs
                            == g0.fields@[c].adjacent_bugs);
                        if g0.status_at(c) <= 8 {
                            if c == i as int {
                                assert(field_data.status_at(j) < UNOPENED);
                            } else {
                                assert(g0.status_at(j) < UNOPENED);
                            }
                        } else {
                            assert(g0.status_at(c) >= UNOPENED);
                        }
                    }
                }
                assert forall|to: int| 0 <= to < g0.n()
                    && Game::flood_reaches(*field_data, i as int, to) implies
                    #[trigger] field_data.status_at(to) <= 8 by {
                    let path = choose|path: Seq<int>| Game::flood_path(
                        *field_data, path, i as int, to);
                    assert(field_data.status_at(i as int) <= 8) by {
                        assert(g0.status_at(i as int) <= 8);
                    }
                    Game::lemma_flood_reaches_open(*field_data, path, i as int, to);
                }
            }
        }
    }
}


/// The one character a cell shows in a rendered game: `X` for a bug, a
/// blank for a hidden cell, the count's digit otherwise.
pub open spec fn cell_char(v: u8) -> char {
    if v == BUG {
        'X'
    } else if v >= UNOPENED {
        ' '
    } else {
        (v + 48) as char
    }
}

/// The line that a rendered game ends with.
pub open spec fn state_text(state: u8) -> Seq<char> {
    if state == STATE_PLAYING {
        "Playing\n"@
    } else if state == STATE_LOST {
        "Lost\n"@
    } else if state == STATE_WON {
        "Won\n"@
    } else {
        "Unknown state"@
    }
}

/// A rendering of statuses `st` on a `w` by `h` grid in state `state`: one
/// character per cell, a newline per row, and the state line at the end.
pub open spec fn rendered(st: Seq<u8>, w: int, h: int, state: u8, s: Seq<char>) -> bool {
    &&& s.len() == h * (w + 1) + state_text(state).len()
    &&& forall|x: int, y: int| 0 <= x < w && 0 <= y < h
        ==> #[trigger] s[y * (w + 1) + x] == cell_char(st[cell_index(w, x, y)])
    &&& forall|y: int| 0 <= y < h ==> #[trigger] s[y * (w + 1) + w] == '\n'
    &&& s.skip(h * (w + 1)) == state_text(state)
}

impl Game {
    /// Renders a board and a state: `X` for a bug, a blank for a hidden
    /// cell, the digit of the count otherwise, rows separated by newlines,
    /// and a final line naming the state.
    pub fn print_field(field_data: GameData, state: u8) -> (r: String)
        requires
            field_data.dims_ok(),
            field_data.statuses_valid(),
        ensures
            rendered(field_data.statuses(), field_data.width as int,
                field_data.height as int, state, r@),
    {
        let ghost wi = field_data.width as int;
        let ghost hi = field_data.height as int;
        let w = field_data.width as usize;
        let h = field_data.height as usize;
        let mut res = String::new();
        let mut y: usize = 0;
        while y < h
            invariant
                field_data.dims_ok(),
                field_data.statuses_valid(),
                wi == field_data.width as int,
                hi == field_data.height as int,
                w == wi,
                h == hi,
                y <= hi,
                res@.len() == y * (wi + 1),
                forall|xx: int, yy: int| 0 <= xx < wi && 0 <= yy < y
                    ==> #[trigger] res@[yy * (wi + 1) + xx]
                        == cell_char(field_data.statuses()[cell_index(wi, xx, yy)]),
                forall|yy: int| 0 <= yy < y ==> #[trigger] res@[yy * (wi + 1) + wi] == '\n',
            decreases hi - y,
        {
            let mut x: usize = 0;
            while x < w
                invariant
                    field_data.dims_ok(),
                    field_data.statuses_valid(),
                    wi == field_data.width as int,
                    hi == field_data.height as int,
                    w == wi,
                    h == hi,
                    y < h,
                    x <= wi,
                    res@.len() == y * (wi + 1) + x,
                    forall|xx: int, yy: int| 0 <= xx < wi && 0 <= yy < y
                        ==> #[trigger] res@[yy * (wi + 1) + xx]
                            == cell_char(field_data.statuses()[cell_index(wi, xx, yy)]),
                    forall|yy: int| 0 <= yy < y
                        ==> #[trigger] res@[yy * (wi + 1) + wi] == '\n',
                    forall|xx: int| 0 <= xx < x
                        ==> #[trigger] res@[y * (wi + 1) + xx]
                            == cell_char(field_data.statuses()[cell_index(wi, xx, y as int)]),
                decreases wi - x,
            {
                proof {
                    lemma_cell_index(wi, hi, x as int, y as int);
                }
                let i = y * w + x;
                let fieldval = field_data.fields[i].data;
                proof {
                    assert(fieldval == field_data.status_at(i as int));
                    assert(fieldval == field_data.statuses()[i as int]);
                    assert(fieldval <= UNOPENED_BUGFREE);
                }
                let ghost before = res@;
                if fieldval == BUG {
                    crate::strings::push_char(&mut res, 'X');
                } else if fieldval == UNOPENED || fieldval == UNOPENED_BUGFREE {
                    crate::strings::push_char(&mut res, ' ');
                } else {
                    crate::strings::push_char(&mut res, (48 + fieldval) as char);
                }
                proof {
                    assert(res@[y * (wi + 1) + x]
                        == cell_char(field_data.statuses()[cell_index(wi, x as int, y as int)]));
                    assert forall|xx2: int, yy2: int| 0 <= xx2 < wi + 1 && 0 <= yy2 < y implies
                        #[trigger] res@[yy2 * (wi + 1) + xx2]
                            == before[yy2 * (wi + 1) + xx2] by {
                        crate::grid::lemma_lex_index_bound(wi + 1, y as int, yy2, xx2);
                    }
                }
                x = x + 1;
            }
            let ghost before_nl = res@;
            crate::strings::push_char(&mut res, '\n');
            proof {
                assert forall|xx2: int, yy2: int| 0 <= xx2 < wi + 1 && 0 <= yy2 < y implies
                    #[trigger] res@[yy2 * (wi + 1) + xx2]
                        == before_nl[yy2 * (wi + 1) + xx2] by {
                    crate::grid::lemma_lex_index_bound(wi + 1, y as int, yy2, xx2);
                }
                assert((y as int + 1) * (wi + 1) == y as int * (wi + 1) + wi + 1)
                    by (nonlinear_arith);
                assert(res@[y as int * (wi + 1) + wi] == '\n');
            }
            y = y + 1;
        }
        let ghost grid = res@;
        if state == STATE_PLAYING {
            crate::strings::push_str(&mut res, "Playing\n");
        } else if state == STATE_LOST {
            crate::strings::push_str(&mut res, "Lost\n");
        } else if state == STATE_WON {
            crate::strings::push_str(&mut res, "Won\n");
        } else {
            crate::strings::push_str(&mut res, "Unknown state");
        }
        proof {
            assert(res@.skip(hi * (wi + 1)) =~= state_text(state));
            assert forall|xx: int, yy: int| 0 <= xx < wi + 1 && 0 <= yy < hi implies
                #[trigger] res@[yy * (wi + 1) + xx] == grid[yy * (wi + 1) + xx] by {
                crate::grid::lemma_lex_index_bound(wi + 1, hi, yy, xx);
            }
        }
        res
    }

    /// Renders the game as the player sees it, or says it has not started.
    pub fn print(&self) -> (r: String)
        requires
            self.wf(),
        ensures
            self.state == STATE_NOT_STARTED ==> r@ == "Game not started"@,
            self.state != STATE_NOT_STARTED ==> rendered(self.cells@, WIDTH as int,
                HEIGHT as int, self.state, r@),
    {
        if self.state == STATE_NOT_STARTED {
            let mut r = String::new();
            crate::strings::push_str(&mut r, "Game not started");
            proof {
                assert(r@ =~= "Game not started"@);
            }
            return r;
        }
        let field_data = self.get_field();
        proof {
            assert forall|i: int| 0 <= i < self.cells@.len() implies
                #[trigger] field_data.statuses()[i] == self.cells@[i] by {
                assert(field_data.status_at(i) == self.cells@[i]);
            }
            assert(field_data.statuses() =~= self.cells@);
        }
        Self::print_field(field_data, self.state)
    }

    /// Renders one sampled completion of the current board: the hidden
    /// cells are filled in from `rand_seed` and the whole board is shown.
    pub fn print_filled_in(&self, rand_seed: u64) -> (res: Result<String, GameError>)
        requires
            self.wf(),
        ensures
            count_in_range(self.cells@, 0, 8, self.cells@.len() as int) == 0 ==> res is Ok,
            res matches Ok(s) ==> exists|b: GameData| {
                &&& #[trigger] b.statuses().len() == self.cells@.len()
                &&& (forall|i: int| 0 <= i < self.cells@.len()
                    && #[trigger] self.cells@[i] != UNOPENED
                    ==> b.statuses()[i] == self.cells@[i])
                &&& (forall|i: int| 0 <= i < self.cells@.len()
                    ==> #[trigger] b.statuses()[i] != UNOPENED)
                &&& rendered(b.statuses(), WIDTH as int, HEIGHT as int, self.state, s@)
            },
    {
        let field_data = self.get_field();
        proof {
            if count_in_range(self.cells@, 0, 8, self.cells@.len() as int) == 0 {
                assert forall|i: int| 0 <= i < field_data.n() implies
                    #[trigger] field_data.status_at(i) > 8 by {
                    if field_data.status_at(i) <= 8 {
                        assert(self.cells@[i] <= 8);
                        crate::grid::lemma_count_in_range_positive(
                            self.cells@, 0, 8, self.cells@.len() as int, i);
                    }
                }
            }
        }
        let filled_in = match field_data.fill_in(rand_seed, BUG_CHANCE_100) {
            Ok(f) => f,
            Err(_) => {
                return Err(GameError::FillFailed);
            },
        };
        let s = Self::print_field(filled_in, self.state);
        proof {
            let b = filled_in;
            assert(b.statuses().len() == self.cells@.len());
            assert forall|i: int| 0 <= i < self.cells@.len()
                && #[trigger] self.cells@[i] != UNOPENED implies
                b.statuses()[i] == self.cells@[i] by {
                assert(field_data.status_at(i) == self.cells@[i]);
                assert(b.status_at(i) == field_data.status_at(i));
            }
            assert forall|i: int| 0 <= i < self.cells@.len() implies
                #[trigger] b.statuses()[i] != UNOPENED by {
                assert(b.status_at(i) != UNOPENED);
            }
        }
        Ok(s)
    }
}

/// Pre-committing one hidden cell to bug-free on a freshly wired board
/// with no opened cell keeps the board invariant: every impact list is
/// empty, and no bug count changes.
proof fn lemma_precommit_preserves_wf(a: GameData, b: GameData, ii: int)
    requires
        a.freshly_wired(),
        forall|i: int| 0 <= i < a.n() ==> #[trigger] a.status_at(i) > 8,
        0 <= ii < a.n(),
        a.status_at(ii) >= UNOPENED,
        b.width == a.width,
        b.height == a.height,
        b.num_open == a.num_open,
        b.fields@ == a.fields@.update(ii, crate::field::Field {
            data: UNOPENED_BUGFREE,
            ..a.fields@[ii]
        }),
    ensures
        b.wf(),
        forall|i: int| 0 <= i < b.n() ==> #[trigger] b.status_at(i) > 8,
        forall|i: int| 0 <= i < b.n() && i != ii
            ==> #[trigger] b.status_at(i) == a.status_at(i),
        b.status_at(ii) == UNOPENED_BUGFREE,
{
    let wi = a.width as int;
    let hi = a.height as int;
    assert(b.statuses() =~= a.statuses().update(ii, UNOPENED_BUGFREE));
    assert forall|i: int| 0 <= i < b.n() implies {
        &&& #[trigger] b.status_at(i) > 8
        &&& b.status_at(i) <= UNOPENED_BUGFREE
        &&& (i != ii ==> b.status_at(i) == a.status_at(i))
    } by {
        if i != ii {
            assert(b.fields@[i] == a.fields@[i]);
            assert(a.status_at(i) > 8 && a.status_at(i) <= UNOPENED_BUGFREE);
        }
    }
    assert forall|i: int| 0 <= i < b.n() implies
        #[trigger] b.fields@[i].adjacent_bugs as int
            == nbr_count(b.statuses(), wi, hi, i, BUG) by {
        lemma_nbr_count_update(a.statuses(), wi, hi, i, BUG, ii, UNOPENED_BUGFREE);
        assert(a.statuses()[ii] == a.status_at(ii));
        assert(a.statuses()[ii] != BUG && UNOPENED_BUGFREE != BUG);
        assert(a.fields@[i].adjacent_bugs as int == nbr_count(a.statuses(), wi, hi, i, BUG));
        assert(b.fields@[i].adjacent_bugs == a.fields@[i].adjacent_bugs);
    }
    assert forall|i: int| 0 <= i < b.n() implies
        (#[trigger] b.fields@[i].impacted_by)@.len() == 0
            && (#[trigger] b.fields@[i].impacts)@.len() == 0 by {
        assert(b.fields@[i].impacted_by == a.fields@[i].impacted_by);
        assert(b.fields@[i].impacts == a.fields@[i].impacts);
        if a.fields@[i].impacted_by@.len() > 0 {
            let e = a.fields@[i].impacted_by@[0];
            assert(a.ib_entry_ok(i, e));
            assert(a.status_at(e as int) == UNOPENED && a.status_at(i) > 8);
            assert(a.fields@[i].impacted_by@.contains(e));
            assert(a.fields@[i].impacted_by@.contains((e as int) as u8));
            assert(a.status_at(i) <= 8);
        }
        if a.fields@[i].impacts@.len() > 0 {
            let e = a.fields@[i].impacts@[0];
            assert(a.fields@[i].impacts@.contains(e));
            assert(is_nbr(wi, hi, i, e as int));
            assert(a.fields@[i].impacts@.contains((e as int) as u8));
            assert(a.status_at(e as int) <= 8);
        }
    }
}

/// Opening a decided cell (writing a count below nine over a decided
/// status) keeps the board invariant: bug counts are untouched and, with no
/// undecided cell anywhere, every impact list is empty and stays so.
proof fn lemma_set_open_preserves_wf(a: GameData, b: GameData, ii: int, count: u8)
    requires
        a.wf(),
        forall|i: int| 0 <= i < a.n() ==> #[trigger] a.status_at(i) != UNOPENED,
        0 <= ii < a.n(),
        a.status_at(ii) >= UNOPENED,
        count <= 8,
        b.width == a.width,
        b.height == a.height,
        b.num_open == a.num_open,
        b.fields@ == a.fields@.update(ii, crate::field::Field { data: count, ..a.fields@[ii] }),
    ensures
        b.wf(),
        forall|i: int| 0 <= i < b.n() ==> #[trigger] b.status_at(i) != UNOPENED,
        forall|i: int| 0 <= i < b.n() && i != ii
            ==> #[trigger] b.status_at(i) == a.status_at(i),
        b.status_at(ii) == count,
        forall|i: int| 0 <= i < b.n()
            ==> #[trigger] b.fields@[i].adjacent_bugs == a.fields@[i].adjacent_bugs,
{
    let wi = a.width as int;
    let hi = a.height as int;
    assert(b.statuses() =~= a.statuses().update(ii, count));
    assert forall|i: int| 0 <= i < b.n() implies {
        &&& #[trigger] b.status_at(i) != UNOPENED
        &&& b.status_at(i) <= UNOPENED_BUGFREE
        &&& (i != ii ==> b.status_at(i) == a.status_at(i))
    } by {
        if i != ii {
            assert(b.fields@[i] == a.fields@[i]);
            assert(a.status_at(i) != UNOPENED && a.status_at(i) <= UNOPENED_BUGFREE);
        }
    }
    assert forall|i: int| 0 <= i < b.n() implies
        #[trigger] b.fields@[i].adjacent_bugs as int
            == nbr_count(b.statuses(), wi, hi, i, BUG) by {
        lemma_nbr_count_update(a.statuses(), wi, hi, i, BUG, ii, count);
        assert(a.statuses()[ii] == a.status_at(ii));
        assert(a.statuses()[ii] != BUG && count != BUG);
        assert(a.fields@[i].adjacent_bugs as int == nbr_count(a.statuses(), wi, hi, i, BUG));
        assert(b.fields@[i].adjacent_bugs == a.fields@[i].adjacent_bugs);
    }
    assert forall|i: int| 0 <= i < b.n() implies
        (#[trigger] b.fields@[i].impacted_by)@.len() == 0 by {
        if a.fields@[i].impacted_by@.len() > 0 {
            let e = a.fields@[i].impacted_by@[0];
            assert(a.ib_entry_ok(i, e));
            assert(a.status_at(e as int) != UNOPENED);
        }
        assert(b.fields@[i].impacted_by == a.fields@[i].impacted_by);
    }
    assert forall|i: int, k: int|
        0 <= i < b.n() && 0 <= k < b.fields@[i].impacts@.len() implies
        is_nbr(wi, hi, i, (#[trigger] b.fields@[i].impacts@[k]) as int)
            && b.status_at(b.fields@[i].impacts@[k] as int) <= 8 by {
        assert(b.fields@[i].impacts == a.fields@[i].impacts);
        assert(a.status_at(a.fields@[i].impacts@[k] as int) <= 8);
    }
}

} // verus!
