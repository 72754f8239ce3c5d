use chainsweep::field::{BUG, UNOPENED, UNOPENED_BUGFREE};
use chainsweep::game::{
    Game, GameError, BUG_CHANCE_100, HEIGHT, STATE_LOST, STATE_NOT_STARTED, STATE_PLAYING,
    STATE_WON, WIDTH,
};

fn fresh_game() -> Game {
    let mut g = Game { cells: Vec::new(), state: STATE_NOT_STARTED };
    g.init();
    g
}

#[test]
fn init_hides_every_cell() {
    let g = fresh_game();
    assert_eq!(g.state, STATE_PLAYING);
    assert_eq!(g.cells.len(), (WIDTH as usize) * (HEIGHT as usize));
    assert!(g.cells.iter().all(|&c| c == UNOPENED));
    assert!(g.is_started());
    assert!(!g.is_ended());
}

#[test]
fn guess_on_unstarted_game_is_rejected() {
    let mut g = Game { cells: vec![UNOPENED; 25], state: STATE_NOT_STARTED };
    let res = g.make_guess(0, 0, 42);
    assert!(matches!(res, Err(GameError::GameAlreadyOver)));
    assert_eq!(g.state, STATE_NOT_STARTED);
}

#[test]
fn first_guess_is_never_a_bug() {
    for seed in [1u64, 2, 3, 13371, 666132615] {
        let mut g = fresh_game();
        let res = g.make_guess(2, 2, seed).unwrap();
        assert!(res <= 8);
        assert_ne!(g.state, STATE_LOST);
    }
}

#[test]
fn reopening_a_cell_is_rejected() {
    let mut g = fresh_game();
    let first = g.make_guess(2, 2, 13371).unwrap();
    assert!(first <= 8);
    let res = g.make_guess(2, 2, 999);
    assert!(matches!(res, Err(GameError::FieldAlreadyOpened)));
}

#[test]
fn opening_a_bug_loses() {
    // Find a seed whose second guess hits a bug, then check the loss state.
    let mut lost_seen = false;
    for seed in 0u64..200 {
        let mut g = fresh_game();
        g.make_guess(0, 0, 13371).unwrap();
        if g.state != STATE_PLAYING {
            continue;
        }
        if let Ok(v) = g.make_guess(4, 4, seed) {
            if v == BUG {
                assert_eq!(g.state, STATE_LOST);
                assert!(g.is_ended());
                lost_seen = true;
                break;
            }
        }
    }
    assert!(lost_seen);
}

#[test]
fn zero_count_floods_neighbours() {
    // With a zero percentage no cell is a bug, so the very first guess
    // floods the whole board and wins the game.
    let mut g = fresh_game();
    let mut opened = g.cells.clone();
    let v = {
        // percentage is fixed by the game; use a seed at which (2,2) has
        // count zero so flooding reaches the border
        let mut chosen = None;
        for seed in 0u64..500 {
            let mut probe = fresh_game();
            if let Ok(c) = probe.make_guess(2, 2, seed) {
                if c == 0 {
                    chosen = Some(seed);
                    break;
                }
            }
        }
        let seed = chosen.expect("some seed yields a zero count");
        let c = g.make_guess(2, 2, seed).unwrap();
        opened = g.cells.clone();
        c
    };
    assert_eq!(v, 0);
    // every neighbour of (2,2) must now be open
    for dy in -1..=1i32 {
        for dx in -1..=1i32 {
            let x = (2 + dx) as usize;
            let y = (2 + dy) as usize;
            assert!(opened[y * WIDTH as usize + x] < UNOPENED);
        }
    }
    // flood-closedness: every revealed zero-count cell has every in-grid
    // neighbour revealed, so chains of zero cells are fully opened
    let w = WIDTH as i32;
    let h = HEIGHT as i32;
    for cy in 0..h {
        for cx in 0..w {
            if opened[(cy * w + cx) as usize] == 0 {
                for dy in -1..=1i32 {
                    for dx in -1..=1i32 {
                        let nx = cx + dx;
                        let ny = cy + dy;
                        if nx < 0 || nx >= w || ny < 0 || ny >= h {
                            continue;
                        }
                        assert!(opened[(ny * w + nx) as usize] < UNOPENED);
                    }
                }
            }
        }
    }
}

#[test]
fn print_shows_state_lines() {
    let g = Game { cells: vec![UNOPENED; 25], state: STATE_NOT_STARTED };
    assert_eq!(g.print(), "Game not started");
    let mut g = fresh_game();
    let s = g.print();
    assert!(s.ends_with("Playing\n"));
    assert_eq!(s.len(), 6 * 5 + 8);
    g.state = STATE_WON;
    assert!(g.print().ends_with("Won\n"));
    g.state = STATE_LOST;
    assert!(g.print().ends_with("Lost\n"));
}

#[test]
fn print_filled_in_renders_a_full_board() {
    let g = fresh_game();
    let s = g.print_filled_in(13371).unwrap();
    // five rows of five cells, each cell an X or a blank, then the state
    let rows: Vec<&str> = s.lines().collect();
    assert_eq!(rows.len(), 6);
    for row in rows.iter().take(5) {
        assert_eq!(row.len(), 5);
        assert!(row.chars().all(|c| c == 'X' || c == ' '));
    }
    assert_eq!(rows[5], "Playing");
    let _ = BUG_CHANCE_100;
}

#[test]
fn full_game_can_be_won() {
    // With a deterministic filler a game can be played to the end: keep
    // guessing hidden cells until the game ends.
    let mut g = fresh_game();
    let mut guesses = 0;
    'outer: loop {
        for y in 0..HEIGHT {
            for x in 0..WIDTH {
                if g.state != STATE_PLAYING {
                    break 'outer;
                }
                let idx = (y as usize) * (WIDTH as usize) + (x as usize);
                if g.cells[idx] >= UNOPENED {
                    let _ = g.make_guess(x, y, 1000 + guesses).unwrap();
                    guesses += 1;
                }
            }
        }
        if g.state != STATE_PLAYING {
            break;
        }
    }
    assert!(g.state == STATE_WON || g.state == STATE_LOST);
    let _ = UNOPENED_BUGFREE;
}
