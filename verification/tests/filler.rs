use chainsweep::field::{is_open, GameData, BUG, UNOPENED, UNOPENED_BUGFREE};
use chainsweep::fill::FillError;

// Fill-in completion: after a successful fill, no cell is left undecided.
#[test]
fn fill_leaves_no_cell_unopened() {
    let data = GameData::new(5, 5, vec![UNOPENED; 25]);
    let filled = data.fill_in(424242, 35).unwrap();
    for f in filled.fields.iter() {
        assert_ne!(f.data, UNOPENED);
    }
}

// Fill-in consistency: every originally-opened cell sees exactly its
// declared count of bugs among its neighbours after the fill.
#[test]
#[allow(non_snake_case)]
fn fill_respects_declared_counts() {
    let X = BUG;
    let o = UNOPENED;
    let data = GameData::new(
        4, 4, vec![
        X, X, o, o,
        X, 4, 1, o,
        o, o, o, o,
        X, X, X, 1,
    ]);
    let filled = data.fill_in(987654321, 40).unwrap();
    let w = 4i32;
    let h = 4i32;
    for y in 0..h {
        for x in 0..w {
            let declared = data.get(x as u8, y as u8).data;
            if declared <= 8 {
                let mut bugs = 0;
                for dy in -1..=1i32 {
                    for dx in -1..=1i32 {
                        if dx == 0 && dy == 0 {
                            continue;
                        }
                        let nx = x + dx;
                        let ny = y + dy;
                        if nx < 0 || nx >= w || ny < 0 || ny >= h {
                            continue;
                        }
                        if filled.get(nx as u8, ny as u8).data == BUG {
                            bugs += 1;
                        }
                    }
                }
                assert_eq!(bugs, declared as i32);
            }
        }
    }
}

// Determinism: the same board, seed and percentage give byte-identical
// boards.
#[test]
fn fill_is_deterministic() {
    let data = GameData::new(
        4, 4, vec![
        UNOPENED, UNOPENED, UNOPENED, UNOPENED,
        UNOPENED, 4, 1, UNOPENED,
        UNOPENED, UNOPENED, UNOPENED, UNOPENED,
        UNOPENED, UNOPENED, UNOPENED, 1,
    ]);
    let a = data.fill_in(777, 30).unwrap();
    let b = data.fill_in(777, 30).unwrap();
    let va = a.fields.iter().map(|f| f.data).collect::<Vec<u8>>();
    let vb = b.fields.iter().map(|f| f.data).collect::<Vec<u8>>();
    assert_eq!(va, vb);
    assert_eq!(a.to_string(), b.to_string());
}

// Density monotone at the extremes: at zero per cent no free cell becomes
// a bug; at a hundred every free cell does; anything else lies in between.
#[test]
fn fill_density_extremes() {
    let data = GameData::new(5, 5, vec![UNOPENED; 25]);
    let count_bugs = |g: &GameData| g.fields.iter().filter(|f| f.data == BUG).count();
    let zero = data.fill_in(555, 0).unwrap();
    let mid = data.fill_in(555, 50).unwrap();
    let full = data.fill_in(555, 100).unwrap();
    assert_eq!(count_bugs(&zero), 0);
    assert_eq!(count_bugs(&full), 25);
    assert!(count_bugs(&zero) <= count_bugs(&mid));
    assert!(count_bugs(&mid) <= count_bugs(&full));
}

// First-move safety: a cell pre-committed bug-free never becomes a bug,
// whatever the seed or the percentage.
#[test]
fn precommitted_cell_stays_bugfree() {
    for seed in [1u64, 13371, 666132615] {
        for pct in [0u8, 20, 50, 100] {
            let mut cells = vec![UNOPENED; 25];
            cells[12] = UNOPENED_BUGFREE;
            let data = GameData::new(5, 5, cells);
            let filled = data.fill_in(seed, pct).unwrap();
            assert_eq!(filled.fields[12].data, UNOPENED_BUGFREE);
        }
    }
}

// A board that admits no completion is reported as a failed fill.
#[test]
fn impossible_board_fails() {
    let data = GameData::new(2, 1, vec![2, UNOPENED]);
    let res = data.fill_in(1, 50);
    assert!(matches!(res, Err(FillError::FillFailed)));
}

// The rendering shows exactly the bugs, row by row.
#[test]
#[allow(non_snake_case)]
fn to_string_marks_bugs() {
    let X = BUG;
    let o = UNOPENED;
    let data = GameData::new(2, 2, vec![X, o, o, X]);
    assert_eq!(data.to_string(), "X.\n.X\n");
}

// is_open accepts exactly the revealed statuses.
#[test]
fn is_open_splits_statuses() {
    for v in 0u8..=8 {
        assert!(is_open(v));
    }
    assert!(is_open(BUG));
    assert!(!is_open(UNOPENED));
    assert!(!is_open(UNOPENED_BUGFREE));
}

// Cell writes change exactly the addressed cell's status.
#[test]
fn set_data_writes_one_cell() {
    let mut data = GameData::new(3, 3, vec![UNOPENED; 9]);
    data.set_data(1, 2, BUG);
    assert_eq!(data.get(1, 2).data, BUG);
    assert_eq!(data.get(1, 1).data, UNOPENED);
    assert_eq!(data.get(2, 2).data, UNOPENED);
    assert_eq!(data.num_open, 0);
}

// Construction counts the opened cells.
#[test]
fn new_counts_open_cells() {
    let data = GameData::new(3, 2, vec![0, 1, BUG, UNOPENED, 8, UNOPENED_BUGFREE]);
    assert_eq!(data.num_open, 3);
    assert_eq!(data.width, 3);
    assert_eq!(data.height, 2);
}
