use chainsweep::field::{GameData, BUG, UNOPENED, UNOPENED_BUGFREE};

#[test]
#[allow(non_snake_case)]
fn test_init() {
    let X = BUG;
    let o = UNOPENED;
    let data = GameData::new(4, 4, vec![
        o, X, o, o,
        X, o, o, o,
        o, o, o, o,
        X, X, X, o,
    ]);

    let adjacent = data.fields.iter().map(|field| field.adjacent_bugs).collect::<Vec<u8>>();
    assert_eq!(adjacent, vec![
        2, 1, 1, 0,
        1, 2, 1, 0,
        3, 4, 2, 1,
        1, 2, 1, 1]);
}

#[test]
#[allow(non_snake_case)]
fn test_impact() {
    let X = BUG;
    let o = UNOPENED;
    let data = GameData::new(
        4, 4, vec![
        X, X, o, o,
        X, 4, 1, o,
        o, o, o, o,
        X, X, X, 2,
    ]);

    assert_eq!(data.fields[0].impacts, vec![]);
    assert_eq!(data.fields[0].impacted_by, vec![]);

    assert_eq!(data.fields[2].impacts, vec![5, 6]);
    assert_eq!(data.fields[2].impacted_by, vec![]);

    assert_eq!(data.fields[5].impacts, vec![]);
    assert_eq!(data.fields[5].impacted_by, vec![8, 9, 2, 10]);

    assert_eq!(data.fields[12].impacts, vec![]);
    assert_eq!(data.fields[12].impacted_by, vec![]);
}

#[test]
#[allow(non_snake_case)]
fn test_generate() {
    let X = BUG;
    let o = UNOPENED;
    let data = GameData::new(
        4, 4, vec![
        X, X, o, o,
        X, 4, 1, o,
        o, o, o, o,
        X, X, X, 1,
    ]);

    let z = UNOPENED_BUGFREE;

    let filled_in = data.fill_in(63515, 20).unwrap();

    assert_eq!(filled_in.fields.iter().map(|field| field.data).collect::<Vec<u8>>(), vec![
        X, X, z, z,
        X, 4, 1, z,
        X, z, z, z,
        X, X, X, 1,
    ]);

    let filled_in = GameData::new(5, 5, vec![o; 25]).fill_in(666132615, 20).unwrap();
    assert_eq!(filled_in.fields.iter().map(|field| field.data).collect::<Vec<u8>>(), vec![
        z, X, z, X, z,
        z, z, z, z, z,
        z, z, z, z, z,
        z, X, X, z, z,
        z, X, z, z, z,
    ]);

    let filled_in = GameData::new(5, 5, vec![o; 25]).fill_in(666132615, 80).unwrap();
    assert_eq!(filled_in.fields.iter().map(|field| field.data).collect::<Vec<u8>>(), vec![
        X, X, z, X, X,
        X, X, X, X, X,
        z, X, X, X, z,
        X, X, X, X, X,
        X, X, X, X, z,
    ]);

    let data = GameData::new(
        4, 4, vec![
        o, o, o, o,
        o, 4, 1, o,
        o, o, o, o,
        o, o, o, 1,
    ]);

    let filled_in = data.fill_in(666132615, 25).unwrap();
    assert_eq!(filled_in.fields.iter().map(|field| field.data).collect::<Vec<u8>>(), vec![
        X, X, z, z,
        X, 4, 1, z,
        X, z, z, z,
        z, z, X, 1,
    ]);

    assert_eq!(data.fill_in(13371, 25).unwrap().fields.iter().map(|field| field.data)
        .collect::<Vec<u8>>(), vec![
        X, z, X, z,
        X, 4, 1, z,
        X, z, z, z,
        z, X, X, 1,
    ]);
}

#[test]
#[allow(non_snake_case)]
fn test_generate_at_start_bugfree() {
    let X = BUG;
    let o = UNOPENED;
    let z = UNOPENED_BUGFREE;
    let data = GameData::new(
        4, 4, vec![
        o, o, o, o,
        o, o, o, o,
        o, o, z, o,
        o, o, o, o,
    ]);
    assert_eq!(data.fill_in(13371, 50).unwrap().fields.iter().map(|field| field.data)
        .collect::<Vec<u8>>(), vec![
        z, X, X, z,
        X, z, z, z,
        z, X, z, z,
        z, X, X, X,
    ]);
    assert_eq!(data.fill_in(13371, 100).unwrap().fields.iter().map(|field| field.data)
        .collect::<Vec<u8>>(), vec![
        X, X, X, X,
        X, X, X, X,
        X, X, z, X,
        X, X, X, X,
    ]);
}
