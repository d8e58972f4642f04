use puzzles::tilt::Platform;

fn test_data() -> &'static str {
    "O....#....
O.OO#....#
.....##...
OO.#O....O
.O.....O#.
O.#..O.#.#
..O..#O..O
.......O..
#....###..
#OO..#...."
}

fn cells(s: &str) -> Vec<char> {
    s.chars().collect()
}

#[test]
fn main_test_parse_patterns() {
    let records = Platform::parse_platform(test_data());

    assert_eq!(records.rows.len(), 10);
}

#[test]
fn test_tilt_north() {
    let mut platform = Platform::parse_platform(test_data());

    assert_eq!(platform.rows.len(), 10);

    (platform.rows, platform.columns) = Platform::tilt_north(&platform.columns);

    assert_eq!(platform.rows[0], cells("OOOO.#.O.."));
    assert_eq!(platform.rows[1], cells("OO..#....#"));
    assert_eq!(platform.rows[2], cells("OO..O##..O"));
    assert_eq!(platform.rows[3], cells("O..#.OO..."));
    assert_eq!(platform.rows[4], cells("........#."));
    assert_eq!(platform.rows[5], cells("..#....#.#"));
    assert_eq!(platform.rows[6], cells("..O..#.O.O"));
    assert_eq!(platform.rows[7], cells("..O......."));
    assert_eq!(platform.rows[8], cells("#....###.."));
    assert_eq!(platform.rows[9], cells("#....#...."));

    assert_eq!(platform.count_north_load(), 136);
}

#[test]
fn test_spin_cycle() {
    let mut records = Platform::parse_platform(test_data());

    assert!(!records.spin_cycle());

    assert_eq!(records.rows[0], cells(".....#...."));
    assert_eq!(records.rows[1], cells("....#...O#"));
    assert_eq!(records.rows[2], cells("...OO##..."));
    assert_eq!(records.rows[3], cells(".OO#......"));
    assert_eq!(records.rows[4], cells(".....OOO#."));
    assert_eq!(records.rows[5], cells(".O#...O#.#"));
    assert_eq!(records.rows[6], cells("....O#...."));
    assert_eq!(records.rows[7], cells("......OOOO"));
    assert_eq!(records.rows[8], cells("#...O###.."));
    assert_eq!(records.rows[9], cells("#..OO#...."));

    assert!(!records.spin_cycle());

    assert_eq!(records.rows[0], cells(".....#...."));
    assert_eq!(records.rows[1], cells("....#...O#"));
    assert_eq!(records.rows[2], cells(".....##..."));
    assert_eq!(records.rows[3], cells("..O#......"));
    assert_eq!(records.rows[4], cells(".....OOO#."));
    assert_eq!(records.rows[5], cells(".O#...O#.#"));
    assert_eq!(records.rows[6], cells("....O#...O"));
    assert_eq!(records.rows[7], cells(".......OOO"));
    assert_eq!(records.rows[8], cells("#..OO###.."));
    assert_eq!(records.rows[9], cells("#.OOO#...O"));

    assert!(!records.spin_cycle());

    assert_eq!(records.rows[0], cells(".....#...."));
    assert_eq!(records.rows[1], cells("....#...O#"));
    assert_eq!(records.rows[2], cells(".....##..."));
    assert_eq!(records.rows[3], cells("..O#......"));
    assert_eq!(records.rows[4], cells(".....OOO#."));
    assert_eq!(records.rows[5], cells(".O#...O#.#"));
    assert_eq!(records.rows[6], cells("....O#...O"));
    assert_eq!(records.rows[7], cells(".......OOO"));
    assert_eq!(records.rows[8], cells("#...O###.O"));
    assert_eq!(records.rows[9], cells("#.OOO#...O"));
}

#[test]
fn test_spin_cycle_repeat() {
    let mut records = Platform::parse_platform(test_data());

    records.spin_n_times(1_000_000_000);

    assert_eq!(records.count_north_load(), 64);
}
