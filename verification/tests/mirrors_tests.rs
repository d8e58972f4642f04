use puzzles::mirrors::Pattern;

fn test_data() -> &'static str {
    "#.##..##.
..#.##.#.
##......#
##......#
..#.##.#.
..##..##.
#.#.##.#.

#...##..#
#....#..#
..##..###
#####.##.
#####.##.
..##..###
#....#..#"
}

fn cells(s: &str) -> Vec<char> {
    s.chars().collect()
}

#[test]
fn test_parse_patterns() {
    let records = Pattern::parse_all_patterns(test_data());

    assert_eq!(records.len(), 2);
    assert_eq!(records[0].rows.len(), 7);
    assert_eq!(records[0].rows.len(), 7);

    assert_eq!(records[0].rows[0], cells("#.##..##."));
    assert_eq!(records[0].columns[0], cells("#.##..#"));
}

#[test]
fn test_vertical_point_of_incidence() {
    let records = Pattern::parse_all_patterns(test_data());

    assert_eq!(Pattern::vertical_point_of_incidence(&records[0].rows, None), Some(5));
    assert_eq!(Pattern::vertical_point_of_incidence(&records[1].rows, None), None);

    assert_eq!(Pattern::horizontal_point_of_incidence(&records[0].columns, None), None);
    assert_eq!(Pattern::horizontal_point_of_incidence(&records[1].columns, None), Some(4));

    assert_eq!(records[0].sum_of_reflection_points(), 5);
    assert_eq!(records[1].sum_of_reflection_points(), 400);
}

#[test]
fn test_vertical_point_of_incidence_smudge() {
    let records = Pattern::parse_all_patterns(test_data());

    assert_eq!(Pattern::vertical_point_of_incidence_smudge(&records[0].rows), None);
    assert_eq!(Pattern::vertical_point_of_incidence_smudge(&records[1].rows), None);

    assert_eq!(Pattern::horizontal_point_of_incidence_smudge(&records[0].columns), Some(3));
    assert_eq!(Pattern::horizontal_point_of_incidence_smudge(&records[1].columns), Some(1));

    assert_eq!(records[0].sum_of_reflection_points_smudge(), 300);
    assert_eq!(records[1].sum_of_reflection_points_smudge(), 100);
}

#[test]
fn test_vertical_point_of_incidence_smudge_failing1() {
    let input = "......#
###.#..
###.##.
###.##.
###.#..
.....##
##..#..
##.#...
.###.#.
##.....
..#...#
#....##
#....##
..#...#
##.....";
    let records = Pattern::parse_all_patterns(input);

    assert_eq!(Pattern::vertical_point_of_incidence(&records[0].rows, None), None);
    assert_eq!(Pattern::horizontal_point_of_incidence(&records[0].columns, None), Some(12));

    assert_eq!(Pattern::vertical_point_of_incidence_smudge(&records[0].rows), None);
    assert_eq!(Pattern::horizontal_point_of_incidence_smudge(&records[0].columns), Some(3));

    assert_eq!(records[0].sum_of_reflection_points(), 1200);
    assert_eq!(records[0].sum_of_reflection_points_smudge(), 300);
}

#[test]
fn test_columns_transpose() {
    let p = Pattern::parse_pattern("#.\n.#");
    assert_eq!(p.columns, vec![cells("#."), cells(".#")]);
}
