use puzzles::expansion::Observation;

fn test_data() -> &'static str {
    "...#......
.......#..
#.........
..........
......#...
.#........
.........#
..........
.......#..
#...#....."
}

#[test]
fn test_parse_map() {
    let observation = Observation::parse_map(test_data());

    assert_eq!(observation.galaxies.len(), 9);
}

#[test]
fn test_expansion() {
    let mut observation = Observation::parse_map(test_data());

    observation.perform_expansion(1);

    assert_eq!(
        observation.print_observation(),
        "....#........
.........#...
#............
.............
.............
........#....
.#...........
............#
.............
.............
.........#...
#....#.......
"
    );
}

#[test]
fn test_distance() {
    let mut observation = Observation::parse_map(test_data());

    observation.perform_expansion(1);

    assert_eq!(
        observation.calculate_distance(observation.galaxies[0], observation.galaxies[6]),
        15
    );
    assert_eq!(
        observation.calculate_distance(observation.galaxies[2], observation.galaxies[5]),
        17
    );
    assert_eq!(
        observation.calculate_distance(observation.galaxies[7], observation.galaxies[8]),
        5
    );
}

#[test]
fn test_distance_combinations() {
    let mut observation = Observation::parse_map(test_data());

    observation.perform_expansion(1);

    assert_eq!(observation.distance_combinations(), 374);
}

#[test]
fn test_distance_combinations_10x() {
    let mut observation = Observation::parse_map(test_data());

    observation.perform_expansion(9);

    assert_eq!(observation.distance_combinations(), 1030);
}

#[test]
fn test_distance_combinations_100x() {
    let mut observation = Observation::parse_map(test_data());

    observation.perform_expansion(99);

    assert_eq!(observation.distance_combinations(), 8410);
}

#[test]
fn test_add_galaxy() {
    let mut observation = Observation::new();
    observation.add_galaxy((2, 3));
    assert_eq!(observation.galaxies, vec![(2, 3)]);
}
