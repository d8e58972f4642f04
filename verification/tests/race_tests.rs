use puzzles::race::{define_races, Race};

#[test]
fn test_define_races() {
    let input = "Time:      7  15   30
Distance:  9  40  200";

    let races = define_races(input).unwrap();

    assert_eq!(races.len(), 3);

    assert_eq!(races[0].total_time, 7);
    assert_eq!(races[0].record_distance, 9);

    assert_eq!(races[1].total_time, 15);
    assert_eq!(races[1].record_distance, 40);

    assert_eq!(races[2].total_time, 30);
    assert_eq!(races[2].record_distance, 200);
}

#[test]
fn test_get_min_winning_press() {
    let race = Race { total_time: 7, record_distance: 9 };
    assert_eq!(race.get_min_winning_press(), 2);

    let race = Race { total_time: 15, record_distance: 40 };
    assert_eq!(race.get_min_winning_press(), 4);

    let race = Race { total_time: 30, record_distance: 200 };
    assert_eq!(race.get_min_winning_press(), 11);
}

#[test]
fn test_get_max_winning_press() {
    let race = Race { total_time: 7, record_distance: 9 };
    assert_eq!(race.get_max_winning_press(), 5);

    let race = Race { total_time: 15, record_distance: 40 };
    assert_eq!(race.get_max_winning_press(), 11);

    let race = Race { total_time: 30, record_distance: 200 };
    assert_eq!(race.get_max_winning_press(), 19);
}

#[test]
fn test_get_num_winning_press() {
    let race = Race { total_time: 7, record_distance: 9 };
    assert_eq!(race.get_num_winning_presses(), 4);

    let race = Race { total_time: 15, record_distance: 40 };
    assert_eq!(race.get_num_winning_presses(), 8);

    let race = Race { total_time: 30, record_distance: 200 };
    assert_eq!(race.get_num_winning_presses(), 9);
}

#[test]
fn test_define_races_rejects_bad_header() {
    assert!(define_races("Times: 7\nDistance: 9").is_none());
    assert!(define_races("Time: 7").is_none());
    assert!(define_races("Time: 7\nDistance: x").is_none());
}
