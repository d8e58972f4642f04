use puzzles::springs::{count, unfold, totals, MaintenanceRecord, ParseError};

fn test_data() -> &'static str {
    "???.### 1,1,3
.??..??...?##. 1,1,3
?#?#?#?#?#?#?#? 1,3,1,6
????.#...#... 4,1,1
????.######..#####. 1,6,5
?###???????? 3,2,1"
}

#[test]
fn test_parse_maintenance_records() {
    let input = test_data();
    let records = MaintenanceRecord::parse_all_maintenance_records(input).unwrap();

    assert_eq!(records.len(), 6);
    assert_eq!(records[0].springs.len(), 7);
    assert_eq!(records[0].damaged_springs.len(), 3);
}

#[test]
fn test_possible_failures() {
    let input = test_data();
    let records = MaintenanceRecord::parse_all_maintenance_records(input).unwrap();

    assert_eq!(records[0].count_possible_failures().unwrap(), 1);
    assert_eq!(records[1].count_possible_failures().unwrap(), 4);
    assert_eq!(records[2].count_possible_failures().unwrap(), 1);
    assert_eq!(records[3].count_possible_failures().unwrap(), 1);
    assert_eq!(records[4].count_possible_failures().unwrap(), 4);
    assert_eq!(records[5].count_possible_failures().unwrap(), 10);

    let mut total_possible_failures = 0;
    for record in records.iter() {
        total_possible_failures += record.count_possible_failures().unwrap();
    }

    assert_eq!(total_possible_failures, 21)
}

#[test]
fn test_possible_failures_unfold() {
    let input = test_data();
    let records = MaintenanceRecord::parse_all_maintenance_records(input).unwrap();

    assert_eq!(records[0].count_possible_failures_unfold().unwrap(), 1);
    assert_eq!(records[1].count_possible_failures_unfold().unwrap(), 16384);
    assert_eq!(records[2].count_possible_failures_unfold().unwrap(), 1);
    assert_eq!(records[3].count_possible_failures_unfold().unwrap(), 16);
    assert_eq!(records[4].count_possible_failures_unfold().unwrap(), 2500);
    assert_eq!(records[5].count_possible_failures_unfold().unwrap(), 506250);

    let mut total_possible_failures_unfold = 0;
    for record in records.iter() {
        total_possible_failures_unfold += record.count_possible_failures_unfold().unwrap();
    }

    assert_eq!(total_possible_failures_unfold, 525152)
}

fn cells(s: &str) -> Vec<char> {
    s.chars().collect()
}

#[test]
fn test_count_base_cases() {
    assert_eq!(count(&cells("."), &vec![]), Some(1));
    assert_eq!(count(&cells("#"), &vec![]), Some(0));
}

#[test]
fn test_count_single_arrangement() {
    assert_eq!(count(&cells("???.###"), &vec![1, 1, 3]), Some(1));
}

#[test]
fn test_count_four_arrangements() {
    assert_eq!(count(&cells(".??..??...?##."), &vec![1, 1, 3]), Some(4));
}

#[test]
fn test_count_interleaved() {
    assert_eq!(count(&cells("?#?#?#?#?#?#?#?"), &vec![1, 3, 1, 6]), Some(1));
}

#[test]
fn test_count_prefix_run() {
    assert_eq!(count(&cells("????.#...#..."), &vec![4, 1, 1]), Some(1));
}

#[test]
fn test_count_long_runs() {
    assert_eq!(count(&cells("????.######..#####."), &vec![1, 6, 5]), Some(4));
}

#[test]
fn test_count_ten_arrangements() {
    assert_eq!(count(&cells("?###????????"), &vec![3, 2, 1]), Some(10));
}

#[test]
fn test_totals_batch() {
    let records = MaintenanceRecord::parse_all_maintenance_records(test_data()).unwrap();
    let (plain, unfolded) = totals(&records);
    assert_eq!(plain, Some(21));
    assert_eq!(unfolded, Some(525152));
}

#[test]
fn test_unfold_shape() {
    let (cells5, groups5) = unfold(&cells(".#"), &vec![1], 5).unwrap();
    assert_eq!(cells5, cells(".#?.#?.#?.#?.#"));
    assert_eq!(groups5, vec![1, 1, 1, 1, 1]);
}

#[test]
fn test_unfold_repeated_calls_agree() {
    let a = unfold(&cells("???.###"), &vec![1, 1, 3], 5).unwrap();
    let b = unfold(&cells("???.###"), &vec![1, 1, 3], 5).unwrap();
    assert_eq!(a.0, b.0);
    assert_eq!(a.1, b.1);
}

#[test]
fn test_unfold_factor_one_is_identity() {
    let (c, g) = unfold(&cells("?.#"), &vec![1], 1).unwrap();
    assert_eq!(c, cells("?.#"));
    assert_eq!(g, vec![1]);
}

#[test]
fn test_count_fully_known_records() {
    assert_eq!(count(&cells("#.##..###"), &vec![1, 2, 3]), Some(1));
    assert_eq!(count(&cells("#.##..###"), &vec![1, 2, 2]), Some(0));
    assert_eq!(count(&cells("#.##..###"), &vec![3, 2, 1]), Some(0));
}

#[test]
fn test_count_trailing_unknown_monotonic() {
    let base = count(&cells("?###??????"), &vec![3, 2, 1]).unwrap();
    let wider = count(&cells("?###???????"), &vec![3, 2, 1]).unwrap();
    assert!(wider >= base);
}

#[test]
fn test_parse_errors() {
    assert_eq!(
        MaintenanceRecord::parse_maintenance_record("no-spec-part").unwrap_err(),
        ParseError::MissingSpec
    );
    assert_eq!(
        MaintenanceRecord::parse_maintenance_record("??x.# 1,2").unwrap_err(),
        ParseError::IllegalCell
    );
    assert_eq!(
        MaintenanceRecord::parse_maintenance_record("??. 1,x").unwrap_err(),
        ParseError::BadGroup
    );
}

#[test]
fn test_count_empty_record_and_groups() {
    assert_eq!(count(&cells(""), &vec![]), Some(1));
    assert_eq!(count(&cells(""), &vec![1]), Some(0));
    assert_eq!(count(&cells("???"), &vec![]), Some(1));
}
