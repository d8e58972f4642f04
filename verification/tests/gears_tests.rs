use puzzles::gears::{ComponentType, Schematic, SchematicComponent};

fn test_components() -> Vec<SchematicComponent> {
    vec![
        SchematicComponent::new(0, 0, ComponentType::Part(467)),
        SchematicComponent::new(5, 0, ComponentType::Part(114)),
        SchematicComponent::new(3, 1, ComponentType::Symbol('*')),
        SchematicComponent::new(2, 2, ComponentType::Part(35)),
        SchematicComponent::new(6, 2, ComponentType::Part(633)),
        SchematicComponent::new(6, 3, ComponentType::Symbol('#')),
        SchematicComponent::new(0, 4, ComponentType::Part(617)),
        SchematicComponent::new(3, 4, ComponentType::Symbol('*')),
        SchematicComponent::new(5, 5, ComponentType::Symbol('+')),
        SchematicComponent::new(7, 5, ComponentType::Part(58)),
        SchematicComponent::new(2, 6, ComponentType::Part(592)),
        SchematicComponent::new(6, 7, ComponentType::Part(755)),
        SchematicComponent::new(3, 8, ComponentType::Symbol('$')),
        SchematicComponent::new(5, 8, ComponentType::Symbol('*')),
        SchematicComponent::new(1, 9, ComponentType::Part(664)),
        SchematicComponent::new(5, 9, ComponentType::Part(598)),
    ]
}

fn test_string() -> String {
    String::from(
        "467..114..
...*......
..35..633.
......#...
617*......
.....+.58.
..592.....
......755.
...$.*....
.664.598..
",
    )
}

#[test]
fn test_schematic_from_file() {
    let schematic = Schematic::from_file(&test_string()).unwrap();

    // Assert the expected components
    let expected_components = test_components();

    assert_eq!(schematic.components.components, expected_components);
}

#[test]
fn test_get_adjacent_parts() {
    let schematic = Schematic::from_file(&test_string()).unwrap();

    let adjacent_parts = schematic.components.get_adjacent_parts(3, 1);
    println!("Adjacent parts: {:?}", adjacent_parts);
    assert!(adjacent_parts.contains(&SchematicComponent::new(0, 0, ComponentType::Part(467))));
    assert!(adjacent_parts.contains(&SchematicComponent::new(2, 2, ComponentType::Part(35))));
    assert_eq!(adjacent_parts.len(), 2);
}

#[test]
fn test_get_part_numbers() {
    let schematic = Schematic::from_file(&test_string()).unwrap();

    let part_numbers = schematic.get_part_numbers();
    println!("Part numbers: {:?}", part_numbers);
    assert!(part_numbers.contains(&SchematicComponent::new(0, 0, ComponentType::Part(467))));
    assert!(part_numbers.contains(&SchematicComponent::new(2, 2, ComponentType::Part(35))));
    assert!(part_numbers.contains(&SchematicComponent::new(6, 2, ComponentType::Part(633))));
    assert!(part_numbers.contains(&SchematicComponent::new(0, 4, ComponentType::Part(617))));
    assert!(part_numbers.contains(&SchematicComponent::new(2, 6, ComponentType::Part(592))));
    assert!(part_numbers.contains(&SchematicComponent::new(6, 7, ComponentType::Part(755))));
    assert!(part_numbers.contains(&SchematicComponent::new(1, 9, ComponentType::Part(664))));
    assert!(part_numbers.contains(&SchematicComponent::new(5, 9, ComponentType::Part(598))));
    assert_eq!(part_numbers.len(), 8);
}

#[test]
fn test_get_part_numbers_sum() {
    let schematic = Schematic::from_file(&test_string()).unwrap();

    let part_numbers_sum = schematic.get_part_numbers_sum().unwrap();
    println!("Part numbers sum: {:?}", part_numbers_sum);
    assert_eq!(part_numbers_sum, 4361);
}

#[test]
fn test_get_part_numbers_sum_variations() {
    let tests = vec![
        (".", 0),
        ("", 0),
        ("&", 0),
        ("&.", 0),
        ("&.1", 0),
        ("&1", 1),
        ("-1", 1),
        ("=1", 1),
        ("$1", 1),
        ("+1", 1),
        ("#1", 1),
        ("%1", 1),
        ("*1", 1),
        ("/1", 1),
        ("@1", 1),
        (
            "...
...
...",
            0,
        ),
        (
            "...
.+.
...",
            0,
        ),
        (
            "1..
.+.
...",
            1,
        ),
        (
            ".1.
.+.
...",
            1,
        ),
        (
            "..1
.+.
...",
            1,
        ),
        (
            "...
1+.
...",
            1,
        ),
        (
            "...
.+1
...",
            1,
        ),
        (
            "...
.+.
1..",
            1,
        ),
        (
            "...
.+.
.1.",
            1,
        ),
        (
            "...
.+.
..1",
            1,
        ),
        (
            "+.
..",
            0,
        ),
        (
            "+1
..",
            1,
        ),
        (
            "+.
1.",
            1,
        ),
        (
            "+.
.1",
            1,
        ),
        (
            "..
.+",
            0,
        ),
        (
            "1.
.+",
            1,
        ),
        (
            ".1
.+",
            1,
        ),
        (
            "..
1+",
            1,
        ),
        ("1+1", 2),
        ("999+999", 1998),
    ];

    for (input, expected) in tests {
        let schematic = Schematic::from_file(input).unwrap();

        let part_numbers_sum = schematic.get_part_numbers_sum().unwrap();
        assert_eq!(part_numbers_sum, expected);
    }
}
