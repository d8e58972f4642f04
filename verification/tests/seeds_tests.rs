use puzzles::seeds::{Almanac, AlmanacMap, AlmanacMapType, Range};

fn test_data() -> &'static str {
    "
seeds: 79 14 55 2

seed-to-soil map:
50 98 2
52 50 48

soil-to-fertilizer map:
0 15 37
37 52 2

fertilizer-to-water map:
49 53 8
0 11 42

water-to-light map:
88 18 7

light-to-temperature map:
45 77 23

temperature-to-humidity map:
0 69 1

humidity-to-location map:
60 56 37
"
}

#[test]
fn test_from_reader() {
    let input = test_data();
    let result = Almanac::from_reader(input).unwrap();

    assert_eq!(
        result.seeds,
        vec![Range { start: 79, end: 92 }, Range { start: 55, end: 56 }]
    );

    let seed_soil = vec![
        AlmanacMap { source_start: 98, destination_start: 50, range_length: 2 },
        AlmanacMap { source_start: 50, destination_start: 52, range_length: 48 },
    ];
    assert_eq!(result.seed_soil, seed_soil);

    let soil_fertilizer = vec![
        AlmanacMap { source_start: 15, destination_start: 0, range_length: 37 },
        AlmanacMap { source_start: 52, destination_start: 37, range_length: 2 },
    ];
    assert_eq!(result.soil_fertilizer, soil_fertilizer);

    let fertilizer_water = vec![
        AlmanacMap { source_start: 53, destination_start: 49, range_length: 8 },
        AlmanacMap { source_start: 11, destination_start: 0, range_length: 42 },
    ];
    assert_eq!(result.fertilizer_water, fertilizer_water);

    let water_light =
        vec![AlmanacMap { source_start: 18, destination_start: 88, range_length: 7 }];
    assert_eq!(result.water_light, water_light);

    let light_temperature =
        vec![AlmanacMap { source_start: 77, destination_start: 45, range_length: 23 }];
    assert_eq!(result.light_temperature, light_temperature);

    let temperature_humidity =
        vec![AlmanacMap { source_start: 69, destination_start: 0, range_length: 1 }];
    assert_eq!(result.temperature_humidity, temperature_humidity);

    let humidity_location =
        vec![AlmanacMap { source_start: 56, destination_start: 60, range_length: 37 }];
    assert_eq!(result.humidity_location, humidity_location);
}

#[test]
fn test_traverse_almanac_map_ranges() {
    let almanac = Almanac::from_reader(test_data()).unwrap();

    let soil = almanac.traverse_almanac_map(almanac.seeds.clone(), AlmanacMapType::SeedSoil);
    assert_eq!(soil, vec![Range { start: 81, end: 94 }, Range { start: 57, end: 58 }]);
}

#[test]
fn test_traverse_almanac_map_split() {
    let almanac = Almanac::from_reader(
        "
seeds: 5 10

seed-to-soil map:
100 8 4

soil-to-fertilizer map:
0 0 0

fertilizer-to-water map:
0 0 0

water-to-light map:
0 0 0

light-to-temperature map:
0 0 0

temperature-to-humidity map:
0 0 0

humidity-to-location map:
0 0 0
",
    )
    .unwrap();

    // The source range 5..=14 splits around the rule on 8..=11.
    let mapped = almanac.traverse_almanac_map(
        vec![Range { start: 5, end: 14 }],
        AlmanacMapType::SeedSoil,
    );
    assert_eq!(
        mapped,
        vec![
            Range { start: 5, end: 7 },
            Range { start: 100, end: 103 },
            Range { start: 12, end: 14 },
        ]
    );
}
