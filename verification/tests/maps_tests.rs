use puzzles::maps::{gcd, lcm};

#[test]
fn test_gcd() {
    assert_eq!(gcd(12, 8), 4);
    assert_eq!(gcd(8, 12), 4);
    assert_eq!(gcd(7, 13), 1);
    assert_eq!(gcd(5, 0), 5);
    assert_eq!(gcd(0, 5), 5);
}

#[test]
fn test_lcm() {
    assert_eq!(lcm(4, 6), 12);
    assert_eq!(lcm(6, 4), 12);
    assert_eq!(lcm(7, 13), 91);
    assert_eq!(lcm(5, 5), 5);
}

use puzzles::maps::{Direction, RouteMap};

fn route_data() -> String {
    "RL

AAA = (BBB, CCC)
BBB = (DDD, EEE)
CCC = (ZZZ, GGG)
DDD = (DDD, DDD)
EEE = (EEE, EEE)
GGG = (GGG, GGG)
ZZZ = (ZZZ, ZZZ)"
        .to_string()
}

#[test]
fn main_test_parse_map() {
    let input = route_data();
    let mut map = RouteMap::new();
    let result = map.parse_map(&input);

    assert!(result.is_ok());

    assert_eq!(map.directions, vec![Direction::R, Direction::L]);

    assert_eq!(map.nodes.get(&['A', 'A', 'A']).expect("Node not found"), &(['B', 'B', 'B'], ['C', 'C', 'C']));
    assert_eq!(map.nodes.get(&['B', 'B', 'B']).expect("Node not found"), &(['D', 'D', 'D'], ['E', 'E', 'E']));
    assert_eq!(map.nodes.get(&['C', 'C', 'C']).expect("Node not found"), &(['Z', 'Z', 'Z'], ['G', 'G', 'G']));
    assert_eq!(map.nodes.get(&['D', 'D', 'D']).expect("Node not found"), &(['D', 'D', 'D'], ['D', 'D', 'D']));
    assert_eq!(map.nodes.get(&['E', 'E', 'E']).expect("Node not found"), &(['E', 'E', 'E'], ['E', 'E', 'E']));
    assert_eq!(map.nodes.get(&['G', 'G', 'G']).expect("Node not found"), &(['G', 'G', 'G'], ['G', 'G', 'G']));
    assert_eq!(map.nodes.get(&['Z', 'Z', 'Z']).expect("Node not found"), &(['Z', 'Z', 'Z'], ['Z', 'Z', 'Z']));
}

#[test]
fn test_follow_simple_route() {
    let input = route_data();
    let mut map = RouteMap::new();
    map.parse_map(&input).expect("Can't parse map");

    assert_eq!(map.follow_route(['A', 'A', 'A'], 0, false), 2);
}

#[test]
fn test_follow_advanced_route() {
    let input = "LLR

AAA = (BBB, BBB)
BBB = (AAA, ZZZ)
ZZZ = (ZZZ, ZZZ)";
    let mut map = RouteMap::new();
    map.parse_map(input).expect("Can't parse map");

    assert_eq!(map.follow_route(['A', 'A', 'A'], 0, false), 6);
}

#[test]
fn test_follow_route_ghosts() {
    let input = "LR

11A = (11B, XXX)
11B = (XXX, 11Z)
11Z = (11B, XXX)
22A = (22B, XXX)
22B = (22C, 22C)
22C = (22Z, 22Z)
22Z = (22B, 22B)
XXX = (XXX, XXX)";
    let mut map = RouteMap::new();
    map.parse_map(input).expect("Can't parse map");

    assert_eq!(map.follow_route_ghost(), 6);
}
