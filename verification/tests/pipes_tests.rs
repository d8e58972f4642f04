use puzzles::pipes::{Pointer, Tile, TileMap, TileType};

fn test_data() -> &'static str {
    ".....
.S-7.
.|.|.
.L-J.
....."
}

#[test]
fn test_add_tile() {
    let mut map = TileMap::new();
    let tile = Tile::new(TileType::Ground, (0, 0));
    map.add_tile(tile);

    assert_eq!(map.tiles.len(), 1);
}

#[test]
fn test_get_tile() {
    let mut map = TileMap::new();
    let tile = Tile::new(TileType::Ground, (0, 0));
    map.add_tile(tile);

    let retrieved_tile = map.get_tile((0, 0));

    assert_eq!(retrieved_tile.unwrap().tile_type, TileType::Ground);
}

#[test]
fn pipes_test_parse_map() {
    let input = test_data();
    let map = TileMap::parse_map(input).unwrap();

    assert_eq!(map.tiles.len(), 25);
    assert_eq!(map.start, (1, 1));
}

#[test]
fn test_winding_number_square() {
    // The traced loop of the small example, in walking order.
    let mut pointer = Pointer::new((1, 1));
    pointer.star_map = vec![
        (1, 1),
        (2, 1),
        (3, 1),
        (3, 2),
        (3, 3),
        (2, 3),
        (1, 3),
        (1, 2),
    ];

    assert_eq!(pointer.is_inside((0, 0)), false);
    assert_eq!(pointer.is_inside((2, 2)), true);
}
