//! Pipe grids: tiles connecting their neighbours, a start tile, and a
//! winding-number test that tells whether a point lies inside the loop
//! traced through the pipes.

use vstd::prelude::*;
use crate::text;

verus! {

#[derive(Debug, Eq, PartialEq, Clone, Copy)]
pub enum TileType {
    VerticalPipe,
    HorizontalPipe,
    NorthEastPipe,
    NorthWestPipe,
    SouthWestPipe,
    SouthEastPipe,
    Ground,
    Start,
}

#[derive(Clone, Copy, Debug, PartialEq, Eq)]
pub struct Tile {
    pub tile_type: TileType,
    pub coord: (u32, u32),
}

impl Tile {
    pub fn new(tile_type: TileType, coord: (u32, u32)) -> (t: Tile)
        ensures
            t.tile_type == tile_type,
            t.coord == coord,
    {
        Tile { tile_type, coord }
    }
}

/// The grid of tiles, looked up by coordinate, and the start position.
pub struct TileMap {
    pub tiles: Vec<((u32, u32), Tile)>,
    pub start: (u32, u32),
}

/// The first stored tile at a coordinate, or the length.
pub open spec fn tile_pos(ts: Seq<((u32, u32), Tile)>, c: (u32, u32)) -> int
    decreases ts.len(),
{
    if ts.len() == 0 {
        0
    } else if ts[0].0 == c {
        0
    } else {
        1 + tile_pos(ts.drop_first(), c)
    }
}

proof fn lemma_tile_pos(ts: Seq<((u32, u32), Tile)>, c: (u32, u32), i: int)
    requires
        0 <= i <= ts.len(),
        forall|j: int| 0 <= j < i ==> (#[trigger] ts[j]).0 != c,
        i < ts.len() ==> ts[i].0 == c,
    ensures
        tile_pos(ts, c) == i,
    decreases i,
{
    if ts.len() == 0 {
    } else if i == 0 {
    } else {
        assert(forall|j: int| 0 <= j < i - 1 ==> #[trigger] ts.drop_first()[j] == ts[j + 1]);
        lemma_tile_pos(ts.drop_first(), c, i - 1);
    }
}

/// The tile character mapping.
pub open spec fn tile_of_char(c: char) -> TileType {
    if c == '|' {
        TileType::VerticalPipe
    } else if c == '-' {
        TileType::HorizontalPipe
    } else if c == 'L' {
        TileType::NorthEastPipe
    } else if c == 'J' {
        TileType::NorthWestPipe
    } else if c == '7' {
        TileType::SouthWestPipe
    } else if c == 'F' {
        TileType::SouthEastPipe
    } else if c == '.' {
        TileType::Ground
    } else {
        TileType::Start
    }
}

pub open spec fn pipe_char_ok(c: char) -> bool {
    c == '|' || c == '-' || c == 'L' || c == 'J' || c == '7' || c == 'F' || c == '.' || c == 'S'
}

/// The tiles of a grid, row by row.
pub open spec fn row_pipe_tiles(line: Seq<char>, y: int, upto: int) -> Seq<((u32, u32), Tile)>
    decreases upto,
{
    if upto <= 0 {
        Seq::empty()
    } else {
        row_pipe_tiles(line, y, upto - 1).push(
            (
                ((upto - 1) as u32, y as u32),
                Tile {
                    tile_type: tile_of_char(line[upto - 1]),
                    coord: ((upto - 1) as u32, y as u32),
                },
            ),
        )
    }
}

pub open spec fn grid_pipe_tiles(ls: Seq<Seq<char>>, upto: int) -> Seq<((u32, u32), Tile)>
    decreases upto,
{
    if upto <= 0 {
        Seq::empty()
    } else {
        grid_pipe_tiles(ls, upto - 1) + row_pipe_tiles(
            ls[upto - 1],
            upto - 1,
            ls[upto - 1].len() as int,
        )
    }
}

/// The coordinate of the last start tile in the grid, or the origin.
pub open spec fn start_of(ts: Seq<((u32, u32), Tile)>) -> (u32, u32)
    decreases ts.len(),
{
    if ts.len() == 0 {
        (0u32, 0u32)
    } else if ts.last().1.tile_type == TileType::Start {
        ts.last().0
    } else {
        start_of(ts.drop_last())
    }
}

/// Why a grid was rejected.
#[derive(Debug, PartialEq, Eq, Clone, Copy)]
pub enum ParseError {
    /// A character that is not a pipe, ground, or the start.
    UnknownTile,
    /// A grid wider or taller than the coordinate type.
    TooLarge,
}

impl TileMap {
    pub fn new() -> (m: TileMap)
        ensures
            m.tiles@ == Seq::<((u32, u32), Tile)>::empty(),
            m.start == (0u32, 0u32),
    {
        TileMap { tiles: Vec::new(), start: (0u32, 0u32) }
    }

    /// Stores one tile under its coordinate.
    pub fn add_tile(&mut self, tile: Tile)
        ensures
            final(self).tiles@ == old(self).tiles@.push((tile.coord, tile)),
            final(self).start == old(self).start,
    {
        self.tiles.push((tile.coord, tile));
    }

    /// The tile stored at a coordinate, if any.
    pub fn get_tile(&self, coord: (u32, u32)) -> (r: Option<&Tile>)
        ensures
            match r {
                Some(t) => tile_pos(self.tiles@, coord) < self.tiles@.len() && *t == self.tiles@[
                    tile_pos(self.tiles@, coord)].1,
                None => tile_pos(self.tiles@, coord) >= self.tiles@.len(),
            },
    {
        let mut i: usize = 0;
        while i < self.tiles.len()
            invariant
                0 <= i <= self.tiles@.len(),
                forall|j: int| 0 <= j < i ==> (#[trigger] self.tiles@[j]).0 != coord,
            decreases self.tiles@.len() - i,
        {
            if self.tiles[i].0.0 == coord.0 && self.tiles[i].0.1 == coord.1 {
                proof {
                    lemma_tile_pos(self.tiles@, coord, i as int);
                }
                return Some(&self.tiles[i].1);
            }
            i += 1;
        }
        proof {
            lemma_tile_pos(self.tiles@, coord, self.tiles@.len() as int);
        }
        None
    }

    /// Reads the tile grid and remembers where the start tile is.
    #[verifier::loop_isolation(false)]
    pub fn parse_map(input: &str) -> (r: Result<TileMap, ParseError>)
        ensures
            r matches Ok(m) ==> {
                let ls = text::spec_lines(input@);
                &&& (forall|k: int, j: int|
                    0 <= k < ls.len() && 0 <= j < ls[k].len() ==> pipe_char_ok(
                        #[trigger] ls[k][j],
                    ))
                &&& m.tiles@ == grid_pipe_tiles(ls, ls.len() as int)
                &&& m.start == start_of(m.tiles@)
            },
    {
        let cs = text::chars_of(input);
        let lines = text::lines_of(&cs);
        let ghost ls = text::spec_lines(input@);
        let mut map = TileMap::new();
        let mut y: usize = 0;
        while y < lines.len()
            invariant
                0 <= y <= ls.len(),
                lines.deep_view() == ls,
                lines@.len() == ls.len(),
                forall|k: int, j: int|
                    0 <= k < y && 0 <= j < ls[k].len() ==> pipe_char_ok(#[trigger] ls[k][j]),
                map.tiles@ =~~= grid_pipe_tiles(ls, y as int),
                map.start == start_of(map.tiles@),
            decreases ls.len() - y,
        {
            proof {
                assert(lines[y as int]@ == ls[y as int]);
            }
            if y > u32::MAX as usize {
                return Err(ParseError::TooLarge);
            }
            let line = &lines[y];
            let ghost lv = ls[y as int];
            let mut x: usize = 0;
            while x < line.len()
                invariant
                    0 <= x <= lv.len(),
                    line@ == lv,
                    y < ls.len(),
                    y <= u32::MAX as usize,
                    forall|j: int| 0 <= j < x ==> pipe_char_ok(#[trigger] lv[j]),
                    map.tiles@ =~~= grid_pipe_tiles(ls, y as int) + row_pipe_tiles(
                        lv,
                        y as int,
                        x as int,
                    ),
                    map.start == start_of(map.tiles@),
                decreases lv.len() - x,
            {
                let c = line[x];
                let tile_type = if c == '|' {
                    TileType::VerticalPipe
                } else if c == '-' {
                    TileType::HorizontalPipe
                } else if c == 'L' {
                    TileType::NorthEastPipe
                } else if c == 'J' {
                    TileType::NorthWestPipe
                } else if c == '7' {
                    TileType::SouthWestPipe
                } else if c == 'F' {
                    TileType::SouthEastPipe
                } else if c == '.' {
                    TileType::Ground
                } else if c == 'S' {
                    TileType::Start
                } else {
                    return Err(ParseError::UnknownTile);
                };
                if x > u32::MAX as usize {
                    return Err(ParseError::TooLarge);
                }
                let coord = (x as u32, y as u32);
                let tile = Tile::new(tile_type, coord);
                let ghost pre = map.tiles@;
                if matches!(tile_type, TileType::Start) {
                    map.start = coord;
                }
                map.add_tile(tile);
                proof {
                    assert(tile.tile_type == tile_of_char(lv[x as int]));
                    assert(map.tiles@ =~~= pre.push((coord, tile)));
                    assert(map.tiles@ =~~= grid_pipe_tiles(ls, y as int) + row_pipe_tiles(
                        lv,
                        y as int,
                        x as int + 1,
                    ));
                    assert(map.tiles@.last() == (coord, tile));
                    assert(map.tiles@.drop_last() =~= pre);
                    assert(map.start == start_of(map.tiles@));
                }
                x += 1;
            }
            proof {
                assert(map.tiles@ =~~= grid_pipe_tiles(ls, y as int + 1));
            }
            y += 1;
        }
        Ok(map)
    }
}

/// Which side of the directed edge `v1 -> v2` the point lies on: the
/// sign of the cross product.
pub open spec fn spec_is_left(v1: (int, int), v2: (int, int), p: (int, int)) -> int {
    (v2.0 - v1.0) * (p.1 - v1.1) - (p.0 - v1.0) * (v2.1 - v1.1)
}

/// Coordinates small enough for the crossing arithmetic.
pub open spec fn coord_small(c: (u32, u32)) -> bool {
    c.0 <= 0x4000 && c.1 <= 0x4000
}

/// The winding-number contribution of the polygon edges from `i` on.
pub open spec fn spec_winding(star: Seq<(u32, u32)>, p: (int, int), i: int) -> int
    decreases star.len() - i,
{
    if i < 0 || i >= star.len() {
        0
    } else {
        let v1 = (star[i].0 as int, star[i].1 as int);
        let j = if i + 1 == star.len() {
            0
        } else {
            i + 1
        };
        let v2 = (star[j].0 as int, star[j].1 as int);
        (if v1.1 <= p.1 {
            if v2.1 > p.1 && spec_is_left(v1, v2, p) > 0 {
                1int
            } else {
                0int
            }
        } else {
            if v2.1 <= p.1 && spec_is_left(v1, v2, p) < 0 {
                -1int
            } else {
                0int
            }
        }) + spec_winding(star, p, i + 1)
    }
}

pub struct Pointer {
    pub a_coord: (u32, u32),
    pub b_coord: (u32, u32),
    pub tile_visited: Vec<(u32, u32)>,
    pub number_map: Vec<((u32, u32), u32)>,
    pub star_map: Vec<(u32, u32)>,
}

impl Pointer {
    pub fn new(coord: (u32, u32)) -> (p: Pointer)
        ensures
            p.a_coord == coord,
            p.b_coord == coord,
            p.tile_visited@ == Seq::<(u32, u32)>::empty(),
            p.number_map@ == Seq::<((u32, u32), u32)>::empty(),
            p.star_map@ == Seq::<(u32, u32)>::empty(),
    {
        Pointer {
            a_coord: coord,
            b_coord: coord,
            tile_visited: Vec::new(),
            number_map: Vec::new(),
            star_map: Vec::new(),
        }
    }

    /// The cross-product side test used by the winding number.
    pub fn is_left(&self, v1: &(u32, u32), v2: &(u32, u32), point: &(u32, u32)) -> (r: i32)
        requires
            coord_small(*v1),
            coord_small(*v2),
            coord_small(*point),
        ensures
            r as int == spec_is_left(
                (v1.0 as int, v1.1 as int),
                (v2.0 as int, v2.1 as int),
                (point.0 as int, point.1 as int),
            ),
    {
        let ax = v2.0 as i32 - v1.0 as i32;
        let ay = point.1 as i32 - v1.1 as i32;
        let bx = point.0 as i32 - v1.0 as i32;
        let by = v2.1 as i32 - v1.1 as i32;
        proof {
            assert(-0x1000_0000 <= (ax as int) * (ay as int) <= 0x1000_0000) by (nonlinear_arith)
                requires
                    -0x4000 <= ax as int <= 0x4000,
                    -0x4000 <= ay as int <= 0x4000,
            ;
            assert(-0x1000_0000 <= (bx as int) * (by as int) <= 0x1000_0000) by (nonlinear_arith)
                requires
                    -0x4000 <= bx as int <= 0x4000,
                    -0x4000 <= by as int <= 0x4000,
            ;
        }
        ax * ay - bx * by
    }

    /// How often the traced loop winds around the point.
    #[verifier::loop_isolation(false)]
    pub fn winding_number(&self, point: (u32, u32)) -> (r: i32)
        requires
            coord_small(point),
            forall|k: int| 0 <= k < self.star_map@.len() ==> coord_small(#[trigger] self.star_map@[k]),
            self.star_map@.len() <= 0x4000,
        ensures
            r as int == spec_winding(self.star_map@, (point.0 as int, point.1 as int), 0),
    {
        let ghost star = self.star_map@;
        let ghost p = (point.0 as int, point.1 as int);
        let mut winding_number: i32 = 0;
        let n = self.star_map.len();
        let mut i: usize = 0;
        while i < n
            invariant
                0 <= i <= star.len(),
                n == star.len(),
                n <= 0x4000,
                winding_number as int == spec_winding(star, p, 0) - spec_winding(star, p, i as int),
                -(i as int) <= winding_number as int <= i as int,
            decreases n - i,
        {
            proof {
                lemma_winding_bounds(star, p, i as int);
                lemma_winding_bounds(star, p, 0);
            }
            let v1 = self.star_map[i];
            let next: usize = (i + 1) % n;
            proof {
                if i + 1 == n {
                    assert((i as int + 1) % (n as int) == 0) by (nonlinear_arith)
                        requires
                            n as int >= 1,
                            i as int + 1 == n as int,
                    ;
                    assert(next as int == (i as int + 1) % (n as int));
                } else {
                    assert((i as int + 1) % (n as int) == i as int + 1) by (nonlinear_arith)
                        requires
                            n as int >= 1,
                            0 <= i as int + 1 < n as int,
                    ;
                    assert(next as int == (i as int + 1) % (n as int));
                }
            }
            let v2 = self.star_map[next];
            if v1.1 <= point.1 {
                if v2.1 > point.1 && self.is_left(&v1, &v2, &point) > 0 {
                    winding_number = winding_number + 1;
                }
            } else {
                if v2.1 <= point.1 && self.is_left(&v1, &v2, &point) < 0 {
                    winding_number = winding_number - 1;
                }
            }
            i += 1;
        }
        proof {
            assert(spec_winding(star, p, n as int) == 0);
        }
        winding_number
    }

    /// Whether the point lies inside the traced loop.
    pub fn is_inside(&self, point: (u32, u32)) -> (r: bool)
        requires
            coord_small(point),
            forall|k: int| 0 <= k < self.star_map@.len() ==> coord_small(#[trigger] self.star_map@[k]),
            self.star_map@.len() <= 0x4000,
        ensures
            r == (spec_winding(self.star_map@, (point.0 as int, point.1 as int), 0) != 0),
    {
        self.winding_number(point) != 0
    }
}

/// The remaining winding contributions are bounded by the number of
/// remaining edges.
proof fn lemma_winding_bounds(star: Seq<(u32, u32)>, p: (int, int), i: int)
    requires
        0 <= i <= star.len(),
    ensures
        -(star.len() - i) <= spec_winding(star, p, i) <= star.len() - i,
    decreases star.len() - i,
{
    if i < star.len() {
        lemma_winding_bounds(star, p, i + 1);
    }
}

} // verus!
