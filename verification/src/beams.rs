//! Light beams crossing a contraption of mirrors and splitters: each
//! step moves every beam one tile, bends or splits it, and records the
//! tiles energised so far.

use vstd::prelude::*;
use crate::text;

verus! {

#[derive(PartialEq, Eq, Debug, Clone, Copy)]
pub enum Tile {
    Empty,
    RightMirror,
    LeftMirror,
    VerticalSplitter,
    HorizontalSplitter,
}

#[derive(Clone, Copy, PartialEq, Eq, Debug)]
pub enum Direction {
    Up,
    Down,
    Left,
    Right,
}

pub struct Contraption {
    pub tiles: Vec<((usize, usize), Tile)>,
    pub max_x: usize,
    pub max_y: usize,
}

#[derive(Clone, Copy, PartialEq, Eq, Debug)]
pub struct Beam {
    pub coord: (usize, usize),
    pub direction: Direction,
    pub off_map: bool,
}

/// The tile at a cell: the first listed entry for it, or empty ground.
pub open spec fn tile_at(tiles: Seq<((usize, usize), Tile)>, x: int, y: int) -> Tile
    decreases tiles.len(),
{
    if tiles.len() == 0 {
        Tile::Empty
    } else if tiles[0].0.0 == x && tiles[0].0.1 == y {
        tiles[0].1
    } else {
        tile_at(tiles.drop_first(), x, y)
    }
}

pub proof fn lemma_tile_at_found(tiles: Seq<((usize, usize), Tile)>, x: int, y: int, i: int)
    requires
        0 <= i <= tiles.len(),
        forall|j: int| 0 <= j < i ==> !((#[trigger] tiles[j]).0.0 == x && tiles[j].0.1 == y),
        i < tiles.len() ==> tiles[i].0.0 == x && tiles[i].0.1 == y,
    ensures
        i < tiles.len() ==> tile_at(tiles, x, y) == tiles[i].1,
        i >= tiles.len() ==> tile_at(tiles, x, y) == Tile::Empty,
    decreases i,
{
    if tiles.len() == 0 {
    } else if i == 0 {
    } else {
        assert(forall|j: int|
            0 <= j < i - 1 ==> #[trigger] tiles.drop_first()[j] == tiles[j + 1]);
        lemma_tile_at_found(tiles.drop_first(), x, y, i - 1);
    }
}

/// What one step does to a beam: the pair of the moved beam and any
/// split-off beam.
pub open spec fn spec_step(b: Beam, c: Contraption, first: bool) -> (Beam, Option<Beam>) {
    if b.off_map {
        (b, None)
    } else {
        let x = b.coord.0 as int;
        let y = b.coord.1 as int;
        match b.direction {
            Direction::Up => if y == 0 {
                (Beam { off_map: true, ..b }, None)
            } else {
                let c2 = if first {
                    b.coord
                } else {
                    (b.coord.0, (b.coord.1 - 1) as usize)
                };
                let t = tile_at(c.tiles@, c2.0 as int, c2.1 as int);
                match t {
                    Tile::Empty | Tile::VerticalSplitter => (Beam { coord: c2, ..b }, None),
                    Tile::RightMirror => (
                        Beam { coord: c2, direction: Direction::Right, ..b },
                        None,
                    ),
                    Tile::LeftMirror => (
                        Beam { coord: c2, direction: Direction::Left, ..b },
                        None,
                    ),
                    Tile::HorizontalSplitter => (
                        Beam { coord: c2, direction: Direction::Right, ..b },
                        Some(Beam { coord: c2, direction: Direction::Left, off_map: false }),
                    ),
                }
            },
            Direction::Down => if y == c.max_y {
                (Beam { off_map: true, ..b }, None)
            } else {
                let c2 = if first {
                    b.coord
                } else {
                    (b.coord.0, (b.coord.1 + 1) as usize)
                };
                let t = tile_at(c.tiles@, c2.0 as int, c2.1 as int);
                match t {
                    Tile::Empty | Tile::VerticalSplitter => (Beam { coord: c2, ..b }, None),
                    Tile::RightMirror => (
                        Beam { coord: c2, direction: Direction::Left, ..b },
                        None,
                    ),
                    Tile::LeftMirror => (
                        Beam { coord: c2, direction: Direction::Right, ..b },
                        None,
                    ),
                    Tile::HorizontalSplitter => (
                        Beam { coord: c2, direction: Direction::Left, ..b },
                        Some(Beam { coord: c2, direction: Direction::Right, off_map: false }),
                    ),
                }
            },
            Direction::Left => if x == 0 {
                (Beam { off_map: true, ..b }, None)
            } else {
                let c2 = if first {
                    b.coord
                } else {
                    ((b.coord.0 - 1) as usize, b.coord.1)
                };
                let t = tile_at(c.tiles@, c2.0 as int, c2.1 as int);
                match t {
                    Tile::Empty | Tile::HorizontalSplitter => (Beam { coord: c2, ..b }, None),
                    Tile::RightMirror => (
                        Beam { coord: c2, direction: Direction::Down, ..b },
                        None,
                    ),
                    Tile::LeftMirror => (
                        Beam { coord: c2, direction: Direction::Up, ..b },
                        None,
                    ),
                    Tile::VerticalSplitter => (
                        Beam { coord: c2, direction: Direction::Down, ..b },
                        Some(Beam { coord: c2, direction: Direction::Up, off_map: false }),
                    ),
                }
            },
            Direction::Right => if x == c.max_x {
                (Beam { off_map: true, ..b }, None)
            } else {
                let c2 = if first {
                    b.coord
                } else {
                    ((b.coord.0 + 1) as usize, b.coord.1)
                };
                let t = tile_at(c.tiles@, c2.0 as int, c2.1 as int);
                match t {
                    Tile::Empty | Tile::HorizontalSplitter => (Beam { coord: c2, ..b }, None),
                    Tile::RightMirror => (
                        Beam { coord: c2, direction: Direction::Up, ..b },
                        None,
                    ),
                    Tile::LeftMirror => (
                        Beam { coord: c2, direction: Direction::Down, ..b },
                        None,
                    ),
                    Tile::VerticalSplitter => (
                        Beam { coord: c2, direction: Direction::Up, ..b },
                        Some(Beam { coord: c2, direction: Direction::Down, off_map: false }),
                    ),
                }
            },
        }
    }
}

impl Contraption {
    /// Wraps the tile list and records the largest coordinates seen.
    pub fn new(tiles: Vec<((usize, usize), Tile)>) -> (c: Contraption)
        ensures
            c.tiles@ == tiles@,
            c.max_x as int == spec_max_coord(tiles@, true),
            c.max_y as int == spec_max_coord(tiles@, false),
    {
        let ghost ts = tiles@;
        let mut max_x: usize = 0;
        let mut max_y: usize = 0;
        let mut k: usize = 0;
        while k < tiles.len()
            invariant
                0 <= k <= ts.len(),
                ts == tiles@,
                max_x as int == spec_max_coord(ts.take(k as int), true),
                max_y as int == spec_max_coord(ts.take(k as int), false),
            decreases ts.len() - k,
        {
            proof {
                assert(ts.take(k as int + 1).drop_last() =~= ts.take(k as int));
                assert(ts.take(k as int + 1).last() == ts[k as int]);
            }
            if tiles[k].0.0 > max_x {
                max_x = tiles[k].0.0;
            }
            if tiles[k].0.1 > max_y {
                max_y = tiles[k].0.1;
            }
            k += 1;
        }
        proof {
            assert(ts.take(ts.len() as int) =~= ts);
        }
        Contraption { tiles, max_x, max_y }
    }

    /// Reads the tile grid; `None` on an unknown character.
    #[verifier::loop_isolation(false)]
    pub fn parse_platform(input: &str) -> (r: Option<Contraption>)
        ensures
            r matches Some(c) ==> {
                let ls = text::spec_lines(input@);
                &&& (forall|k: int, j: int|
                    0 <= k < ls.len() && 0 <= j < ls[k].len() ==> tile_char_ok(
                        #[trigger] ls[k][j],
                    ))
                &&& c.tiles@ == grid_tiles(ls, ls.len() as int)
                &&& c.max_x as int == spec_max_coord(c.tiles@, true)
                &&& c.max_y as int == spec_max_coord(c.tiles@, false)
            },
    {
        let cs = text::chars_of(input);
        let lines = text::lines_of(&cs);
        let ghost ls = text::spec_lines(input@);
        let mut tiles: Vec<((usize, usize), Tile)> = Vec::new();
        let mut y: usize = 0;
        while y < lines.len()
            invariant
                0 <= y <= ls.len(),
                lines.deep_view() == ls,
                lines@.len() == ls.len(),
                forall|k: int, j: int|
                    0 <= k < y && 0 <= j < ls[k].len() ==> tile_char_ok(#[trigger] ls[k][j]),
                tiles@ =~~= grid_tiles(ls, y as int),
            decreases ls.len() - y,
        {
            proof {
                assert(lines[y as int]@ == ls[y as int]);
            }
            let line = &lines[y];
            let ghost lv = ls[y as int];
            let mut x: usize = 0;
            while x < line.len()
                invariant
                    0 <= x <= lv.len(),
                    line@ == lv,
                    y < ls.len(),
                    forall|j: int| 0 <= j < x ==> tile_char_ok(#[trigger] lv[j]),
                    tiles@ =~~= grid_tiles(ls, y as int) + row_tiles(lv, y as int, x as int),
                decreases lv.len() - x,
            {
                proof {
                    assert(lv.take(x as int + 1).drop_last() =~= lv.take(x as int));
                }
                let c = line[x];
                let tile = if c == '.' {
                    Tile::Empty
                } else if c == '/' {
                    Tile::RightMirror
                } else if c == '\\' {
                    Tile::LeftMirror
                } else if c == '|' {
                    Tile::VerticalSplitter
                } else if c == '-' {
                    Tile::HorizontalSplitter
                } else {
                    return None;
                };
                let ghost pre = tiles@;
                tiles.push(((x, y), tile));
                proof {
                    assert(row_tiles(lv, y as int, x as int + 1) =~~= row_tiles(
                        lv,
                        y as int,
                        x as int,
                    ).push(((x, y), spec_tile_of(lv[x as int]))));
                    assert(tiles@ =~~= pre.push(((x, y), spec_tile_of(lv[x as int]))));
                }
                x += 1;
            }
            proof {
                assert(tiles@ =~~= grid_tiles(ls, y as int + 1));
            }
            y += 1;
        }
        proof {
            assert(ls.take(ls.len() as int) =~= ls);
        }
        Some(Contraption::new(tiles))
    }
}

pub open spec fn tile_char_ok(c: char) -> bool {
    c == '.' || c == '/' || c == '\\' || c == '|' || c == '-'
}

pub open spec fn spec_tile_of(c: char) -> Tile {
    if c == '.' {
        Tile::Empty
    } else if c == '/' {
        Tile::RightMirror
    } else if c == '\\' {
        Tile::LeftMirror
    } else if c == '|' {
        Tile::VerticalSplitter
    } else {
        Tile::HorizontalSplitter
    }
}

pub open spec fn row_tiles(line: Seq<char>, y: int, upto: int) -> Seq<((usize, usize), Tile)>
    decreases upto,
{
    if upto <= 0 {
        Seq::empty()
    } else {
        row_tiles(line, y, upto - 1).push((((upto - 1) as usize, y as usize), spec_tile_of(
            line[upto - 1],
        )))
    }
}

pub open spec fn grid_tiles(ls: Seq<Seq<char>>, upto: int) -> Seq<((usize, usize), Tile)>
    decreases upto,
{
    if upto <= 0 {
        Seq::empty()
    } else {
        grid_tiles(ls, upto - 1) + row_tiles(ls[upto - 1], upto - 1, ls[upto - 1].len() as int)
    }
}

/// The largest x (or y) coordinate of any tile.
pub open spec fn spec_max_coord(ts: Seq<((usize, usize), Tile)>, x_axis: bool) -> int
    decreases ts.len(),
{
    if ts.len() == 0 {
        0
    } else {
        let prev = spec_max_coord(ts.drop_last(), x_axis);
        let v = if x_axis {
            ts.last().0.0 as int
        } else {
            ts.last().0.1 as int
        };
        if v > prev {
            v
        } else {
            prev
        }
    }
}

impl Beam {
    pub fn new(coord: (usize, usize), direction: Direction) -> (b: Beam)
        ensures
            b.coord == coord,
            b.direction == direction,
            !b.off_map,
    {
        Beam { coord, direction, off_map: false }
    }

    /// Moves the beam one tile (unless this is the very first step,
    /// which acts on the starting tile) and bends or splits it.
    pub fn step(&mut self, contraption: &Contraption, first: bool) -> (r: Option<Beam>)
        requires
            old(self).coord.0 <= contraption.max_x,
            old(self).coord.1 <= contraption.max_y,
        ensures
            (*final(self), r) == spec_step(*old(self), *contraption, first),
            final(self).coord.0 <= contraption.max_x,
            final(self).coord.1 <= contraption.max_y,
            r matches Some(b2) ==> b2.coord.0 <= contraption.max_x && b2.coord.1
                <= contraption.max_y,
    {
        let ghost pre = *self;
        if self.off_map {
            return None;
        }
        let dir0 = self.direction;
        let (x, y) = self.coord;
        let (moved, dir_hit): ((usize, usize), bool) = match self.direction {
            Direction::Up => {
                if y == 0 {
                    self.off_map = true;
                    return None;
                }
                if !first {
                    self.coord = (x, y - 1);
                }
                (self.coord, true)
            },
            Direction::Down => {
                if y == contraption.max_y {
                    self.off_map = true;
                    return None;
                }
                if !first {
                    self.coord = (x, y + 1);
                }
                (self.coord, true)
            },
            Direction::Left => {
                if x == 0 {
                    self.off_map = true;
                    return None;
                }
                if !first {
                    self.coord = (x - 1, y);
                }
                (self.coord, true)
            },
            Direction::Right => {
                if x == contraption.max_x {
                    self.off_map = true;
                    return None;
                }
                if !first {
                    self.coord = (x + 1, y);
                }
                (self.coord, true)
            },
        };
        let tile = tile_lookup(&contraption.tiles, moved.0, moved.1);
        match dir0 {
            Direction::Up => {
                match tile {
                    Tile::Empty | Tile::VerticalSplitter => None,
                    Tile::RightMirror => {
                        self.direction = Direction::Right;
                        None
                    },
                    Tile::LeftMirror => {
                        self.direction = Direction::Left;
                        None
                    },
                    Tile::HorizontalSplitter => {
                        self.direction = Direction::Right;
                        Some(Beam::new(self.coord, Direction::Left))
                    },
                }
            },
            Direction::Down => {
                match tile {
                    Tile::Empty | Tile::VerticalSplitter => None,
                    Tile::RightMirror => {
                        self.direction = Direction::Left;
                        None
                    },
                    Tile::LeftMirror => {
                        self.direction = Direction::Right;
                        None
                    },
                    Tile::HorizontalSplitter => {
                        self.direction = Direction::Left;
                        Some(Beam::new(self.coord, Direction::Right))
                    },
                }
            },
            Direction::Left => {
                match tile {
                    Tile::Empty | Tile::HorizontalSplitter => None,
                    Tile::RightMirror => {
                        self.direction = Direction::Down;
                        None
                    },
                    Tile::LeftMirror => {
                        self.direction = Direction::Up;
                        None
                    },
                    Tile::VerticalSplitter => {
                        self.direction = Direction::Down;
                        Some(Beam::new(self.coord, Direction::Up))
                    },
                }
            },
            Direction::Right => {
                match tile {
                    Tile::Empty | Tile::HorizontalSplitter => None,
                    Tile::RightMirror => {
                        self.direction = Direction::Up;
                        None
                    },
                    Tile::LeftMirror => {
                        self.direction = Direction::Down;
                        None
                    },
                    Tile::VerticalSplitter => {
                        self.direction = Direction::Up;
                        Some(Beam::new(self.coord, Direction::Down))
                    },
                }
            },
        }
    }
}

fn tile_lookup(tiles: &Vec<((usize, usize), Tile)>, x: usize, y: usize) -> (t: Tile)
    ensures
        t == tile_at(tiles@, x as int, y as int),
{
    let mut k: usize = 0;
    while k < tiles.len()
        invariant
            0 <= k <= tiles@.len(),
            forall|j: int|
                0 <= j < k ==> !((#[trigger] tiles@[j]).0.0 == x as int && tiles@[j].0.1
                    == y as int),
        decreases tiles@.len() - k,
    {
        if tiles[k].0.0 == x && tiles[k].0.1 == y {
            proof {
                lemma_tile_at_found(tiles@, x as int, y as int, k as int);
            }
            return tiles[k].1;
        }
        k += 1;
    }
    proof {
        lemma_tile_at_found(tiles@, x as int, y as int, tiles@.len() as int);
    }
    Tile::Empty
}


pub struct BeamManager {
    pub beams: Vec<Beam>,
    pub energised: Vec<(usize, usize)>,
    pub first_startup: bool,
}

/// Every beam advanced one step: the moved beams, and the beams the
/// splitters spawned, in that order.
pub open spec fn advance(beams: Seq<Beam>, c: Contraption, first: bool) -> (Seq<Beam>, Seq<Beam>)
    decreases beams.len(),
{
    if beams.len() == 0 {
        (Seq::empty(), Seq::empty())
    } else {
        let prev = advance(beams.drop_last(), c, first);
        let step = spec_step(beams.last(), c, first);
        (prev.0.push(step.0), prev.1 + (match step.1 {
            Some(b2) => seq![b2],
            None => Seq::<Beam>::empty(),
        }))
    }
}

/// The list with every repeated beam dropped, first occurrences kept.
pub open spec fn dedup_beams(s: Seq<Beam>) -> Seq<Beam>
    decreases s.len(),
{
    if s.len() == 0 {
        Seq::empty()
    } else {
        dedup_beams(s.drop_last()) + (if s.drop_last().contains(s.last()) {
            Seq::<Beam>::empty()
        } else {
            seq![s.last()]
        })
    }
}

/// The energised set extended by the beams' tiles, repeats dropped.
pub open spec fn energise_fold(e: Seq<(usize, usize)>, beams: Seq<Beam>) -> Seq<(usize, usize)>
    decreases beams.len(),
{
    if beams.len() == 0 {
        e
    } else {
        let prev = energise_fold(e, beams.drop_last());
        prev + (if prev.contains(beams.last().coord) {
            Seq::<(usize, usize)>::empty()
        } else {
            seq![beams.last().coord]
        })
    }
}

fn beam_eq(a: &Beam, b: &Beam) -> (r: bool)
    ensures
        r == (*a == *b),
{
    let da = match a.direction {
        Direction::Up => 0u8,
        Direction::Down => 1u8,
        Direction::Left => 2u8,
        Direction::Right => 3u8,
    };
    let db = match b.direction {
        Direction::Up => 0u8,
        Direction::Down => 1u8,
        Direction::Left => 2u8,
        Direction::Right => 3u8,
    };
    a.coord.0 == b.coord.0 && a.coord.1 == b.coord.1 && da == db && a.off_map == b.off_map
}

fn beams_contain(v: &Vec<Beam>, b: &Beam) -> (r: bool)
    ensures
        r == v@.contains(*b),
{
    let mut i: usize = 0;
    while i < v.len()
        invariant
            0 <= i <= v@.len(),
            forall|j: int| 0 <= j < i ==> #[trigger] v@[j] != *b,
        decreases v@.len() - i,
    {
        if beam_eq(&v[i], b) {
            return true;
        }
        i += 1;
    }
    proof {
        if v@.contains(*b) {
            let w = choose|w: int| 0 <= w < v@.len() && v@[w] == *b;
            assert(false);
        }
    }
    false
}

fn coords_contain(v: &Vec<(usize, usize)>, c: (usize, usize)) -> (r: bool)
    ensures
        r == v@.contains(c),
{
    let mut i: usize = 0;
    while i < v.len()
        invariant
            0 <= i <= v@.len(),
            forall|j: int| 0 <= j < i ==> #[trigger] v@[j] != c,
        decreases v@.len() - i,
    {
        if v[i].0 == c.0 && v[i].1 == c.1 {
            return true;
        }
        i += 1;
    }
    proof {
        if v@.contains(c) {
            let w = choose|w: int| 0 <= w < v@.len() && v@[w] == c;
            assert(false);
        }
    }
    false
}

impl BeamManager {
    pub fn new() -> (r: BeamManager)
        ensures
            r.beams@ == Seq::<Beam>::empty(),
            r.energised@ == Seq::<(usize, usize)>::empty(),
            r.first_startup,
    {
        BeamManager { beams: Vec::new(), energised: Vec::new(), first_startup: true }
    }

    /// Advances every beam, keeps one copy of each, marks the tiles
    /// they sit on, and reports whether new tiles were energised.
    #[verifier::loop_isolation(false)]
    #[verifier::rlimit(80)]
    pub fn step(&mut self, contraption: &Contraption) -> (b: bool)
        requires
            forall|k: int|
                0 <= k < old(self).beams@.len() ==> (#[trigger] old(self).beams@[k]).coord.0
                    <= contraption.max_x && old(self).beams@[k].coord.1 <= contraption.max_y,
        ensures
            final(self).beams@ == dedup_beams(
                advance(old(self).beams@, *contraption, old(self).first_startup).0 + advance(
                    old(self).beams@,
                    *contraption,
                    old(self).first_startup,
                ).1,
            ),
            final(self).energised@ == energise_fold(old(self).energised@, final(self).beams@),
            !final(self).first_startup,
            b == (final(self).energised@.len() > old(self).energised@.len()),
            forall|k: int|
                0 <= k < final(self).beams@.len() ==> (#[trigger] final(self).beams@[k]).coord.0
                    <= contraption.max_x && final(self).beams@[k].coord.1 <= contraption.max_y,
    {
        let energised_tiles = self.energised.len();
        let ghost beams0 = self.beams@;
        let ghost first0 = self.first_startup;
        let mut new_beams: Vec<Beam> = Vec::new();
        let mut i: usize = 0;
        while i < self.beams.len()
            invariant
                0 <= i <= beams0.len(),
                self.beams@.len() == beams0.len(),
                self.first_startup == first0,
                self.energised@ == old(self).energised@,
                forall|k: int|
                    0 <= k < beams0.len() ==> (#[trigger] beams0[k]).coord.0 <= contraption.max_x
                        && beams0[k].coord.1 <= contraption.max_y,
                forall|k: int|
                    i <= k < beams0.len() ==> #[trigger] self.beams@[k] == beams0[k],
                self.beams@.take(i as int) =~= advance(
                    beams0.take(i as int),
                    *contraption,
                    first0,
                ).0,
                new_beams@ =~= advance(beams0.take(i as int), *contraption, first0).1,
                forall|k: int|
                    0 <= k < i ==> (#[trigger] self.beams@[k]).coord.0 <= contraption.max_x
                        && self.beams@[k].coord.1 <= contraption.max_y,
                forall|k: int|
                    0 <= k < new_beams@.len() ==> (#[trigger] new_beams@[k]).coord.0
                        <= contraption.max_x && new_beams@[k].coord.1 <= contraption.max_y,
            decreases beams0.len() - i,
        {
            proof {
                assert(beams0.take(i as int + 1).drop_last() =~= beams0.take(i as int));
                assert(beams0.take(i as int + 1).last() == beams0[i as int]);
            }
            let mut moved = self.beams[i];
            let spawn = moved.step(contraption, self.first_startup);
            self.beams.set(i, moved);
            match spawn {
                Some(new_beam) => {
                    new_beams.push(new_beam);
                },
                None => {
                },
            }
            i += 1;
        }
        proof {
            assert(beams0.take(beams0.len() as int) =~= beams0);
            assert(self.beams@.take(beams0.len() as int) =~= self.beams@);
            assert(self.beams@ =~= advance(beams0, *contraption, first0).0);
        }
        let mut j: usize = 0;
        let ghost moved_all = self.beams@;
        while j < new_beams.len()
            invariant
                0 <= j <= new_beams@.len(),
                self.first_startup == first0,
                self.energised@ == old(self).energised@,
                self.beams@ =~= moved_all + new_beams@.take(j as int),
                forall|k: int|
                    0 <= k < self.beams@.len() ==> (#[trigger] self.beams@[k]).coord.0
                        <= contraption.max_x && self.beams@[k].coord.1 <= contraption.max_y,
                forall|k: int|
                    0 <= k < new_beams@.len() ==> (#[trigger] new_beams@[k]).coord.0
                        <= contraption.max_x && new_beams@[k].coord.1 <= contraption.max_y,
            decreases new_beams@.len() - j,
        {
            self.beams.push(new_beams[j]);
            j += 1;
        }
        proof {
            assert(new_beams@.take(new_beams@.len() as int) =~= new_beams@);
            assert(self.beams@ =~= advance(beams0, *contraption, first0).0 + advance(
                beams0,
                *contraption,
                first0,
            ).1);
        }
        self.first_startup = false;
        // keep one copy of each beam, in first-seen order
        let ghost combined = self.beams@;
        let mut unique: Vec<Beam> = Vec::new();
        let mut t: usize = 0;
        while t < self.beams.len()
            invariant
                0 <= t <= combined.len(),
                self.beams@ == combined,
                self.energised@ == old(self).energised@,
                unique@ =~= dedup_beams(combined.take(t as int)),
                forall|k: int|
                    0 <= k < combined.len() ==> (#[trigger] combined[k]).coord.0
                        <= contraption.max_x && combined[k].coord.1 <= contraption.max_y,
            decreases combined.len() - t,
        {
            proof {
                assert(combined.take(t as int + 1).drop_last() =~= combined.take(t as int));
                assert(combined.take(t as int + 1).last() == combined[t as int]);
            }
            let b2 = self.beams[t];
            let seen = contains_in_prefix(&self.beams, t, &b2);
            if !seen {
                unique.push(b2);
            }
            t += 1;
        }
        proof {
            assert(combined.take(combined.len() as int) =~= combined);
            lemma_dedup_elems(combined);
            assert forall|k: int|
                0 <= k < unique@.len() implies (#[trigger] unique@[k]).coord.0
                <= contraption.max_x && unique@[k].coord.1 <= contraption.max_y by {
                assert(combined.contains(unique@[k]));
                let w = choose|w: int| 0 <= w < combined.len() && combined[w] == unique@[k];
            }
        }
        proof {
            assert(unique@ =~= dedup_beams(
                advance(beams0, *contraption, first0).0 + advance(
                    beams0,
                    *contraption,
                    first0,
                ).1,
            ));
        }
        self.beams = unique;
        self.energise();
        let new_energised_tiles = self.energised.len();
        new_energised_tiles > energised_tiles
    }

    /// How many tiles have been energised so far.
    pub fn get_energised_tiles(&self) -> (r: usize)
        ensures
            r == self.energised@.len(),
    {
        self.energised.len()
    }

    /// Marks the tile under every beam as energised.
    #[verifier::loop_isolation(false)]
    pub fn energise(&mut self)
        ensures
            final(self).energised@ == energise_fold(old(self).energised@, old(self).beams@),
            final(self).beams@ == old(self).beams@,
            final(self).first_startup == old(self).first_startup,
    {
        let ghost bs = self.beams@;
        let mut k: usize = 0;
        while k < self.beams.len()
            invariant
                0 <= k <= bs.len(),
                self.beams@ == bs,
                self.first_startup == old(self).first_startup,
                self.energised@ =~= energise_fold(old(self).energised@, bs.take(k as int)),
            decreases bs.len() - k,
        {
            proof {
                assert(bs.take(k as int + 1).drop_last() =~= bs.take(k as int));
                assert(bs.take(k as int + 1).last() == bs[k as int]);
            }
            let coord = self.beams[k].coord;
            if !coords_contain(&self.energised, coord) {
                self.energised.push(coord);
            }
            k += 1;
        }
        proof {
            assert(bs.take(bs.len() as int) =~= bs);
        }
    }
}

/// Everything the deduplication keeps was in the original list.
proof fn lemma_dedup_elems(s: Seq<Beam>)
    ensures
        forall|k: int| 0 <= k < dedup_beams(s).len() ==> s.contains(#[trigger] dedup_beams(s)[k]),
    decreases s.len(),
{
    if s.len() > 0 {
        lemma_dedup_elems(s.drop_last());
        assert forall|k: int|
            0 <= k < dedup_beams(s).len() implies s.contains(#[trigger] dedup_beams(s)[k]) by {
            if k < dedup_beams(s.drop_last()).len() {
                assert(s.drop_last().contains(dedup_beams(s.drop_last())[k]));
                let w = choose|w: int|
                    0 <= w < s.drop_last().len() && s.drop_last()[w] == dedup_beams(
                        s.drop_last(),
                    )[k];
                assert(s[w] == dedup_beams(s)[k]);
            } else {
                assert(dedup_beams(s)[k] == s.last());
                assert(s[s.len() - 1] == s.last());
            }
        }
    }
}

/// Whether the beam already occurs among the first `upto` entries.
fn contains_in_prefix(v: &Vec<Beam>, upto: usize, b: &Beam) -> (r: bool)
    requires
        upto <= v@.len(),
    ensures
        r == v@.take(upto as int).contains(*b),
{
    let mut i: usize = 0;
    while i < upto
        invariant
            0 <= i <= upto <= v@.len(),
            forall|j: int| 0 <= j < i ==> #[trigger] v@[j] != *b,
        decreases upto - i,
    {
        if beam_eq(&v[i], b) {
            proof {
                assert(v@.take(upto as int)[i as int] == *b);
            }
            return true;
        }
        i += 1;
    }
    proof {
        if v@.take(upto as int).contains(*b) {
            let w = choose|w: int|
                0 <= w < v@.take(upto as int).len() && v@.take(upto as int)[w] == *b;
            assert(v@[w] == *b);
            assert(false);
        }
    }
    false
}


/// Beams sitting on a tile, the ones already off the map not counted.
pub open spec fn beams_at(beams: Seq<Beam>, x: int, y: int) -> int
    decreases beams.len(),
{
    if beams.len() == 0 {
        0
    } else {
        beams_at(beams.drop_last(), x, y) + if !beams.last().off_map && beams.last().coord.0
            == x && beams.last().coord.1 == y {
            1int
        } else {
            0int
        }
    }
}

/// The direction of the first beam on the tile.
pub open spec fn first_dir(beams: Seq<Beam>, x: int, y: int) -> Direction
    decreases beams.len(),
{
    if beams.len() == 0 {
        Direction::Up
    } else if !beams[0].off_map && beams[0].coord.0 == x && beams[0].coord.1 == y {
        beams[0].direction
    } else {
        first_dir(beams.drop_first(), x, y)
    }
}

pub open spec fn dir_char(d: Direction) -> char {
    match d {
        Direction::Up => '^',
        Direction::Down => 'v',
        Direction::Left => '<',
        Direction::Right => '>',
    }
}

/// The largest energised coordinate on one axis.
pub open spec fn e_max(e: Seq<(usize, usize)>, x_axis: bool) -> int
    decreases e.len(),
{
    if e.len() == 0 {
        0
    } else {
        let prev = e_max(e.drop_last(), x_axis);
        let v = if x_axis {
            e.last().0 as int
        } else {
            e.last().1 as int
        };
        if v > prev {
            v
        } else {
            prev
        }
    }
}

/// One drawn cell: the beam count when several share it, the beam's
/// arrow when one does, `#` for an energised empty tile, `.` otherwise.
pub open spec fn render_cell(beams: Seq<Beam>, e: Seq<(usize, usize)>, x: int, y: int) -> Seq<
    char,
> {
    let n = beams_at(beams, x, y);
    if n > 1 {
        text::spec_decimal(n)
    } else if n == 1 {
        seq![dir_char(first_dir(beams, x, y))]
    } else if e.contains(((x as usize, y as usize))) {
        seq!['#']
    } else {
        seq!['.']
    }
}

pub open spec fn render_row(beams: Seq<Beam>, e: Seq<(usize, usize)>, y: int, upto_x: int) -> Seq<
    char,
>
    decreases upto_x,
{
    if upto_x <= 0 {
        Seq::empty()
    } else {
        render_row(beams, e, y, upto_x - 1) + render_cell(beams, e, upto_x - 1, y)
    }
}

pub open spec fn render_grid(
    beams: Seq<Beam>,
    e: Seq<(usize, usize)>,
    max_x: int,
    upto_y: int,
) -> Seq<char>
    decreases upto_y,
{
    if upto_y <= 0 {
        Seq::empty()
    } else {
        render_grid(beams, e, max_x, upto_y - 1) + render_row(beams, e, upto_y - 1, max_x).push(
            '\n',
        )
    }
}

fn count_beams_at(beams: &Vec<Beam>, x: usize, y: usize) -> (r: usize)
    ensures
        r as int == beams_at(beams@, x as int, y as int),
        r <= beams@.len(),
    decreases beams@.len(),
{
    let ghost bs = beams@;
    let mut r: usize = 0;
    let mut k: usize = 0;
    while k < beams.len()
        invariant
            0 <= k <= bs.len(),
            bs == beams@,
            r as int == beams_at(bs.take(k as int), x as int, y as int),
            r <= k,
        decreases bs.len() - k,
    {
        proof {
            assert(bs.take(k as int + 1).drop_last() =~= bs.take(k as int));
            assert(bs.take(k as int + 1).last() == bs[k as int]);
        }
        let b = beams[k];
        if !b.off_map && b.coord.0 == x && b.coord.1 == y {
            r = r + 1;
        }
        k += 1;
    }
    proof {
        assert(bs.take(bs.len() as int) =~= bs);
    }
    r
}

fn first_dir_at(beams: &Vec<Beam>, x: usize, y: usize) -> (d: Direction)
    ensures
        d == first_dir(beams@, x as int, y as int),
{
    let ghost bs = beams@;
    proof {
        assert(bs.skip(0) =~= bs);
    }
    let mut k: usize = 0;
    while k < beams.len()
        invariant
            0 <= k <= bs.len(),
            bs == beams@,
            first_dir(bs, x as int, y as int) == first_dir(bs.skip(k as int), x as int, y as int),
        decreases bs.len() - k,
    {
        proof {
            assert(bs.skip(k as int)[0] == bs[k as int]);
            assert(bs.skip(k as int).drop_first() =~= bs.skip(k as int + 1));
        }
        let b = beams[k];
        if !b.off_map && b.coord.0 == x && b.coord.1 == y {
            return b.direction;
        }
        k += 1;
    }
    proof {
        assert(bs.skip(bs.len() as int).len() == 0);
    }
    Direction::Up
}

impl BeamManager {
    /// Draws the grid of beams and energised tiles, one line per row.
    #[verifier::loop_isolation(false)]
    pub fn render(&self) -> (out: String)
        requires
            self.energised@.len() > 0,
            self.beams@.len() <= u32::MAX,
            e_max(self.energised@, true) < usize::MAX,
            e_max(self.energised@, false) < usize::MAX,
        ensures
            out@ == render_grid(
                self.beams@,
                self.energised@,
                e_max(self.energised@, true) + 1,
                e_max(self.energised@, false) + 1,
            ),
    {
        let ghost es = self.energised@;
        let mut mx: usize = 0;
        let mut my: usize = 0;
        let mut k: usize = 0;
        while k < self.energised.len()
            invariant
                0 <= k <= es.len(),
                es == self.energised@,
                mx as int == e_max(es.take(k as int), true),
                my as int == e_max(es.take(k as int), false),
            decreases es.len() - k,
        {
            proof {
                assert(es.take(k as int + 1).drop_last() =~= es.take(k as int));
                assert(es.take(k as int + 1).last() == es[k as int]);
            }
            if self.energised[k].0 > mx {
                mx = self.energised[k].0;
            }
            if self.energised[k].1 > my {
                my = self.energised[k].1;
            }
            k += 1;
        }
        proof {
            assert(es.take(es.len() as int) =~= es);
            lemma_e_max_bound(es);
        }
        let max_x = mx + 1;
        let max_y = my + 1;
        let mut out = String::new();
        let mut y: usize = 0;
        while y < max_y
            invariant
                0 <= y <= max_y,
                out@ =~= render_grid(self.beams@, es, max_x as int, y as int),
            decreases max_y - y,
        {
            let mut x: usize = 0;
            while x < max_x
                invariant
                    0 <= x <= max_x,
                    out@ =~= render_grid(self.beams@, es, max_x as int, y as int) + render_row(
                        self.beams@,
                        es,
                        y as int,
                        x as int,
                    ),
                decreases max_x - x,
            {
                let n = count_beams_at(&self.beams, x, y);
                if n > 1 {
                    text::push_decimal(&mut out, n as u32);
                } else if n == 1 {
                    let d = first_dir_at(&self.beams, x, y);
                    let c = match d {
                        Direction::Up => '^',
                        Direction::Down => 'v',
                        Direction::Left => '<',
                        Direction::Right => '>',
                    };
                    text::push_render_char(&mut out, c);
                } else if coords_contain(&self.energised, (x, y)) {
                    text::push_render_char(&mut out, '#');
                } else {
                    text::push_render_char(&mut out, '.');
                }
                x += 1;
            }
            text::push_render_char(&mut out, '\n');
            y += 1;
        }
        out
    }
}

/// The largest energised coordinate fits the machine with room for the
/// grid bound.
proof fn lemma_e_max_bound(e: Seq<(usize, usize)>)
    ensures
        e_max(e, true) <= usize::MAX,
        e_max(e, false) <= usize::MAX,
        e_max(e, true) >= 0,
        e_max(e, false) >= 0,
    decreases e.len(),
{
    if e.len() > 0 {
        lemma_e_max_bound(e.drop_last());
    }
}

} // verus!
