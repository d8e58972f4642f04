//! Engine schematics: part numbers and symbols laid out on a grid; a
//! part counts when one of its digits touches a symbol, diagonals
//! included.

use vstd::prelude::*;
use crate::text;

verus! {

#[derive(Hash, Eq, PartialEq, Clone, Copy, Debug)]
pub enum ComponentType {
    Part(usize),
    Symbol(char),
}

#[derive(Clone, Copy, Debug, Eq, PartialEq, Hash)]
pub struct SchematicComponent {
    pub x: usize,
    pub y: usize,
    pub component: ComponentType,
}

impl SchematicComponent {
    pub fn new(x: usize, y: usize, component: ComponentType) -> (c: SchematicComponent)
        ensures
            c.x == x,
            c.y == y,
            c.component == component,
    {
        SchematicComponent { x, y, component }
    }
}

/// The characters that may mark a part.
pub open spec fn is_symbol(c: char) -> bool {
    ||| c == '.'
    ||| c == '&'
    ||| c == '-'
    ||| c == '='
    ||| c == '$'
    ||| c == '+'
    ||| c == '#'
    ||| c == '%'
    ||| c == '*'
    ||| c == '/'
    ||| c == '@'
}

/// How many grid cells a component covers.
pub open spec fn comp_width(t: ComponentType) -> int {
    match t {
        ComponentType::Part(n) => dec_width(n as int),
        ComponentType::Symbol(_) => 1,
    }
}

pub open spec fn dec_width(n: int) -> int
    decreases n,
{
    if n < 10 {
        1
    } else {
        1 + dec_width(n / 10)
    }
}

/// The component covers the cell.
pub open spec fn covers(c: SchematicComponent, x: int, y: int) -> bool {
    c.y == y && c.x <= x < c.x + comp_width(c.component)
}

/// No two components share a cell.
pub open spec fn no_overlap(cs: Seq<SchematicComponent>) -> bool {
    forall|i: int, j: int, x: int, y: int|
        0 <= i < j < cs.len() ==> !(#[trigger] covers(cs[i], x, y) && #[trigger] covers(
            cs[j],
            x,
            y,
        ))
}

pub struct IndexedComponentList {
    pub components: Vec<SchematicComponent>,
}

/// The first listed component covering a cell, or the length.
pub open spec fn comp_at(cs: Seq<SchematicComponent>, x: int, y: int) -> int
    decreases cs.len(),
{
    if cs.len() == 0 {
        0
    } else if covers(cs[0], x, y) {
        0
    } else {
        1 + comp_at(cs.drop_first(), x, y)
    }
}

proof fn lemma_comp_at(cs: Seq<SchematicComponent>, x: int, y: int, i: int)
    requires
        0 <= i <= cs.len(),
        forall|j: int| 0 <= j < i ==> !covers(#[trigger] cs[j], x, y),
        i < cs.len() ==> covers(cs[i], x, y),
    ensures
        comp_at(cs, x, y) == i,
    decreases i,
{
    if cs.len() == 0 {
    } else if i == 0 {
    } else {
        assert(forall|j: int| 0 <= j < i - 1 ==> #[trigger] cs.drop_first()[j] == cs[j + 1]);
        lemma_comp_at(cs.drop_first(), x, y, i - 1);
    }
}

fn dec_width_exec(n: usize) -> (r: usize)
    ensures
        r as int == dec_width(n as int),
        1 <= r <= 21,
    decreases n,
{
    if n < 10 {
        1
    } else {
        proof {
            lemma_dec_width_bound(n as int);
        }
        1 + dec_width_exec(n / 10)
    }
}

proof fn lemma_dec_width_bound(n: int)
    requires
        0 <= n <= usize::MAX,
    ensures
        1 <= dec_width(n) <= 21,
{
    assert(pow10(20) == 100_000_000_000_000_000_000) by {
        reveal_with_fuel(pow10, 21);
    }
    assert(usize::MAX as int <= 0xffff_ffff_ffff_ffff as int);
    assert(n < pow10(20));
    lemma_dec_width_by_magnitude(n, 20);
    lemma_dec_width_pos(n);
}

proof fn lemma_dec_width_pos(n: int)
    ensures
        dec_width(n) >= 1,
    decreases n,
{
    if n >= 10 {
        lemma_dec_width_pos(n / 10);
    }
}

/// A value below `10^k` is at most `k + 1` digits wide.
proof fn lemma_dec_width_by_magnitude(n: int, k: int)
    requires
        0 <= n,
        0 <= k,
        n < pow10(k),
    ensures
        dec_width(n) <= k + 1,
    decreases k,
{
    if n >= 10 {
        assert(k >= 1) by {
            if k == 0 {
                assert(pow10(0) == 1);
            }
        }
        assert(n / 10 < pow10(k - 1)) by (nonlinear_arith)
            requires
                n < pow10(k),
                pow10(k) == 10 * pow10(k - 1),
                n >= 10,
        ;
        lemma_dec_width_by_magnitude(n / 10, k - 1);
    }
}

pub open spec fn pow10(k: int) -> int
    decreases k,
{
    if k <= 0 {
        1
    } else {
        10 * pow10(k - 1)
    }
}

impl IndexedComponentList {
    pub fn new() -> (r: IndexedComponentList)
        ensures
            r.components@ == Seq::<SchematicComponent>::empty(),
    {
        IndexedComponentList { components: Vec::new() }
    }

    /// Replaces the component list; `false` when two components would
    /// share a cell, in which case nothing is stored.
    pub fn set_component(&mut self, components: Vec<SchematicComponent>) -> (ok: bool)
        ensures
            ok == no_overlap(components@),
            ok ==> final(self).components@ == components@,
            !ok ==> final(self).components@ == old(self).components@,
    {
        let ok = Self::_rebuild_indexes(&components);
        if ok {
            self.components = components;
        }
        ok
    }

    /// Checks the grid layout: every covered cell belongs to exactly
    /// one component.
    #[verifier::loop_isolation(false)]
    pub fn _rebuild_indexes(components: &Vec<SchematicComponent>) -> (ok: bool)
        ensures
            ok == no_overlap(components@),
    {
        let ghost cs = components@;
        let mut i: usize = 0;
        while i < components.len()
            invariant
                0 <= i <= cs.len(),
                forall|a: int, b: int, x: int, y: int|
                    0 <= a < b < cs.len() && a < i ==> !(#[trigger] covers(cs[a], x, y)
                        && #[trigger] covers(cs[b], x, y)),
            decreases cs.len() - i,
        {
            let ci = components[i];
            let wi = comp_width_exec(&ci);
            let mut j: usize = i + 1;
            while j < components.len()
                invariant
                    i < j <= cs.len(),
                    i < cs.len(),
                    ci == cs[i as int],
                    wi as int == comp_width(ci.component),
                    forall|b: int, x: int, y: int|
                        i < b < j ==> !(#[trigger] covers(cs[i as int], x, y)
                            && #[trigger] covers(cs[b], x, y)),
                decreases cs.len() - j,
            {
                let cj = components[j];
                let wj = comp_width_exec(&cj);
                if ci.y == cj.y {
                    let overlap = !((ci.x as u128) + (wi as u128) <= cj.x as u128 || (cj.x
                        as u128) + (wj as u128) <= ci.x as u128);
                    if overlap {
                        proof {
                            let x = if ci.x >= cj.x {
                                ci.x as int
                            } else {
                                cj.x as int
                            };
                            assert(covers(cs[i as int], x, ci.y as int));
                            assert(covers(cs[j as int], x, ci.y as int));
                        }
                        return false;
                    }
                    proof {
                        assert(forall|x: int, y: int|
                            !(covers(cs[i as int], x, y) && covers(cs[j as int], x, y)));
                    }
                } else {
                    proof {
                        assert(forall|x: int, y: int|
                            !(covers(cs[i as int], x, y) && covers(cs[j as int], x, y)));
                    }
                }
                j += 1;
            }
            i += 1;
        }
        true
    }

    /// Every distinct component found on the eight cells around the
    /// given one, in probe order.
    #[verifier::loop_isolation(false)]
    pub fn get_adjacent_parts(&self, x: usize, y: usize) -> (r: Vec<SchematicComponent>)
        requires
            x < usize::MAX,
            y < usize::MAX,
        ensures
            forall|k: int, t: int| 0 <= k < t < r@.len() ==> #[trigger] r@[k] != #[trigger] r@[t],
            forall|t: int, c: SchematicComponent|
                0 <= t < probe_list(x as int, y as int).len() && #[trigger] comp_found(
                    self.components@,
                    probe_list(x as int, y as int)[t].0,
                    probe_list(x as int, y as int)[t].1,
                    c,
                ) ==> r@.contains(c),
    {
        let ghost probes = probe_list(x as int, y as int);
        let mut positions: Vec<(usize, usize)> = Vec::new();
        positions.push((x + 1, y));
        positions.push((x + 1, y + 1));
        positions.push((x, y + 1));
        if y > 0 {
            positions.push((x, y - 1));
            positions.push((x + 1, y - 1));
        }
        if x > 0 {
            positions.push((x - 1, y));
            positions.push((x - 1, y + 1));
        }
        if x > 0 && y > 0 {
            positions.push((x - 1, y - 1));
        }
        proof {
            assert(positions@.len() == probes.len());
            assert(forall|k: int|
                0 <= k < probes.len() ==> ((#[trigger] positions@[k]).0 as int, positions@[
                    k].1 as int) == probes[k]);
        }
        let mut adjacent: Vec<SchematicComponent> = Vec::new();
        let mut k: usize = 0;
        while k < positions.len()
            invariant
                0 <= k <= positions@.len(),
                positions@.len() == probes.len(),
                forall|t: int|
                    0 <= t < probes.len() ==> ((#[trigger] positions@[t]).0 as int, positions@[
                        t].1 as int) == probes[t],
                forall|a: int, b: int|
                    0 <= a < b < adjacent@.len() ==> #[trigger] adjacent@[a]
                        != #[trigger] adjacent@[b],
                forall|a: int|
                    0 <= a < adjacent@.len() ==> exists|t: int|
                        #![trigger probes[t]]
                        0 <= t < k && comp_found(
                            self.components@,
                            probes[t].0,
                            probes[t].1,
                            #[trigger] adjacent@[a],
                        ),
                forall|t: int, c: SchematicComponent|
                    0 <= t < k && #[trigger] comp_found(
                        self.components@,
                        probes[t].0,
                        probes[t].1,
                        c,
                    ) ==> adjacent@.contains(c),
            decreases positions@.len() - k,
        {
            let (px, py) = positions[k];
            proof {
                assert((px as int, py as int) == probes[k as int]);
            }
            let ghost old_adj = adjacent@;
            match self.find_at(px, py) {
                Some(c) => {
                    let already = contains_comp(&adjacent, &c);
                    if !already {
                        adjacent.push(c);
                    }
                    proof {
                        assert(comp_found(
                            self.components@,
                            probes[k as int].0,
                            probes[k as int].1,
                            c,
                        ));
                        assert(adjacent@.contains(c)) by {
                            if already {
                            } else {
                                assert(adjacent@[old_adj.len() as int] == c);
                            }
                        }
                        assert forall|a: int|
                            0 <= a < adjacent@.len() implies exists|t: int|
                            #![trigger probes[t]]
                            0 <= t < k + 1 && comp_found(
                                self.components@,
                                probes[t].0,
                                probes[t].1,
                                #[trigger] adjacent@[a],
                            ) by {
                            if a < old_adj.len() {
                                assert(adjacent@[a] == old_adj[a]);
                                let t0 = choose|t: int|
                                    #![trigger probes[t]]
                                    0 <= t < k && comp_found(
                                        self.components@,
                                        probes[t].0,
                                        probes[t].1,
                                        old_adj[a],
                                    );
                                assert(0 <= t0 < k + 1 && comp_found(
                                    self.components@,
                                    probes[t0].0,
                                    probes[t0].1,
                                    adjacent@[a],
                                ));
                            } else {
                                assert(adjacent@[a] == c);
                                assert(comp_found(
                                    self.components@,
                                    probes[k as int].0,
                                    probes[k as int].1,
                                    adjacent@[a],
                                ));
                            }
                        }
                        assert forall|t: int, c2: SchematicComponent|
                            0 <= t < k + 1 && #[trigger] comp_found(
                                self.components@,
                                probes[t].0,
                                probes[t].1,
                                c2,
                            ) implies adjacent@.contains(c2) by {
                            if t < k {
                                assert(old_adj.contains(c2));
                                let w = choose|w: int| 0 <= w < old_adj.len() && old_adj[w] == c2;
                                assert(adjacent@[w] == c2);
                            } else {
                                assert(c2 == c);
                            }
                        }
                    }
                },
                None => {
                    proof {
                        assert forall|t: int, c2: SchematicComponent|
                            0 <= t < k + 1 && #[trigger] comp_found(
                                self.components@,
                                probes[t].0,
                                probes[t].1,
                                c2,
                            ) implies adjacent@.contains(c2) by {
                            if t < k {
                                assert(old_adj.contains(c2));
                            } else {
                                assert(!comp_found(
                                    self.components@,
                                    px as int,
                                    py as int,
                                    c2,
                                ));
                            }
                        }
                        assert forall|a: int|
                            0 <= a < adjacent@.len() implies exists|t: int|
                            #![trigger probes[t]]
                            0 <= t < k + 1 && comp_found(
                                self.components@,
                                probes[t].0,
                                probes[t].1,
                                #[trigger] adjacent@[a],
                            ) by {
                            let t0 = choose|t: int|
                                #![trigger probes[t]]
                                0 <= t < k && comp_found(
                                    self.components@,
                                    probes[t].0,
                                    probes[t].1,
                                    adjacent@[a],
                                );
                            assert(0 <= t0 < k + 1 && comp_found(
                                self.components@,
                                probes[t0].0,
                                probes[t0].1,
                                adjacent@[a],
                            ));
                        }
                    }
                },
            }
            k += 1;
        }
        proof {
            assert forall|t: int, c: SchematicComponent|
                0 <= t < probe_list(x as int, y as int).len() && #[trigger] comp_found(
                    self.components@,
                    probe_list(x as int, y as int)[t].0,
                    probe_list(x as int, y as int)[t].1,
                    c,
                ) implies adjacent@.contains(c) by {
                assert(probes[t] == probe_list(x as int, y as int)[t]);
                assert(comp_found(self.components@, probes[t].0, probes[t].1, c));
            }
        }
        adjacent
    }

    /// The component covering a cell, if any.
    fn find_at(&self, x: usize, y: usize) -> (r: Option<SchematicComponent>)
        ensures
            match r {
                Some(c) => comp_found(self.components@, x as int, y as int, c),
                None => forall|c: SchematicComponent|
                    !comp_found(self.components@, x as int, y as int, c),
            },
    {
        let ghost cs = self.components@;
        let mut i: usize = 0;
        while i < self.components.len()
            invariant
                0 <= i <= cs.len(),
                cs == self.components@,
                forall|j: int| 0 <= j < i ==> !covers(#[trigger] cs[j], x as int, y as int),
            decreases cs.len() - i,
        {
            let c = self.components[i];
            let w = comp_width_exec(&c);
            if c.y == y && c.x <= x && (x as u128) < (c.x as u128) + (w as u128) {
                proof {
                    lemma_comp_at(cs, x as int, y as int, i as int);
                }
                return Some(c);
            }
            i += 1;
        }
        proof {
            lemma_comp_at(cs, x as int, y as int, cs.len() as int);
        }
        None
    }
}

/// A component listed first among those covering the cell.
pub open spec fn comp_found(
    cs: Seq<SchematicComponent>,
    x: int,
    y: int,
    c: SchematicComponent,
) -> bool {
    comp_at(cs, x, y) < cs.len() && cs[comp_at(cs, x, y)] == c
}

/// The probes around `(x, y)`, in the order the scan tries them; the
/// cells off the grid's edge are left out.
pub open spec fn probe_list(x: int, y: int) -> Seq<(int, int)> {
    let base = seq![(x + 1, y), (x + 1, y + 1), (x, y + 1)];
    let with_up = if y > 0 {
        base + seq![(x, y - 1), (x + 1, y - 1)]
    } else {
        base
    };
    let with_left = if x > 0 {
        with_up + seq![(x - 1, y), (x - 1, y + 1)]
    } else {
        with_up
    };
    if x > 0 && y > 0 {
        with_left + seq![(x - 1, y - 1)]
    } else {
        with_left
    }
}

fn comp_width_exec(c: &SchematicComponent) -> (r: usize)
    ensures
        r as int == comp_width(c.component),
        1 <= r <= 21,
{
    match c.component {
        ComponentType::Part(n) => dec_width_exec(n),
        ComponentType::Symbol(_) => 1,
    }
}

pub struct Schematic {
    pub components: IndexedComponentList,
}

/// The first non-digit at or after `x`, or the line length.
pub open spec fn digit_end(line: Seq<char>, x: int) -> int
    decreases line.len() - x,
{
    if x < 0 || x >= line.len() {
        line.len() as int
    } else if text::is_digit(line[x]) {
        digit_end(line, x + 1)
    } else {
        x
    }
}

pub proof fn lemma_digit_end(line: Seq<char>, x: int)
    requires
        0 <= x <= line.len(),
    ensures
        x <= digit_end(line, x) <= line.len(),
        digit_end(line, x) < line.len() ==> !text::is_digit(line[digit_end(line, x)]),
        forall|j: int| x <= j < digit_end(line, x) ==> text::is_digit(#[trigger] line[j]),
    decreases line.len() - x,
{
    if x < line.len() && text::is_digit(line[x]) {
        lemma_digit_end(line, x + 1);
    }
}

/// The components of one line from position `x` on: digit runs become
/// parts, `.` is ground, and the other symbols stand alone.
pub open spec fn line_comps(line: Seq<char>, y: int, x: int) -> Seq<SchematicComponent>
    decreases line.len() - x,
    via line_comps_decreases
{
    if x < 0 || x >= line.len() {
        Seq::empty()
    } else if text::is_digit(line[x]) {
        let e = digit_end(line, x);
        seq![
            SchematicComponent {
                x: x as usize,
                y: y as usize,
                component: ComponentType::Part(text::digits_val(line.subrange(x, e)) as usize),
            },
        ] + line_comps(line, y, e)
    } else if line[x] == '.' {
        line_comps(line, y, x + 1)
    } else {
        seq![
            SchematicComponent {
                x: x as usize,
                y: y as usize,
                component: ComponentType::Symbol(line[x]),
            },
        ] + line_comps(line, y, x + 1)
    }
}

#[via_fn]
proof fn line_comps_decreases(line: Seq<char>, y: int, x: int) {
    if 0 <= x < line.len() && text::is_digit(line[x]) {
        lemma_digit_end(line, x);
        assert(digit_end(line, x) > x);
    }
}

/// Every character is a digit, ground, or a known symbol, and every
/// number fits the machine.
pub open spec fn schematic_line_ok(line: Seq<char>) -> bool {
    &&& forall|j: int|
        0 <= j < line.len() ==> (text::is_digit(#[trigger] line[j]) || is_symbol(line[j]))
    &&& forall|x: int|
        0 <= x < line.len() && text::is_digit(#[trigger] line[x]) ==> text::digits_val(
            line.subrange(x, digit_end(line, x)),
        ) <= usize::MAX
}

/// All components of a grid, line by line.
pub open spec fn grid_comps(lines: Seq<Seq<char>>, upto: int) -> Seq<SchematicComponent>
    decreases upto,
{
    if upto <= 0 {
        Seq::empty()
    } else {
        grid_comps(lines, upto - 1) + line_comps(lines[upto - 1], upto - 1, 0)
    }
}

impl Schematic {
    /// The characters that may mark a part, ground included.
    pub fn possible_symbols() -> (r: [char; 11])
        ensures
            forall|c: char| r@.contains(c) <==> is_symbol(c),
    {
        let r = ['.', '&', '-', '=', '$', '+', '#', '%', '*', '/', '@'];
        proof {
            broadcast use vstd::array::group_array_axioms;

            assert forall|c: char| r@.contains(c) <==> is_symbol(c) by {
                if is_symbol(c) {
                    if c == '.' {
                        assert(r@[0] == c);
                    } else if c == '&' {
                        assert(r@[1] == c);
                    } else if c == '-' {
                        assert(r@[2] == c);
                    } else if c == '=' {
                        assert(r@[3] == c);
                    } else if c == '$' {
                        assert(r@[4] == c);
                    } else if c == '+' {
                        assert(r@[5] == c);
                    } else if c == '%' {
                        assert(r@[7] == c);
                    } else if c == '*' {
                        assert(r@[8] == c);
                    } else if c == '/' {
                        assert(r@[9] == c);
                    } else if c == '@' {
                        assert(r@[10] == c);
                    } else {
                        assert(r@[6] == c);
                    }
                }
            }
        }
        r
    }

    /// Builds a schematic; `None` when two components would overlap.
    pub fn new(components: Vec<SchematicComponent>) -> (r: Option<Schematic>)
        ensures
            r is Some <==> no_overlap(components@),
            r matches Some(sch) ==> sch.components.components@ == components@,
    {
        let mut component_list = IndexedComponentList::new();
        let ok = component_list.set_component(components);
        if ok {
            Some(Schematic { components: component_list })
        } else {
            None
        }
    }

    /// Reads the schematic grid; `None` on an unknown character, an
    /// oversized number, or overlapping components.
    #[verifier::loop_isolation(false)]
    pub fn from_file(input: &str) -> (r: Option<Schematic>)
        ensures
            r matches Some(sch) ==> {
                let ls = text::spec_lines(input@);
                &&& (forall|k: int| 0 <= k < ls.len() ==> schematic_line_ok(#[trigger] ls[k]))
                &&& sch.components.components@ == grid_comps(ls, ls.len() as int)
                &&& no_overlap(sch.components.components@)
            },
    {
        let cs = text::chars_of(input);
        let lines = text::lines_of(&cs);
        let ghost ls = text::spec_lines(input@);
        let mut components: Vec<SchematicComponent> = Vec::new();
        let mut y: usize = 0;
        while y < lines.len()
            invariant
                0 <= y <= ls.len(),
                lines.deep_view() == ls,
                lines@.len() == ls.len(),
                forall|k: int| 0 <= k < y ==> schematic_line_ok(#[trigger] ls[k]),
                components@ =~~= grid_comps(ls, y as int),
            decreases ls.len() - y,
        {
            proof {
                assert(lines[y as int]@ == ls[y as int]);
            }
            let line = &lines[y];
            let ghost lv = ls[y as int];
            let mut x: usize = 0;
            while x < line.len()
                invariant
                    0 <= x <= lv.len(),
                    line@ == lv,
                    y < ls.len(),
                    forall|j: int|
                        0 <= j < x ==> (text::is_digit(#[trigger] lv[j]) || is_symbol(lv[j])),
                    forall|x2: int|
                        0 <= x2 < x && text::is_digit(#[trigger] lv[x2]) ==> text::digits_val(
                            lv.subrange(x2, digit_end(lv, x2)),
                        ) <= usize::MAX,
                    components@ + line_comps(lv, y as int, x as int) =~~= grid_comps(
                        ls,
                        y as int,
                    ) + line_comps(lv, y as int, 0),
                decreases lv.len() - x,
            {
                let c = line[x];
                if '0' <= c && c <= '9' {
                    proof {
                        lemma_digit_end(lv, x as int);
                    }
                    let mut e: usize = x;
                    while e < line.len() && '0' <= line[e] && line[e] <= '9'
                        invariant
                            x <= e <= lv.len(),
                            line@ == lv,
                            forall|j: int| x <= j < e ==> text::is_digit(#[trigger] lv[j]),
                            digit_end(lv, x as int) == digit_end(lv, e as int),
                        decreases lv.len() - e,
                    {
                        e += 1;
                    }
                    proof {
                        assert(digit_end(lv, x as int) == e);
                    }
                    let mut num_text: Vec<char> = Vec::new();
                    let mut t: usize = x;
                    while t < e
                        invariant
                            x <= t <= e,
                            e <= lv.len(),
                            line@ == lv,
                            num_text@ =~= lv.subrange(x as int, t as int),
                        decreases e - t,
                    {
                        num_text.push(line[t]);
                        t += 1;
                    }
                    proof {
                        assert(num_text@ =~= lv.subrange(x as int, e as int));
                    }
                    let value: usize = match text::parse_u64(&num_text) {
                        Some(v) if v <= usize::MAX as u64 => v as usize,
                        _ => {
                            return None;
                        },
                    };
                    components.push(
                        SchematicComponent { x, y, component: ComponentType::Part(value) },
                    );
                    proof {
                        assert(line_comps(lv, y as int, x as int) =~~= seq![
                            SchematicComponent {
                                x,
                                y,
                                component: ComponentType::Part(value),
                            },
                        ] + line_comps(lv, y as int, e as int));
                        assert(components@ + line_comps(lv, y as int, e as int)
                            =~~= grid_comps(ls, y as int) + line_comps(lv, y as int, 0));
                        assert(forall|x2: int|
                            x <= x2 < e ==> digit_end(lv, x2) == e) by {
                            assert forall|x2: int| x <= x2 < e implies digit_end(lv, x2)
                                == e by {
                                lemma_digit_end_same(lv, x2, e as int);
                            }
                        }
                        assert forall|x2: int|
                            x <= x2 < e && text::is_digit(lv[x2]) implies text::digits_val(
                            lv.subrange(x2, digit_end(lv, x2)),
                        ) <= usize::MAX by {
                            assert(digit_end(lv, x2) == e);
                            assert(lv.subrange(x2, e as int) =~= lv.subrange(
                                x as int,
                                e as int,
                            ).skip(x2 - x));
                            assert(text::all_digits(lv.subrange(x as int, e as int)));
                            lemma_digits_skip_le(lv.subrange(x as int, e as int), x2 - x);
                        }
                    }
                    x = e;
                } else {
                    let symbol_ok = c == '.' || c == '&' || c == '-' || c == '=' || c == '$'
                        || c == '+' || c == '#' || c == '%' || c == '*' || c == '/' || c
                        == '@';
                    if !symbol_ok {
                        return None;
                    }
                    if c != '.' {
                        components.push(
                            SchematicComponent { x, y, component: ComponentType::Symbol(c) },
                        );
                    }
                    proof {
                        if lv[x as int] == '.' {
                            assert(line_comps(lv, y as int, x as int) == line_comps(
                                lv,
                                y as int,
                                x as int + 1,
                            ));
                        } else {
                            assert(line_comps(lv, y as int, x as int) =~~= seq![
                                SchematicComponent {
                                    x,
                                    y,
                                    component: ComponentType::Symbol(lv[x as int]),
                                },
                            ] + line_comps(lv, y as int, x as int + 1));
                        }
                        assert(components@ + line_comps(lv, y as int, x as int + 1)
                            =~~= grid_comps(ls, y as int) + line_comps(lv, y as int, 0));
                    }
                    x += 1;
                }
            }
            proof {
                assert(line_comps(lv, y as int, lv.len() as int) == Seq::<
                    SchematicComponent,
                >::empty());
                assert(components@ =~~= grid_comps(ls, y as int) + line_comps(lv, y as int, 0));
                assert(components@ =~~= grid_comps(ls, y as int + 1));
            }
            y += 1;
        }
        Schematic::new(components)
    }

    /// Every distinct component touching some symbol.
    #[verifier::loop_isolation(false)]
    pub fn get_part_numbers(&self) -> (r: Vec<SchematicComponent>)
        requires
            forall|k: int|
                0 <= k < self.components.components@.len() ==> (
                #[trigger] self.components.components@[k]).x < usize::MAX
                    && self.components.components@[k].y < usize::MAX,
        ensures
            forall|k: int, t: int| 0 <= k < t < r@.len() ==> #[trigger] r@[k] != #[trigger] r@[t],
            forall|k: int, t: int, c: SchematicComponent|
                0 <= k < self.components.components@.len() && (
                #[trigger] self.components.components@[k]).component is Symbol && 0 <= t
                    < probe_list(
                    self.components.components@[k].x as int,
                    self.components.components@[k].y as int,
                ).len() && #[trigger] comp_found(
                    self.components.components@,
                    probe_list(
                        self.components.components@[k].x as int,
                        self.components.components@[k].y as int,
                    )[t].0,
                    probe_list(
                        self.components.components@[k].x as int,
                        self.components.components@[k].y as int,
                    )[t].1,
                    c,
                ) ==> r@.contains(c),
    {
        let ghost cs = self.components.components@;
        let mut part_numbers: Vec<SchematicComponent> = Vec::new();
        let mut k: usize = 0;
        while k < self.components.components.len()
            invariant
                0 <= k <= cs.len(),
                cs == self.components.components@,
                forall|a: int, b: int|
                    0 <= a < b < part_numbers@.len() ==> #[trigger] part_numbers@[a]
                        != #[trigger] part_numbers@[b],
                forall|a: int, t: int, c: SchematicComponent|
                    0 <= a < k && (#[trigger] cs[a]).component is Symbol && 0 <= t < probe_list(
                        cs[a].x as int,
                        cs[a].y as int,
                    ).len() && #[trigger] comp_found(
                        cs,
                        probe_list(cs[a].x as int, cs[a].y as int)[t].0,
                        probe_list(cs[a].x as int, cs[a].y as int)[t].1,
                        c,
                    ) ==> part_numbers@.contains(c),
            decreases cs.len() - k,
        {
            let comp = self.components.components[k];
            let is_sym = match comp.component {
                ComponentType::Symbol(_) => true,
                ComponentType::Part(_) => false,
            };
            if is_sym {
                let found = self.components.get_adjacent_parts(comp.x, comp.y);
                let ghost old_pn = part_numbers@;
                let mut t: usize = 0;
                while t < found.len()
                    invariant
                        0 <= t <= found@.len(),
                        cs == self.components.components@,
                        forall|a: int, b: int|
                            0 <= a < b < part_numbers@.len() ==> #[trigger] part_numbers@[a]
                                != #[trigger] part_numbers@[b],
                        forall|c: SchematicComponent|
                            old_pn.contains(c) ==> part_numbers@.contains(c),
                        forall|u: int|
                            0 <= u < t ==> part_numbers@.contains(#[trigger] found@[u]),
                    decreases found@.len() - t,
                {
                    let c2 = found[t];
                    let ghost pre = part_numbers@;
                    if !contains_comp(&part_numbers, &c2) {
                        part_numbers.push(c2);
                        proof {
                            assert(part_numbers@[pre.len() as int] == c2);
                            assert forall|c3: SchematicComponent|
                                pre.contains(c3) implies part_numbers@.contains(c3) by {
                                let w = choose|w: int| 0 <= w < pre.len() && pre[w] == c3;
                                assert(part_numbers@[w] == c3);
                            }
                        }
                    }
                    t += 1;
                }
                proof {
                    assert forall|a: int, t2: int, c: SchematicComponent|
                        0 <= a < k + 1 && (#[trigger] cs[a]).component is Symbol && 0 <= t2
                            < probe_list(cs[a].x as int, cs[a].y as int).len()
                            && #[trigger] comp_found(
                            cs,
                            probe_list(cs[a].x as int, cs[a].y as int)[t2].0,
                            probe_list(cs[a].x as int, cs[a].y as int)[t2].1,
                            c,
                        ) implies part_numbers@.contains(c) by {
                        if a < k {
                            assert(old_pn.contains(c));
                            let w = choose|w: int| 0 <= w < old_pn.len() && old_pn[w] == c;
                            assert(part_numbers@.contains(c));
                        } else {
                            assert(found@.contains(c));
                            let u = choose|u: int| 0 <= u < found@.len() && found@[u] == c;
                            assert(part_numbers@.contains(found@[u]));
                        }
                    }
                }
            } else {
                proof {
                    assert forall|a: int, t2: int, c: SchematicComponent|
                        0 <= a < k + 1 && (#[trigger] cs[a]).component is Symbol && 0 <= t2
                            < probe_list(cs[a].x as int, cs[a].y as int).len()
                            && #[trigger] comp_found(
                            cs,
                            probe_list(cs[a].x as int, cs[a].y as int)[t2].0,
                            probe_list(cs[a].x as int, cs[a].y as int)[t2].1,
                            c,
                        ) implies part_numbers@.contains(c) by {
                        assert(a < k);
                    }
                }
            }
            k += 1;
        }
        part_numbers
    }

    /// Sums the part numbers that touch a symbol: `None` when the sum
    /// leaves the machine range or a symbol itself was picked up.
    pub fn get_part_numbers_sum(&self) -> (r: Option<usize>)
        requires
            forall|k: int|
                0 <= k < self.components.components@.len() ==> (
                #[trigger] self.components.components@[k]).x < usize::MAX
                    && self.components.components@[k].y < usize::MAX,
        ensures
            r matches Some(v) ==> exists|ps: Seq<SchematicComponent>|
                #![trigger parts_sum(ps)]
                {
                    &&& (forall|a: int, b: int|
                        0 <= a < b < ps.len() ==> #[trigger] ps[a] != #[trigger] ps[b])
                    &&& (forall|a: int| 0 <= a < ps.len() ==> (#[trigger] ps[a]).component
                        is Part)
                    &&& v as int == parts_sum(ps)
                },
    {
        let part_numbers = self.get_part_numbers();
        let ghost ps = part_numbers@;
        let mut sum: u128 = 0;
        let mut k: usize = 0;
        while k < part_numbers.len()
            invariant
                0 <= k <= ps.len(),
                ps == part_numbers@,
                sum as int == parts_sum(ps.take(k as int)),
                forall|a: int| 0 <= a < k ==> (#[trigger] ps[a]).component is Part,
                sum <= 0xffff_ffff_ffff_ffff_ffff_ffff_ffff_ffffu128 - 0xffff_ffff_ffff_ffffu128,
            decreases ps.len() - k,
        {
            proof {
                assert(ps.take(k as int + 1).drop_last() =~= ps.take(k as int));
                assert(ps.take(k as int + 1).last() == ps[k as int]);
            }
            match part_numbers[k].component {
                ComponentType::Part(n) => {
                    if sum > 0xffff_ffff_ffff_ffff_ffff_ffff_ffff_fffeu128
                        - 0xffff_ffff_ffff_ffffu128 - (n as u128) {
                        return None;
                    }
                    sum = sum + (n as u128);
                },
                ComponentType::Symbol(_) => {
                    return None;
                },
            }
            k += 1;
        }
        proof {
            assert(ps.take(ps.len() as int) =~= ps);
        }
        if sum <= usize::MAX as u128 {
            let v = sum as usize;
            proof {
                assert(v as int == parts_sum(ps));
            }
            Some(v)
        } else {
            None
        }
    }
}

/// The part values of a component list, added up.
pub open spec fn parts_sum(ps: Seq<SchematicComponent>) -> int
    decreases ps.len(),
{
    if ps.len() == 0 {
        0
    } else {
        parts_sum(ps.drop_last()) + match ps.last().component {
            ComponentType::Part(n) => n as int,
            ComponentType::Symbol(_) => 0,
        }
    }
}

proof fn lemma_digits_drop_first_le(s: Seq<char>)
    requires
        text::all_digits(s),
        s.len() > 0,
    ensures
        text::digits_val(s.drop_first()) <= text::digits_val(s),
    decreases s.len(),
{
    if s.len() == 1 {
        text::lemma_digits_val_nonneg(s);
        assert(s.drop_first().len() == 0);
    } else {
        let dl = s.drop_last();
        assert(text::all_digits(dl));
        lemma_digits_drop_first_le(dl);
        assert(s.drop_first().drop_last() =~= dl.drop_first());
        assert(text::digits_val(s.drop_first()) == text::digits_val(dl.drop_first()) * 10
            + text::digit_val(s.last()));
    }
}

proof fn lemma_digits_skip_le(s: Seq<char>, a: int)
    requires
        text::all_digits(s),
        0 <= a <= s.len(),
    ensures
        text::digits_val(s.skip(a)) <= text::digits_val(s),
    decreases a,
{
    if a == 0 {
        assert(s.skip(0) =~= s);
    } else {
        lemma_digits_skip_le(s, a - 1);
        assert(s.skip(a - 1).len() > 0);
        assert(text::all_digits(s.skip(a - 1)));
        lemma_digits_drop_first_le(s.skip(a - 1));
        assert(s.skip(a - 1).drop_first() =~= s.skip(a));
    }
}

proof fn lemma_digit_end_same(line: Seq<char>, x: int, e: int)
    requires
        0 <= x <= e <= line.len(),
        forall|j: int| x <= j < e ==> text::is_digit(#[trigger] line[j]),
        e < line.len() ==> !text::is_digit(line[e]),
    ensures
        digit_end(line, x) == e,
    decreases e - x,
{
    if x < e {
        lemma_digit_end_same(line, x + 1, e);
    }
}

fn comps_eq(a: &SchematicComponent, b: &SchematicComponent) -> (r: bool)
    ensures
        r == (*a == *b),
{
    let ta = match a.component {
        ComponentType::Part(n) => (true, n, ' '),
        ComponentType::Symbol(c) => (false, 0usize, c),
    };
    let tb = match b.component {
        ComponentType::Part(n) => (true, n, ' '),
        ComponentType::Symbol(c) => (false, 0usize, c),
    };
    a.x == b.x && a.y == b.y && ta.0 == tb.0 && ta.1 == tb.1 && ta.2 == tb.2
}

fn contains_comp(v: &Vec<SchematicComponent>, c: &SchematicComponent) -> (r: bool)
    ensures
        r == v@.contains(*c),
{
    let mut i: usize = 0;
    while i < v.len()
        invariant
            0 <= i <= v@.len(),
            forall|j: int| 0 <= j < i ==> #[trigger] v@[j] != *c,
        decreases v@.len() - i,
    {
        if comps_eq(&v[i], c) {
            return true;
        }
        i += 1;
    }
    proof {
        if v@.contains(*c) {
            let w = choose|w: int| 0 <= w < v@.len() && v@[w] == *c;
            assert(false);
        }
    }
    false
}

} // verus!
