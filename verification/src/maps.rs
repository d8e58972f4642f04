//! A network of three-letter locations, each pointing left and right,
//! walked under a repeating direction list until an end location is
//! reached; ghost walks combine their cycle lengths by least common
//! multiple.

use vstd::prelude::*;
use crate::text;

verus! {

#[derive(Debug, PartialEq, Eq, Clone, Copy)]
pub enum Direction {
    L,
    R,
}

pub type Location = [char; 3];

pub type Route = (Location, Location);

/// The key list of a node table, as character triples.
pub open spec fn keys_of(entries: Seq<(Location, Route)>) -> Seq<Seq<char>> {
    Seq::new(entries.len(), |k: int| entries[k].0@)
}

/// First entry with this key, or the length when there is none.
pub open spec fn key_pos(entries: Seq<(Location, Route)>, key: Seq<char>) -> int
    decreases entries.len(),
{
    if entries.len() == 0 {
        0
    } else if entries[0].0@ == key {
        0
    } else {
        1 + key_pos(entries.drop_first(), key)
    }
}

pub proof fn lemma_key_pos_nonneg(entries: Seq<(Location, Route)>, key: Seq<char>)
    ensures
        key_pos(entries, key) >= 0,
    decreases entries.len(),
{
    if entries.len() > 0 && entries[0].0@ != key {
        lemma_key_pos_nonneg(entries.drop_first(), key);
    }
}

pub proof fn lemma_key_pos(entries: Seq<(Location, Route)>, key: Seq<char>, i: int)
    requires
        0 <= i <= entries.len(),
        forall|j: int| 0 <= j < i ==> (#[trigger] entries[j]).0@ != key,
        i < entries.len() ==> entries[i].0@ == key,
    ensures
        key_pos(entries, key) == i,
    decreases i,
{
    if entries.len() == 0 {
    } else if i == 0 {
    } else {
        assert(forall|j: int|
            0 <= j < i - 1 ==> #[trigger] entries.drop_first()[j] == entries[j + 1]);
        lemma_key_pos(entries.drop_first(), key, i - 1);
    }
}

/// A list of nodes with unique keys, looked up by location name.
pub struct NodeTable {
    pub entries: Vec<(Location, Route)>,
}

impl NodeTable {
    pub open spec fn wf(self) -> bool {
        forall|i: int, j: int|
            0 <= i < j < self.entries@.len() ==> (#[trigger] self.entries@[i]).0@ != (
            #[trigger] self.entries@[j]).0@
    }

    pub open spec fn spec_contains(self, key: Seq<char>) -> bool {
        key_pos(self.entries@, key) < self.entries@.len()
    }

    pub open spec fn spec_route(self, key: Seq<char>) -> Route {
        self.entries@[key_pos(self.entries@, key)].1
    }

    pub fn new() -> (r: NodeTable)
        ensures
            r.entries@ == Seq::<(Location, Route)>::empty(),
            r.wf(),
    {
        NodeTable { entries: Vec::new() }
    }

    pub fn len(&self) -> (r: usize)
        ensures
            r == self.entries@.len(),
    {
        self.entries.len()
    }

    fn eq_loc(a: &Location, b: &Location) -> (r: bool)
        ensures
            r == (a@ == b@),
    {
        broadcast use vstd::array::group_array_axioms;

        if a[0] == b[0] && a[1] == b[1] && a[2] == b[2] {
            proof {
                assert(a@ =~= b@);
            }
            true
        } else {
            false
        }
    }

    /// The routes out of `key`, if the node is known.
    pub fn get(&self, key: &Location) -> (r: Option<&Route>)
        ensures
            match r {
                Some(route) => self.spec_contains(key@) && *route == self.spec_route(key@),
                None => !self.spec_contains(key@),
            },
    {
        let mut i: usize = 0;
        while i < self.entries.len()
            invariant
                0 <= i <= self.entries@.len(),
                forall|j: int| 0 <= j < i ==> (#[trigger] self.entries@[j]).0@ != key@,
            decreases self.entries@.len() - i,
        {
            if Self::eq_loc(&self.entries[i].0, key) {
                proof {
                    lemma_key_pos(self.entries@, key@, i as int);
                }
                return Some(&self.entries[i].1);
            }
            i += 1;
        }
        proof {
            lemma_key_pos(self.entries@, key@, self.entries@.len() as int);
        }
        None
    }

    /// Stores a route, replacing the routes of an already known key.
    #[verifier::loop_isolation(false)]
    pub fn set(&mut self, key: Location, route: Route)
        requires
            old(self).wf(),
        ensures
            final(self).wf(),
            final(self).entries@ == spec_set(old(self).entries@, key, route),
    {
        let ghost pre = old(self).entries@;
        proof {
            lemma_key_pos_nonneg(pre, key@);
            assert(self.entries@ == pre);
        }
        let mut i: usize = 0;
        while i < self.entries.len()
            invariant
                0 <= i <= self.entries@.len(),
                self.entries@ == pre,
                forall|j: int| 0 <= j < i ==> (#[trigger] pre[j]).0@ != key@,
            decreases self.entries@.len() - i,
        {
            if Self::eq_loc(&self.entries[i].0, &key) {
                proof {
                    lemma_key_pos(pre, key@, i as int);
                }
                let old_entry = self.entries.remove(i);
                self.entries.insert(i, (old_entry.0, route));
                proof {
                    assert(self.entries@ =~= pre.update(i as int, (pre[i as int].0, route)));
                    assert(self.entries@ == spec_set(pre, key, route));
                    assert(forall|t: int|
                        0 <= t < self.entries@.len() ==> (#[trigger] self.entries@[t]).0@
                            == pre[t].0@);
                    assert forall|a: int, b: int|
                        0 <= a < b < self.entries@.len() implies (
                        #[trigger] self.entries@[a]).0@ != (#[trigger] self.entries@[b]).0@ by {
                        assert(old(self).wf());
                        assert((old(self).entries@[a]).0@ != (old(self).entries@[b]).0@);
                        assert(self.entries@[a].0@ == pre[a].0@);
                        assert(self.entries@[b].0@ == pre[b].0@);
                    }
                }
                return ;
            }
            i += 1;
        }
        proof {
            lemma_key_pos(pre, key@, pre.len() as int);
        }
        self.entries.push((key, route));
    }

    /// Stores a route under a fresh key.
    pub fn insert(&mut self, key: Location, route: Route)
        requires
            old(self).wf(),
            !old(self).spec_contains(key@),
        ensures
            final(self).wf(),
            final(self).entries@ == old(self).entries@.push((key, route)),
    {
        proof {
            lemma_key_pos_found(self.entries@, key@);
        }
        self.entries.push((key, route));
    }
}

proof fn lemma_key_pos_found(entries: Seq<(Location, Route)>, key: Seq<char>)
    requires
        key_pos(entries, key) >= entries.len(),
    ensures
        forall|j: int| 0 <= j < entries.len() ==> (#[trigger] entries[j]).0@ != key,
    decreases entries.len(),
{
    if entries.len() > 0 {
        if entries[0].0@ == key {
            assert(key_pos(entries, key) == 0);
            assert(false);
        } else {
            lemma_key_pos_found(entries.drop_first(), key);
            assert forall|j: int| 0 <= j < entries.len() implies (#[trigger] entries[j]).0@
                != key by {
                if j >= 1 {
                    assert(entries.drop_first()[j - 1] == entries[j]);
                }
            }
        }
    }
}

/// Left-to-right order on location names.
pub open spec fn loc_le(a: Location, b: Location) -> bool {
    if a@[0] != b@[0] {
        a@[0] <= b@[0]
    } else if a@[1] != b@[1] {
        a@[1] <= b@[1]
    } else {
        a@[2] <= b@[2]
    }
}

pub open spec fn sorted_locs(v: Seq<Location>) -> bool {
    forall|i: int, j: int| 0 <= i < j < v.len() ==> loc_le(#[trigger] v[i], #[trigger] v[j])
}

fn loc_le_exec(a: &Location, b: &Location) -> (r: bool)
    ensures
        r == loc_le(*a, *b),
{
    if a[0] != b[0] {
        a[0] <= b[0]
    } else if a[1] != b[1] {
        a[1] <= b[1]
    } else {
        a[2] <= b[2]
    }
}

/// Selection sort on location names, earliest minimal first.
#[verifier::loop_isolation(false)]
fn sort_locs(locs: &mut Vec<Location>)
    ensures
        sorted_locs(final(locs)@),
        final(locs)@.to_multiset() == old(locs)@.to_multiset(),
        loc_views(final(locs)@).to_multiset() == loc_views(old(locs)@).to_multiset(),
{
    broadcast use vstd::seq_lib::group_to_multiset_ensures;

    let mut src: Vec<Location> = Vec::new();
    let mut out: Vec<Location> = Vec::new();
    let mut t: usize = 0;
    while t < locs.len()
        invariant
            0 <= t <= locs@.len(),
            locs@ == old(locs)@,
            src@ =~= locs@.take(t as int),
        decreases locs@.len() - t,
    {
        src.push(locs[t]);
        t += 1;
    }
    proof {
        assert(src@ =~= old(locs)@);
    }
    let ghost orig = src@;
    while src.len() > 0
        invariant
            sorted_locs(out@),
            forall|i: int, j: int|
                0 <= i < out@.len() && 0 <= j < src@.len() ==> loc_le(
                    #[trigger] out@[i],
                    #[trigger] src@[j],
                ),
            out@.to_multiset().add(src@.to_multiset()) == orig.to_multiset(),
            loc_views(out@).to_multiset().add(loc_views(src@).to_multiset()) == loc_views(
                orig,
            ).to_multiset(),
        decreases src.len(),
    {
        let mut m: usize = 0;
        let mut i: usize = 1;
        while i < src.len()
            invariant
                0 <= m < i <= src@.len(),
                m < src@.len(),
                forall|j: int| 0 <= j < i ==> loc_le(src@[m as int], #[trigger] src@[j]),
            decreases src@.len() - i,
        {
            let smaller = loc_le_exec(&src[i], &src[m]);
            let also_ge = loc_le_exec(&src[m], &src[i]);
            if smaller && !also_ge {
                m = i;
            }
            i += 1;
        }
        let ghost pre = src@;
        let x = src.remove(m);
        let ghost preout = out@;
        out.push(x);
        proof {
            assert(pre.remove(m as int).to_multiset() =~= pre.to_multiset().remove(
                pre[m as int],
            ));
            assert(preout.push(x).to_multiset() =~= preout.to_multiset().insert(x));
            assert(out@.to_multiset().add(src@.to_multiset()) =~= orig.to_multiset());
            assert(loc_views(src@) =~~= loc_views(pre).remove(m as int));
            assert(loc_views(pre).remove(m as int).to_multiset() =~= loc_views(
                pre,
            ).to_multiset().remove(loc_views(pre)[m as int]));
            assert(loc_views(out@) =~~= loc_views(preout).push(x@));
            assert(loc_views(preout).push(x@).to_multiset() =~= loc_views(
                preout,
            ).to_multiset().insert(x@));
            assert(loc_views(out@).to_multiset().add(loc_views(src@).to_multiset()) =~= loc_views(
                orig,
            ).to_multiset());
            assert forall|i2: int, j2: int|
                0 <= i2 < j2 < out@.len() implies loc_le(#[trigger] out@[i2], #[trigger] out@[j2]) by {
                if j2 < out@.len() - 1 {
                    assert(loc_le(preout[i2], preout[j2]));
                } else {
                    assert(out@[j2] == pre[m as int]);
                    assert(loc_le(preout[i2], pre[m as int]));
                }
            }
            assert forall|i2: int, j2: int|
                0 <= i2 < out@.len() && 0 <= j2 < src@.len() implies loc_le(
                #[trigger] out@[i2],
                #[trigger] src@[j2],
            ) by {
                let oj = if j2 < m as int {
                    j2
                } else {
                    j2 + 1
                };
                assert(src@[j2] == pre[oj]);
                if i2 < preout.len() {
                    assert(loc_le(preout[i2], pre[oj]));
                } else {
                    assert(out@[i2] == pre[m as int]);
                    assert(loc_le(pre[m as int], pre[oj]));
                }
            }
        }
    }
    *locs = out;
}

/// The direction network, with its repeating direction list and the
/// names that ghost walks start and end at.
pub struct RouteMap {
    pub directions: Vec<Direction>,
    pub nodes: NodeTable,
    pub start_nodes: Vec<Location>,
    pub end_nodes: Vec<Location>,
}

/// The direction used at a position: the list repeats from the front
/// once the position runs past its end.
pub open spec fn norm(dlen: int, pos: int) -> int {
    if pos >= dlen {
        0
    } else {
        pos
    }
}

/// Every route target is itself a known node.
pub open spec fn closed_map(m: RouteMap) -> bool {
    forall|k: int|
        0 <= k < m.nodes.entries@.len() ==> m.nodes.spec_contains(
            (#[trigger] m.nodes.entries@[k]).1.0@,
        ) && m.nodes.spec_contains(m.nodes.entries@[k].1.1@)
}

pub open spec fn is_target(loc: Seq<char>, end_z_only: bool) -> bool {
    if end_z_only {
        loc.len() == 3 && loc[2] == 'Z'
    } else {
        loc == seq!['Z', 'Z', 'Z']
    }
}

/// Where one step from `loc` at direction position `pos` lands.
pub open spec fn next_loc(m: RouteMap, loc: Seq<char>, pos: int) -> Seq<char> {
    let p = norm(m.directions@.len() as int, pos);
    match m.directions@[p] {
        Direction::L => m.nodes.spec_route(loc).0@,
        Direction::R => m.nodes.spec_route(loc).1@,
    }
}

/// The walk from `loc` first reaches a target after exactly `k` steps.
pub open spec fn hits(m: RouteMap, loc: Seq<char>, pos: int, end_z_only: bool, k: int) -> bool
    decreases k,
{
    if k <= 0 {
        false
    } else {
        let p = norm(m.directions@.len() as int, pos);
        let l2 = next_loc(m, loc, pos);
        if k == 1 {
            is_target(l2, end_z_only)
        } else {
            !is_target(l2, end_z_only) && hits(m, l2, p + 1, end_z_only, k - 1)
        }
    }
}

/// A walk reaches a target after exactly one number of steps.
pub proof fn lemma_hits_unique(
    m: RouteMap,
    loc: Seq<char>,
    pos: int,
    end_z_only: bool,
    k1: int,
    k2: int,
)
    requires
        hits(m, loc, pos, end_z_only, k1),
        hits(m, loc, pos, end_z_only, k2),
    ensures
        k1 == k2,
    decreases k1,
{
    if k1 > 1 && k2 > 1 {
        let p = norm(m.directions@.len() as int, pos);
        lemma_hits_unique(m, next_loc(m, loc, pos), p + 1, end_z_only, k1 - 1, k2 - 1);
    }
}

fn target_reached(loc: &Location, end_z_only: bool) -> (r: bool)
    ensures
        r == is_target(loc@, end_z_only),
{
    broadcast use vstd::array::group_array_axioms;

    if end_z_only {
        loc[2] == 'Z'
    } else {
        let hit = loc[0] == 'Z' && loc[1] == 'Z' && loc[2] == 'Z';
        proof {
            if hit {
                assert(loc@ =~= seq!['Z', 'Z', 'Z']);
            } else {
                assert(loc@ != seq!['Z', 'Z', 'Z']) by {
                    if loc@ == seq!['Z', 'Z', 'Z'] {
                        assert(loc@[0] == 'Z' && loc@[1] == 'Z' && loc@[2] == 'Z');
                    }
                }
            }
        }
        hit
    }
}

impl RouteMap {
    pub fn new() -> (r: RouteMap)
        ensures
            r.directions@ == Seq::<Direction>::empty(),
            r.nodes.entries@ == Seq::<(Location, Route)>::empty(),
            r.nodes.wf(),
            r.start_nodes@ == Seq::<Location>::empty(),
            r.end_nodes@ == Seq::<Location>::empty(),
    {
        RouteMap {
            directions: Vec::new(),
            nodes: NodeTable::new(),
            start_nodes: Vec::new(),
            end_nodes: Vec::new(),
        }
    }

    /// Steps through the network from `next`, following the repeating
    /// directions, until a target is reached; the walk must terminate.
    pub fn follow_route(&self, next: Location, route_position: usize, end_z_only: bool) -> (r: u64)
        requires
            self.nodes.wf(),
            closed_map(*self),
            self.directions@.len() > 0,
            self.nodes.spec_contains(next@),
            exists|k: int|
                0 < k <= u64::MAX && hits(*self, next@, route_position as int, end_z_only, k),
        ensures
            hits(*self, next@, route_position as int, end_z_only, r as int),
    {
        let ghost k0 = choose|k: int|
            0 < k <= u64::MAX && hits(*self, next@, route_position as int, end_z_only, k);
        let mut step: u64 = 1;
        let mut cur = next;
        let mut pos = route_position;
        let ghost mut budget: int = k0;
        loop
            invariant_except_break
                1 <= budget,
                budget <= u64::MAX,
                hits(*self, cur@, pos as int, end_z_only, budget),
                step as int + budget == 1 + k0,
                self.nodes.spec_contains(cur@),
            invariant
                self.nodes.wf(),
                closed_map(*self),
                self.directions@.len() > 0,
                0 < k0 <= u64::MAX,
                hits(*self, next@, route_position as int, end_z_only, k0),
            ensures
                hits(*self, next@, route_position as int, end_z_only, step as int),
            decreases budget,
        {
            let route = match self.nodes.get(&cur) {
                Some(r) => *r,
                None => {
                    proof {
                        assert(false);
                    }
                    (cur, cur)
                },
            };
            pos = if pos >= self.directions.len() {
                0
            } else {
                pos
            };
            let ghost prev = cur@;
            let ghost prev_pos = pos as int;
            let d = self.directions[pos];
            cur = match d {
                Direction::L => route.0,
                Direction::R => route.1,
            };
            proof {
                assert(cur@ == next_loc(*self, prev, prev_pos));
                assert(self.nodes.spec_contains(prev));
                lemma_key_pos_nonneg(self.nodes.entries@, prev);
                let kp = key_pos(self.nodes.entries@, prev);
                assert(0 <= kp < self.nodes.entries@.len());
                assert(route == self.nodes.entries@[kp].1);
                assert(self.nodes.spec_contains(self.nodes.entries@[kp].1.0@));
                assert(self.nodes.spec_contains(self.nodes.entries@[kp].1.1@));
                assert(self.nodes.spec_contains(cur@));
            }
            if target_reached(&cur, end_z_only) {
                proof {
                    assert(budget == 1);
                    assert(step as int == k0);
                }
                break;
            } else {
                proof {
                    assert(budget > 1);
                    budget = budget - 1;
                }
                pos = pos + 1;
                step = step + 1;
            }
        }
        step
    }

    /// The number of steps each ghost walk takes from its start.
    pub open spec fn steps_of(self, loc: Seq<char>) -> int {
        choose|k: int| hits(self, loc, 0, true, k)
    }

    pub open spec fn spec_counts(self) -> Seq<int> {
        Seq::new(self.start_nodes@.len(), |i: int| self.steps_of(self.start_nodes@[i]@))
    }

    /// Walks every start node as a ghost and combines the step counts
    /// by least common multiple, left to right.
    #[verifier::loop_isolation(false)]
    pub fn follow_route_ghost(&self) -> (r: u64)
        requires
            self.nodes.wf(),
            closed_map(*self),
            self.directions@.len() > 0,
            self.start_nodes@.len() > 0,
            forall|i: int|
                0 <= i < self.start_nodes@.len() ==> self.nodes.spec_contains(
                    (#[trigger] self.start_nodes@[i])@,
                ),
            forall|i: int|
                0 <= i < self.start_nodes@.len() ==> exists|k: int|
                    0 < k <= u64::MAX && hits(
                        *self,
                        (#[trigger] self.start_nodes@[i])@,
                        0,
                        true,
                        k,
                    ),
            forall|t: int|
                1 <= t < self.start_nodes@.len() ==> lcm_ok(
                    fold_lcm(#[trigger] self.spec_counts().take(t)),
                    self.spec_counts()[t],
                ),
        ensures
            r as int == fold_lcm(self.spec_counts()),
    {
        let ghost counts = self.spec_counts();
        let first = self.follow_route(self.start_nodes[0], 0, true);
        proof {
            lemma_hits_unique(
                *self,
                self.start_nodes@[0]@,
                0,
                true,
                first as int,
                self.steps_of(self.start_nodes@[0]@),
            );
            assert(counts.take(1) =~= seq![counts[0]]);
        }
        let mut acc: u64 = first;
        let mut i: usize = 1;
        while i < self.start_nodes.len()
            invariant
                1 <= i <= self.start_nodes@.len(),
                acc as int == fold_lcm(counts.take(i as int)),
            decreases self.start_nodes@.len() - i,
        {
            let ci = self.follow_route(self.start_nodes[i], 0, true);
            proof {
                lemma_hits_unique(
                    *self,
                    self.start_nodes@[i as int]@,
                    0,
                    true,
                    ci as int,
                    self.steps_of(self.start_nodes@[i as int]@),
                );
                assert(counts.take(i as int + 1).drop_last() =~= counts.take(i as int));
                assert(counts.take(i as int + 1).last() == counts[i as int]);
                lemma_hits_positive(*self, self.start_nodes@[i as int]@, 0, true, ci as int);
                assert(lcm_ok(fold_lcm(counts.take(i as int)), counts[i as int]));
                lemma_gcd_bounds(acc as int, ci as int);
            }
            acc = lcm(acc, ci);
            i += 1;
        }
        proof {
            assert(counts.take(counts.len() as int) =~= counts);
        }
        acc
    }
}

/// A step count is always positive.
pub proof fn lemma_hits_positive(m: RouteMap, loc: Seq<char>, pos: int, endz: bool, k: int)
    requires
        hits(m, loc, pos, endz, k),
    ensures
        k >= 1,
{
}

/// The least common multiple as the walk combiner computes it.
pub open spec fn spec_lcm(a: int, b: int) -> int {
    a / spec_gcd(a, b) * b
}

/// The combination of one more count stays within the machine.
pub open spec fn lcm_ok(a: int, b: int) -> bool {
    &&& a >= 1
    &&& b >= 1
    &&& spec_lcm(a, b) <= u64::MAX
}

/// Left-to-right fold of the least common multiple.
pub open spec fn fold_lcm(counts: Seq<int>) -> int
    decreases counts.len(),
{
    if counts.len() == 0 {
        0
    } else if counts.len() == 1 {
        counts[0]
    } else {
        spec_lcm(fold_lcm(counts.drop_last()), counts.last())
    }
}

/// What storing a route does to the entry list.
pub open spec fn spec_set(entries: Seq<(Location, Route)>, key: Location, route: Route) -> Seq<
    (Location, Route),
> {
    let kp = key_pos(entries, key@);
    if kp < entries.len() {
        entries.update(kp, (entries[kp].0, route))
    } else {
        entries.push((key, route))
    }
}

/// The entry list as plain character sequences.
pub open spec fn abs_entries(entries: Seq<(Location, Route)>) -> Seq<
    (Seq<char>, (Seq<char>, Seq<char>)),
> {
    Seq::new(entries.len(), |k: int| (entries[k].0@, (entries[k].1.0@, entries[k].1.1@)))
}

/// Why the network text was rejected.
#[derive(Debug, PartialEq, Eq, Clone, Copy)]
pub enum ParseError {
    /// No direction line at all.
    EmptyFile,
    /// A direction other than `L` or `R`.
    InvalidCharacter,
    /// A node line too short for `XXX = (YYY, ZZZ)`.
    BadNodeLine,
}

pub open spec fn dir_line_ok(s: Seq<char>) -> bool {
    forall|i: int| 0 <= i < s.len() ==> (#[trigger] s[i] == 'L' || s[i] == 'R')
}

pub open spec fn spec_dirs(s: Seq<char>) -> Seq<Direction> {
    Seq::new(s.len(), |i: int| if s[i] == 'L' {
        Direction::L
    } else {
        Direction::R
    })
}

pub open spec fn node_line_ok(s: Seq<char>) -> bool {
    s.len() >= 15
}

pub open spec fn name_of(s: Seq<char>) -> Seq<char> {
    s.subrange(0, 3)
}

pub open spec fn left_of(s: Seq<char>) -> Seq<char> {
    s.subrange(7, 10)
}

pub open spec fn right_of(s: Seq<char>) -> Seq<char> {
    s.subrange(12, 15)
}

/// The names ending in `c` among the node lines below `upto`.
pub open spec fn collect_ends(ls: Seq<Seq<char>>, upto: int, c: char) -> Seq<Seq<char>>
    decreases upto,
{
    if upto <= 2 {
        Seq::empty()
    } else {
        collect_ends(ls, upto - 1, c) + (if name_of(ls[upto - 1])[2] == c {
            seq![name_of(ls[upto - 1])]
        } else {
            Seq::<Seq<char>>::empty()
        })
    }
}

/// The views of an array list.
pub open spec fn loc_views(v: Seq<Location>) -> Seq<Seq<char>> {
    Seq::new(v.len(), |k: int| v[k]@)
}

impl RouteMap {
    /// Reads the direction line, skips the blank line, and stores one
    /// node per remaining line; later lines overwrite equal names.
    /// Start and end names are collected and sorted.
    #[verifier::loop_isolation(false)]
    pub fn parse_map(&mut self, input: &str) -> (r: Result<(), ParseError>)
        requires
            old(self).nodes.wf(),
        ensures
            r is Ok <==> ({
                let ls = text::spec_lines(input@);
                &&& ls.len() >= 1
                &&& dir_line_ok(ls[0])
                &&& forall|k: int| 2 <= k < ls.len() ==> node_line_ok(#[trigger] ls[k])
            }),
            r is Ok ==> ({
                let ls = text::spec_lines(input@);
                &&& final(self).directions@ == spec_dirs(ls[0])
                &&& final(self).nodes.wf()
                &&& abs_entries(final(self).nodes.entries@) == spec_built(
                    old(self).nodes.entries@,
                    ls,
                    ls.len() as int,
                )
                &&& sorted_locs(final(self).start_nodes@)
                &&& loc_views(final(self).start_nodes@).to_multiset() == (loc_views(
                    old(self).start_nodes@,
                ) + collect_ends(ls, ls.len() as int, 'A')).to_multiset()
                &&& sorted_locs(final(self).end_nodes@)
                &&& loc_views(final(self).end_nodes@).to_multiset() == (loc_views(
                    old(self).end_nodes@,
                ) + collect_ends(ls, ls.len() as int, 'Z')).to_multiset()
            }),
    {
        broadcast use vstd::array::group_array_axioms, vstd::seq_lib::group_to_multiset_ensures;

        let cs = text::chars_of(input);
        let lines = text::lines_of(&cs);
        let ghost ls = text::spec_lines(input@);
        if lines.len() == 0 {
            return Err(ParseError::EmptyFile);
        }
        let mut directions: Vec<Direction> = Vec::new();
        let first = &lines[0];
        proof {
            assert(first@ == ls[0]);
        }
        let mut i: usize = 0;
        while i < first.len()
            invariant
                0 <= i <= first@.len(),
                first@ == ls[0],
                forall|j: int| 0 <= j < i ==> (#[trigger] ls[0][j] == 'L' || ls[0][j] == 'R'),
                directions@ =~= spec_dirs(ls[0].take(i as int)),
            decreases first@.len() - i,
        {
            let c = first[i];
            if c == 'L' {
                directions.push(Direction::L);
            } else if c == 'R' {
                directions.push(Direction::R);
            } else {
                return Err(ParseError::InvalidCharacter);
            }
            proof {
                assert(directions@ =~= spec_dirs(ls[0].take(i as int + 1)));
            }
            i += 1;
        }
        proof {
            assert(ls[0].take(ls[0].len() as int) =~= ls[0]);
            assert(directions@ =~= spec_dirs(ls[0]));
        }
        self.directions = directions;
        let mut k: usize = 2;
        let ghost base = self.nodes.entries@;
        while k < lines.len()
            invariant
                2 <= k <= ls.len() || (ls.len() < 2 && k == 2),
                lines.deep_view() == ls,
                lines@.len() == ls.len(),
                self.nodes.wf(),
                self.directions@ == spec_dirs(ls[0]),
                forall|t: int| 2 <= t < k ==> node_line_ok(#[trigger] ls[t]),
                abs_entries(self.nodes.entries@) =~~= spec_built(base, ls, k as int),
                loc_views(self.start_nodes@) =~~= loc_views(old(self).start_nodes@)
                    + collect_ends(ls, k as int, 'A'),
                loc_views(self.end_nodes@) =~~= loc_views(old(self).end_nodes@) + collect_ends(
                    ls,
                    k as int,
                    'Z',
                ),
            decreases ls.len() - k,
        {
            proof {
                assert(lines[k as int]@ == ls[k as int]);
            }
            let line = &lines[k];
            if line.len() < 15 {
                return Err(ParseError::BadNodeLine);
            }
            let name: Location = [line[0], line[1], line[2]];
            let left: Location = [line[7], line[8], line[9]];
            let right: Location = [line[12], line[13], line[14]];
            proof {
                assert(name@ =~= name_of(ls[k as int]));
                assert(left@ =~= left_of(ls[k as int]));
                assert(right@ =~= right_of(ls[k as int]));
            }
            if name[2] == 'A' {
                let ghost pre = loc_views(self.start_nodes@);
                self.start_nodes.push(name);
                proof {
                    assert(loc_views(self.start_nodes@) =~~= pre.push(name@));
                }
            } else if name[2] == 'Z' {
                let ghost pre = loc_views(self.end_nodes@);
                self.end_nodes.push(name);
                proof {
                    assert(loc_views(self.end_nodes@) =~~= pre.push(name@));
                }
            }
            let ghost pre_entries = self.nodes.entries@;
            self.nodes.set(name, (left, right));
            proof {
                lemma_abs_set(pre_entries, name, (left, right));
                assert(abs_entries(self.nodes.entries@) =~~= spec_built(
                    base,
                    ls,
                    k as int + 1,
                ));
                assert(collect_ends(ls, k as int + 1, 'A') == collect_ends(ls, k as int, 'A')
                    + (if name_of(ls[k as int])[2] == 'A' {
                    seq![name_of(ls[k as int])]
                } else {
                    Seq::<Seq<char>>::empty()
                }));
                assert(collect_ends(ls, k as int + 1, 'Z') == collect_ends(ls, k as int, 'Z')
                    + (if name_of(ls[k as int])[2] == 'Z' {
                    seq![name_of(ls[k as int])]
                } else {
                    Seq::<Seq<char>>::empty()
                }));
                assert(loc_views(self.start_nodes@) =~~= loc_views(old(self).start_nodes@)
                    + collect_ends(ls, k as int + 1, 'A'));
                assert(loc_views(self.end_nodes@) =~~= loc_views(old(self).end_nodes@)
                    + collect_ends(ls, k as int + 1, 'Z'));
            }
            k += 1;
        }
        proof {
            if ls.len() < 2 {
                assert(collect_ends(ls, ls.len() as int, 'A') == Seq::<Seq<char>>::empty());
                assert(collect_ends(ls, ls.len() as int, 'Z') == Seq::<Seq<char>>::empty());
                assert(loc_views(self.start_nodes@) =~~= loc_views(old(self).start_nodes@)
                    + collect_ends(ls, ls.len() as int, 'A'));
                assert(loc_views(self.end_nodes@) =~~= loc_views(old(self).end_nodes@)
                    + collect_ends(ls, ls.len() as int, 'Z'));
                assert(abs_entries(self.nodes.entries@) =~~= spec_built(
                    base,
                    ls,
                    ls.len() as int,
                ));
            }
        }
        proof {
            assert(loc_views(self.start_nodes@) == loc_views(old(self).start_nodes@)
                + collect_ends(ls, ls.len() as int, 'A'));
            assert(loc_views(self.end_nodes@) == loc_views(old(self).end_nodes@)
                + collect_ends(ls, ls.len() as int, 'Z'));
        }
        sort_locs(&mut self.start_nodes);
        sort_locs(&mut self.end_nodes);
        proof {
            assert(loc_views(self.start_nodes@).to_multiset() == (loc_views(
                old(self).start_nodes@,
            ) + collect_ends(ls, ls.len() as int, 'A')).to_multiset());
            assert(loc_views(self.end_nodes@).to_multiset() == (loc_views(old(self).end_nodes@)
                + collect_ends(ls, ls.len() as int, 'Z')).to_multiset());
        }
        Ok(())
    }
}

/// The entry list after storing every node line below `upto`.
pub open spec fn spec_built(base: Seq<(Location, Route)>, ls: Seq<Seq<char>>, upto: int) -> Seq<
    (Seq<char>, (Seq<char>, Seq<char>)),
>
    decreases upto,
{
    if upto <= 2 {
        abs_entries(base)
    } else {
        abs_set(
            spec_built(base, ls, upto - 1),
            name_of(ls[upto - 1]),
            (left_of(ls[upto - 1]), right_of(ls[upto - 1])),
        )
    }
}

/// Storing on the abstract entry list.
pub open spec fn abs_key_pos(entries: Seq<(Seq<char>, (Seq<char>, Seq<char>))>, key: Seq<char>) -> int
    decreases entries.len(),
{
    if entries.len() == 0 {
        0
    } else if entries[0].0 == key {
        0
    } else {
        1 + abs_key_pos(entries.drop_first(), key)
    }
}

pub open spec fn abs_set(
    entries: Seq<(Seq<char>, (Seq<char>, Seq<char>))>,
    key: Seq<char>,
    route: (Seq<char>, Seq<char>),
) -> Seq<(Seq<char>, (Seq<char>, Seq<char>))> {
    let kp = abs_key_pos(entries, key);
    if kp < entries.len() {
        entries.update(kp, (entries[kp].0, route))
    } else {
        entries.push((key, route))
    }
}

/// The concrete store and the abstract store agree through the views.
pub proof fn lemma_abs_set(entries: Seq<(Location, Route)>, key: Location, route: Route)
    ensures
        abs_entries(spec_set(entries, key, route)) =~~= abs_set(
            abs_entries(entries),
            key@,
            (route.0@, route.1@),
        ),
{
    lemma_abs_key_pos(entries, key@);
    lemma_key_pos_nonneg(entries, key@);
}

pub proof fn lemma_abs_key_pos(entries: Seq<(Location, Route)>, key: Seq<char>)
    ensures
        abs_key_pos(abs_entries(entries), key) == key_pos(entries, key),
    decreases entries.len(),
{
    if entries.len() > 0 {
        if entries[0].0@ == key {
        } else {
            lemma_abs_key_pos(entries.drop_first(), key);
            assert(abs_entries(entries).drop_first() =~~= abs_entries(entries.drop_first()));
        }
    }
}

/// The Euclidean greatest common divisor.
pub open spec fn spec_gcd(a: int, b: int) -> int
    decreases b,
    via spec_gcd_decreases
{
    if b <= 0 {
        a
    } else {
        spec_gcd(b, a % b)
    }
}

#[via_fn]
proof fn spec_gcd_decreases(a: int, b: int) {
    if b > 0 {
        assert(0 <= a % b < b);
    }
}

pub fn gcd(a: u64, b: u64) -> (r: u64)
    ensures
        r as int == spec_gcd(a as int, b as int),
    decreases b,
{
    if b == 0 {
        a
    } else {
        gcd(b, a % b)
    }
}

/// The least common multiple, as the original computes it:
/// `a / gcd(a, b) * b`.
pub fn lcm(a: u64, b: u64) -> (r: u64)
    requires
        a > 0 || b > 0,
        (a as int / spec_gcd(a as int, b as int)) * (b as int) <= u64::MAX,
    ensures
        r as int == (a as int / spec_gcd(a as int, b as int)) * (b as int),
{
    proof {
        lemma_gcd_bounds(a as int, b as int);
    }
    let g = gcd(a, b);
    proof {
        assert((a / g) as int == a as int / g as int);
        assert(0 <= (a as int / spec_gcd(a as int, b as int)) * (b as int))
            by (nonlinear_arith)
            requires
                a as int / spec_gcd(a as int, b as int) >= 0,
                b as int >= 0,
        ;
    }
    a / g * b
}

/// The Euclidean recursion stays positive and bounded when it starts
/// from a positive pair.
pub proof fn lemma_gcd_bounds(a: int, b: int)
    requires
        a >= 0,
        b >= 0,
        a > 0 || b > 0,
    ensures
        spec_gcd(a, b) > 0,
        spec_gcd(a, b) <= (if b > 0 {
            b
        } else {
            a
        }),
    decreases b,
{
    if b > 0 {
        assert(0 <= a % b < b);
        if a % b == 0 {
            assert(spec_gcd(a, b) == spec_gcd(b, 0));
        } else {
            lemma_gcd_bounds(b, a % b);
        }
    }
}

} // verus!
