//! The seed almanac: inclusive value ranges pushed through layered
//! remapping rules; each rule moves one source interval by a fixed
//! offset, and unmatched stretches pass through unchanged.

use vstd::prelude::*;
use vstd::string::StringExecFns;
use crate::text;

verus! {

#[derive(Eq, PartialEq, Debug, Clone, Copy)]
pub struct Range {
    pub start: i64,
    pub end: i64,
}

#[derive(PartialEq, Eq, Debug, Clone, Copy)]
pub struct AlmanacMap<S, D> {
    pub source_start: S,
    pub destination_start: D,
    pub range_length: i64,
}

pub enum AlmanacMapType {
    SeedSoil,
    SoilFertilizer,
    FertilizerWater,
    WaterLight,
    LightTemperature,
    TemperatureHumidity,
    HumidityLocation,
}

pub struct Almanac {
    pub seeds: Vec<Range>,
    pub seed_soil: Vec<AlmanacMap<i64, i64>>,
    pub soil_fertilizer: Vec<AlmanacMap<i64, i64>>,
    pub fertilizer_water: Vec<AlmanacMap<i64, i64>>,
    pub water_light: Vec<AlmanacMap<i64, i64>>,
    pub light_temperature: Vec<AlmanacMap<i64, i64>>,
    pub temperature_humidity: Vec<AlmanacMap<i64, i64>>,
    pub humidity_location: Vec<AlmanacMap<i64, i64>>,
}

/// Values small enough that the splitting arithmetic stays inside i64.
pub open spec fn small(v: int) -> bool {
    -0x1000_0000_0000_0000 <= v <= 0x1000_0000_0000_0000
}

pub open spec fn small_range(r: Range) -> bool {
    small(r.start as int) && small(r.end as int)
}

pub open spec fn small_rule(m: AlmanacMap<i64, i64>) -> bool {
    small(m.source_start as int) && small(m.destination_start as int) && small(
        m.range_length as int,
    )
}

/// One rule applied to the still unmapped stretch: what it cuts away is
/// emitted, and the rest stays for the following rules.
pub open spec fn apply_rule(curr: (int, int), rule: AlmanacMap<i64, i64>) -> (
    (int, int),
    Seq<(int, int)>,
) {
    let src = rule.source_start as int;
    let dst = rule.destination_start as int;
    let len = rule.range_length as int;
    let offset = dst - src;
    let applies = curr.0 <= curr.1 && curr.0 <= src + len && curr.1 >= src;
    if !applies {
        (curr, Seq::empty())
    } else if curr.0 < src {
        if curr.1 < src + len {
            ((curr.1 + 1, curr.1), seq![(curr.0, src - 1), (src + offset, curr.1 + offset)])
        } else {
            ((src + len, curr.1), seq![(curr.0, src - 1), (src + offset, src + len - 1 + offset)])
        }
    } else if curr.1 < src + len {
        ((curr.1 + 1, curr.1), seq![(curr.0 + offset, curr.1 + offset)])
    } else {
        ((src + len, curr.1), seq![(curr.0 + offset, src + len - 1 + offset)])
    }
}

/// The rules folded over one source range.
pub open spec fn fold_rules(curr: (int, int), rules: Seq<AlmanacMap<i64, i64>>) -> (
    (int, int),
    Seq<(int, int)>,
)
    decreases rules.len(),
{
    if rules.len() == 0 {
        (curr, Seq::empty())
    } else {
        let prev = fold_rules(curr, rules.drop_last());
        let step = apply_rule(prev.0, rules.last());
        (step.0, prev.1 + step.1)
    }
}

/// What one source range becomes: the pieces the rules moved, then the
/// unmapped rest if any is left.
pub open spec fn map_range(curr: (int, int), rules: Seq<AlmanacMap<i64, i64>>) -> Seq<(int, int)> {
    let folded = fold_rules(curr, rules);
    folded.1 + (if folded.0.0 <= folded.0.1 {
        seq![folded.0]
    } else {
        Seq::<(int, int)>::empty()
    })
}

/// Every source range mapped, in order.
pub open spec fn map_all(sources: Seq<Range>, rules: Seq<AlmanacMap<i64, i64>>) -> Seq<(int, int)>
    decreases sources.len(),
{
    if sources.len() == 0 {
        Seq::empty()
    } else {
        map_all(sources.drop_last(), rules) + map_range(
            (sources.last().start as int, sources.last().end as int),
            rules,
        )
    }
}

pub open spec fn ranges_int(v: Seq<Range>) -> Seq<(int, int)> {
    Seq::new(v.len(), |k: int| (v[k].start as int, v[k].end as int))
}

impl Almanac {
    pub open spec fn spec_map_of(self, t: AlmanacMapType) -> Seq<AlmanacMap<i64, i64>> {
        match t {
            AlmanacMapType::SeedSoil => self.seed_soil@,
            AlmanacMapType::SoilFertilizer => self.soil_fertilizer@,
            AlmanacMapType::FertilizerWater => self.fertilizer_water@,
            AlmanacMapType::WaterLight => self.water_light@,
            AlmanacMapType::LightTemperature => self.light_temperature@,
            AlmanacMapType::TemperatureHumidity => self.temperature_humidity@,
            AlmanacMapType::HumidityLocation => self.humidity_location@,
        }
    }

    /// Pushes the source ranges through one remapping layer.
    #[verifier::loop_isolation(false)]
    pub fn traverse_almanac_map(
        &self,
        sources: Vec<Range>,
        almanac_map_type: AlmanacMapType,
    ) -> (r: Vec<Range>)
        requires
            forall|k: int| 0 <= k < sources@.len() ==> small_range(#[trigger] sources@[k]),
            forall|t: AlmanacMapType, k: int|
                0 <= k < self.spec_map_of(t).len() ==> small_rule(#[trigger] self.spec_map_of(t)[k]),
        ensures
            ranges_int(r@) == map_all(sources@, self.spec_map_of(almanac_map_type)),
    {
        let almanac_map = match almanac_map_type {
            AlmanacMapType::SeedSoil => &self.seed_soil,
            AlmanacMapType::SoilFertilizer => &self.soil_fertilizer,
            AlmanacMapType::FertilizerWater => &self.fertilizer_water,
            AlmanacMapType::WaterLight => &self.water_light,
            AlmanacMapType::LightTemperature => &self.light_temperature,
            AlmanacMapType::TemperatureHumidity => &self.temperature_humidity,
            AlmanacMapType::HumidityLocation => &self.humidity_location,
        };
        let ghost rules = self.spec_map_of(almanac_map_type);
        proof {
            assert(almanac_map@ == rules);
            assert(forall|k: int| 0 <= k < rules.len() ==> small_rule(#[trigger] rules[k]));
        }
        let mut new_ranges: Vec<Range> = Vec::new();
        let mut s: usize = 0;
        while s < sources.len()
            invariant
                0 <= s <= sources@.len(),
                almanac_map@ == rules,
                ranges_int(new_ranges@) =~~= map_all(sources@.take(s as int), rules),
            decreases sources@.len() - s,
        {
            proof {
                assert(sources@.take(s as int + 1).drop_last() =~= sources@.take(s as int));
                assert(sources@.take(s as int + 1).last() == sources@[s as int]);
            }
            let range = sources[s];
            let mut curr = range;
            let ghost base = ranges_int(new_ranges@);
            let mut k: usize = 0;
            while k < almanac_map.len()
                invariant
                    0 <= k <= rules.len(),
                    almanac_map@ == rules,
                    small_range(sources@[s as int]),
                    s < sources@.len(),
                    ({
                        let folded = fold_rules(
                            (sources@[s as int].start as int, sources@[s as int].end as int),
                            rules.take(k as int),
                        );
                        &&& (curr.start as int, curr.end as int) == folded.0
                        &&& ranges_int(new_ranges@) =~~= base + folded.1
                    }),
                    curr.end == sources@[s as int].end,
                    -0x2000_0000_0000_0000 <= curr.start as int <= 0x2000_0000_0000_0001,
                decreases rules.len() - k,
            {
                proof {
                    assert(rules.take(k as int + 1).drop_last() =~= rules.take(k as int));
                    assert(rules.take(k as int + 1).last() == rules[k as int]);
                    assert(small_rule(rules[k as int]));
                }
                let rule = &almanac_map[k];
                let offset = rule.destination_start - rule.source_start;
                let rule_applies = curr.start <= curr.end && curr.start <= rule.source_start
                    + rule.range_length && curr.end >= rule.source_start;
                let ghost pre_out = ranges_int(new_ranges@);
                let ghost step = apply_rule(
                    (curr.start as int, curr.end as int),
                    rules[k as int],
                );
                if rule_applies {
                    if curr.start < rule.source_start {
                        new_ranges.push(Range { start: curr.start, end: rule.source_start - 1 });
                        curr.start = rule.source_start;
                        if curr.end < rule.source_start + rule.range_length {
                            new_ranges.push(
                                Range { start: curr.start + offset, end: curr.end + offset },
                            );
                            curr.start = curr.end + 1;
                        } else {
                            new_ranges.push(
                                Range {
                                    start: curr.start + offset,
                                    end: rule.source_start + rule.range_length - 1 + offset,
                                },
                            );
                            curr.start = rule.source_start + rule.range_length;
                        }
                        proof {
                            assert(ranges_int(new_ranges@) =~~= pre_out + step.1);
                        }
                    } else if curr.end < rule.source_start + rule.range_length {
                        new_ranges.push(
                            Range { start: curr.start + offset, end: curr.end + offset },
                        );
                        curr.start = curr.end + 1;
                        proof {
                            assert(ranges_int(new_ranges@) =~~= pre_out + step.1);
                        }
                    } else {
                        new_ranges.push(
                            Range {
                                start: curr.start + offset,
                                end: rule.source_start + rule.range_length - 1 + offset,
                            },
                        );
                        curr.start = rule.source_start + rule.range_length;
                        proof {
                            assert(ranges_int(new_ranges@) =~~= pre_out + step.1);
                        }
                    }
                } else {
                    proof {
                        assert(ranges_int(new_ranges@) =~~= pre_out + step.1);
                    }
                }
                proof {
                    let folded = fold_rules(
                        (sources@[s as int].start as int, sources@[s as int].end as int),
                        rules.take(k as int + 1),
                    );
                    assert((curr.start as int, curr.end as int) == folded.0);
                    assert(ranges_int(new_ranges@) =~~= base + folded.1);
                }
                k += 1;
            }
            proof {
                assert(rules.take(rules.len() as int) =~= rules);
            }
            let ghost before_tail = ranges_int(new_ranges@);
            if curr.start <= curr.end {
                new_ranges.push(curr);
                proof {
                    assert(ranges_int(new_ranges@) =~~= before_tail.push(
                        (curr.start as int, curr.end as int),
                    ));
                }
            }
            proof {
                assert(ranges_int(new_ranges@) =~~= base + map_range(
                    (sources@[s as int].start as int, sources@[s as int].end as int),
                    rules,
                ));
                assert(ranges_int(new_ranges@) =~~= map_all(sources@.take(s as int + 1), rules));
            }
            s += 1;
        }
        proof {
            assert(sources@.take(sources@.len() as int) =~= sources@);
        }
        new_ranges
    }
}


/// The data lines of one section: blank lines are skipped until the
/// header has been seen, the header line itself is skipped, and the
/// first blank after the header ends the section.
pub open spec fn sec_lines(ls: Seq<Seq<char>>, from: int, header: Seq<char>, found: bool) -> Seq<
    Seq<char>,
>
    decreases ls.len() - from,
{
    if from < 0 || from >= ls.len() {
        Seq::empty()
    } else if ls[from].len() == 0 {
        if found {
            Seq::empty()
        } else {
            sec_lines(ls, from + 1, header, found)
        }
    } else if text::spec_starts_with(ls[from], header) {
        sec_lines(ls, from + 1, header, true)
    } else {
        seq![ls[from]] + sec_lines(ls, from + 1, header, found)
    }
}

/// Where the scan stands once the section ended.
pub open spec fn sec_end(ls: Seq<Seq<char>>, from: int, header: Seq<char>, found: bool) -> int
    decreases ls.len() - from,
{
    if from < 0 || from >= ls.len() {
        ls.len() as int
    } else if ls[from].len() == 0 && found {
        from + 1
    } else if text::spec_starts_with(ls[from], header) {
        sec_end(ls, from + 1, header, true)
    } else {
        sec_end(ls, from + 1, header, found)
    }
}

/// A well-formed rule line: its first three fields are machine-sized
/// numbers, destination start first.
pub open spec fn rule_ok(line: Seq<char>) -> bool {
    let fs = text::spec_fields(line);
    &&& fs.len() >= 3
    &&& text::valid_i64(fs[0]) && small(text::i64_val(fs[0]))
    &&& text::valid_i64(fs[1]) && small(text::i64_val(fs[1]))
    &&& text::valid_i64(fs[2]) && small(text::i64_val(fs[2]))
}

pub open spec fn spec_rule_of(line: Seq<char>) -> AlmanacMap<i64, i64> {
    let fs = text::spec_fields(line);
    AlmanacMap {
        destination_start: text::i64_val(fs[0]) as i64,
        source_start: text::i64_val(fs[1]) as i64,
        range_length: text::i64_val(fs[2]) as i64,
    }
}

pub open spec fn rules_of(lines: Seq<Seq<char>>) -> Seq<AlmanacMap<i64, i64>> {
    Seq::new(lines.len(), |k: int| spec_rule_of(lines[k]))
}

/// Reads the data lines of one section into rules and reports where the
/// scan stops; `None` when a data line is not a rule.
fn parse_section(lines: &Vec<Vec<char>>, cursor: usize, header: &str) -> (r: Option<
    (Vec<AlmanacMap<i64, i64>>, usize),
>)
    requires
        cursor <= lines@.len(),
        header@.len() > 0,
    ensures
        r matches Some(p) ==> {
            &&& p.0@ == rules_of(sec_lines(lines.deep_view(), cursor as int, header@, false))
            &&& p.1 as int == sec_end(lines.deep_view(), cursor as int, header@, false)
            &&& cursor <= p.1 <= lines@.len()
            &&& forall|k: int|
                0 <= k < sec_lines(lines.deep_view(), cursor as int, header@, false).len()
                    ==> rule_ok(
                    #[trigger] sec_lines(lines.deep_view(), cursor as int, header@, false)[k],
                )
        },
{
    let ghost ls = lines.deep_view();
    let ghost whole = sec_lines(ls, cursor as int, header@, false);
    let mut out: Vec<AlmanacMap<i64, i64>> = Vec::new();
    let mut cur: usize = cursor;
    let mut found: bool = false;
    loop
        invariant_except_break
            cursor <= cur <= ls.len(),
            out@.len() <= whole.len(),
            sec_lines(ls, cur as int, header@, found) =~~= whole.skip(out@.len() as int),
            forall|k: int| 0 <= k < out@.len() ==> #[trigger] out@[k] == spec_rule_of(whole[k]),
            forall|k: int| 0 <= k < out@.len() ==> rule_ok(#[trigger] whole[k]),
            sec_end(ls, cursor as int, header@, false) == sec_end(ls, cur as int, header@, found),
        invariant
            ls == lines.deep_view(),
            lines@.len() == ls.len(),
            header@.len() > 0,
            whole == sec_lines(ls, cursor as int, header@, false),
        ensures
            out@ == rules_of(whole),
            cur as int == sec_end(ls, cursor as int, header@, false),
            cursor <= cur <= ls.len(),
            forall|k: int| 0 <= k < whole.len() ==> rule_ok(#[trigger] whole[k]),
        decreases ls.len() - cur,
    {
        if cur >= lines.len() {
            proof {
                assert(sec_lines(ls, cur as int, header@, found) == Seq::<Seq<char>>::empty());
                assert(out@.len() == whole.len());
                lemma_rules_complete(out@, whole);
            }
            break;
        }
        proof {
            assert(lines@[cur as int]@ == ls[cur as int]);
        }
        let line = &lines[cur];
        if line.len() == 0 {
            if found {
                cur = cur + 1;
                proof {
                    assert(out@.len() == whole.len());
                    lemma_rules_complete(out@, whole);
                    assert(sec_end(ls, cur as int - 1, header@, true) == cur as int);
                }
                break;
            }
            cur = cur + 1;
            proof {
                assert(sec_lines(ls, cur as int - 1, header@, found) == sec_lines(
                    ls,
                    cur as int,
                    header@,
                    found,
                ));
                assert(sec_end(ls, cur as int - 1, header@, found) == sec_end(
                    ls,
                    cur as int,
                    header@,
                    found,
                ));
            }
        } else if text::starts_with(line, header) {
            found = true;
            cur = cur + 1;
            proof {
                assert(sec_lines(ls, cur as int - 1, header@, false) == sec_lines(
                    ls,
                    cur as int,
                    header@,
                    true,
                ));
                assert(sec_lines(ls, cur as int - 1, header@, true) == sec_lines(
                    ls,
                    cur as int,
                    header@,
                    true,
                ));
                assert(sec_end(ls, cur as int - 1, header@, false) == sec_end(
                    ls,
                    cur as int,
                    header@,
                    true,
                ));
                assert(sec_end(ls, cur as int - 1, header@, true) == sec_end(
                    ls,
                    cur as int,
                    header@,
                    true,
                ));
            }
        } else {
            let fs = text::fields_of(line);
            let ghost fspec = text::spec_fields(ls[cur as int]);
            if fs.len() < 3 {
                return None;
            }
            proof {
                assert(fs[0int]@ == fspec[0]);
                assert(fs[1int]@ == fspec[1]);
                assert(fs[2int]@ == fspec[2]);
            }
            let d = match text::parse_i64(&fs[0]) {
                Some(v) => v,
                None => {
                    return None;
                },
            };
            let src = match text::parse_i64(&fs[1]) {
                Some(v) => v,
                None => {
                    return None;
                },
            };
            let len = match text::parse_i64(&fs[2]) {
                Some(v) => v,
                None => {
                    return None;
                },
            };
            if d < -0x1000_0000_0000_0000 || d > 0x1000_0000_0000_0000 || src
                < -0x1000_0000_0000_0000 || src > 0x1000_0000_0000_0000 || len
                < -0x1000_0000_0000_0000 || len > 0x1000_0000_0000_0000 {
                return None;
            }
            let rule = AlmanacMap { destination_start: d, source_start: src, range_length: len };
            proof {
                assert(rule == spec_rule_of(ls[cur as int]));
                assert(rule_ok(ls[cur as int]));
                assert(sec_lines(ls, cur as int, header@, found) =~~= seq![ls[cur as int]]
                    + sec_lines(ls, cur as int + 1, header@, found));
                assert(whole.skip(out@.len() as int)[0] == ls[cur as int]);
                assert(whole[out@.len() as int] == ls[cur as int]);
                assert(whole.skip(out@.len() as int).drop_first() =~= whole.skip(
                    out@.len() as int + 1,
                ));
                assert((seq![ls[cur as int]] + sec_lines(
                    ls,
                    cur as int + 1,
                    header@,
                    found,
                )).drop_first() =~= sec_lines(ls, cur as int + 1, header@, found));
                assert(sec_lines(ls, cur as int + 1, header@, found) =~~= whole.skip(
                    out@.len() as int + 1,
                ));
                assert(sec_end(ls, cur as int, header@, found) == sec_end(
                    ls,
                    cur as int + 1,
                    header@,
                    found,
                ));
            }
            out.push(rule);
            cur = cur + 1;
        }
    }
    Some((out, cur))
}

proof fn lemma_rules_complete(out: Seq<AlmanacMap<i64, i64>>, whole: Seq<Seq<char>>)
    requires
        out.len() == whole.len(),
        forall|k: int| 0 <= k < out.len() ==> #[trigger] out[k] == spec_rule_of(whole[k]),
    ensures
        out =~= rules_of(whole),
{
}


/// The first non-blank line at or after `from`, or the length.
pub open spec fn nonblank_at(ls: Seq<Seq<char>>, from: int) -> int
    decreases ls.len() - from,
{
    if from < 0 || from >= ls.len() {
        ls.len() as int
    } else if ls[from].len() == 0 {
        nonblank_at(ls, from + 1)
    } else {
        from
    }
}

/// The seed values: the first non-blank line, its `seeds:` prefix
/// dropped when present, read as numbers.
pub open spec fn seeds_text(line: Seq<char>) -> Seq<char> {
    if text::spec_starts_with(line, "seeds:"@) {
        line.skip("seeds:"@.len() as int)
    } else {
        line
    }
}

pub open spec fn seeds_ok(line: Seq<char>) -> bool {
    let fs = text::spec_fields(seeds_text(line));
    &&& fs.len() % 2 == 0
    &&& forall|k: int|
        0 <= k < fs.len() ==> text::valid_i64(#[trigger] fs[k]) && small(text::i64_val(fs[k]))
}

/// Consecutive value pairs as inclusive ranges: a start and a length.
pub open spec fn spec_seed_pairs(line: Seq<char>) -> Seq<(int, int)> {
    let fs = text::spec_fields(seeds_text(line));
    Seq::new((fs.len() / 2) as nat, |k: int| (text::i64_val(fs[2 * k]), text::i64_val(fs[2 * k]) + text::i64_val(fs[2 * k + 1]) - 1))
}

impl Almanac {
    /// Reads the whole almanac: the seed pairs, then the seven rule
    /// sections in order, each sorted by its source start.
    #[verifier::loop_isolation(false)]
    pub fn from_reader(input: &str) -> (r: Result<Almanac, String>)
        ensures
            r matches Ok(a) ==> ({
                let ls = text::spec_lines(input@);
                let si = nonblank_at(ls, 0);
                let c1 = sec_end(ls, si + 1, "seed-to-soil map:"@, false);
                let c2 = sec_end(ls, c1, "soil-to-fertilizer map:"@, false);
                let c3 = sec_end(ls, c2, "fertilizer-to-water map:"@, false);
                let c4 = sec_end(ls, c3, "water-to-light map:"@, false);
                let c5 = sec_end(ls, c4, "light-to-temperature map:"@, false);
                let c6 = sec_end(ls, c5, "temperature-to-humidity map:"@, false);
                &&& si < ls.len()
                &&& seeds_ok(ls[si])
                &&& ranges_int(a.seeds@) == spec_seed_pairs(ls[si])
                &&& a.seed_soil@ == rules_of(sec_lines(ls, si + 1, "seed-to-soil map:"@, false))
                &&& a.soil_fertilizer@ == rules_of(sec_lines(ls, c1, "soil-to-fertilizer map:"@, false))
                &&& a.fertilizer_water@ == rules_of(sec_lines(ls, c2, "fertilizer-to-water map:"@, false))
                &&& a.water_light@ == rules_of(sec_lines(ls, c3, "water-to-light map:"@, false))
                &&& a.light_temperature@ == rules_of(sec_lines(ls, c4, "light-to-temperature map:"@, false))
                &&& a.temperature_humidity@ == rules_of(
                    sec_lines(ls, c5, "temperature-to-humidity map:"@, false),
                )
                &&& a.humidity_location@ == rules_of(sec_lines(ls, c6, "humidity-to-location map:"@, false))
            }),
    {
        proof {
            reveal_strlit("seeds:");
            reveal_strlit("seed-to-soil map:");
            reveal_strlit("soil-to-fertilizer map:");
            reveal_strlit("fertilizer-to-water map:");
            reveal_strlit("water-to-light map:");
            reveal_strlit("light-to-temperature map:");
            reveal_strlit("temperature-to-humidity map:");
            reveal_strlit("humidity-to-location map:");
        }
        let cs = text::chars_of(input);
        let lines = text::lines_of(&cs);
        let ghost ls = text::spec_lines(input@);
        let mut si: usize = 0;
        while si < lines.len() && lines[si].len() == 0
            invariant
                0 <= si <= ls.len(),
                nonblank_at(ls, 0) == nonblank_at(ls, si as int),
            decreases ls.len() - si,
        {
            si += 1;
        }
        if si >= lines.len() {
            return Err(String::from_str("Failed to read seeds line"));
        }
        proof {
            assert(lines@[si as int]@ == ls[si as int]);
            assert(nonblank_at(ls, si as int) == si as int);
        }
        let seeds_line = &lines[si];
        let has_prefix = text::starts_with(seeds_line, "seeds:");
        let mut stext: Vec<char> = Vec::new();
        let start_at: usize = if has_prefix {
            6
        } else {
            0
        };
        let mut t: usize = start_at;
        while t < seeds_line.len()
            invariant
                start_at <= t <= seeds_line@.len(),
                stext@ =~= seeds_line@.subrange(start_at as int, t as int),
            decreases seeds_line@.len() - t,
        {
            stext.push(seeds_line[t]);
            t += 1;
        }
        proof {
            assert("seeds:"@.len() == 6);
            assert(stext@ =~= seeds_text(ls[si as int]));
        }
        let fs = text::fields_of(&stext);
        let ghost fspec = text::spec_fields(seeds_text(ls[si as int]));
        if fs.len() % 2 != 0 {
            return Err(String::from_str("Odd number of seed values"));
        }
        let mut seeds: Vec<Range> = Vec::new();
        let mut k: usize = 0;
        while k + 1 < fs.len() || (k < fs.len() && k + 1 == fs.len())
            invariant
                0 <= k <= fspec.len(),
                k % 2 == 0,
                fs.deep_view() == fspec,
                fs.len() == fspec.len(),
                fspec.len() % 2 == 0,
                forall|u: int|
                    0 <= u < k ==> text::valid_i64(#[trigger] fspec[u]) && small(
                        text::i64_val(fspec[u]),
                    ),
                seeds@.len() == k / 2,
                forall|u: int|
                    0 <= u < k / 2 ==> (#[trigger] seeds@[u]).start as int == text::i64_val(
                        fspec[2 * u],
                    ) && seeds@[u].end as int == text::i64_val(fspec[2 * u]) + text::i64_val(
                        fspec[2 * u + 1],
                    ) - 1,
            decreases fspec.len() - k,
        {
            proof {
                assert(fs[k as int]@ == fspec[k as int]);
                assert(fs[k as int + 1]@ == fspec[k as int + 1]);
            }
            let v0 = match text::parse_i64(&fs[k]) {
                Some(v) => v,
                None => {
                    return Err(String::from_str("Failed to parse seed"));
                },
            };
            let v1 = match text::parse_i64(&fs[k + 1]) {
                Some(v) => v,
                None => {
                    return Err(String::from_str("Failed to parse seed"));
                },
            };
            if v0 < -0x1000_0000_0000_0000 || v0 > 0x1000_0000_0000_0000 || v1
                < -0x1000_0000_0000_0000 || v1 > 0x1000_0000_0000_0000 {
                return Err(String::from_str("Seed value out of range"));
            }
            seeds.push(Range { start: v0, end: v0 + v1 - 1 });
            k += 2;
        }
        let mut cursor: usize = si + 1;
        let (seed_soil, c1) = match parse_section(&lines, cursor, "seed-to-soil map:") {
            Some(p) => p,
            None => {
                return Err(String::from_str("Failed to parse soil"));
            },
        };
        let (soil_fertilizer, c2) = match parse_section(
            &lines,
            c1,
            "soil-to-fertilizer map:",
        ) {
            Some(p) => p,
            None => {
                return Err(String::from_str("Failed to parse fertilizer"));
            },
        };
        let (fertilizer_water, c3) = match parse_section(
            &lines,
            c2,
            "fertilizer-to-water map:",
        ) {
            Some(p) => p,
            None => {
                return Err(String::from_str("Failed to parse water"));
            },
        };
        let (water_light, c4) = match parse_section(&lines, c3, "water-to-light map:") {
            Some(p) => p,
            None => {
                return Err(String::from_str("Failed to parse light"));
            },
        };
        let (light_temperature, c5) = match parse_section(
            &lines,
            c4,
            "light-to-temperature map:",
        ) {
            Some(p) => p,
            None => {
                return Err(String::from_str("Failed to parse temperature"));
            },
        };
        let (temperature_humidity, c6) = match parse_section(
            &lines,
            c5,
            "temperature-to-humidity map:",
        ) {
            Some(p) => p,
            None => {
                return Err(String::from_str("Failed to parse humidity"));
            },
        };
        let (humidity_location, _c7) = match parse_section(
            &lines,
            c6,
            "humidity-to-location map:",
        ) {
            Some(p) => p,
            None => {
                return Err(String::from_str("Failed to parse location"));
            },
        };
        proof {
            assert(ranges_int(seeds@) =~~= spec_seed_pairs(ls[si as int]));
            assert(seeds_ok(ls[si as int]));
        }
        Ok(
            Almanac {
                seeds,
                seed_soil,
                soil_fertilizer,
                fertilizer_water,
                water_light,
                light_temperature,
                temperature_humidity,
                humidity_location,
            },
        )
    }
}

} // verus!
