//! The seed almanac: maps made of ranges that send each category number to
//! the next category, from seed to location.
use vstd::prelude::*;
use crate::text::{chars_of, split_on, split, parse_u64, is_u64_decimal, decimal_value, split_groups, split_on_empty, group_views, line_views};

verus! {

/// One range of a map: `range` numbers from `source` on go to `destination`
/// on.
pub struct MapEntry {
    pub destination: u64,
    pub source: u64,
    pub range: u64,
}

/// The seeds and the seven maps of an almanac.
pub struct Almanac {
    pub seeds: Vec<u64>,
    pub seed_to_soil: Vec<MapEntry>,
    pub soil_to_fertilizer: Vec<MapEntry>,
    pub fertilizer_to_water: Vec<MapEntry>,
    pub water_to_light: Vec<MapEntry>,
    pub light_to_temperature: Vec<MapEntry>,
    pub temperature_to_humidity: Vec<MapEntry>,
    pub humidity_to_location: Vec<MapEntry>,
}

/// The numbers of a seeds line `seeds: <n> <n> ...`: the text after its first
/// colon and the space that follows it, split at single spaces.
pub open spec fn seed_fields(line: Seq<char>) -> Seq<Seq<char>> {
    split_on(split_on(line, ':')[1].drop_first(), ' ')
}

pub open spec fn seeds_line_ok(line: Seq<char>) -> bool {
    &&& split_on(line, ':').len() >= 2
    &&& split_on(line, ':')[1].len() > 0
    &&& split_on(line, ':')[1][0] == ' '
    &&& forall|i: int| 0 <= i < seed_fields(line).len() ==> #[trigger] field_ok(seed_fields(line), i)
}

pub open spec fn field_ok(fields: Seq<Seq<char>>, i: int) -> bool {
    is_u64_decimal(fields[i])
}

pub open spec fn numbers(fields: Seq<Seq<char>>) -> Seq<nat> {
    fields.map_values(|f: Seq<char>| decimal_value(f))
}

/// Reads every piece of `fields` as a number; `None` when one is not.
fn parse_all(fields: &Vec<Vec<char>>, ghost_fields: Ghost<Seq<Seq<char>>>) -> (r: Option<Vec<u64>>)
    requires
        fields@.len() == ghost_fields@.len(),
        forall|t: int| 0 <= t < fields@.len() ==> #[trigger] fields@[t]@ == ghost_fields@[t],
    ensures
        r is Some <==> forall|i: int| 0 <= i < ghost_fields@.len() ==> #[trigger] field_ok(ghost_fields@, i),
        r matches Some(v) ==> v@.map_values(|x: u64| x as nat) == numbers(ghost_fields@),
{
    let ghost fs = ghost_fields@;
    let mut out: Vec<u64> = Vec::new();
    let mut i: usize = 0;
    while i < fields.len()
        invariant
            fs == ghost_fields@,
            fields@.len() == fs.len(),
            forall|t: int| 0 <= t < fields@.len() ==> #[trigger] fields@[t]@ == fs[t],
            i <= fields@.len(),
            out@.len() == i,
            forall|t: int| 0 <= t < i ==> #[trigger] field_ok(fs, t),
            forall|t: int| 0 <= t < i ==> out@[t] == decimal_value(#[trigger] fs[t]),
        decreases fields@.len() - i,
    {
        assert(fields@[i as int]@ == fs[i as int]);
        match parse_u64(&fields[i]) {
            Some(v) => {
                out.push(v);
            },
            None => {
                assert(!field_ok(fs, i as int));
                return None;
            },
        }
        assert(field_ok(fs, i as int));
        i += 1;
    }
    assert(out@.map_values(|x: u64| x as nat) =~= numbers(fs));
    Some(out)
}

/// Reads the seeds line; `None` when it is malformed.
pub fn get_seeds(line: &str) -> (r: Option<Vec<u64>>)
    ensures
        r is Some <==> seeds_line_ok(line@),
        r matches Some(v) ==> v@.map_values(|x: u64| x as nat) == numbers(seed_fields(line@)),
{
    let cs = chars_of(line);
    let halves = split(&cs, ':');
    if halves.len() < 2 {
        return None;
    }
    let rest = &halves[1];
    assert(rest@ == split_on(line@, ':')[1]);
    if rest.len() == 0 || rest[0] != ' ' {
        return None;
    }
    let mut tail: Vec<char> = Vec::new();
    let mut k: usize = 1;
    while k < rest.len()
        invariant
            1 <= k <= rest@.len(),
            tail@ == rest@.subrange(1, k as int),
        decreases rest@.len() - k,
    {
        tail.push(rest[k]);
        k += 1;
        assert(tail@ =~= rest@.subrange(1, k as int));
    }
    assert(tail@ =~= rest@.drop_first());
    let fields = split(&tail, ' ');
    parse_all(&fields, Ghost(seed_fields(line@)))
}

pub open spec fn entry_view(e: MapEntry) -> (nat, nat, nat) {
    (e.destination as nat, e.source as nat, e.range as nat)
}

/// A map line `<destination> <source> <range>`.
pub open spec fn entry_line_ok(line: Seq<char>) -> bool {
    &&& split_on(line, ' ').len() >= 3
    &&& is_u64_decimal(split_on(line, ' ')[0])
    &&& is_u64_decimal(split_on(line, ' ')[1])
    &&& is_u64_decimal(split_on(line, ' ')[2])
}

pub open spec fn entry_of(line: Seq<char>) -> (nat, nat, nat) {
    (
        decimal_value(split_on(line, ' ')[0]),
        decimal_value(split_on(line, ' ')[1]),
        decimal_value(split_on(line, ' ')[2]),
    )
}

/// Reads one map line; `None` when it is malformed.
pub fn get_map_entrie(line: &str) -> (r: Option<MapEntry>)
    ensures
        r is Some <==> entry_line_ok(line@),
        r matches Some(e) ==> entry_view(e) == entry_of(line@),
{
    let parts = split(&chars_of(line), ' ');
    if parts.len() < 3 {
        return None;
    }
    let destination = match parse_u64(&parts[0]) {
        Some(v) => v,
        None => {
            return None;
        },
    };
    let source = match parse_u64(&parts[1]) {
        Some(v) => v,
        None => {
            return None;
        },
    };
    let range = match parse_u64(&parts[2]) {
        Some(v) => v,
        None => {
            return None;
        },
    };
    Some(MapEntry { destination, source, range })
}

/// The destination range of every entry fits in a `u64`.
pub open spec fn map_ok(map: Seq<MapEntry>) -> bool {
    forall|k: int| 0 <= k < map.len() ==> #[trigger] map[k].destination + map[k].range <= u64::MAX
}

/// Where `source` goes after the first `k` entries: an entry whose range
/// `source..=source + range` holds `source` sends it to the matching number of
/// its destination range, provided no earlier entry has moved it.
pub open spec fn corresponding_upto(map: Seq<MapEntry>, source: nat, k: int) -> nat
    decreases k,
{
    if k <= 0 {
        source
    } else {
        let d = corresponding_upto(map, source, k - 1);
        let e = map[k - 1];
        if e.source <= source && source <= e.source + e.range && source == d {
            (e.destination + (source - e.source)) as nat
        } else {
            d
        }
    }
}

pub open spec fn corresponding(map: Seq<MapEntry>, source: nat) -> nat {
    corresponding_upto(map, source, map.len() as int)
}

/// Where the map sends `source`.
pub fn get_corresponding(map: &Vec<MapEntry>, source: u64) -> (r: u64)
    requires
        map_ok(map@),
    ensures
        r == corresponding(map@, source as nat),
{
    let mut destination: u64 = source;
    let mut k: usize = 0;
    while k < map.len()
        invariant
            map_ok(map@),
            k <= map@.len(),
            destination == corresponding_upto(map@, source as nat, k as int),
        decreases map@.len() - k,
    {
        let e = &map[k];
        assert(e.destination + e.range <= u64::MAX);
        if source >= e.source && source - e.source <= e.range && source == destination {
            destination = e.destination + (source - e.source);
        }
        k += 1;
    }
    destination
}

pub open spec fn almanac_ok(a: Almanac) -> bool {
    &&& map_ok(a.seed_to_soil@)
    &&& map_ok(a.soil_to_fertilizer@)
    &&& map_ok(a.fertilizer_to_water@)
    &&& map_ok(a.water_to_light@)
    &&& map_ok(a.light_to_temperature@)
    &&& map_ok(a.temperature_to_humidity@)
    &&& map_ok(a.humidity_to_location@)
}

/// The location of a seed: the seed sent through all seven maps in turn.
pub open spec fn location(a: Almanac, seed: nat) -> nat {
    let soil = corresponding(a.seed_to_soil@, seed);
    let fertilizer = corresponding(a.soil_to_fertilizer@, soil);
    let water = corresponding(a.fertilizer_to_water@, fertilizer);
    let light = corresponding(a.water_to_light@, water);
    let temperature = corresponding(a.light_to_temperature@, light);
    let humidity = corresponding(a.temperature_to_humidity@, temperature);
    corresponding(a.humidity_to_location@, humidity)
}

/// The location that the almanac gives a seed.
pub fn traverse_almanac(almanac: &Almanac, seed: u64) -> (r: u64)
    requires
        almanac_ok(*almanac),
    ensures
        r == location(*almanac, seed as nat),
{
    let soil: u64 = get_corresponding(&almanac.seed_to_soil, seed);
    let fertilizer: u64 = get_corresponding(&almanac.soil_to_fertilizer, soil);
    let water: u64 = get_corresponding(&almanac.fertilizer_to_water, fertilizer);
    let light: u64 = get_corresponding(&almanac.water_to_light, water);
    let temperature: u64 = get_corresponding(&almanac.light_to_temperature, light);
    let humidity: u64 = get_corresponding(&almanac.temperature_to_humidity, temperature);
    get_corresponding(&almanac.humidity_to_location, humidity)
}

/// `s` begins with `prefix`.
pub open spec fn starts_with(s: Seq<char>, prefix: Seq<char>) -> bool {
    prefix.len() <= s.len() && s.subrange(0, prefix.len() as int) == prefix
}

fn has_prefix(s: &Vec<char>, prefix: &str) -> (r: bool)
    ensures
        r == starts_with(s@, prefix@),
{
    let p = chars_of(prefix);
    if p.len() > s.len() {
        return false;
    }
    let mut i: usize = 0;
    while i < p.len()
        invariant
            p@ == prefix@,
            p@.len() <= s@.len(),
            i <= p@.len(),
            forall|k: int| 0 <= k < i ==> s@[k] == p@[k],
        decreases p@.len() - i,
    {
        if s[i] != p[i] {
            assert(s@.subrange(0, p@.len() as int)[i as int] != p@[i as int]);
            return false;
        }
        i += 1;
    }
    assert(s@.subrange(0, p@.len() as int) =~= p@);
    true
}

/// Which part of the almanac a block describes, by its first line: 0 the
/// seeds, 1 to 7 the maps from seed-to-soil to humidity-to-location, 8 none.
pub open spec fn section(header: Seq<char>) -> int {
    if starts_with(header, "seeds:"@) {
        0
    } else if starts_with(header, "seed-to-soil map:"@) {
        1
    } else if starts_with(header, "soil-to-fertilizer map:"@) {
        2
    } else if starts_with(header, "fertilizer-to-water map:"@) {
        3
    } else if starts_with(header, "water-to-light map:"@) {
        4
    } else if starts_with(header, "light-to-temperature map:"@) {
        5
    } else if starts_with(header, "temperature-to-humidity map:"@) {
        6
    } else if starts_with(header, "humidity-to-location map:"@) {
        7
    } else {
        8
    }
}

pub open spec fn entry_readable(lines: Seq<Seq<char>>, i: int) -> bool {
    entry_line_ok(lines[i]) && entry_of(lines[i]).0 + entry_of(lines[i]).2 <= u64::MAX
}

/// A block that the almanac can take: not empty, and its lines readable as
/// the section that its first line names.
pub open spec fn block_ok(block: Seq<Seq<char>>) -> bool {
    &&& block.len() > 0
    &&& section(block[0]) == 0 ==> seeds_line_ok(block[0])
    &&& 1 <= section(block[0]) <= 7 ==> forall|i: int|
        1 <= i < block.len() ==> #[trigger] entry_readable(block, i)
}

pub open spec fn block_entries(block: Seq<Seq<char>>) -> Seq<(nat, nat, nat)> {
    block.drop_first().map_values(|l: Seq<char>| entry_of(l))
}

/// The almanac as seen after the first `k` blocks: its seeds and its seven
/// maps. A seeds block sets the seeds; a map block adds its entries to its map.
pub open spec fn almanac_after(blocks: Seq<Seq<Seq<char>>>, k: int) -> (Seq<nat>, Seq<Seq<(nat, nat, nat)>>)
    decreases k,
{
    if k <= 0 {
        (Seq::empty(), Seq::new(7, |i: int| Seq::<(nat, nat, nat)>::empty()))
    } else {
        let prev = almanac_after(blocks, k - 1);
        let b = blocks[k - 1];
        let s = section(b[0]);
        if s == 0 {
            (numbers(seed_fields(b[0])), prev.1)
        } else if 1 <= s <= 7 {
            (prev.0, prev.1.update(s - 1, prev.1[s - 1] + block_entries(b)))
        } else {
            prev
        }
    }
}

pub open spec fn map_view(m: Seq<MapEntry>) -> Seq<(nat, nat, nat)> {
    m.map_values(|e: MapEntry| entry_view(e))
}

pub open spec fn almanac_view(a: Almanac) -> (Seq<nat>, Seq<Seq<(nat, nat, nat)>>) {
    (
        a.seeds@.map_values(|x: u64| x as nat),
        seq![
            map_view(a.seed_to_soil@),
            map_view(a.soil_to_fertilizer@),
            map_view(a.fertilizer_to_water@),
            map_view(a.water_to_light@),
            map_view(a.light_to_temperature@),
            map_view(a.temperature_to_humidity@),
            map_view(a.humidity_to_location@),
        ],
    )
}

pub open spec fn block_readable(blocks: Seq<Seq<Seq<char>>>, i: int) -> bool {
    block_ok(blocks[i])
}

/// Appends the entries of a map block's lines after the first; `false` when
/// a line is not an entry, or its destination range overflows.
fn parse_map(chunk: &Vec<String>, current_map: &mut Vec<MapEntry>) -> (ok: bool)
    requires
        chunk@.len() > 0,
        map_ok(old(current_map)@),
    ensures
        ok == forall|i: int| 1 <= i < chunk@.len() ==> #[trigger] entry_readable(line_views(chunk@), i),
        ok ==> map_view(final(current_map)@) == map_view(old(current_map)@) + block_entries(line_views(chunk@)),
        map_ok(final(current_map)@),
{
    let ghost ls = line_views(chunk@);
    let ghost start = map_view(current_map@);
    let mut i: usize = 1;
    while i < chunk.len()
        invariant
            ls == line_views(chunk@),
            1 <= i <= chunk@.len(),
            map_ok(current_map@),
            forall|t: int| 1 <= t < i ==> #[trigger] entry_readable(ls, t),
            map_view(current_map@) == start + block_entries(ls).subrange(0, i - 1),
        decreases chunk@.len() - i,
    {
        assert(ls[i as int] == chunk@[i as int]@);
        let e = match get_map_entrie(chunk[i].as_str()) {
            Some(e) => e,
            None => {
                assert(!entry_readable(ls, i as int));
                return false;
            },
        };
        if e.destination > u64::MAX - e.range {
            assert(!entry_readable(ls, i as int));
            return false;
        }
        assert(entry_readable(ls, i as int));
        let ghost before = current_map@;
        current_map.push(e);
        assert(map_view(current_map@) =~= map_view(before).push(entry_view(e)));
        assert(block_entries(ls)[i - 1] == entry_of(ls[i as int]));
        assert(block_entries(ls).subrange(0, i as int) =~= block_entries(ls).subrange(0, i - 1).push(entry_of(ls[i as int])));
        i += 1;
    }
    assert(block_entries(ls).subrange(0, i - 1) =~= block_entries(ls));
    true
}

/// Reads an almanac: blocks of lines separated by empty lines; `None` when a
/// block is empty or holds a line that its section cannot read.
pub fn get_almanac(input: &[String]) -> (r: Option<Almanac>)
    ensures
        r is Some <==> forall|i: int| 0 <= i < split_groups(line_views(input@)).len() ==> #[trigger] block_readable(split_groups(line_views(input@)), i),
        r matches Some(a) ==> almanac_ok(a) && almanac_view(a) == almanac_after(
            split_groups(line_views(input@)),
            split_groups(line_views(input@)).len() as int,
        ),
{
    let mut lines: Vec<String> = Vec::new();
    let mut t: usize = 0;
    while t < input.len()
        invariant
            t <= input@.len(),
            line_views(lines@) == line_views(input@).subrange(0, t as int),
        decreases input@.len() - t,
    {
        let ghost before = lines@;
        lines.push(input[t].clone());
        assert(line_views(lines@) =~= line_views(before).push(input@[t as int]@));
        t += 1;
        assert(line_views(lines@) =~= line_views(input@).subrange(0, t as int));
    }
    assert(line_views(input@).subrange(0, t as int) =~= line_views(input@));
    let chunks = split_on_empty(&lines);
    let ghost bs = split_groups(line_views(input@));
    let mut almanac = Almanac {
        seeds: Vec::new(),
        seed_to_soil: Vec::new(),
        soil_to_fertilizer: Vec::new(),
        fertilizer_to_water: Vec::new(),
        water_to_light: Vec::new(),
        light_to_temperature: Vec::new(),
        temperature_to_humidity: Vec::new(),
        humidity_to_location: Vec::new(),
    };
    assert(map_view(almanac.seed_to_soil@) =~= Seq::<(nat, nat, nat)>::empty());
    assert(map_view(almanac.soil_to_fertilizer@) =~= Seq::<(nat, nat, nat)>::empty());
    assert(map_view(almanac.fertilizer_to_water@) =~= Seq::<(nat, nat, nat)>::empty());
    assert(map_view(almanac.water_to_light@) =~= Seq::<(nat, nat, nat)>::empty());
    assert(map_view(almanac.light_to_temperature@) =~= Seq::<(nat, nat, nat)>::empty());
    assert(map_view(almanac.temperature_to_humidity@) =~= Seq::<(nat, nat, nat)>::empty());
    assert(map_view(almanac.humidity_to_location@) =~= Seq::<(nat, nat, nat)>::empty());
    assert(almanac_view(almanac).1 =~= almanac_after(bs, 0).1);
    assert(almanac_view(almanac).0 =~= almanac_after(bs, 0).0);
    let mut k: usize = 0;
    while k < chunks.len()
        invariant
            bs == split_groups(line_views(input@)),
            group_views(chunks@) == bs,
            k <= chunks@.len(),
            almanac_ok(almanac),
            forall|t: int| 0 <= t < k ==> #[trigger] block_readable(bs, t),
            almanac_view(almanac) == almanac_after(bs, k as int),
        decreases chunks@.len() - k,
    {
        let chunk = &chunks[k];
        assert(line_views(chunk@) == bs[k as int]);
        if chunk.len() == 0 {
            assert(!block_readable(bs, k as int));
            return None;
        }
        let header = chars_of(chunk[0].as_str());
        assert(header@ == bs[k as int][0]);
        let ghost prev = almanac_view(almanac);
        let ok = if has_prefix(&header, "seeds:") {
            match get_seeds(chunk[0].as_str()) {
                Some(seeds) => {
                    almanac.seeds = seeds;
                    true
                },
                None => false,
            }
        } else if has_prefix(&header, "seed-to-soil map:") {
            parse_map(chunk, &mut almanac.seed_to_soil)
        } else if has_prefix(&header, "soil-to-fertilizer map:") {
            parse_map(chunk, &mut almanac.soil_to_fertilizer)
        } else if has_prefix(&header, "fertilizer-to-water map:") {
            parse_map(chunk, &mut almanac.fertilizer_to_water)
        } else if has_prefix(&header, "water-to-light map:") {
            parse_map(chunk, &mut almanac.water_to_light)
        } else if has_prefix(&header, "light-to-temperature map:") {
            parse_map(chunk, &mut almanac.light_to_temperature)
        } else if has_prefix(&header, "temperature-to-humidity map:") {
            parse_map(chunk, &mut almanac.temperature_to_humidity)
        } else if has_prefix(&header, "humidity-to-location map:") {
            parse_map(chunk, &mut almanac.humidity_to_location)
        } else {
            true
        };
        if !ok {
            assert(!block_readable(bs, k as int));
            return None;
        }
        assert(block_readable(bs, k as int));
        assert(almanac_view(almanac).1 =~= almanac_after(bs, k + 1).1);
        assert(almanac_view(almanac).0 =~= almanac_after(bs, k + 1).0);
        k += 1;
    }
    Some(almanac)
}

/// The lowest of the first `k` seeds' locations, or `u64::MAX` when `k` is 0.
pub open spec fn lowest_location(a: Almanac, seeds: Seq<nat>, k: int) -> nat
    decreases k,
{
    if k <= 0 {
        u64::MAX as nat
    } else {
        let m = lowest_location(a, seeds, k - 1);
        let l = location(a, seeds[k - 1]);
        if l < m {
            l
        } else {
            m
        }
    }
}

/// The lowest location of the seeds of the almanac; `None` when the almanac
/// cannot be read or lists no seeds.
pub fn part1(input: &[String]) -> (r: Option<u64>)
    ensures
        r matches Some(l) ==> exists|a: Almanac| almanac_ok(a) && almanac_view(a) == almanac_after(
            split_groups(line_views(input@)),
            split_groups(line_views(input@)).len() as int,
        ) && a.seeds@.len() > 0 && l == lowest_location(a, a.seeds@.map_values(|x: u64| x as nat), a.seeds@.len() as int),
        (forall|i: int| 0 <= i < split_groups(line_views(input@)).len() ==> #[trigger] block_readable(split_groups(line_views(input@)), i))
            && almanac_after(split_groups(line_views(input@)), split_groups(line_views(input@)).len() as int).0.len() > 0
            ==> r is Some,
{
    let almanac = match get_almanac(input) {
        Some(a) => a,
        None => {
            return None;
        },
    };
    if almanac.seeds.len() == 0 {
        return None;
    }
    let ghost seeds = almanac.seeds@.map_values(|x: u64| x as nat);
    let mut best: u64 = u64::MAX;
    let mut i: usize = 0;
    while i < almanac.seeds.len()
        invariant
            almanac_ok(almanac),
            seeds == almanac.seeds@.map_values(|x: u64| x as nat),
            i <= almanac.seeds@.len(),
            best == lowest_location(almanac, seeds, i as int),
        decreases almanac.seeds@.len() - i,
    {
        let l = traverse_almanac(&almanac, almanac.seeds[i]);
        assert(seeds[i as int] == almanac.seeds@[i as int] as nat);
        if l < best {
            best = l;
        }
        i += 1;
    }
    Some(best)
}

pub open spec fn min_nat(a: nat, b: nat) -> nat {
    if a < b {
        a
    } else {
        b
    }
}

/// The lowest location of the seeds `lo..=hi`, or `u64::MAX` when there are
/// none.
pub open spec fn lowest_in(a: Almanac, lo: int, hi: int) -> nat
    decreases hi - lo + 1,
{
    if hi < lo {
        u64::MAX as nat
    } else {
        min_nat(location(a, hi as nat), lowest_in(a, lo, hi - 1))
    }
}

/// The lowest location over the first `k` pairs of the seeds line, each pair
/// a start and a length, read as the seeds from the start to start plus length.
pub open spec fn lowest_over_pairs(a: Almanac, seeds: Seq<nat>, k: int) -> nat
    decreases k,
{
    if k <= 0 {
        u64::MAX as nat
    } else {
        min_nat(
            lowest_over_pairs(a, seeds, k - 1),
            lowest_in(a, seeds[2 * (k - 1)] as int, (seeds[2 * (k - 1)] + seeds[2 * (k - 1) + 1]) as int),
        )
    }
}

/// Pair `k` of the seeds line, a start and a length, ends within `u64`.
pub open spec fn pair_fits(seeds: Seq<nat>, k: int) -> bool {
    seeds[2 * k] + seeds[2 * k + 1] <= u64::MAX
}

/// Every pair of the seeds line ends within `u64`.
pub open spec fn ranges_fit(seeds: Seq<nat>) -> bool {
    forall|k: int| 0 <= k && 2 * k + 1 < seeds.len() ==> #[trigger] pair_fits(seeds, k)
}

/// The lowest location over the seed ranges that the seeds line lists in
/// pairs; `None` when the almanac cannot be read or a range runs past
/// `u64::MAX`.
pub fn part2(input: &[String]) -> (r: Option<u64>)
    ensures
        r matches Some(l) ==> exists|a: Almanac| almanac_ok(a) && almanac_view(a) == almanac_after(
            split_groups(line_views(input@)),
            split_groups(line_views(input@)).len() as int,
        ) && l == lowest_over_pairs(a, a.seeds@.map_values(|x: u64| x as nat), (a.seeds@.len() / 2) as int),
        (forall|i: int| 0 <= i < split_groups(line_views(input@)).len() ==> #[trigger] block_readable(split_groups(line_views(input@)), i))
            && ranges_fit(almanac_after(split_groups(line_views(input@)), split_groups(line_views(input@)).len() as int).0)
            ==> r is Some,
{
    let almanac = match get_almanac(input) {
        Some(a) => a,
        None => {
            return None;
        },
    };
    let ghost seeds = almanac.seeds@.map_values(|x: u64| x as nat);
    assert(seeds == almanac_view(almanac).0);
    let n = almanac.seeds.len();
    let mut location: u64 = u64::MAX;
    let mut k: usize = 0;
    let mut t: usize = 0;
    while t + 1 < n
        invariant
            almanac_ok(almanac),
            seeds == almanac.seeds@.map_values(|x: u64| x as nat),
            seeds == almanac_after(split_groups(line_views(input@)), split_groups(line_views(input@)).len() as int).0,
            n == almanac.seeds@.len(),
            t == 2 * k,
            t <= n,
            location == lowest_over_pairs(almanac, seeds, k as int),
        decreases n - t,
    {
        let start = almanac.seeds[t];
        let range = almanac.seeds[t + 1];
        assert(seeds[t as int] == start && seeds[t + 1] == range);
        if start > u64::MAX - range {
            assert(!pair_fits(seeds, k as int));
            return None;
        }
        let end = start + range;
        let mut seed = start;
        let mut best: u64 = u64::MAX;
        let mut done = false;
        while !done
            invariant
                almanac_ok(almanac),
                start <= seed <= end,
                !done ==> best == lowest_in(almanac, start as int, seed - 1),
                done ==> best == lowest_in(almanac, start as int, end as int),
            decreases end - seed + (if done { 0int } else { 1int }),
        {
            let l = traverse_almanac(&almanac, seed);
            if l < best {
                best = l;
            }
            assert(best == lowest_in(almanac, start as int, seed as int));
            if seed == end {
                done = true;
            } else {
                seed = seed + 1;
            }
        }
        if best < location {
            location = best;
        }
        k += 1;
        t += 2;
    }
    assert(k == n / 2);
    Some(location)
}

} // verus!
