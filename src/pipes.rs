//! A field of pipes: the loop through the start tile, its length, and the
//! tiles that it encloses.
use vstd::prelude::*;
use crate::text::{chars_of, line_views};

verus! {

/// A tile position: column `x`, row `y`, from the top left.
#[derive(Clone, Copy, Debug, PartialEq, Eq, Structural)]
pub struct Point {
    pub x: i64,
    pub y: i64,
}

/// The tiles that a pipe connects, and whether the loop runs through it.
pub struct Pipe {
    pub connections: Vec<Point>,
    pub looped: bool,
}

pub open spec fn pos(p: Point) -> (int, int) {
    (p.x as int, p.y as int)
}

pub open spec fn positions(ps: Seq<Point>) -> Seq<(int, int)> {
    ps.map_values(|p: Point| pos(p))
}

/// The tiles that the pipe `c` at `(x, y)` connects: `|` south and north, `-`
/// east and west, `L` east and north, `J` west and north, `7` west and south,
/// `F` east and south; nothing for any other tile.
pub open spec fn tile_connections(c: char, x: int, y: int) -> Seq<(int, int)> {
    if c == '|' {
        seq![(x, y + 1), (x, y - 1)]
    } else if c == '-' {
        seq![(x + 1, y), (x - 1, y)]
    } else if c == 'L' {
        seq![(x + 1, y), (x, y - 1)]
    } else if c == 'J' {
        seq![(x - 1, y), (x, y - 1)]
    } else if c == '7' {
        seq![(x - 1, y), (x, y + 1)]
    } else if c == 'F' {
        seq![(x + 1, y), (x, y + 1)]
    } else {
        Seq::empty()
    }
}

/// The field is small enough that every position and its neighbours fit in
/// an `i64`.
pub open spec fn field_fits(img: Seq<Seq<char>>) -> bool {
    img.len() < i64::MAX && forall|y: int| 0 <= y < img.len() ==> #[trigger] img[y].len() < i64::MAX
}

/// The last `S` of the first `k` cells, row by row, or `start` when there is
/// none.
pub open spec fn start_upto(img: Seq<Seq<char>>, y: int, k: int, start: (int, int)) -> (int, int)
    decreases k,
{
    if k <= 0 {
        start
    } else if img[y][k - 1] == 'S' {
        (k - 1, y)
    } else {
        start_upto(img, y, k - 1, start)
    }
}

pub open spec fn start_rows(img: Seq<Seq<char>>, r: int, start: (int, int)) -> (int, int)
    decreases r,
{
    if r <= 0 {
        start
    } else {
        start_upto(img, r - 1, img[r - 1].len() as int, start_rows(img, r - 1, start))
    }
}

/// The pipes as the field describes them, before the start tile is filled in.
pub open spec fn field_pipes(img: Seq<Seq<char>>, g: Seq<Vec<Pipe>>) -> bool {
    &&& g.len() == img.len()
    &&& forall|y: int| 0 <= y < img.len() ==> #[trigger] g[y]@.len() == img[y].len()
    &&& forall|y: int, x: int|
        0 <= y < img.len() && 0 <= x < img[y].len() ==> #[trigger] grid_view(g)[y][x]
            == tile_connections(img[y][x], x, y)
}

fn connections_of(c: char, x: i64, y: i64) -> (r: Vec<Point>)
    requires
        0 <= x < i64::MAX,
        0 <= y < i64::MAX,
    ensures
        positions(r@) == tile_connections(c, x as int, y as int),
{
    let mut r: Vec<Point> = Vec::new();
    if c == '|' {
        r.push(Point { x, y: y + 1 });
        r.push(Point { x, y: y - 1 });
    } else if c == '-' {
        r.push(Point { x: x + 1, y });
        r.push(Point { x: x - 1, y });
    } else if c == 'L' {
        r.push(Point { x: x + 1, y });
        r.push(Point { x, y: y - 1 });
    } else if c == 'J' {
        r.push(Point { x: x - 1, y });
        r.push(Point { x, y: y - 1 });
    } else if c == '7' {
        r.push(Point { x: x - 1, y });
        r.push(Point { x, y: y + 1 });
    } else if c == 'F' {
        r.push(Point { x: x + 1, y });
        r.push(Point { x, y: y + 1 });
    }
    assert(positions(r@) =~= tile_connections(c, x as int, y as int));
    r
}

/// No pipe is marked as part of the loop yet.
pub open spec fn none_looped(g: Seq<Vec<Pipe>>) -> bool {
    forall|y: int, x: int| 0 <= y < g.len() && 0 <= x < g[y]@.len() ==> !(#[trigger] g[y]@[x]).looped
}

/// Reads the field: a pipe for every tile, row by row; `start` becomes the
/// last `S` tile, or stays as it was when there is none. `None` when a
/// position does not fit in an `i64`.
pub fn get_map(input: &[String], start: &mut Point) -> (r: Option<Vec<Vec<Pipe>>>)
    ensures
        r matches Some(g) ==> field_fits(line_views(input@)) && field_pipes(line_views(input@), g@)
            && pos(*final(start)) == start_rows(line_views(input@), input@.len() as int, pos(*old(start)))
            && none_looped(g@),
        field_fits(line_views(input@)) ==> r is Some,
{
    let ghost img = line_views(input@);
    let ghost start0 = pos(*start);
    if input.len() as u64 >= i64::MAX as u64 {
        return None;
    }
    let mut g: Vec<Vec<Pipe>> = Vec::new();
    let mut y: usize = 0;
    while y < input.len()
        invariant
            img == line_views(input@),
            input@.len() < i64::MAX,
            y <= input@.len(),
            g@.len() == y,
            forall|t: int| 0 <= t < y ==> #[trigger] img[t].len() < i64::MAX,
            forall|t: int| 0 <= t < y ==> #[trigger] g@[t]@.len() == img[t].len(),
            forall|t: int, x: int|
                0 <= t < y && 0 <= x < img[t].len() ==> #[trigger] grid_view(g@)[t][x]
                    == tile_connections(img[t][x], x, t),
            pos(*start) == start_rows(img, y as int, start0),
            none_looped(g@),
        decreases input@.len() - y,
    {
        let line = chars_of(input[y].as_str());
        assert(line@ == img[y as int]);
        if line.len() as u64 >= i64::MAX as u64 {
            return None;
        }
        let ghost before = pos(*start);
        let mut row: Vec<Pipe> = Vec::new();
        let mut x: usize = 0;
        while x < line.len()
            invariant
                img == line_views(input@),
                line@ == img[y as int],
                y < input@.len(),
                input@.len() < i64::MAX,
                line@.len() < i64::MAX,
                x <= line@.len(),
                row@.len() == x,
                forall|k: int| 0 <= k < x ==> #[trigger] positions(row@[k].connections@) == tile_connections(
                    img[y as int][k],
                    k,
                    y as int,
                ),
                pos(*start) == start_upto(img, y as int, x as int, before),
                forall|k: int| 0 <= k < x ==> !(#[trigger] row@[k]).looped,
            decreases line@.len() - x,
        {
            let c = line[x];
            if c == 'S' {
                start.x = x as i64;
                start.y = y as i64;
            }
            let connections = connections_of(c, x as i64, y as i64);
            row.push(Pipe { connections, looped: false });
            x += 1;
        }
        let ghost prev_g = g@;
        let ghost row_v = row@;
        g.push(row);
        assert(g@[y as int]@.len() == img[y as int].len());
        assert forall|t: int, x: int|
            0 <= t < y + 1 && 0 <= x < img[t].len() implies #[trigger] grid_view(g@)[t][x] == tile_connections(img[t][x], x, t) by {
            if t < y {
                assert(g@[t] == prev_g[t]);
                assert(grid_view(g@)[t] == grid_view(prev_g)[t]);
            } else {
                assert(g@[t]@ == row_v);
                assert(grid_view(g@)[t][x] == positions(row_v[x].connections@));
                assert(positions(row_v[x].connections@) == tile_connections(img[y as int][x], x, y as int));
            }
        }
        assert forall|t: int, x: int| 0 <= t < g@.len() && 0 <= x < g@[t]@.len() implies !(#[trigger] g@[t]@[x]).looped by {
            if t < y {
                assert(g@[t] == prev_g[t]);
            } else {
                assert(g@[t]@ == row_v);
            }
        }
        y += 1;
    }
    Some(g)
}

/// The connections of every pipe, row by row.
pub open spec fn grid_view(g: Seq<Vec<Pipe>>) -> Seq<Seq<Seq<(int, int)>>> {
    g.map_values(|row: Vec<Pipe>| row@.map_values(|p: Pipe| positions(p.connections@)))
}

/// `p` is a tile of the grid.
pub open spec fn in_grid(m: Seq<Seq<Seq<(int, int)>>>, p: (int, int)) -> bool {
    0 <= p.1 < m.len() && 0 <= p.0 < m[p.1].len()
}

/// The tiles among the first `t` of the nine around `s` (column by column from
/// the top left) whose pipe connects back to `s`.
pub open spec fn start_connections(m: Seq<Seq<Seq<(int, int)>>>, s: (int, int), t: int) -> Seq<(int, int)>
    decreases t,
{
    if t <= 0 {
        Seq::empty()
    } else {
        let prev = start_connections(m, s, t - 1);
        let p = (s.0 + (t - 1) / 3 - 1, s.1 + (t - 1) % 3 - 1);
        if in_grid(m, p) && m[p.1][p.0].contains(s) {
            prev.push(p)
        } else {
            prev
        }
    }
}

fn contains_point(ps: &Vec<Point>, q: Point) -> (r: bool)
    ensures
        r == positions(ps@).contains(pos(q)),
{
    let mut i: usize = 0;
    while i < ps.len()
        invariant
            i <= ps@.len(),
            forall|k: int| 0 <= k < i ==> positions(ps@)[k] != pos(q),
        decreases ps@.len() - i,
    {
        if ps[i].x == q.x && ps[i].y == q.y {
            assert(positions(ps@)[i as int] == pos(q));
            return true;
        }
        i += 1;
    }
    false
}

/// The pipe of the start tile: the neighbours whose pipes lead back to it.
pub fn get_start_pipe(map: &Vec<Vec<Pipe>>, start: &Point) -> (r: Pipe)
    requires
        i64::MIN < start.x < i64::MAX,
        i64::MIN < start.y < i64::MAX,
    ensures
        positions(r.connections@) == start_connections(grid_view(map@), pos(*start), 9),
        r.looped,
{
    let ghost m = grid_view(map@);
    let mut connections: Vec<Point> = Vec::new();
    let mut i: i64 = -1;
    while i <= 1
        invariant
            m == grid_view(map@),
            -1 <= i <= 2,
            i64::MIN < start.x < i64::MAX,
            i64::MIN < start.y < i64::MAX,
            positions(connections@) == start_connections(m, pos(*start), 3 * (i + 1)),
        decreases 2 - i,
    {
        let mut j: i64 = -1;
        while j <= 1
            invariant
                m == grid_view(map@),
                -1 <= i <= 1,
                -1 <= j <= 2,
                i64::MIN < start.x < i64::MAX,
                i64::MIN < start.y < i64::MAX,
                positions(connections@) == start_connections(m, pos(*start), 3 * (i + 1) + (j + 1)),
            decreases 2 - j,
        {
            let ghost t = 3 * (i + 1) + (j + 1);
            assert(t / 3 == i + 1 && t % 3 == j + 1);
            let p = Point { x: start.x + i, y: start.y + j };
            let mut linked = false;
            if p.y >= 0 && (p.y as u64) < map.len() as u64 {
                let row = &map[p.y as usize];
                if p.x >= 0 && (p.x as u64) < row.len() as u64 {
                    assert(m[p.y as int][p.x as int] == positions(row@[p.x as int].connections@));
                    linked = contains_point(&row[p.x as usize].connections, *start);
                }
            }
            if linked {
                let ghost before = connections@;
                connections.push(p);
                assert(positions(connections@) =~= positions(before).push(pos(p)));
            }
            j += 1;
        }
        i += 1;
    }
    Pipe { connections, looped: true }
}

/// The index of the first of the first `k` connections that is not `prev`, or
/// `k` when all are.
pub open spec fn first_other(cs: Seq<(int, int)>, prev: (int, int), k: int) -> int
    decreases k,
{
    if k <= 0 {
        0
    } else if first_other(cs, prev, k - 1) < k - 1 {
        first_other(cs, prev, k - 1)
    } else if cs[k - 1] != prev {
        k - 1
    } else {
        k
    }
}

/// One step along the pipes from `prev` to `cur`: on to the first connection
/// of `cur` that is not `prev`; no move when there is none or `cur` is off the
/// grid.
pub open spec fn next_step(m: Seq<Seq<Seq<(int, int)>>>, st: ((int, int), (int, int))) -> ((int, int), (int, int)) {
    let (prev, cur) = st;
    if !in_grid(m, cur) {
        st
    } else {
        let cs = m[cur.1][cur.0];
        let k = first_other(cs, prev, cs.len() as int);
        if 0 <= k < cs.len() {
            (cur, cs[k])
        } else {
            st
        }
    }
}

/// The walk from the start `s` along its first connection: the previous and
/// current tile after `k` steps.
pub open spec fn walk_state(m: Seq<Seq<Seq<(int, int)>>>, s: (int, int), k: nat) -> ((int, int), (int, int))
    decreases k,
{
    if k == 0 {
        (s, m[s.1][s.0][0])
    } else {
        next_step(m, walk_state(m, s, (k - 1) as nat))
    }
}

/// `len` is the length of the loop: the walk is back at the start after
/// `len - 1` steps and not before.
pub open spec fn loop_length(m: Seq<Seq<Seq<(int, int)>>>, s: (int, int), len: nat) -> bool {
    &&& len >= 1
    &&& walk_state(m, s, (len - 1) as nat).1 == s
    &&& forall|k: nat| k < len - 1 ==> #[trigger] walk_state(m, s, k).1 != s
}

proof fn lemma_first_other(cs: Seq<(int, int)>, prev: (int, int), k: int)
    requires
        0 <= k <= cs.len(),
    ensures
        0 <= first_other(cs, prev, k) <= k,
        forall|t: int| 0 <= t < first_other(cs, prev, k) ==> cs[t] == prev,
        first_other(cs, prev, k) < k ==> cs[first_other(cs, prev, k)] != prev,
    decreases k,
{
    if k > 0 {
        lemma_first_other(cs, prev, k - 1);
    }
}

fn step_from(map: &Vec<Vec<Pipe>>, prev: Point, cur: Point) -> (r: Option<(Point, Point)>)
    ensures
        r matches Some(st) ==> (pos(st.0), pos(st.1)) == next_step(grid_view(map@), (pos(prev), pos(cur)))
            && (pos(st.0), pos(st.1)) != (pos(prev), pos(cur)),
        r is None ==> next_step(grid_view(map@), (pos(prev), pos(cur))) == (pos(prev), pos(cur)),
{
    let ghost m = grid_view(map@);
    if cur.y < 0 || cur.y as u64 >= map.len() as u64 {
        return None;
    }
    let row = &map[cur.y as usize];
    if cur.x < 0 || cur.x as u64 >= row.len() as u64 {
        return None;
    }
    let cs = &row[cur.x as usize].connections;
    assert(m[cur.y as int][cur.x as int] == positions(cs@));
    proof {
        lemma_first_other(positions(cs@), pos(prev), cs@.len() as int);
    }
    let ghost f = first_other(positions(cs@), pos(prev), cs@.len() as int);
    let mut k: usize = 0;
    while k < cs.len()
        invariant
            k <= cs@.len(),
            m == grid_view(map@),
            in_grid(m, pos(cur)),
            m[cur.y as int][cur.x as int] == positions(cs@),
            f == first_other(positions(cs@), pos(prev), cs@.len() as int),
            0 <= f <= cs@.len(),
            forall|t: int| 0 <= t < f ==> positions(cs@)[t] == pos(prev),
            f < cs@.len() ==> positions(cs@)[f] != pos(prev),
            forall|t: int| 0 <= t < k ==> positions(cs@)[t] == pos(prev),
        decreases cs@.len() - k,
    {
        if !(cs[k].x == prev.x && cs[k].y == prev.y) {
            assert(positions(cs@)[k as int] == pos(cs@[k as int]));
            assert(positions(cs@)[k as int] != pos(prev));
            proof {
                if f < k as int {
                    assert(positions(cs@)[f] == pos(prev));
                }
                if f > k as int {
                    assert(positions(cs@)[k as int] == pos(prev));
                }
            }
            assert(f == k as int);
            return Some((cur, cs[k]));
        }
        k += 1;
    }
    proof {
        if f < cs@.len() {
            assert(positions(cs@)[f] == pos(prev));
        }
    }
    None
}

/// The number of tiles in the first `r` rows.
pub open spec fn tiles_upto(m: Seq<Seq<Seq<(int, int)>>>, r: int) -> nat
    decreases r,
{
    if r <= 0 {
        0
    } else {
        tiles_upto(m, r - 1) + m[r - 1].len()
    }
}

/// The number of tiles, or `u64::MAX` when there are more.
pub open spec fn tile_limit(m: Seq<Seq<Seq<(int, int)>>>) -> nat {
    let t = tiles_upto(m, m.len() as int);
    if t < u64::MAX {
        t
    } else {
        u64::MAX as nat
    }
}

fn tile_count(map: &Vec<Vec<Pipe>>) -> (r: u64)
    ensures
        r == tile_limit(grid_view(map@)),
{
    let ghost m = grid_view(map@);
    let mut total: u64 = 0;
    let mut y: usize = 0;
    while y < map.len()
        invariant
            m == grid_view(map@),
            y <= map@.len(),
            total == (if tiles_upto(m, y as int) < u64::MAX { tiles_upto(m, y as int) } else { u64::MAX as nat }),
        decreases map@.len() - y,
    {
        assert(m[y as int].len() == map@[y as int]@.len());
        total = total.saturating_add(map[y].len() as u64);
        y += 1;
    }
    total
}

/// The pipes with the start tile holding `start_pipe`.
pub open spec fn with_start(m: Seq<Seq<Seq<(int, int)>>>, s: (int, int), start_pipe: Seq<(int, int)>) -> Seq<Seq<Seq<(int, int)>>> {
    m.update(s.1, m[s.1].update(s.0, start_pipe))
}

/// Which pipes are marked as part of the loop, row by row.
pub open spec fn looped_view(g: Seq<Vec<Pipe>>) -> Seq<Seq<bool>> {
    g.map_values(|row: Vec<Pipe>| row@.map_values(|p: Pipe| p.looped))
}

/// Tile `p` is one of the first `k` tiles that the walk from `s` steps onto.
pub open spec fn visited(m: Seq<Seq<Seq<(int, int)>>>, s: (int, int), k: nat, p: (int, int)) -> bool {
    exists|j: nat| j < k && #[trigger] walk_state(m, s, j).1 == p
}

/// The marks after a walk that stepped onto `k` tiles: those tiles are
/// marked, the others keep their marks.
pub open spec fn marks_after(before: Seq<Seq<bool>>, m: Seq<Seq<Seq<(int, int)>>>, s: (int, int), k: nat, after: Seq<Seq<bool>>) -> bool {
    &&& after.len() == before.len()
    &&& forall|y: int| 0 <= y < before.len() ==> #[trigger] after[y].len() == before[y].len()
    &&& forall|y: int, x: int|
        0 <= y < before.len() && 0 <= x < before[y].len() ==> #[trigger] after[y][x] == (before[y][x]
            || visited(m, s, k, (x, y)))
}

/// A walk that does not move stays where it is for good.
proof fn lemma_stalled(m: Seq<Seq<Seq<(int, int)>>>, s: (int, int), k: nat, j: nat)
    requires
        next_step(m, walk_state(m, s, k)) == walk_state(m, s, k),
        k <= j,
    ensures
        walk_state(m, s, j) == walk_state(m, s, k),
    decreases j - k,
{
    if k < j {
        lemma_stalled(m, s, k, (j - 1) as nat);
    }
}

/// Follows the loop from the start tile back to it and marks the pipes that
/// it steps onto; returns the number of tiles on the loop. `None` when the
/// start has no connection, the walk leaves the grid or stops, or it has not
/// come back after as many steps as there are tiles.
pub fn travel_loop(map: &mut Vec<Vec<Pipe>>, start: &Point) -> (r: Option<u64>)
    ensures
        grid_view(final(map)@) == grid_view(old(map)@),
        r matches Some(len) ==> loop_length(grid_view(old(map)@), pos(*start), len as nat)
            && marks_after(looped_view(old(map)@), grid_view(old(map)@), pos(*start), (len - 1) as nat, looped_view(final(map)@)),
        in_grid(grid_view(old(map)@), pos(*start)) && grid_view(old(map)@)[start.y as int][start.x as int].len() > 0
            && (exists|len: nat| #[trigger] loop_length(grid_view(old(map)@), pos(*start), len) && len <= tile_limit(grid_view(old(map)@)))
            ==> r is Some,
{
    let ghost m = grid_view(map@);
    let ghost marks0 = looped_view(map@);
    let ghost s = pos(*start);
    if start.y < 0 || start.y as u64 >= map.len() as u64 {
        return None;
    }
    if start.x < 0 || start.x as u64 >= map[start.y as usize].len() as u64 {
        return None;
    }
    assert(m[start.y as int][start.x as int] == positions(map@[start.y as int]@[start.x as int].connections@));
    if map[start.y as usize][start.x as usize].connections.len() == 0 {
        return None;
    }
    let limit = tile_count(map);
    let mut previous = *start;
    let mut current = map[start.y as usize][start.x as usize].connections[0];
    let mut steps: u64 = 1;
    while !(current.x == start.x && current.y == start.y)
        invariant
            grid_view(map@) == m,
            m == grid_view(old(map)@),
            marks0 == looped_view(old(map)@),
            s == pos(*start),
            limit == tile_limit(m),
            1 <= steps,
            (pos(previous), pos(current)) == walk_state(m, s, (steps - 1) as nat),
            forall|k: nat| k < steps - 1 ==> #[trigger] walk_state(m, s, k).1 != s,
            marks_after(marks0, m, s, (steps - 1) as nat, looped_view(map@)),
        decreases limit - steps,
    {
        if steps >= limit {
            proof {
                assert forall|len: nat| #[trigger] loop_length(m, s, len) implies len > limit by {
                    if len <= limit {
                        assert(walk_state(m, s, (len - 1) as nat).1 == s);
                    }
                }
            }
            return None;
        }
        let ghost before = looped_view(map@);
        let ghost t = (steps - 1) as nat;
        mark_looped(map, current);
        proof {
            assert forall|y: int, x: int|
                0 <= y < marks0.len() && 0 <= x < marks0[y].len() implies #[trigger] looped_view(map@)[y][x] == (marks0[y][x]
                    || visited(m, s, t + 1, (x, y))) by {
                if (x, y) == pos(current) {
                    assert(walk_state(m, s, t).1 == (x, y));
                } else {
                    if visited(m, s, t + 1, (x, y)) {
                        let j = choose|j: nat| j < t + 1 && #[trigger] walk_state(m, s, j).1 == (x, y);
                        assert(j < t);
                    }
                }
            }
        }
        let (p, c) = match step_from(map, previous, current) {
            Some(st) => st,
            None => {
                proof {
                    assert forall|len: nat| #[trigger] loop_length(m, s, len) implies false by {
                        if len - 1 > t {
                            lemma_stalled(m, s, t, (len - 1) as nat);
                        }
                    }
                }
                return None;
            },
        };
        assert(walk_state(m, s, t).1 != s);
        previous = p;
        current = c;
        steps = steps + 1;
    }
    Some(steps)
}

fn mark_looped(map: &mut Vec<Vec<Pipe>>, p: Point)
    ensures
        grid_view(final(map)@) == grid_view(old(map)@),
        looped_view(final(map)@) == (if in_grid(grid_view(old(map)@), pos(p)) {
            looped_view(old(map)@).update(p.y as int, looped_view(old(map)@)[p.y as int].update(p.x as int, true))
        } else {
            looped_view(old(map)@)
        }),
{
    if p.y < 0 || p.y as u64 >= map.len() as u64 {
        return;
    }
    let y = p.y as usize;
    if p.x < 0 || p.x as u64 >= map[y].len() as u64 {
        return;
    }
    let x = p.x as usize;
    let ghost before = grid_view(map@);
    let ghost marks = looped_view(map@);
    map[y][x].looped = true;
    assert(grid_view(map@)[y as int] =~= before[y as int]);
    assert(grid_view(map@) =~= before);
    assert(looped_view(map@)[y as int] =~= marks[y as int].update(x as int, true));
    assert(looped_view(map@) =~= marks.update(y as int, marks[y as int].update(x as int, true)));
}

/// The pipes that the field describes, row by row.
pub open spec fn field_view(img: Seq<Seq<char>>) -> Seq<Seq<Seq<(int, int)>>> {
    Seq::new(img.len(), |y: int| Seq::new(img[y].len(), |x: int| tile_connections(img[y][x], x, y)))
}

/// The start tile of a field: its last `S`, or the top left tile.
pub open spec fn start_of(img: Seq<Seq<char>>) -> (int, int) {
    start_rows(img, img.len() as int, (0, 0))
}

/// The pipes of the field once the start tile is connected to the
/// neighbours that lead to it.
pub open spec fn connected_field(img: Seq<Seq<char>>) -> Seq<Seq<Seq<(int, int)>>> {
    with_start(field_view(img), start_of(img), start_connections(field_view(img), start_of(img), 9))
}

proof fn lemma_field_view(img: Seq<Seq<char>>, g: Seq<Vec<Pipe>>)
    requires
        field_pipes(img, g),
    ensures
        grid_view(g) == field_view(img),
{
    assert forall|y: int| 0 <= y < img.len() implies #[trigger] grid_view(g)[y] =~= field_view(img)[y] by {
        assert forall|x: int| 0 <= x < img[y].len() implies grid_view(g)[y][x] == field_view(img)[y][x] by {
            assert(grid_view(g)[y][x] == tile_connections(img[y][x], x, y));
        }
    }
    assert(grid_view(g) =~= field_view(img));
}

/// Reads the field and connects its start tile; `None` when the field does
/// not fit or the start tile is not on it.
fn connected_map(input: &[String]) -> (r: Option<(Vec<Vec<Pipe>>, Point)>)
    ensures
        r matches Some(ms) ==> grid_view(ms.0@) == connected_field(line_views(input@)) && pos(ms.1)
            == start_of(line_views(input@)) && in_grid(grid_view(ms.0@), pos(ms.1)),
        field_fits(line_views(input@)) && in_grid(field_view(line_views(input@)), start_of(line_views(input@)))
            ==> r is Some,
{
    let ghost img = line_views(input@);
    let mut start = Point { x: 0, y: 0 };
    let mut map = match get_map(input, &mut start) {
        Some(m) => m,
        None => {
            return None;
        },
    };
    proof {
        lemma_field_view(img, map@);
        assert(field_view(img).len() == img.len());
    }
    assert(pos(start) == start_of(img));
    if start.y < 0 || start.y as u64 >= map.len() as u64 {
        return None;
    }
    let y = start.y as usize;
    if start.x < 0 || start.x as u64 >= map[y].len() as u64 {
        return None;
    }
    assert(map@[y as int]@.len() == field_view(img)[y as int].len());
    let x = start.x as usize;
    let start_pipe = get_start_pipe(&map, &start);
    let ghost before = grid_view(map@);
    let ghost sc = positions(start_pipe.connections@);
    map[y][x] = start_pipe;
    assert(grid_view(map@)[y as int] =~= before[y as int].update(x as int, sc));
    assert(grid_view(map@) =~= with_start(before, pos(start), sc));
    Some((map, start))
}

/// The field has a start tile with a loop through it that returns within as
/// many steps as there are tiles.
pub open spec fn loop_found(img: Seq<Seq<char>>) -> bool {
    let m = connected_field(img);
    let s = start_of(img);
    &&& field_fits(img)
    &&& in_grid(field_view(img), s)
    &&& m[s.1][s.0].len() > 0
    &&& exists|len: nat| #[trigger] loop_length(m, s, len) && len <= tile_limit(m)
}

/// Half the length of the loop through the start tile: the steps to the
/// farthest tile of the loop; `None` when there is no loop to follow.
pub fn part1(input: Vec<String>) -> (r: Option<u64>)
    ensures
        r matches Some(v) ==> exists|len: nat| #[trigger] loop_length(connected_field(line_views(input@)), start_of(line_views(input@)), len) && v == len / 2,
        loop_found(line_views(input@)) ==> r is Some,
{
    proof {
        let img = line_views(input@);
        assert(in_grid(field_view(img), start_of(img)) ==> in_grid(connected_field(img), start_of(img)));
    }
    let (mut map, start) = match connected_map(input.as_slice()) {
        Some(ms) => ms,
        None => {
            return None;
        },
    };
    match travel_loop(&mut map, &start) {
        Some(len) => {
            assert(loop_length(connected_field(line_views(input@)), start_of(line_views(input@)), len as nat));
            Some(len / 2)
        },
        None => None,
    }
}

pub open spec fn cross(st: ((int, int), (int, int))) -> int {
    st.0.0 * st.1.1 - st.0.1 * st.1.0
}

/// Twice the signed area over the first `k` steps of the walk: the sum of
/// the cross products of each step that moves.
pub open spec fn shoelace(m: Seq<Seq<Seq<(int, int)>>>, s: (int, int), k: nat) -> int
    decreases k,
{
    if k == 0 {
        0
    } else {
        let st = walk_state(m, s, (k - 1) as nat);
        shoelace(m, s, (k - 1) as nat) + (if next_step(m, st) != st {
            cross(st)
        } else {
            0
        })
    }
}

/// The loop from the start is unique: it has one length.
proof fn lemma_loop_length_unique(m: Seq<Seq<Seq<(int, int)>>>, s: (int, int), a: nat, b: nat)
    requires
        loop_length(m, s, a),
        loop_length(m, s, b),
    ensures
        a == b,
{
    if a < b {
        assert(walk_state(m, s, (a - 1) as nat).1 == s);
    } else if b < a {
        assert(walk_state(m, s, (b - 1) as nat).1 == s);
    }
}

/// The enclosed area of a loop of `len` tiles can be computed in `i128` and
/// the tile count in `u64`: every cross product and partial sum fits, and
/// Pick's count is not negative.
pub open spec fn area_fits(m: Seq<Seq<Seq<(int, int)>>>, s: (int, int), len: nat) -> bool {
    let a = shoelace(m, s, len);
    let area = if a < 0 { -a } else { a };
    &&& forall|k: nat| k <= len ==> i128::MIN < #[trigger] shoelace(m, s, k) <= i128::MAX
    &&& forall|k: nat| k < len ==> i128::MIN < #[trigger] cross(walk_state(m, s, k)) <= i128::MAX
    &&& area / 2 + 1 <= u64::MAX
    &&& area / 2 + 1 >= len / 2
}

/// The field has a start tile with a loop through it that returns within as
/// many steps as there are tiles, and its area can be computed.
pub open spec fn enclosure_computable(img: Seq<Seq<char>>) -> bool {
    let m = connected_field(img);
    let s = start_of(img);
    &&& field_fits(img)
    &&& in_grid(field_view(img), s)
    &&& m[s.1][s.0].len() > 0
    &&& exists|len: nat| #[trigger] loop_length(m, s, len) && len <= tile_limit(m) && area_fits(m, s, len)
}

/// The number of tiles enclosed by the loop through the start tile, by the
/// shoelace formula and Pick's theorem; `None` when there is no loop to
/// follow or a value overflows.
pub fn part2(input: Vec<String>) -> (r: Option<u64>)
    ensures
        r matches Some(v) ==> exists|len: nat| #[trigger] loop_length(connected_field(line_views(input@)), start_of(line_views(input@)), len) && v == {
            let a = shoelace(connected_field(line_views(input@)), start_of(line_views(input@)), len);
            let area = if a < 0 { -a } else { a };
            area / 2 + 1 - len / 2
        },
        enclosure_computable(line_views(input@)) ==> r is Some,
{
    let ghost img = line_views(input@);
    let ghost m = connected_field(img);
    let ghost owed = enclosure_computable(img);
    let (mut map, start) = match connected_map(input.as_slice()) {
        Some(ms) => ms,
        None => {
            return None;
        },
    };
    proof {
        assert(in_grid(field_view(img), start_of(img)) ==> in_grid(m, start_of(img)));
    }
    let outside_points = match travel_loop(&mut map, &start) {
        Some(len) => len,
        None => {
            return None;
        },
    };
    let ghost s = pos(start);
    proof {
        if owed {
            let len = choose|len: nat| #[trigger] loop_length(m, s, len) && len <= tile_limit(m) && area_fits(m, s, len);
            lemma_loop_length_unique(m, s, len, outside_points as nat);
        }
    }
    let y = start.y as usize;
    let x = start.x as usize;
    assert(m[s.1][s.0] == positions(map@[y as int]@[x as int].connections@));
    if map[y][x].connections.len() == 0 {
        return None;
    }
    assert(positions(map@[y as int]@[x as int].connections@)[0] == pos(map@[y as int]@[x as int].connections@[0]));
    let mut previous = start;
    let mut current = map[y][x].connections[0];
    let mut area: i128 = 0;
    let mut i: u64 = 0;
    while i < outside_points
        invariant
            grid_view(map@) == m,
            m == connected_field(img),
            s == pos(start),
            (pos(previous), pos(current)) == walk_state(m, s, i as nat),
            area == shoelace(m, s, i as nat),
            i <= outside_points,
            owed ==> area_fits(m, s, outside_points as nat),
            owed == enclosure_computable(img),
            img == line_views(input@),
        decreases outside_points - i,
    {
        let ghost st = walk_state(m, s, i as nat);
        proof {
            assert(i64::MIN <= previous.x <= i64::MAX && i64::MIN <= current.y <= i64::MAX);
            assert((previous.x as int) * (current.y as int) <= i128::MAX && (previous.x as int) * (current.y as int) >= i128::MIN) by (nonlinear_arith)
                requires
                    i64::MIN <= previous.x <= i64::MAX,
                    i64::MIN <= current.y <= i64::MAX,
            ;
            assert((previous.y as int) * (current.x as int) <= i128::MAX && (previous.y as int) * (current.x as int) >= i128::MIN) by (nonlinear_arith)
                requires
                    i64::MIN <= previous.y <= i64::MAX,
                    i64::MIN <= current.x <= i64::MAX,
            ;
        }
        match step_from(&map, previous, current) {
            Some((p, c)) => {
                let a = (previous.x as i128).checked_mul(current.y as i128);
                let b = (previous.y as i128).checked_mul(current.x as i128);
                let term = match (a, b) {
                    (Some(a), Some(b)) => match a.checked_sub(b) {
                        Some(t) => t,
                        None => {
                            assert(!owed) by {
                                if owed {
                                    assert(i128::MIN < cross(walk_state(m, s, i as nat)) <= i128::MAX);
                                }
                            }
                            return None;
                        },
                    },
                    _ => {
                        return None;
                    },
                };
                area = match area.checked_add(term) {
                    Some(v) => v,
                    None => {
                        assert(!owed) by {
                            if owed {
                                assert(i128::MIN < shoelace(m, s, (i + 1) as nat) <= i128::MAX);
                            }
                        }
                        return None;
                    },
                };
                previous = p;
                current = c;
            },
            None => {
                assert(next_step(m, st) == st);
            },
        }
        i += 1;
    }
    let abs: u128 = if area < 0 {
        match 0i128.checked_sub(area) {
            Some(v) => v as u128,
            None => {
                assert(!owed) by {
                    if owed {
                        assert(i128::MIN < shoelace(m, s, outside_points as nat));
                    }
                }
                return None;
            },
        }
    } else {
        area as u128
    };
    let half = abs / 2;
    if half > u64::MAX as u128 - 1 {
        return None;
    }
    let inner = half as u64 + 1;
    let boundary = outside_points / 2;
    if inner < boundary {
        return None;
    }
    assert(loop_length(m, s, outside_points as nat));
    Some(inner - boundary)
}

} // verus!
