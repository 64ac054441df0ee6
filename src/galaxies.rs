//! Galaxies in an image of the sky: the empty rows and columns that expand,
//! and the sum of the distances between all pairs of galaxies.
use vstd::prelude::*;
use crate::text::chars_of;

verus! {

pub open spec fn views(input: Seq<String>) -> Seq<Seq<char>> {
    input.map_values(|s: String| s@)
}

/// Row `r` of the image holds no galaxy.
pub open spec fn empty_row(img: Seq<Seq<char>>, r: int) -> bool {
    forall|k: int| 0 <= k < img[r].len() ==> img[r][k] != '#'
}

/// Column `c` of the image holds no galaxy.
pub open spec fn empty_column(img: Seq<Seq<char>>, c: int) -> bool {
    forall|r: int| 0 <= r < img.len() ==> img[r][c] != '#'
}

/// The indices below `k` for which `p` holds, in increasing order.
pub open spec fn indices_where(p: spec_fn(int) -> bool, k: int) -> Seq<nat>
    decreases k,
{
    if k <= 0 {
        Seq::empty()
    } else if p(k - 1) {
        indices_where(p, k - 1).push((k - 1) as nat)
    } else {
        indices_where(p, k - 1)
    }
}

/// Every line is at least as long as the first, so that each column of the
/// first line can be read in all of them.
pub open spec fn columns_readable(img: Seq<Seq<char>>) -> bool {
    img.len() > 0 && forall|r: int| 0 <= r < img.len() ==> #[trigger] img[r].len() >= img[0].len()
}

fn has_galaxy(line: &Vec<char>) -> (r: bool)
    ensures
        r == exists|k: int| 0 <= k < line@.len() && line@[k] == '#',
{
    let mut k: usize = 0;
    while k < line.len()
        invariant
            k <= line@.len(),
            forall|t: int| 0 <= t < k ==> line@[t] != '#',
        decreases line@.len() - k,
    {
        if line[k] == '#' {
            return true;
        }
        k += 1;
    }
    false
}

/// The indices of the rows that hold no galaxy, in increasing order.
pub fn get_expanding_rows(input: &[String]) -> (r: Vec<u64>)
    ensures
        r@.map_values(|x: u64| x as nat) == indices_where(|i: int| empty_row(views(input@), i), input@.len() as int),
{
    let ghost img = views(input@);
    let ghost p = |i: int| empty_row(img, i);
    let mut rows: Vec<u64> = Vec::new();
    let mut i: usize = 0;
    while i < input.len()
        invariant
            img == views(input@),
            p == (|i: int| empty_row(img, i)),
            i <= input@.len(),
            rows@.map_values(|x: u64| x as nat) == indices_where(p, i as int),
        decreases input@.len() - i,
    {
        let line = chars_of(input[i].as_str());
        assert(line@ == img[i as int]);
        let ghost before = rows@;
        if !has_galaxy(&line) {
            rows.push(i as u64);
            assert(rows@.map_values(|x: u64| x as nat) =~= before.map_values(|x: u64| x as nat).push(i as nat));
        }
        i += 1;
    }
    rows
}

/// The indices of the columns of the first line that hold no galaxy in any
/// line, in increasing order.
pub fn get_expanding_cols(input: &[String]) -> (r: Vec<u64>)
    requires
        columns_readable(views(input@)),
    ensures
        r@.map_values(|x: u64| x as nat) == indices_where(
            |c: int| empty_column(views(input@), c),
            views(input@)[0].len() as int,
        ),
{
    let ghost img = views(input@);
    let ghost p = |c: int| empty_column(img, c);
    let mut lines: Vec<Vec<char>> = Vec::new();
    let mut t: usize = 0;
    while t < input.len()
        invariant
            img == views(input@),
            t <= input@.len(),
            lines@.len() == t,
            forall|r: int| 0 <= r < t ==> #[trigger] lines@[r]@ == img[r],
        decreases input@.len() - t,
    {
        lines.push(chars_of(input[t].as_str()));
        t += 1;
    }
    let w = lines[0].len();
    let mut cols: Vec<u64> = Vec::new();
    let mut i: usize = 0;
    while i < w
        invariant
            img == views(input@),
            columns_readable(img),
            p == (|c: int| empty_column(img, c)),
            lines@.len() == img.len(),
            forall|r: int| 0 <= r < img.len() ==> #[trigger] lines@[r]@ == img[r],
            w == img[0].len(),
            i <= w,
            cols@.map_values(|x: u64| x as nat) == indices_where(p, i as int),
        decreases w - i,
    {
        let mut found = false;
        let mut r: usize = 0;
        while r < lines.len() && !found
            invariant
                lines@.len() == img.len(),
                columns_readable(img),
                forall|r: int| 0 <= r < img.len() ==> #[trigger] lines@[r]@ == img[r],
                w == img[0].len(),
                i < w,
                r <= lines@.len(),
                found ==> exists|q: int| 0 <= q < img.len() && img[q][i as int] == '#',
                forall|q: int| 0 <= q < r ==> img[q][i as int] != '#',
            decreases lines@.len() - r + (if found { 0int } else { 1int }),
        {
            assert(lines@[r as int]@ == img[r as int]);
            assert(img[r as int].len() >= w);
            if lines[r][i] == '#' {
                found = true;
            } else {
                r += 1;
            }
        }
        let ghost before = cols@;
        if !found {
            cols.push(i as u64);
            assert(cols@.map_values(|x: u64| x as nat) =~= before.map_values(|x: u64| x as nat).push(i as nat));
        }
        i += 1;
    }
    cols
}

/// A position in the image: column `x`, row `y`, from the top left.
#[derive(Clone, Copy, Debug, PartialEq, Eq, Structural)]
pub struct Point {
    pub x: i64,
    pub y: i64,
}

/// The galaxies among the first `k` cells of a row at height `y`, left to right.
pub open spec fn row_galaxies(row: Seq<char>, y: int, k: int) -> Seq<(int, int)>
    decreases k,
{
    if k <= 0 {
        Seq::empty()
    } else if row[k - 1] == '#' {
        row_galaxies(row, y, k - 1).push((k - 1, y))
    } else {
        row_galaxies(row, y, k - 1)
    }
}

/// The galaxies of the first `r` rows, row by row and left to right.
pub open spec fn galaxies_upto(img: Seq<Seq<char>>, r: int) -> Seq<(int, int)>
    decreases r,
{
    if r <= 0 {
        Seq::empty()
    } else {
        galaxies_upto(img, r - 1) + row_galaxies(img[r - 1], r - 1, img[r - 1].len() as int)
    }
}

pub open spec fn point_view(p: Point) -> (int, int) {
    (p.x as int, p.y as int)
}

pub open spec fn points_view(ps: Seq<Point>) -> Seq<(int, int)> {
    ps.map_values(|p: Point| point_view(p))
}

/// The positions of the galaxies, row by row and left to right; `None` when
/// a position does not fit in an `i64`.
pub fn get_galaxies(input: &[String]) -> (r: Option<Vec<Point>>)
    ensures
        r matches Some(ps) ==> points_view(ps@) == galaxies_upto(views(input@), input@.len() as int),
        input@.len() <= i64::MAX && (forall|i: int| 0 <= i < input@.len() ==> #[trigger] input@[i]@.len() <= i64::MAX) ==> r is Some,
{
    let ghost img = views(input@);
    let mut galaxies: Vec<Point> = Vec::new();
    let mut i: usize = 0;
    while i < input.len()
        invariant
            img == views(input@),
            i <= input@.len(),
            points_view(galaxies@) == galaxies_upto(img, i as int),
        decreases input@.len() - i,
    {
        let line = chars_of(input[i].as_str());
        assert(line@ == img[i as int]);
        if i as u64 > i64::MAX as u64 {
            return None;
        }
        let ghost before = points_view(galaxies@);
        let mut j: usize = 0;
        while j < line.len()
            invariant
                img == views(input@),
                i < input@.len(),
                i <= i64::MAX,
                line@ == img[i as int],
                j <= line@.len(),
                points_view(galaxies@) == before + row_galaxies(line@, i as int, j as int),
            decreases line@.len() - j,
        {
            if line[j] == '#' {
                if j as u64 > i64::MAX as u64 {
                    return None;
                }
                let ghost prev = galaxies@;
                galaxies.push(Point { x: j as i64, y: i as i64 });
                assert(points_view(galaxies@) =~= points_view(prev).push((j as int, i as int)));
                assert(before + row_galaxies(line@, i as int, j + 1) =~= (before + row_galaxies(line@, i as int, j as int)).push((j as int, i as int)));
            }
            j += 1;
        }
        assert(points_view(galaxies@) =~= galaxies_upto(img, i + 1));
        i += 1;
    }
    Some(galaxies)
}

/// How many of the leading entries of `lines` lie below `v`, stopping at the
/// first that does not.
pub open spec fn leading_below(lines: Seq<nat>, v: int, k: int) -> nat
    decreases k,
{
    if k <= 0 {
        0
    } else if leading_below(lines, v, k - 1) == k - 1 && (lines[k - 1] as int) < v {
        k as nat
    } else {
        leading_below(lines, v, k - 1)
    }
}

/// A galaxy moved by `factor - 1` for each empty column left of it and each
/// empty row above it, the empty lines given in increasing order.
pub open spec fn expanded(p: (int, int), cols: Seq<nat>, rows: Seq<nat>, factor: nat) -> (int, int) {
    (
        p.0 + (factor - 1) * leading_below(cols, p.0, cols.len() as int),
        p.1 + (factor - 1) * leading_below(rows, p.1, rows.len() as int),
    )
}

proof fn lemma_leading_below_bound(lines: Seq<nat>, v: int, k: int)
    requires
        k >= 0,
    ensures
        leading_below(lines, v, k) <= k,
    decreases k,
{
    if k > 0 {
        lemma_leading_below_bound(lines, v, k - 1);
    }
}

pub open spec fn as_nats(v: Seq<u64>) -> Seq<nat> {
    v.map_values(|c: u64| c as nat)
}

proof fn lemma_leading_below_grows(lines: Seq<nat>, v: int, k: int, k2: int)
    requires
        0 <= k <= k2,
    ensures
        leading_below(lines, v, k) <= leading_below(lines, v, k2),
    decreases k2 - k,
{
    if k < k2 {
        lemma_leading_below_grows(lines, v, k, k2 - 1);
    }
}

/// The move of a galaxy keeps both its coordinates, and each shift, within
/// an `i64`.
pub open spec fn expansion_fits(p: (int, int), cols: Seq<nat>, rows: Seq<nat>, factor: nat) -> bool {
    let dx = (factor - 1) * leading_below(cols, p.0, cols.len() as int);
    let dy = (factor - 1) * leading_below(rows, p.1, rows.len() as int);
    &&& dx <= i64::MAX
    &&& dy <= i64::MAX
    &&& p.0 + dx <= i64::MAX
    &&& p.1 + dy <= i64::MAX
}

fn shift(lines: &[u64], v: i64, step: u64) -> (r: Option<u64>)
    ensures
        r is Some <==> step * leading_below(as_nats(lines@), v as int, lines@.len() as int) <= u64::MAX,
        r matches Some(s) ==> s == step * leading_below(as_nats(lines@), v as int, lines@.len() as int),
{
    let ghost ls = as_nats(lines@);
    let mut total: u64 = 0;
    let mut k: usize = 0;
    let mut counting = true;
    while k < lines.len()
        invariant
            k <= lines@.len(),
            ls == as_nats(lines@),
            counting == (leading_below(ls, v as int, k as int) == k),
            total == step * leading_below(ls, v as int, k as int),
        decreases lines@.len() - k,
    {
        proof {
            lemma_leading_below_bound(ls, v as int, k as int);
        }
        assert(ls[k as int] == lines@[k as int] as nat);
        if counting && v > lines[k] as i64 && lines[k] <= i64::MAX as u64 {
            if total > u64::MAX - step {
                proof {
                    let total_lead = leading_below(ls, v as int, lines@.len() as int);
                    lemma_leading_below_grows(ls, v as int, k + 1, lines@.len() as int);
                    assert(leading_below(ls, v as int, k + 1) == k + 1);
                    assert(step * (k + 1) <= step * total_lead) by (nonlinear_arith)
                        requires
                            k + 1 <= total_lead,
                    ;
                    assert(step * (k + 1) == step * k + step) by (nonlinear_arith);
                }
                return None;
            }
            total = total + step;
            proof {
                assert(step * (k + 1) == step * k + step) by (nonlinear_arith);
            }
        } else {
            counting = false;
        }
        k += 1;
    }
    Some(total)
}

/// Moves each galaxy away from the top left by `expansion_factor - 1` for each
/// empty column left of it and each empty row above it; the empty lines are
/// given in increasing order. Returns `false`, and moves nothing, when a
/// coordinate would overflow.
pub fn expand_universe(
    galaxies: &mut Vec<Point>,
    expanding_cols: &[u64],
    expanding_rows: &[u64],
    expansion_factor: u64,
) -> (ok: bool)
    requires
        expansion_factor >= 1,
    ensures
        ok ==> points_view(final(galaxies)@) == points_view(old(galaxies)@).map_values(
            |p: (int, int)| expanded(p, as_nats(expanding_cols@), as_nats(expanding_rows@), expansion_factor as nat),
        ),
        !ok ==> final(galaxies)@ == old(galaxies)@,
        ok <==> forall|i: int| 0 <= i < old(galaxies)@.len() ==> #[trigger] expansion_fits(
            point_view(old(galaxies)@[i]),
            as_nats(expanding_cols@),
            as_nats(expanding_rows@),
            expansion_factor as nat,
        ),
{
    let step = expansion_factor - 1;
    let mut moved: Vec<Point> = Vec::new();
    let mut i: usize = 0;
    while i < galaxies.len()
        invariant
            galaxies@ == old(galaxies)@,
            step == expansion_factor - 1,
            i <= galaxies@.len(),
            points_view(moved@) == points_view(galaxies@).subrange(0, i as int).map_values(
                |p: (int, int)| expanded(p, as_nats(expanding_cols@), as_nats(expanding_rows@), expansion_factor as nat),
            ),
            forall|t: int| 0 <= t < i ==> #[trigger] expansion_fits(
                point_view(old(galaxies)@[t]),
                as_nats(expanding_cols@),
                as_nats(expanding_rows@),
                expansion_factor as nat,
            ),
        decreases galaxies@.len() - i,
    {
        let g = galaxies[i];
        let ghost fits = expansion_fits(
            point_view(g),
            as_nats(expanding_cols@),
            as_nats(expanding_rows@),
            expansion_factor as nat,
        );
        let dx = match shift(expanding_cols, g.x, step) {
            Some(d) => d,
            None => {
                assert(!fits);
                return false;
            },
        };
        let dy = match shift(expanding_rows, g.y, step) {
            Some(d) => d,
            None => {
                assert(!fits);
                return false;
            },
        };
        if dx > i64::MAX as u64 || dy > i64::MAX as u64 {
            assert(!fits);
                return false;
        }
        let x = match g.x.checked_add(dx as i64) {
            Some(v) => v,
            None => {
                assert(!fits);
                return false;
            },
        };
        let y = match g.y.checked_add(dy as i64) {
            Some(v) => v,
            None => {
                assert(!fits);
                return false;
            },
        };
        let ghost prev = moved@;
        let q = Point { x, y };
        assert(point_view(g) == points_view(galaxies@)[i as int]);
        assert(point_view(q) == expanded(point_view(g), as_nats(expanding_cols@), as_nats(expanding_rows@), expansion_factor as nat));
        assert(fits);
        moved.push(q);
        assert(points_view(moved@) =~= points_view(prev).push(point_view(q)));
        assert(points_view(moved@) =~= points_view(galaxies@).subrange(0, i + 1).map_values(
            |p: (int, int)| expanded(p, as_nats(expanding_cols@), as_nats(expanding_rows@), expansion_factor as nat),
        ));
        i += 1;
    }
    assert(points_view(galaxies@).subrange(0, i as int) =~= points_view(galaxies@));
    *galaxies = moved;
    true
}

pub open spec fn abs_diff(a: int, b: int) -> nat {
    if a >= b {
        (a - b) as nat
    } else {
        (b - a) as nat
    }
}

pub open spec fn distance(p: (int, int), q: (int, int)) -> nat {
    abs_diff(p.0, q.0) + abs_diff(p.1, q.1)
}

/// The distances from point `i` to the first `j` points.
pub open spec fn distances_to(ps: Seq<(int, int)>, i: int, j: int) -> nat
    decreases j,
{
    if j <= 0 {
        0
    } else {
        distances_to(ps, i, j - 1) + distance(ps[j - 1], ps[i])
    }
}

/// The sum of the distances over all pairs among the first `k` points.
pub open spec fn pair_distance_sum(ps: Seq<(int, int)>, k: int) -> nat
    decreases k,
{
    if k <= 0 {
        0
    } else {
        pair_distance_sum(ps, k - 1) + distances_to(ps, k - 1, k - 1)
    }
}

fn distance_of(p: Point, q: Point) -> (r: u128)
    ensures
        r == distance(point_view(p), point_view(q)),
{
    let dx = if p.x >= q.x {
        (p.x as i128 - q.x as i128) as u128
    } else {
        (q.x as i128 - p.x as i128) as u128
    };
    let dy = if p.y >= q.y {
        (p.y as i128 - q.y as i128) as u128
    } else {
        (q.y as i128 - p.y as i128) as u128
    };
    dx + dy
}

/// The sum of the distances between all pairs of points, each distance the
/// number of steps along rows and columns; `None` when it does not fit in a
/// `u64`.
pub fn manhattan_distance_sum(points: &Vec<Point>) -> (r: Option<u64>)
    ensures
        r is Some <==> pair_distance_sum(points_view(points@), points@.len() as int) <= u64::MAX,
        r matches Some(s) ==> s == pair_distance_sum(points_view(points@), points@.len() as int),
{
    let ghost ps = points_view(points@);
    let mut sum: u64 = 0;
    let mut i: usize = 0;
    while i < points.len()
        invariant
            ps == points_view(points@),
            i <= points@.len(),
            sum == pair_distance_sum(ps, i as int),
        decreases points@.len() - i,
    {
        let mut j: usize = 0;
        while j < i
            invariant
                ps == points_view(points@),
                i < points@.len(),
                j <= i,
                sum == pair_distance_sum(ps, i as int) + distances_to(ps, i as int, j as int),
            decreases i - j,
        {
            let d = distance_of(points[j], points[i]);
            proof {
                lemma_distances_grow(ps, i as int, j as int + 1, i as int);
                lemma_pairs_grow(ps, i as int + 1, points@.len() as int);
            }
            if d > (u64::MAX - sum) as u128 {
                return None;
            }
            sum = sum + d as u64;
            j += 1;
        }
        i += 1;
    }
    Some(sum)
}

proof fn lemma_distances_grow(ps: Seq<(int, int)>, i: int, j: int, k: int)
    requires
        0 <= j <= k,
    ensures
        distances_to(ps, i, j) <= distances_to(ps, i, k),
    decreases k - j,
{
    if j < k {
        lemma_distances_grow(ps, i, j, k - 1);
    }
}

proof fn lemma_pairs_grow(ps: Seq<(int, int)>, i: int, k: int)
    requires
        0 <= i <= k,
    ensures
        pair_distance_sum(ps, i) <= pair_distance_sum(ps, k),
    decreases k - i,
{
    if i < k {
        lemma_pairs_grow(ps, i, k - 1);
    }
}

/// The galaxies of the image once every empty row and column is `factor`
/// rows or columns wide.
pub open spec fn expanded_galaxies(img: Seq<Seq<char>>, factor: nat) -> Seq<(int, int)> {
    galaxies_upto(img, img.len() as int).map_values(
        |p: (int, int)|
            expanded(
                p,
                indices_where(|c: int| empty_column(img, c), img[0].len() as int),
                indices_where(|i: int| empty_row(img, i), img.len() as int),
                factor,
            ),
    )
}

/// The sum of the distances between all pairs of galaxies once every empty
/// row and column is `factor` wide.
pub open spec fn expanded_distance_sum(img: Seq<Seq<char>>, factor: nat) -> nat {
    pair_distance_sum(expanded_galaxies(img, factor), expanded_galaxies(img, factor).len() as int)
}

/// The image can be read, its galaxies moved and their distances summed
/// within the integer types: lines at least as long as the first, positions
/// and moved positions within an `i64`, and the sum within a `u64`.
pub open spec fn expansion_computable(img: Seq<Seq<char>>, factor: nat) -> bool {
    let gs = galaxies_upto(img, img.len() as int);
    let cols = indices_where(|c: int| empty_column(img, c), img[0].len() as int);
    let rows = indices_where(|i: int| empty_row(img, i), img.len() as int);
    &&& columns_readable(img)
    &&& img.len() <= i64::MAX
    &&& forall|i: int| 0 <= i < img.len() ==> #[trigger] img[i].len() <= i64::MAX
    &&& forall|i: int| 0 <= i < gs.len() ==> #[trigger] expansion_fits(gs[i], cols, rows, factor)
    &&& expanded_distance_sum(img, factor) <= u64::MAX
}

fn expanded_distances(input: &Vec<String>, factor: u64) -> (r: Option<u64>)
    requires
        factor >= 1,
    ensures
        r matches Some(s) ==> columns_readable(views(input@)) && s == expanded_distance_sum(views(input@), factor as nat),
        expansion_computable(views(input@), factor as nat) ==> r is Some,
{
    if !columns_are_readable(input) {
        return None;
    }
    proof {
        if expansion_computable(views(input@), factor as nat) {
            assert forall|i: int| 0 <= i < input@.len() implies #[trigger] input@[i]@.len() <= i64::MAX by {
                assert(views(input@)[i] == input@[i]@);
            }
        }
    }
    let mut galaxies = match get_galaxies(input.as_slice()) {
        Some(g) => g,
        None => {
            return None;
        },
    };
    let rows = get_expanding_rows(input.as_slice());
    let cols = get_expanding_cols(input.as_slice());
    proof {
        let img = views(input@);
        assert(as_nats(cols@) == indices_where(|c: int| empty_column(img, c), img[0].len() as int));
        assert(as_nats(rows@) == indices_where(|i: int| empty_row(img, i), img.len() as int));
        assert forall|i: int| 0 <= i < galaxies@.len() implies point_view(galaxies@[i]) == galaxies_upto(img, img.len() as int)[i] by {
            assert(points_view(galaxies@)[i] == point_view(galaxies@[i]));
        }
        if expansion_computable(img, factor as nat) {
            assert forall|i: int| 0 <= i < galaxies@.len() implies #[trigger] expansion_fits(
                point_view(galaxies@[i]),
                as_nats(cols@),
                as_nats(rows@),
                factor as nat,
            ) by {
                assert(point_view(galaxies@[i]) == galaxies_upto(img, img.len() as int)[i]);
                assert(expansion_fits(galaxies_upto(img, img.len() as int)[i], as_nats(cols@), as_nats(rows@), factor as nat));
            }
        }
    }
    if !expand_universe(&mut galaxies, cols.as_slice(), rows.as_slice(), factor) {
        return None;
    }
    proof {
        assert(points_view(galaxies@) =~= expanded_galaxies(views(input@), factor as nat));
    }
    manhattan_distance_sum(&galaxies)
}

/// The sum of the distances between all pairs of galaxies once each empty row
/// and column is doubled; `None` when a line is shorter than the first or a
/// value overflows.
pub fn part1(input: Vec<String>) -> (r: Option<u64>)
    ensures
        r matches Some(s) ==> columns_readable(views(input@)) && s == expanded_distance_sum(views(input@), 2),
        expansion_computable(views(input@), 2) ==> r is Some,
{
    expanded_distances(&input, 2)
}

/// The sum of the distances between all pairs of galaxies once each empty row
/// and column is a million wide; `None` as for `part1`.
pub fn part2(input: Vec<String>) -> (r: Option<u64>)
    ensures
        r matches Some(s) ==> columns_readable(views(input@)) && s == expanded_distance_sum(views(input@), 1000000),
        expansion_computable(views(input@), 1000000) ==> r is Some,
{
    expanded_distances(&input, 1000000)
}

fn columns_are_readable(input: &Vec<String>) -> (r: bool)
    ensures
        r == columns_readable(views(input@)),
{
    if input.len() == 0 {
        return false;
    }
    let w = input[0].as_str().unicode_len();
    let mut i: usize = 0;
    while i < input.len()
        invariant
            input@.len() > 0,
            w == input@[0]@.len(),
            i <= input@.len(),
            forall|r: int| 0 <= r < i ==> #[trigger] views(input@)[r].len() >= views(input@)[0].len(),
        decreases input@.len() - i,
    {
        if input[i].as_str().unicode_len() < w {
            assert(views(input@)[i as int].len() < views(input@)[0].len());
            return false;
        }
        i += 1;
    }
    true
}

/// The values are in increasing order.
pub open spec fn increasing(v: Seq<i64>) -> bool {
    forall|i: int, j: int| 0 <= i < j < v.len() ==> v[i] <= v[j]
}

/// Relies on std's `slice::sort`: afterwards the values are in increasing
/// order and are the same values, each as often, as before.
#[verifier::external_body]
fn sort_values(v: &mut Vec<i64>)
    ensures
        increasing(final(v)@),
        final(v)@.to_multiset() == old(v)@.to_multiset(),
{
    v.sort()
}

/// The sum over the first `k` indices `i >= 1` of
/// `i * v[i] - (n - i) * v[i - 1]`, `n` the number of values: over increasing
/// values, the sum of the differences of all pairs.
pub open spec fn sweep_sum(v: Seq<i64>, k: int) -> int
    decreases k,
{
    if k <= 1 {
        0
    } else {
        sweep_sum(v, k - 1) + (k - 1) * v[k - 1] - (v.len() - (k - 1)) * v[k - 2]
    }
}

/// The sorted coordinates of the points: `xs` their columns and `ys` their
/// rows, each in increasing order.
pub open spec fn sorted_coordinates(ps: Seq<Point>, xs: Seq<i64>, ys: Seq<i64>) -> bool {
    &&& increasing(xs)
    &&& increasing(ys)
    &&& xs.to_multiset() == ps.map_values(|p: Point| p.x).to_multiset()
    &&& ys.to_multiset() == ps.map_values(|p: Point| p.y).to_multiset()
}

/// Term `i` of the sweep, its two products and the sum up to it fit in an
/// `i128`.
pub open spec fn sweep_step_fits(v: Seq<i64>, i: int) -> bool {
    let up = i * v[i];
    let down = (v.len() - i) * v[i - 1];
    &&& i128::MIN <= up <= i128::MAX
    &&& i128::MIN <= down <= i128::MAX
    &&& i128::MIN <= up - down <= i128::MAX
    &&& i128::MIN <= sweep_sum(v, i + 1) <= i128::MAX
}

/// The sweep over `v` can be computed in `i128`.
pub open spec fn sweep_fits(v: Seq<i64>) -> bool {
    v.len() <= i64::MAX && forall|i: int| 1 <= i < v.len() ==> #[trigger] sweep_step_fits(v, i)
}

fn sweep(v: &Vec<i64>) -> (r: Option<i128>)
    ensures
        r matches Some(s) ==> s == sweep_sum(v@, v@.len() as int),
        sweep_fits(v@) ==> r is Some,
{
    let n = v.len();
    if n as u64 > i64::MAX as u64 {
        return None;
    }
    let mut sum: i128 = 0;
    let mut i: usize = 1;
    while i < n
        invariant
            n == v@.len(),
            n <= i64::MAX,
            1 <= i,
            i <= n || i == 1,
            sum == sweep_sum(v@, i as int),
        decreases n - i,
    {
        let up = match (i as i128).checked_mul(v[i] as i128) {
            Some(a) => a,
            None => {
                assert(!sweep_step_fits(v@, i as int));
                return None;
            },
        };
        let down = match ((n - i) as i128).checked_mul(v[i - 1] as i128) {
            Some(b) => b,
            None => {
                assert(!sweep_step_fits(v@, i as int));
                return None;
            },
        };
        let term = match up.checked_sub(down) {
            Some(t) => t,
            None => {
                assert(!sweep_step_fits(v@, i as int));
                return None;
            },
        };
        sum = match sum.checked_add(term) {
            Some(t) => t,
            None => {
                assert(!sweep_step_fits(v@, i as int));
                return None;
            },
        };
        i += 1;
    }
    if n == 0 {
        assert(sweep_sum(v@, 1) == sweep_sum(v@, 0));
    }
    Some(sum)
}

/// Both sweeps, their sum and its magnitude fit in their integer types.
pub open spec fn sweeps_fit(xs: Seq<i64>, ys: Seq<i64>) -> bool {
    let t = sweep_sum(xs, xs.len() as int) + sweep_sum(ys, ys.len() as int);
    &&& sweep_fits(xs)
    &&& sweep_fits(ys)
    &&& i128::MIN < t <= i128::MAX
    &&& abs_int(t) <= u64::MAX
}

/// The sum of the distances between all pairs of points, from the sorted
/// columns and rows: with `xs` sorted, each pair's difference is counted once
/// by `sweep_sum`. `None` when a value overflows.
pub fn fast_manhattan_distance_sum(points: &Vec<Point>) -> (r: Option<u64>)
    ensures
        r matches Some(v) ==> exists|xs: Seq<i64>, ys: Seq<i64>| #[trigger] sorted_coordinates(points@, xs, ys)
            && v == abs_int(sweep_sum(xs, xs.len() as int) + sweep_sum(ys, ys.len() as int)),
        (forall|xs: Seq<i64>, ys: Seq<i64>| #[trigger] sorted_coordinates(points@, xs, ys) ==> sweeps_fit(xs, ys))
            ==> r is Some,
{
    let mut x_coords: Vec<i64> = Vec::new();
    let mut y_coords: Vec<i64> = Vec::new();
    let mut i: usize = 0;
    while i < points.len()
        invariant
            i <= points@.len(),
            x_coords@ == points@.subrange(0, i as int).map_values(|p: Point| p.x),
            y_coords@ == points@.subrange(0, i as int).map_values(|p: Point| p.y),
        decreases points@.len() - i,
    {
        x_coords.push(points[i].x);
        y_coords.push(points[i].y);
        i += 1;
        assert(x_coords@ =~= points@.subrange(0, i as int).map_values(|p: Point| p.x));
        assert(y_coords@ =~= points@.subrange(0, i as int).map_values(|p: Point| p.y));
    }
    assert(points@.subrange(0, i as int) =~= points@);
    sort_values(&mut x_coords);
    sort_values(&mut y_coords);
    assert(sorted_coordinates(points@, x_coords@, y_coords@));
    let sx = match sweep(&x_coords) {
        Some(s) => s,
        None => {
            return None;
        },
    };
    let sy = match sweep(&y_coords) {
        Some(s) => s,
        None => {
            return None;
        },
    };
    let total = match sx.checked_add(sy) {
        Some(t) => t,
        None => {
            return None;
        },
    };
    let magnitude: u128 = if total < 0 {
        match 0i128.checked_sub(total) {
            Some(m) => m as u128,
            None => {
                return None;
            },
        }
    } else {
        total as u128
    };
    if magnitude > u64::MAX as u128 {
        return None;
    }
    assert(sorted_coordinates(points@, x_coords@, y_coords@));
    Some(magnitude as u64)
}

pub open spec fn abs_int(a: int) -> int {
    if a < 0 {
        -a
    } else {
        a
    }
}

} // verus!
