//! Reflection lines in patterns of ash and rock, exact or with a given number of
//! smudges.
use vstd::prelude::*;
use crate::text::{chars_of, split_groups, split_on_empty, group_views};

verus! {

/// There is at least one row, and every row is at least as long as the
/// first, whose width the pattern is read at.
pub open spec fn wide_enough(g: Seq<Seq<char>>) -> bool {
    g.len() > 0 && forall|r: int| 0 <= r < g.len() ==> #[trigger] g[r].len() >= g[0].len()
}

/// The pattern is small enough that every count of differing cells fits in a
/// `u64`.
pub open spec fn countable(g: Seq<Seq<char>>) -> bool {
    g.len() * g[0].len() <= u64::MAX
}

/// How many of the first `k` positions differ between rows `a` and `b`.
pub open spec fn row_mismatches(a: Seq<char>, b: Seq<char>, k: int) -> nat
    decreases k,
{
    if k <= 0 {
        0
    } else {
        row_mismatches(a, b, k - 1) + (if a[k - 1] != b[k - 1] {
            1nat
        } else {
            0nat
        })
    }
}

/// How many of the first `rows` rows differ between columns `c1` and `c2`.
pub open spec fn column_mismatches(g: Seq<Seq<char>>, c1: int, c2: int, rows: int) -> nat
    decreases rows,
{
    if rows <= 0 {
        0
    } else {
        column_mismatches(g, c1, c2, rows - 1) + (if g[rows - 1][c1] != g[rows - 1][c2] {
            1nat
        } else {
            0nat
        })
    }
}

/// Differing cells over the first `j` row pairs mirrored across the line below
/// row `i`.
pub open spec fn horizontal_diff_upto(g: Seq<Seq<char>>, i: int, j: int) -> nat
    decreases j,
{
    if j <= 0 {
        0
    } else {
        horizontal_diff_upto(g, i, j - 1) + (if i - (j - 1) >= 0 && i + j < g.len() {
            row_mismatches(g[i - (j - 1)], g[i + j], g[0].len() as int)
        } else {
            0nat
        })
    }
}

/// Differing cells when the pattern is folded along the line below row `i`.
pub open spec fn horizontal_diff(g: Seq<Seq<char>>, i: int) -> nat {
    horizontal_diff_upto(g, i, (g.len() / 2) as int)
}

/// Differing cells over the first `j` column pairs mirrored across the line
/// right of column `i`.
pub open spec fn vertical_diff_upto(g: Seq<Seq<char>>, i: int, j: int) -> nat
    decreases j,
{
    if j <= 0 {
        0
    } else {
        vertical_diff_upto(g, i, j - 1) + (if i - (j - 1) >= 0 && i + j < g[0].len() {
            column_mismatches(g, i - (j - 1), i + j, g.len() as int)
        } else {
            0nat
        })
    }
}

/// Differing cells when the pattern is folded along the line right of column
/// `i`.
pub open spec fn vertical_diff(g: Seq<Seq<char>>, i: int) -> nat {
    vertical_diff_upto(g, i, (g[0].len() / 2) as int)
}

/// One more than the first line at or after `i` (below a row, or right of a
/// column) whose fold leaves exactly `allowed` differing cells; zero if none.
pub open spec fn first_reflection(g: Seq<Seq<char>>, allowed: nat, i: int, horizontal: bool) -> nat
    decreases (if horizontal { g.len() as int } else { g[0].len() as int }) - i,
{
    let limit = if horizontal {
        g.len() - 1
    } else {
        g[0].len() - 1
    };
    if i < 0 || i >= limit {
        0
    } else if (if horizontal {
        horizontal_diff(g, i)
    } else {
        vertical_diff(g, i)
    }) == allowed {
        (i + 1) as nat
    } else {
        first_reflection(g, allowed, i + 1, horizontal)
    }
}

pub open spec fn views(group: Seq<String>) -> Seq<Seq<char>> {
    group.map_values(|s: String| s@)
}

proof fn lemma_row_bound(a: Seq<char>, b: Seq<char>, k: int)
    requires
        k >= 0,
    ensures
        row_mismatches(a, b, k) <= k,
    decreases k,
{
    if k > 0 {
        lemma_row_bound(a, b, k - 1);
    }
}

proof fn lemma_column_bound(g: Seq<Seq<char>>, c1: int, c2: int, rows: int)
    requires
        rows >= 0,
    ensures
        column_mismatches(g, c1, c2, rows) <= rows,
    decreases rows,
{
    if rows > 0 {
        lemma_column_bound(g, c1, c2, rows - 1);
    }
}

proof fn lemma_row_mono(a: Seq<char>, b: Seq<char>, k: int, k2: int)
    requires
        0 <= k <= k2,
    ensures
        row_mismatches(a, b, k) <= row_mismatches(a, b, k2),
    decreases k2 - k,
{
    if k < k2 {
        lemma_row_mono(a, b, k, k2 - 1);
    }
}

proof fn lemma_column_mono(g: Seq<Seq<char>>, c1: int, c2: int, r: int, r2: int)
    requires
        0 <= r <= r2,
    ensures
        column_mismatches(g, c1, c2, r) <= column_mismatches(g, c1, c2, r2),
    decreases r2 - r,
{
    if r < r2 {
        lemma_column_mono(g, c1, c2, r, r2 - 1);
    }
}

proof fn lemma_horizontal_bound(g: Seq<Seq<char>>, i: int, j: int)
    requires
        j >= 0,
    ensures
        horizontal_diff_upto(g, i, j) <= j * g[0].len(),
    decreases j,
{
    if j > 0 {
        lemma_horizontal_bound(g, i, j - 1);
        lemma_row_bound(g[i - (j - 1)], g[i + j], g[0].len() as int);
        assert((j - 1) * g[0].len() + g[0].len() == j * g[0].len()) by (nonlinear_arith);
    }
}

proof fn lemma_vertical_bound(g: Seq<Seq<char>>, i: int, j: int)
    requires
        j >= 0,
    ensures
        vertical_diff_upto(g, i, j) <= j * g.len(),
    decreases j,
{
    if j > 0 {
        lemma_vertical_bound(g, i, j - 1);
        lemma_column_bound(g, i - (j - 1), i + j, g.len() as int);
        assert((j - 1) * g.len() + g.len() == j * g.len()) by (nonlinear_arith);
    }
}

fn grid_of(group: &[String]) -> (g: Vec<Vec<char>>)
    ensures
        g@.len() == group@.len(),
        forall|r: int| 0 <= r < g@.len() ==> #[trigger] g@[r]@ == group@[r]@,
{
    let mut g: Vec<Vec<char>> = Vec::new();
    let mut i: usize = 0;
    while i < group.len()
        invariant
            i <= group@.len(),
            g@.len() == i,
            forall|r: int| 0 <= r < i ==> #[trigger] g@[r]@ == group@[r]@,
        decreases group@.len() - i,
    {
        g.push(chars_of(group[i].as_str()));
        i += 1;
    }
    g
}

pub open spec fn grid_views(g: Seq<Vec<char>>) -> Seq<Seq<char>> {
    g.map_values(|v: Vec<char>| v@)
}

/// Counts the cells that differ when the pattern is folded along the line
/// below row `i`.
fn horizontal_mismatches(g: &Vec<Vec<char>>, i: usize) -> (r: u64)
    requires
        wide_enough(grid_views(g@)),
        countable(grid_views(g@)),
    ensures
        r == horizontal_diff(grid_views(g@), i as int),
{
    let ghost gv = grid_views(g@);
    let h = g.len();
    let w = g[0].len();
    assert(gv[0].len() == w);
    let mut diff: u64 = 0;
    let mut j: usize = 0;
    while j < h / 2
        invariant
            gv == grid_views(g@),
            wide_enough(gv),
            countable(gv),
            h == gv.len(),
            w == gv[0].len(),
            j <= h / 2,
            diff == horizontal_diff_upto(gv, i as int, j as int),
        decreases h / 2 - j,
    {
        if i >= j && i < h && j + 1 < h - i {
            let a = &g[i - j];
            let b = &g[i + j + 1];
            assert(gv[i - j].len() >= w && gv[i + j + 1].len() >= w);
            let mut k: usize = 0;
            while k < w
                invariant
                    gv == grid_views(g@),
                    wide_enough(gv),
                    countable(gv),
                    h == gv.len(),
                    w == gv[0].len(),
                    j < h / 2,
                    i >= j,
                    i + j + 1 < h,
                    a@ == gv[i - j],
                    b@ == gv[i + j + 1],
                    a@.len() >= w,
                    b@.len() >= w,
                    k <= w,
                    diff == horizontal_diff_upto(gv, i as int, j as int) + row_mismatches(a@, b@, k as int),
                decreases w - k,
            {
                proof {
                    lemma_horizontal_bound(gv, i as int, j as int + 1);
                    lemma_row_mono(a@, b@, k as int + 1, w as int);
                    assert((j + 1) * w <= h * w) by (nonlinear_arith)
                        requires
                            j + 1 <= h,
                    ;
                }
                if a[k] != b[k] {
                    diff = diff + 1;
                }
                k += 1;
            }
        }
        j += 1;
    }
    diff
}

/// Counts the cells that differ when the pattern is folded along the line
/// right of column `i`.
fn vertical_mismatches(g: &Vec<Vec<char>>, i: usize) -> (r: u64)
    requires
        wide_enough(grid_views(g@)),
        countable(grid_views(g@)),
    ensures
        r == vertical_diff(grid_views(g@), i as int),
{
    let ghost gv = grid_views(g@);
    let h = g.len();
    let w = g[0].len();
    assert(gv[0].len() == w);
    let mut diff: u64 = 0;
    let mut j: usize = 0;
    while j < w / 2
        invariant
            gv == grid_views(g@),
            wide_enough(gv),
            countable(gv),
            h == gv.len(),
            w == gv[0].len(),
            j <= w / 2,
            diff == vertical_diff_upto(gv, i as int, j as int),
        decreases w / 2 - j,
    {
        if i >= j && i < w && j + 1 < w - i {
            let mut line: usize = 0;
            while line < h
                invariant
                    gv == grid_views(g@),
                    wide_enough(gv),
                    countable(gv),
                    h == gv.len(),
                    w == gv[0].len(),
                    j < w / 2,
                    i >= j,
                    i + j + 1 < w,
                    line <= h,
                    diff == vertical_diff_upto(gv, i as int, j as int) + column_mismatches(
                        gv,
                        i - j,
                        i + j + 1,
                        line as int,
                    ),
                decreases h - line,
            {
                proof {
                    lemma_vertical_bound(gv, i as int, j as int + 1);
                    lemma_column_mono(gv, i - j, i + j + 1, line as int + 1, h as int);
                    assert((j + 1) * h <= h * w) by (nonlinear_arith)
                        requires
                            j + 1 <= w,
                    ;
                }
                assert(gv[line as int].len() >= w);
                assert(g@[line as int]@ == gv[line as int]);
                if g[line][i - j] != g[line][i + j + 1] {
                    diff = diff + 1;
                }
                line += 1;
            }
        }
        j += 1;
    }
    diff
}

fn find_in_grid(g: &Vec<Vec<char>>, allowed_smudges: u64, horizontal: bool) -> (r: u64)
    requires
        wide_enough(grid_views(g@)),
        countable(grid_views(g@)),
        !horizontal ==> grid_views(g@)[0].len() > 0,
    ensures
        r == first_reflection(grid_views(g@), allowed_smudges as nat, 0, horizontal),
{
    let ghost gv = grid_views(g@);
    let limit = if horizontal {
        g.len() - 1
    } else {
        g[0].len() - 1
    };
    assert(g@[0]@ == gv[0]);
    let mut i: usize = 0;
    while i < limit
        invariant
            gv == grid_views(g@),
            wide_enough(gv),
            countable(gv),
            limit == (if horizontal { gv.len() - 1 } else { gv[0].len() - 1 }),
            i <= limit,
            first_reflection(gv, allowed_smudges as nat, 0, horizontal) == first_reflection(
                gv,
                allowed_smudges as nat,
                i as int,
                horizontal,
            ),
        decreases limit - i,
    {
        let d = if horizontal {
            horizontal_mismatches(g, i)
        } else {
            vertical_mismatches(g, i)
        };
        if d == allowed_smudges {
            proof {
                assert(gv.len() * gv[0].len() <= u64::MAX);
            }
            return (i + 1) as u64;
        }
        i += 1;
    }
    0
}

/// One more than the first row after which the pattern folds onto itself with
/// exactly `allowed_smudges` differing cells; zero if there is none.
pub fn find_symetry_horizontal(group: &[String], allowed_smudges: u64) -> (r: u64)
    requires
        wide_enough(views(group@)),
        countable(views(group@)),
    ensures
        r == first_reflection(views(group@), allowed_smudges as nat, 0, true),
{
    let g = grid_of(group);
    assert(grid_views(g@) =~= views(group@));
    find_in_grid(&g, allowed_smudges, true)
}

/// One more than the first column after which the pattern folds onto itself
/// with exactly `allowed_smudges` differing cells; zero if there is none.
pub fn find_symetry_vertical(group: &[String], allowed_smudges: u64) -> (r: u64)
    requires
        wide_enough(views(group@)),
        views(group@)[0].len() > 0,
        countable(views(group@)),
    ensures
        r == first_reflection(views(group@), allowed_smudges as nat, 0, false),
{
    let g = grid_of(group);
    assert(grid_views(g@) =~= views(group@));
    find_in_grid(&g, allowed_smudges, false)
}

/// The number of cells that differ when the pattern is folded along the line
/// below row `i`.
pub fn check_symetry_horizontal(group: &[String], i: usize) -> (r: u64)
    requires
        wide_enough(views(group@)),
        countable(views(group@)),
    ensures
        r == horizontal_diff(views(group@), i as int),
{
    let g = grid_of(group);
    assert(grid_views(g@) =~= views(group@));
    horizontal_mismatches(&g, i)
}

/// The number of cells that differ when the pattern is folded along the line
/// right of column `i`.
pub fn check_symetry_vertically(group: &[String], i: usize) -> (r: u64)
    requires
        wide_enough(views(group@)),
        countable(views(group@)),
    ensures
        r == vertical_diff(views(group@), i as int),
{
    let g = grid_of(group);
    assert(grid_views(g@) =~= views(group@));
    vertical_mismatches(&g, i)
}

/// The score of one pattern: a hundred per row above its reflection line plus
/// the columns left of it.
pub open spec fn pattern_score(g: Seq<Seq<char>>, smudges: nat) -> nat {
    100 * first_reflection(g, smudges, 0, true) + first_reflection(g, smudges, 0, false)
}

pub open spec fn score_sum(groups: Seq<Seq<Seq<char>>>, smudges: nat) -> nat
    decreases groups.len(),
{
    if groups.len() == 0 {
        0
    } else {
        score_sum(groups.drop_last(), smudges) + pattern_score(groups.last(), smudges)
    }
}

/// A pattern on which the search is defined.
pub open spec fn searchable(g: Seq<Seq<char>>) -> bool {
    wide_enough(g) && g[0].len() > 0 && countable(g)
}

fn is_searchable(group: &Vec<String>) -> (r: bool)
    ensures
        r == searchable(views(group@)),
{
    let g = grid_of(group.as_slice());
    assert(grid_views(g@) =~= views(group@));
    if g.len() == 0 || g[0].len() == 0 {
        return false;
    }
    let w = g[0].len();
    let mut i: usize = 0;
    while i < g.len()
        invariant
            i <= g@.len(),
            g@.len() > 0,
            grid_views(g@) == views(group@),
            w == g@[0]@.len(),
            forall|r: int| 0 <= r < i ==> #[trigger] g@[r]@.len() >= w,
        decreases g@.len() - i,
    {
        if g[i].len() < w {
            assert(grid_views(g@)[i as int].len() < grid_views(g@)[0].len());
            return false;
        }
        i += 1;
    }
    assert(wide_enough(grid_views(g@)));
    (g.len() as u64).checked_mul(w as u64).is_some()
}

fn summarize(input: Vec<String>, smudges: u64) -> (r: Option<u64>)
    ensures
        r matches Some(v) ==> v == score_sum(split_groups(views(input@)), smudges as nat),
        (forall|i: int| 0 <= i < split_groups(views(input@)).len() ==> searchable(
            #[trigger] split_groups(views(input@))[i],
        )) && score_sum(split_groups(views(input@)), smudges as nat) <= u64::MAX ==> r is Some,
        (exists|i: int| 0 <= i < split_groups(views(input@)).len() && !searchable(
            #[trigger] split_groups(views(input@))[i],
        )) ==> r is None,
{
    let groups = split_on_empty(&input);
    let ghost gs = split_groups(views(input@));
    let mut total: u64 = 0;
    let mut i: usize = 0;
    while i < groups.len()
        invariant
            gs == split_groups(views(input@)),
            group_views(groups@) == gs,
            i <= groups@.len(),
            forall|t: int| 0 <= t < i ==> searchable(#[trigger] gs[t]),
            total == score_sum(gs.subrange(0, i as int), smudges as nat),
        decreases groups@.len() - i,
    {
        let group = &groups[i];
        assert(views(group@) == gs[i as int]);
        if !is_searchable(group) {
            return None;
        }
        let rows = find_symetry_horizontal(group.as_slice(), smudges);
        let cols = find_symetry_vertical(group.as_slice(), smudges);
        assert(gs.subrange(0, i + 1).drop_last() =~= gs.subrange(0, i as int));
        proof {
            lemma_score_prefix_grows(gs, smudges as nat, i + 1);
        }
        if rows > (u64::MAX - cols) / 100 || total > u64::MAX - (rows * 100 + cols) {
            return None;
        }
        total = total + rows * 100 + cols;
        i += 1;
    }
    assert(gs.subrange(0, i as int) =~= gs);
    Some(total)
}

proof fn lemma_score_prefix_grows(gs: Seq<Seq<Seq<char>>>, smudges: nat, i: int)
    requires
        0 <= i <= gs.len(),
    ensures
        score_sum(gs.subrange(0, i), smudges) <= score_sum(gs, smudges),
    decreases gs.len() - i,
{
    if i < gs.len() {
        lemma_score_prefix_grows(gs, smudges, i + 1);
        assert(gs.subrange(0, i + 1).drop_last() =~= gs.subrange(0, i));
    } else {
        assert(gs.subrange(0, i) =~= gs);
    }
}

/// The summed scores of all patterns, each scored by its exact reflection
/// line; `None` when a pattern is empty or ragged, or the sum overflows.
pub fn part1(input: Vec<String>) -> (r: Option<u64>)
    ensures
        r matches Some(v) ==> v == score_sum(split_groups(views(input@)), 0),
        (forall|i: int| 0 <= i < split_groups(views(input@)).len() ==> searchable(
            #[trigger] split_groups(views(input@))[i],
        )) && score_sum(split_groups(views(input@)), 0) <= u64::MAX ==> r is Some,
        (exists|i: int| 0 <= i < split_groups(views(input@)).len() && !searchable(
            #[trigger] split_groups(views(input@))[i],
        )) ==> r is None,
{
    summarize(input, 0)
}

/// The summed scores of all patterns, each scored by the reflection line that
/// holds with exactly one smudge; `None` as for `part1`.
pub fn part2(input: Vec<String>) -> (r: Option<u64>)
    ensures
        r matches Some(v) ==> v == score_sum(split_groups(views(input@)), 1),
        (forall|i: int| 0 <= i < split_groups(views(input@)).len() ==> searchable(
            #[trigger] split_groups(views(input@))[i],
        )) && score_sum(split_groups(views(input@)), 1) <= u64::MAX ==> r is Some,
        (exists|i: int| 0 <= i < split_groups(views(input@)).len() && !searchable(
            #[trigger] split_groups(views(input@))[i],
        )) ==> r is None,
{
    summarize(input, 1)
}

} // verus!
