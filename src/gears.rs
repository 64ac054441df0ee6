//! An engine schematic: which symbols mark part numbers, and the gears that
//! join two numbers.
use vstd::prelude::*;
use crate::text::{chars_of, is_digit, digit_value, line_views};

verus! {

/// A gear candidate: the product of the numbers next to the `*` at row `i`
/// and column `j`, and whether a second number has joined it.
pub struct Gear {
    pub num: u32,
    pub is_gear: bool,
    pub i: usize,
    pub j: usize,
}

pub open spec fn is_ascii_alphanumeric(c: char) -> bool {
    ('0' <= c && c <= '9') || ('a' <= c && c <= 'z') || ('A' <= c && c <= 'Z')
}

/// A symbol next to which a number is a part number: anything but an ASCII
/// letter or digit, a dot or a space.
pub open spec fn part_symbol(c: char) -> bool {
    !is_ascii_alphanumeric(c) && c != '.' && c != ' '
}

/// Whether `c` marks its neighbours as part numbers.
pub fn is_part_char(c: char) -> (r: bool)
    ensures
        r == part_symbol(c),
{
    let alnum = ('0' <= c && c <= '9') || ('a' <= c && c <= 'z') || ('A' <= c && c <= 'Z');
    !alnum && c != '.' && c != ' '
}

/// Whether `c` is a gear symbol, `*`.
pub fn is_gear_char(c: char) -> (r: bool)
    ensures
        r == (c == '*'),
{
    c == '*'
}

/// The index of the first gear at row `i` and column `j` among the first `k`,
/// or `k` when there is none.
pub open spec fn first_at(gears: Seq<Gear>, i: usize, j: usize, k: int) -> int
    decreases k,
{
    if k <= 0 {
        0
    } else if first_at(gears, i, j, k - 1) < k - 1 {
        first_at(gears, i, j, k - 1)
    } else if gears[k - 1].i == i && gears[k - 1].j == j {
        k - 1
    } else {
        k
    }
}

proof fn lemma_first_at(gears: Seq<Gear>, i: usize, j: usize, k: int)
    requires
        0 <= k <= gears.len(),
    ensures
        0 <= first_at(gears, i, j, k) <= k,
        forall|t: int| 0 <= t < first_at(gears, i, j, k) ==> !(gears[t].i == i && gears[t].j == j),
        first_at(gears, i, j, k) < k ==> gears[first_at(gears, i, j, k)].i == i && gears[first_at(gears, i, j, k)].j == j,
    decreases k,
{
    if k > 0 {
        lemma_first_at(gears, i, j, k - 1);
    }
}

/// Records a number next to the gear symbol at `gear.i`, `gear.j`: the first
/// gear already recorded there becomes a gear and takes the product of the two
/// numbers; otherwise `gear` is added at the end.
pub fn add_gear(gear: Gear, gears: &mut Vec<Gear>)
    requires
        first_at(old(gears)@, gear.i, gear.j, old(gears)@.len() as int) < old(gears)@.len() ==> old(gears)@[first_at(
            old(gears)@,
            gear.i,
            gear.j,
            old(gears)@.len() as int,
        )].num * gear.num <= u32::MAX,
    ensures
        ({
            let k = first_at(old(gears)@, gear.i, gear.j, old(gears)@.len() as int);
            if k < old(gears)@.len() {
                final(gears)@ == old(gears)@.update(
                    k,
                    Gear { num: (old(gears)@[k].num * gear.num) as u32, is_gear: true, ..old(gears)@[k] },
                )
            } else {
                final(gears)@ == old(gears)@.push(gear)
            }
        }),
{
    let ghost k = first_at(gears@, gear.i, gear.j, gears@.len() as int);
    proof {
        lemma_first_at(gears@, gear.i, gear.j, gears@.len() as int);
    }
    let mut t: usize = 0;
    while t < gears.len()
        invariant
            gears@ == old(gears)@,
            k == first_at(old(gears)@, gear.i, gear.j, old(gears)@.len() as int),
            0 <= k <= old(gears)@.len(),
            forall|u: int| 0 <= u < k ==> !(old(gears)@[u].i == gear.i && old(gears)@[u].j == gear.j),
            k < old(gears)@.len() ==> old(gears)@[k].i == gear.i && old(gears)@[k].j == gear.j,
            k < old(gears)@.len() ==> old(gears)@[k].num * gear.num <= u32::MAX,
            t <= k,
        decreases gears@.len() - t,
    {
        if gears[t].i == gear.i && gears[t].j == gear.j {
            assert(t == k);
            let num = gears[t].num * gear.num;
            let g = Gear { num, is_gear: true, i: gears[t].i, j: gears[t].j };
            gears.set(t, g);
            return;
        }
        t += 1;
    }
    gears.push(gear);
}

/// A number of the schematic, and whether a symbol touches one of its digits.
pub struct Part {
    pub num: u32,
    pub is_part: bool,
}

pub open spec fn part_view(p: Part) -> (nat, bool) {
    (p.num as nat, p.is_part)
}

/// All rows have the width of the first, so that each neighbour of a cell can
/// be read.
pub open spec fn even_rows(g: Seq<Seq<char>>) -> bool {
    forall|r: int| 0 <= r < g.len() ==> #[trigger] g[r].len() == g[0].len()
}

/// Whether a symbol lies next to cell `(i, j)`, diagonals included.
pub open spec fn symbol_near(g: Seq<Seq<char>>, i: int, j: int) -> bool {
    let n = g.len() as int;
    let w = g[i].len() as int;
    ||| j + 1 < w && part_symbol(g[i][j + 1])
    ||| j > 0 && part_symbol(g[i][j - 1])
    ||| i + 1 < n && part_symbol(g[i + 1][j])
    ||| i > 0 && part_symbol(g[i - 1][j])
    ||| i + 1 < n && j + 1 < w && part_symbol(g[i + 1][j + 1])
    ||| i > 0 && j > 0 && part_symbol(g[i - 1][j - 1])
    ||| i + 1 < n && j > 0 && part_symbol(g[i + 1][j - 1])
    ||| i > 0 && j + 1 < w && part_symbol(g[i - 1][j + 1])
}

/// The scan of row `i` after its first `k` cells, from the parts found so far:
/// the parts, the number being read, and whether a symbol touches it. A digit
/// extends the number; any other cell ends a non-zero number.
pub open spec fn scan_row(g: Seq<Seq<char>>, i: int, k: int, parts: Seq<(nat, bool)>) -> (Seq<(nat, bool)>, nat, bool)
    decreases k,
{
    if k <= 0 {
        (parts, 0, false)
    } else {
        let prev = scan_row(g, i, k - 1, parts);
        let c = g[i][k - 1];
        if is_digit(c) {
            (prev.0, prev.1 * 10 + digit_value(c), prev.2 || symbol_near(g, i, k - 1))
        } else if prev.1 != 0 {
            (prev.0.push((prev.1, prev.2)), 0, false)
        } else {
            prev
        }
    }
}

/// The parts of the first `r` rows; a number that ends a row ends there.
pub open spec fn parts_upto(g: Seq<Seq<char>>, r: int) -> Seq<(nat, bool)>
    decreases r,
{
    if r <= 0 {
        Seq::empty()
    } else {
        let s = scan_row(g, r - 1, g[r - 1].len() as int, parts_upto(g, r - 1));
        if s.1 != 0 {
            s.0.push((s.1, s.2))
        } else {
            s.0
        }
    }
}

/// The numbers that read as values that fit in a `u32`, up to row `r`: the
/// scan never builds a larger number.
pub open spec fn numbers_fit(g: Seq<Seq<char>>) -> bool {
    forall|i: int, k: int, ps: Seq<(nat, bool)>|
        0 <= i < g.len() && 0 <= k <= g[i].len() ==> #[trigger] scan_row(g, i, k, ps).1 <= u32::MAX
}

fn is_symbol_near(g: &Vec<Vec<char>>, i: usize, j: usize) -> (r: bool)
    requires
        i < g@.len(),
        j < g@[i as int]@.len(),
        even_rows(line_chars(g@)),
    ensures
        r == symbol_near(line_chars(g@), i as int, j as int),
{
    let ghost gv = line_chars(g@);
    let n = g.len();
    let w = g[i].len();
    assert(gv[i as int].len() == gv[0].len());
    if i + 1 < n {
        assert(gv[i + 1].len() == gv[0].len());
    }
    if i > 0 {
        assert(gv[i - 1].len() == gv[0].len());
    }
    let mut r = false;
    if j + 1 < w {
        r = r || is_part_char(g[i][j + 1]);
    }
    if j > 0 {
        r = r || is_part_char(g[i][j - 1]);
    }
    if i + 1 < n {
        r = r || is_part_char(g[i + 1][j]);
    }
    if i > 0 {
        r = r || is_part_char(g[i - 1][j]);
    }
    if i + 1 < n && j + 1 < w {
        r = r || is_part_char(g[i + 1][j + 1]);
    }
    if i > 0 && j > 0 {
        r = r || is_part_char(g[i - 1][j - 1]);
    }
    if i + 1 < n && j > 0 {
        r = r || is_part_char(g[i + 1][j - 1]);
    }
    if i > 0 && j + 1 < w {
        r = r || is_part_char(g[i - 1][j + 1]);
    }
    r
}

pub open spec fn line_chars(g: Seq<Vec<char>>) -> Seq<Seq<char>> {
    g.map_values(|v: Vec<char>| v@)
}

fn grid_of(input: &Vec<String>) -> (g: Vec<Vec<char>>)
    ensures
        line_chars(g@) == line_views(input@),
{
    let mut g: Vec<Vec<char>> = Vec::new();
    let mut i: usize = 0;
    while i < input.len()
        invariant
            i <= input@.len(),
            line_chars(g@) == line_views(input@).subrange(0, i as int),
        decreases input@.len() - i,
    {
        let ghost before = g@;
        g.push(chars_of(input[i].as_str()));
        assert(line_chars(g@) =~= line_chars(before).push(input@[i as int]@));
        i += 1;
        assert(line_chars(g@) =~= line_views(input@).subrange(0, i as int));
    }
    assert(line_views(input@).subrange(0, i as int) =~= line_views(input@));
    g
}

pub open spec fn parts_view(ps: Seq<Part>) -> Seq<(nat, bool)> {
    ps.map_values(|p: Part| part_view(p))
}

/// The numbers of the schematic, row by row, each with whether a symbol
/// touches it; `None` when the rows differ in width or a number does not fit
/// in a `u32`.
pub fn get_parts(input: Vec<String>) -> (r: Option<Vec<Part>>)
    ensures
        r matches Some(ps) ==> even_rows(line_views(input@)) && parts_view(ps@) == parts_upto(line_views(input@), input@.len() as int),
        even_rows(line_views(input@)) && numbers_fit(line_views(input@)) ==> r is Some,
{
    let g = grid_of(&input);
    let ghost gv = line_views(input@);
    let n = g.len();
    if n > 0 {
        let w0 = g[0].len();
        let mut t: usize = 0;
        while t < n
            invariant
                n == g@.len(),
                n > 0,
                line_chars(g@) == gv,
                gv == line_views(input@),
                w0 == gv[0].len(),
                t <= n,
                forall|r: int| 0 <= r < t ==> #[trigger] gv[r].len() == gv[0].len(),
            decreases n - t,
        {
            assert(g@[t as int]@ == gv[t as int]);
            if g[t].len() != w0 {
                assert(gv[t as int].len() != gv[0].len());
                return None;
            }
            t += 1;
        }
    }
    assert(even_rows(gv));
    let mut parts: Vec<Part> = Vec::new();
    let mut i: usize = 0;
    while i < n
        invariant
            n == g@.len(),
            line_chars(g@) == gv,
            gv == line_views(input@),
            even_rows(gv),
            i <= n,
            parts_view(parts@) == parts_upto(gv, i as int),
        decreases n - i,
    {
        let line = &g[i];
        assert(line@ == gv[i as int]);
        let ghost before = parts_view(parts@);
        let mut num: u32 = 0;
        let mut is_part = false;
        let mut j: usize = 0;
        while j < line.len()
            invariant
                n == g@.len(),
                line_chars(g@) == gv,
                gv == line_views(input@),
                even_rows(gv),
                i < n,
                line@ == gv[i as int],
                j <= line@.len(),
                (parts_view(parts@), num as nat, is_part) == scan_row(gv, i as int, j as int, before),
            decreases line@.len() - j,
        {
            let c = line[j];
            if '0' <= c && c <= '9' {
                let d = c as u32 - '0' as u32;
                if num > (u32::MAX - d) / 10 {
                    proof {
                        assert(scan_row(gv, i as int, j + 1, before).1 > u32::MAX);
                    }
                    return None;
                }
                num = num * 10 + d;
                is_part = is_part || is_symbol_near(&g, i, j);
            } else if num != 0 {
                let ghost prev = parts@;
                parts.push(Part { num, is_part });
                assert(parts_view(parts@) =~= parts_view(prev).push((num as nat, is_part)));
                is_part = false;
                num = 0;
            }
            j += 1;
        }
        if num != 0 {
            let ghost prev = parts@;
            parts.push(Part { num, is_part });
            assert(parts_view(parts@) =~= parts_view(prev).push((num as nat, is_part)));
        }
        i += 1;
    }
    Some(parts)
}

/// The sum of the first `k` part numbers that a symbol touches.
pub open spec fn part_sum(ps: Seq<(nat, bool)>, k: int) -> nat
    decreases k,
{
    if k <= 0 {
        0
    } else {
        part_sum(ps, k - 1) + (if ps[k - 1].1 {
            ps[k - 1].0
        } else {
            0
        })
    }
}

/// The sum of the numbers that a symbol touches; `None` when the rows differ
/// in width or a value overflows.
pub fn part1(input: Vec<String>) -> (r: Option<u32>)
    ensures
        r matches Some(v) ==> even_rows(line_views(input@)) && v == part_sum(
            parts_upto(line_views(input@), input@.len() as int),
            parts_upto(line_views(input@), input@.len() as int).len() as int,
        ),
        even_rows(line_views(input@)) && numbers_fit(line_views(input@)) && part_sum(
            parts_upto(line_views(input@), input@.len() as int),
            parts_upto(line_views(input@), input@.len() as int).len() as int,
        ) <= u32::MAX ==> r is Some,
{
    let ghost gv = line_views(input@);
    let ghost len = input@.len() as int;
    let parts = match get_parts(input) {
        Some(p) => p,
        None => {
            return None;
        },
    };
    let ghost pv = parts_view(parts@);
    let mut sum: u32 = 0;
    let mut k: usize = 0;
    while k < parts.len()
        invariant
            pv == parts_view(parts@),
            pv == parts_upto(gv, len),
            gv == line_views(input@),
            len == input@.len(),
            k <= parts@.len(),
            sum == part_sum(pv, k as int),
        decreases parts@.len() - k,
    {
        assert(pv[k as int] == part_view(parts@[k as int]));
        if parts[k].is_part {
            sum = match sum.checked_add(parts[k].num) {
                Some(s) => s,
                None => {
                    proof {
                        lemma_part_sum_grows(pv, k + 1, pv.len() as int);
                    }
                    return None;
                },
            };
        }
        k += 1;
    }
    Some(sum)
}

proof fn lemma_part_sum_grows(ps: Seq<(nat, bool)>, i: int, k: int)
    requires
        0 <= i <= k,
    ensures
        part_sum(ps, i) <= part_sum(ps, k),
    decreases k - i,
{
    if i < k {
        lemma_part_sum_grows(ps, i, k - 1);
    }
}

/// The gear symbol last met among the first `t` of the nine cells around
/// `(i, j)`, read row by row from the top left.
pub open spec fn gear_near(g: Seq<Seq<char>>, i: int, j: int, t: int) -> Option<(int, int)>
    decreases t,
{
    if t <= 0 {
        None
    } else {
        let prev = gear_near(g, i, j, t - 1);
        let r = i + (t - 1) / 3 - 1;
        let c = j + (t - 1) % 3 - 1;
        if 0 <= r < g.len() && 0 <= c < g[i].len() && g[r][c] == '*' {
            Some((r, c))
        } else {
            prev
        }
    }
}

/// The gears once `gear` is recorded, as `add_gear` records it.
pub open spec fn with_gear(gears: Seq<Gear>, gear: Gear) -> Seq<Gear> {
    let k = first_at(gears, gear.i, gear.j, gears.len() as int);
    if k < gears.len() {
        gears.update(k, Gear { num: (gears[k].num * gear.num) as u32, is_gear: true, ..gears[k] })
    } else {
        gears.push(gear)
    }
}

/// The state of the gear scan: the gears, the number being read, whether a
/// gear symbol touches it, and the last such symbol's row and column.
pub struct GearScan {
    pub gears: Seq<Gear>,
    pub num: nat,
    pub near: bool,
    pub gi: int,
    pub gj: int,
}

/// The scan after the first `k` cells of row `i`, from `st`. A digit extends
/// the number and notes a gear symbol next to it; another cell records a
/// number that a gear symbol touches, or drops the number.
pub open spec fn gear_scan(g: Seq<Seq<char>>, i: int, k: int, st: GearScan) -> GearScan
    decreases k,
{
    if k <= 0 {
        GearScan { num: 0, ..st }
    } else {
        let p = gear_scan(g, i, k - 1, st);
        let c = g[i][k - 1];
        if is_digit(c) {
            let near = gear_near(g, i, k - 1, 9);
            GearScan {
                num: p.num * 10 + digit_value(c),
                near: p.near || near is Some,
                gi: match near {
                    Some((r, _)) => r,
                    None => p.gi,
                },
                gj: match near {
                    Some((_, c)) => c,
                    None => p.gj,
                },
                ..p
            }
        } else if p.num != 0 && p.near {
            GearScan {
                gears: with_gear(p.gears, Gear { num: p.num as u32, is_gear: false, i: p.gi as usize, j: p.gj as usize }),
                num: 0,
                near: false,
                ..p
            }
        } else {
            GearScan { num: 0, ..p }
        }
    }
}

/// The scan after the first `r` rows; a number that ends a row and touches a
/// gear symbol is recorded there.
pub open spec fn gears_upto(g: Seq<Seq<char>>, r: int) -> GearScan
    decreases r,
{
    if r <= 0 {
        GearScan { gears: Seq::empty(), num: 0, near: false, gi: 0, gj: 0 }
    } else {
        let p = gear_scan(g, r - 1, g[r - 1].len() as int, gears_upto(g, r - 1));
        if p.num != 0 && p.near {
            GearScan {
                gears: with_gear(p.gears, Gear { num: p.num as u32, is_gear: false, i: p.gi as usize, j: p.gj as usize }),
                num: 0,
                near: false,
                ..p
            }
        } else {
            p
        }
    }
}

/// Recording `num` at gear `(gi, gj)` keeps the product of the gear already
/// there, if any, within a `u32`.
pub open spec fn record_fits(gears: Seq<Gear>, num: nat, gi: int, gj: int) -> bool {
    let k = first_at(gears, gi as usize, gj as usize, gears.len() as int);
    k < gears.len() ==> gears[k].num * num <= u32::MAX
}

/// The scan of the first `k` cells of row `i` from `st` keeps every number it
/// reads, and every product it forms, within a `u32`.
pub open spec fn scan_fits(g: Seq<Seq<char>>, i: int, k: int, st: GearScan) -> bool
    decreases k,
{
    if k <= 0 {
        true
    } else {
        let p = gear_scan(g, i, k - 1, st);
        let c = g[i][k - 1];
        &&& scan_fits(g, i, k - 1, st)
        &&& if is_digit(c) {
            p.num * 10 + digit_value(c) <= u32::MAX
        } else if p.num != 0 && p.near {
            record_fits(p.gears, p.num, p.gi, p.gj)
        } else {
            true
        }
    }
}

/// The scan of the first `r` rows keeps every number and product within a
/// `u32`.
pub open spec fn gears_fit(g: Seq<Seq<char>>, r: int) -> bool
    decreases r,
{
    if r <= 0 {
        true
    } else {
        let st = gears_upto(g, r - 1);
        let p = gear_scan(g, r - 1, g[r - 1].len() as int, st);
        &&& gears_fit(g, r - 1)
        &&& scan_fits(g, r - 1, g[r - 1].len() as int, st)
        &&& (p.num != 0 && p.near ==> record_fits(p.gears, p.num, p.gi, p.gj))
    }
}

proof fn lemma_scan_fits_prefix(g: Seq<Seq<char>>, i: int, k: int, k2: int, st: GearScan)
    requires
        0 <= k <= k2,
        scan_fits(g, i, k2, st),
    ensures
        scan_fits(g, i, k, st),
    decreases k2 - k,
{
    if k < k2 {
        lemma_scan_fits_prefix(g, i, k, k2 - 1, st);
    }
}

proof fn lemma_gears_fit_prefix(g: Seq<Seq<char>>, r: int, r2: int)
    requires
        0 <= r <= r2,
        gears_fit(g, r2),
    ensures
        gears_fit(g, r),
    decreases r2 - r,
{
    if r < r2 {
        lemma_gears_fit_prefix(g, r, r2 - 1);
    }
}

fn find_gear_near(g: &Vec<Vec<char>>, i: usize, j: usize) -> (r: Option<(usize, usize)>)
    requires
        i < g@.len(),
        j < g@[i as int]@.len(),
        even_rows(line_chars(g@)),
    ensures
        r matches Some(p) ==> gear_near(line_chars(g@), i as int, j as int, 9) == Some((p.0 as int, p.1 as int)),
        r is None ==> gear_near(line_chars(g@), i as int, j as int, 9) is None,
{
    let ghost gv = line_chars(g@);
    let n = g.len();
    let w = g[i].len();
    let mut found: Option<(usize, usize)> = None;
    let mut x: usize = 0;
    while x < 3
        invariant
            gv == line_chars(g@),
            even_rows(gv),
            n == gv.len(),
            i < n,
            w == gv[i as int].len(),
            j < w,
            x <= 3,
            found matches Some(p) ==> gear_near(gv, i as int, j as int, 3 * x) == Some((p.0 as int, p.1 as int)),
            found is None ==> gear_near(gv, i as int, j as int, 3 * x) is None,
        decreases 3 - x,
    {
        let mut y: usize = 0;
        while y < 3
            invariant
                gv == line_chars(g@),
                even_rows(gv),
                n == gv.len(),
                i < n,
                w == gv[i as int].len(),
                j < w,
                x < 3,
                y <= 3,
                found matches Some(p) ==> gear_near(gv, i as int, j as int, 3 * x + y) == Some((p.0 as int, p.1 as int)),
                found is None ==> gear_near(gv, i as int, j as int, 3 * x + y) is None,
            decreases 3 - y,
        {
            assert((3 * x + y) / 3 == x && (3 * x + y) % 3 == y);
            let row_ok = if x == 0 {
                i >= 1
            } else if x == 1 {
                true
            } else {
                i + 1 < n
            };
            let col_ok = if y == 0 {
                j >= 1
            } else if y == 1 {
                true
            } else {
                j + 1 < w
            };
            if row_ok && col_ok {
                let r = if x == 0 {
                    i - 1
                } else if x == 1 {
                    i
                } else {
                    i + 1
                };
                let c = if y == 0 {
                    j - 1
                } else if y == 1 {
                    j
                } else {
                    j + 1
                };
                assert(gv[r as int].len() == gv[0].len() && gv[i as int].len() == gv[0].len());
                assert(g@[r as int]@ == gv[r as int]);
                if is_gear_char(g[r][c]) {
                    found = Some((r, c));
                }
            }
            y += 1;
        }
        x += 1;
    }
    found
}

pub open spec fn scan_of(gears: Seq<Gear>, num: u32, near: bool, gi: usize, gj: usize) -> GearScan {
    GearScan { gears, num: num as nat, near, gi: gi as int, gj: gj as int }
}

/// The gears of the schematic: each `*` next to a number, with the product of
/// the numbers next to it and whether there were two or more; `None` when the
/// rows differ in width or a value overflows a `u32`.
pub fn get_gears(input: Vec<String>) -> (r: Option<Vec<Gear>>)
    ensures
        r matches Some(gs) ==> even_rows(line_views(input@)) && gs@ == gears_upto(line_views(input@), input@.len() as int).gears,
        even_rows(line_views(input@)) && gears_fit(line_views(input@), input@.len() as int) ==> r is Some,
{
    let g = grid_of(&input);
    let ghost gv = line_views(input@);
    let n = g.len();
    if n > 0 {
        let w0 = g[0].len();
        let mut t: usize = 0;
        while t < n
            invariant
                n == g@.len(),
                n > 0,
                line_chars(g@) == gv,
                gv == line_views(input@),
                w0 == gv[0].len(),
                t <= n,
                forall|r: int| 0 <= r < t ==> #[trigger] gv[r].len() == gv[0].len(),
            decreases n - t,
        {
            assert(g@[t as int]@ == gv[t as int]);
            if g[t].len() != w0 {
                assert(gv[t as int].len() != gv[0].len());
                return None;
            }
            t += 1;
        }
    }
    assert(even_rows(gv));
    let ghost owed = gears_fit(gv, n as int);
    let mut gears: Vec<Gear> = Vec::new();
    let mut num: u32 = 0;
    let mut is_gear = false;
    let mut gear_i: usize = 0;
    let mut gear_j: usize = 0;
    let mut i: usize = 0;
    while i < n
        invariant
            n == g@.len(),
            line_chars(g@) == gv,
            gv == line_views(input@),
            even_rows(gv),
            i <= n,
            scan_of(gears@, num, is_gear, gear_i, gear_j) == gears_upto(gv, i as int),
            owed == gears_fit(gv, n as int),
            n == gv.len(),
        decreases n - i,
    {
        let line = &g[i];
        assert(line@ == gv[i as int]);
        let ghost start = scan_of(gears@, num, is_gear, gear_i, gear_j);
        proof {
            if owed {
                lemma_gears_fit_prefix(gv, i + 1, n as int);
            }
        }
        num = 0;
        let mut j: usize = 0;
        while j < line.len()
            invariant
                n == g@.len(),
                line_chars(g@) == gv,
                gv == line_views(input@),
                even_rows(gv),
                i < n,
                line@ == gv[i as int],
                j <= line@.len(),
                scan_of(gears@, num, is_gear, gear_i, gear_j) == gear_scan(gv, i as int, j as int, start),
                start == gears_upto(gv, i as int),
                owed == gears_fit(gv, n as int),
                n == gv.len(),
                owed ==> scan_fits(gv, i as int, gv[i as int].len() as int, start),
            decreases line@.len() - j,
        {
            proof {
                if owed {
                    lemma_scan_fits_prefix(gv, i as int, j + 1, gv[i as int].len() as int, start);
                }
            }
            let c = line[j];
            if '0' <= c && c <= '9' {
                let d = c as u32 - '0' as u32;
                if num > (u32::MAX - d) / 10 {
                    assert(!owed);
                    return None;
                }
                num = num * 10 + d;
                match find_gear_near(&g, i, j) {
                    Some((gi, gj)) => {
                        gear_i = gi;
                        gear_j = gj;
                        is_gear = true;
                    },
                    None => {},
                }
            } else if num != 0 && is_gear {
                proof {
                    lemma_first_at(gears@, gear_i, gear_j, gears@.len() as int);
                }
                let k = first_gear_at(&gears, gear_i, gear_j);
                if k < gears.len() && (gears[k].num as u64).checked_mul(num as u64).unwrap_or(u64::MAX) > u32::MAX as u64 {
                    assert(!owed);
                    return None;
                }
                add_gear(Gear { num, is_gear: false, i: gear_i, j: gear_j }, &mut gears);
                is_gear = false;
                num = 0;
            } else {
                num = 0;
            }
            j += 1;
        }
        if num != 0 && is_gear {
            proof {
                lemma_first_at(gears@, gear_i, gear_j, gears@.len() as int);
            }
            let k = first_gear_at(&gears, gear_i, gear_j);
            if k < gears.len() && (gears[k].num as u64).checked_mul(num as u64).unwrap_or(u64::MAX) > u32::MAX as u64 {
                assert(!owed);
                return None;
            }
            add_gear(Gear { num, is_gear: false, i: gear_i, j: gear_j }, &mut gears);
            is_gear = false;
            num = 0;
        }
        i += 1;
    }
    Some(gears)
}

fn first_gear_at(gears: &Vec<Gear>, i: usize, j: usize) -> (k: usize)
    ensures
        k == first_at(gears@, i, j, gears@.len() as int),
{
    proof {
        lemma_first_at(gears@, i, j, gears@.len() as int);
    }
    let mut k: usize = 0;
    while k < gears.len()
        invariant
            k <= gears@.len(),
            forall|t: int| 0 <= t < k ==> !(gears@[t].i == i && gears@[t].j == j),
            0 <= first_at(gears@, i, j, gears@.len() as int) <= gears@.len(),
            forall|t: int| 0 <= t < first_at(gears@, i, j, gears@.len() as int) ==> !(gears@[t].i == i && gears@[t].j == j),
            first_at(gears@, i, j, gears@.len() as int) < gears@.len() ==> gears@[first_at(gears@, i, j, gears@.len() as int)].i == i && gears@[first_at(gears@, i, j, gears@.len() as int)].j == j,
        decreases gears@.len() - k,
    {
        if gears[k].i == i && gears[k].j == j {
            return k;
        }
        k += 1;
    }
    k
}

/// The sum of the products of the first `k` gears that joined two or more
/// numbers.
pub open spec fn gear_sum(gs: Seq<Gear>, k: int) -> nat
    decreases k,
{
    if k <= 0 {
        0
    } else {
        gear_sum(gs, k - 1) + (if gs[k - 1].is_gear {
            gs[k - 1].num as nat
        } else {
            0
        })
    }
}

proof fn lemma_gear_sum_grows(gs: Seq<Gear>, i: int, k: int)
    requires
        0 <= i <= k,
    ensures
        gear_sum(gs, i) <= gear_sum(gs, k),
    decreases k - i,
{
    if i < k {
        lemma_gear_sum_grows(gs, i, k - 1);
    }
}

/// The sum of the gear ratios; `None` when the rows differ in width or a
/// value overflows.
pub fn part2(input: Vec<String>) -> (r: Option<u32>)
    ensures
        r matches Some(v) ==> even_rows(line_views(input@)) && v == gear_sum(
            gears_upto(line_views(input@), input@.len() as int).gears,
            gears_upto(line_views(input@), input@.len() as int).gears.len() as int,
        ),
        even_rows(line_views(input@)) && gears_fit(line_views(input@), input@.len() as int) && gear_sum(
            gears_upto(line_views(input@), input@.len() as int).gears,
            gears_upto(line_views(input@), input@.len() as int).gears.len() as int,
        ) <= u32::MAX ==> r is Some,
{
    let ghost gv = line_views(input@);
    let ghost len = input@.len() as int;
    let gears = match get_gears(input) {
        Some(g) => g,
        None => {
            return None;
        },
    };
    let mut sum: u32 = 0;
    let mut k: usize = 0;
    while k < gears.len()
        invariant
            k <= gears@.len(),
            sum == gear_sum(gears@, k as int),
            gears@ == gears_upto(gv, len).gears,
            gv == line_views(input@),
            len == input@.len(),
        decreases gears@.len() - k,
    {
        if gears[k].is_gear {
            sum = match sum.checked_add(gears[k].num) {
                Some(s) => s,
                None => {
                    proof {
                        lemma_gear_sum_grows(gears@, k + 1, gears@.len() as int);
                    }
                    return None;
                },
            };
        }
        k += 1;
    }
    Some(sum)
}

} // verus!
