//! Extrapolating sequences of readings one step forwards and one step
//! backwards, through the binomial form of repeated differences.
use vstd::prelude::*;
use crate::text::{chars_of, split_words, parse_i64, words, is_signed_decimal, signed_value, decimal_value};

verus! {

/// The binomial coefficient `C(n, k)`, as the running product
/// `C(n, v) = C(n, v - 1) * (n - v + 1) / v`; zero when `k > n`, one when
/// `k <= 0`.
pub open spec fn comb_spec(n: int, k: int) -> int
    decreases k,
{
    if k > n {
        0
    } else if k <= 0 {
        1
    } else {
        comb_spec(n, k - 1) * (n - k + 1) / k
    }
}

/// Every product of the running computation of `C(n, k)` fits in an `i64`.
pub open spec fn comb_fits(n: int, k: int) -> bool {
    k > n || forall|v: int| 1 <= v <= k ==> #[trigger] comb_spec(n, v - 1) * (n - v + 1) <= i64::MAX
}

proof fn lemma_comb_nonneg(n: int, k: int)
    ensures
        comb_spec(n, k) >= 0,
    decreases k,
{
    if k <= n && k > 0 {
        lemma_comb_nonneg(n, k - 1);
        assert(comb_spec(n, k - 1) * (n - k + 1) >= 0) by (nonlinear_arith)
            requires
                comb_spec(n, k - 1) >= 0,
                n - k + 1 >= 1,
        ;
    }
}

/// The binomial coefficient `C(n, k)`; `None` when a step of the running
/// product overflows.
pub fn comb(n: i64, k: i64) -> (r: Option<i64>)
    ensures
        r is Some <==> comb_fits(n as int, k as int),
        r matches Some(c) ==> c == comb_spec(n as int, k as int),
{
    if k > n {
        return Some(0);
    }
    let mut acc: i64 = 1;
    let mut v: i64 = 0;
    if k <= 0 {
        return Some(1);
    }
    while v < k
        invariant
            0 <= v <= k <= n,
            acc == comb_spec(n as int, v as int),
            acc >= 0,
            forall|w: int| 1 <= w <= v ==> #[trigger] comb_spec(n as int, w - 1) * (n - w + 1)
                <= i64::MAX,
        decreases k - v,
    {
        let w = v + 1;
        let factor = n - w + 1;
        proof {
            lemma_comb_nonneg(n as int, v as int);
        }
        match acc.checked_mul(factor) {
            None => {
                assert(comb_spec(n as int, w - 1) * (n - w + 1) > i64::MAX);
                return None;
            },
            Some(p) => {
                assert(p >= 0) by (nonlinear_arith)
                    requires
                        p == acc * factor,
                        acc >= 0,
                        factor >= 1,
                ;
                acc = p / w;
                assert(acc == comb_spec(n as int, w as int));
            },
        }
        v = w;
    }
    proof {
        assert(comb_fits(n as int, k as int));
    }
    Some(acc)
}

/// The sign `(-1)^e`.
pub open spec fn alternating(e: int) -> int {
    if e % 2 == 0 {
        1
    } else {
        -1
    }
}

/// The next reading after `xs`: the sum over `i` of
/// `xs[i] * C(m, i) * (-1)^(m - 1 - i)`, where `m` is the number of readings.
pub open spec fn next_value(xs: Seq<int>) -> int {
    weighted_sum(xs, xs.len() as int, true)
}

/// The reading before `xs`: the sum over `i` of
/// `xs[i] * C(m, i + 1) * (-1)^i`.
pub open spec fn previous_value(xs: Seq<int>) -> int {
    weighted_sum(xs, xs.len() as int, false)
}

pub open spec fn term(xs: Seq<int>, i: int, forwards: bool) -> int {
    let m = xs.len() as int;
    if forwards {
        xs[i] * comb_spec(m, i) * alternating(m - 1 - i)
    } else {
        xs[i] * comb_spec(m, i + 1) * alternating(i)
    }
}

/// The sum of the first `count` terms.
pub open spec fn weighted_sum(xs: Seq<int>, count: int, forwards: bool) -> int
    decreases count,
{
    if count <= 0 {
        0
    } else {
        weighted_sum(xs, count - 1, forwards) + term(xs, count - 1, forwards)
    }
}

/// A line of readings: words that each spell an `i64`.
pub open spec fn valid_readings(line: Seq<char>) -> bool {
    forall|i: int|
        0 <= i < words(line).len() ==> is_signed_decimal(#[trigger] words(line)[i])
            && decimal_value(
            if words(line)[i].len() > 0 && words(line)[i][0] == '-' {
                words(line)[i].drop_first()
            } else {
                words(line)[i]
            },
        ) <= u64::MAX && i64::MIN <= signed_value(words(line)[i]) <= i64::MAX
}

pub open spec fn readings(line: Seq<char>) -> Seq<int> {
    words(line).map_values(|w: Seq<char>| signed_value(w))
}

pub open spec fn extrapolated_sum(lines: Seq<Seq<char>>, forwards: bool) -> int
    decreases lines.len(),
{
    if lines.len() == 0 {
        0
    } else {
        extrapolated_sum(lines.drop_last(), forwards) + (if forwards {
            next_value(readings(lines.last()))
        } else {
            previous_value(readings(lines.last()))
        })
    }
}

pub open spec fn views(input: Seq<String>) -> Seq<Seq<char>> {
    input.map_values(|s: String| s@)
}

fn read_line(line: &String) -> (r: Option<Vec<i64>>)
    ensures
        r is Some <==> valid_readings(line@),
        r matches Some(xs) ==> xs@.map_values(|x: i64| x as int) == readings(line@),
{
    let cs = chars_of(line.as_str());
    let ws = split_words(&cs);
    let mut xs: Vec<i64> = Vec::new();
    let mut i: usize = 0;
    while i < ws.len()
        invariant
            cs@ == line@,
            ws@.len() == words(line@).len(),
            forall|t: int| 0 <= t < ws@.len() ==> #[trigger] ws@[t]@ == words(line@)[t],
            i <= ws@.len(),
            xs@.len() == i,
            forall|t: int| 0 <= t < i ==> xs@[t] == signed_value(#[trigger] words(line@)[t]),
            forall|t: int|
                0 <= t < i ==> is_signed_decimal(#[trigger] words(line@)[t]) && decimal_value(
                    if words(line@)[t].len() > 0 && words(line@)[t][0] == '-' {
                        words(line@)[t].drop_first()
                    } else {
                        words(line@)[t]
                    },
                ) <= u64::MAX && i64::MIN <= signed_value(words(line@)[t]) <= i64::MAX,
        decreases ws@.len() - i,
    {
        assert(ws@[i as int]@ == words(line@)[i as int]);
        match parse_i64(&ws[i]) {
            None => {
                return None;
            },
            Some(x) => {
                xs.push(x);
            },
        }
        i += 1;
    }
    assert(xs@.map_values(|x: i64| x as int) =~= readings(line@));
    Some(xs)
}

/// The sum of `term` over all readings of a line, in checked arithmetic.
/// Term `i` and the sum up to it can be computed in `i64`: its binomial
/// coefficient, the product with the reading and with the sign, and the
/// running sum all fit.
pub open spec fn step_fits(xs: Seq<int>, i: int, forwards: bool) -> bool {
    let m = xs.len() as int;
    let k = if forwards { i } else { i + 1 };
    let c = comb_spec(m, k);
    let e = if forwards { m - 1 - i } else { i };
    &&& comb_fits(m, k)
    &&& i64::MIN <= xs[i] * c <= i64::MAX
    &&& i64::MIN <= xs[i] * c * alternating(e) <= i64::MAX
    &&& i64::MIN <= weighted_sum(xs, i + 1, forwards) <= i64::MAX
}

/// The extrapolation of the readings can be computed in `i64`.
pub open spec fn readings_fit(xs: Seq<int>, forwards: bool) -> bool {
    &&& xs.len() <= i64::MAX
    &&& forall|i: int| 0 <= i < xs.len() ==> #[trigger] step_fits(xs, i, forwards)
}

fn extrapolate(xs: &Vec<i64>, forwards: bool) -> (r: Option<i64>)
    ensures
        r matches Some(v) ==> v == weighted_sum(
            xs@.map_values(|x: i64| x as int),
            xs@.len() as int,
            forwards,
        ),
        readings_fit(xs@.map_values(|x: i64| x as int), forwards) ==> r is Some,
{
    let ghost ys = xs@.map_values(|x: i64| x as int);
    let m = xs.len();
    if m as u64 > 9223372036854775807u64 {
        assert(!readings_fit(ys, forwards));
        return None;
    }
    let mut total: i64 = 0;
    let mut i: usize = 0;
    while i < m
        invariant
            m == xs@.len(),
            m as int <= i64::MAX,
            ys == xs@.map_values(|x: i64| x as int),
            i <= m,
            total == weighted_sum(ys, i as int, forwards),
        decreases m - i,
    {
        let c = if forwards {
            comb(m as i64, i as i64)
        } else {
            comb(m as i64, (i + 1) as i64)
        };
        assert(ys[i as int] == xs@[i as int] as int);
        assert(ys.len() == m);
        let c = match c {
            Some(c) => c,
            None => {
                assert(!step_fits(ys, i as int, forwards));
                return None;
            },
        };
        let e = if forwards {
            m - 1 - i
        } else {
            i
        };
        let sign: i64 = if e % 2 == 0 {
            1
        } else {
            -1
        };
        let t = match xs[i].checked_mul(c) {
            Some(p) => match p.checked_mul(sign) {
                Some(t) => t,
                None => {
                    assert(!step_fits(ys, i as int, forwards));
                    return None;
                },
            },
            None => {
                assert(!step_fits(ys, i as int, forwards));
                return None;
            },
        };
        assert(t == term(ys, i as int, forwards));
        let next = match total.checked_add(t) {
            Some(s) => s,
            None => {
                assert(!step_fits(ys, i as int, forwards));
                return None;
            },
        };
        assert(ys[i as int] == xs@[i as int] as int);
        assert(ys.len() == m);
        assert(t == term(ys, i as int, forwards));
        total = next;
        i += 1;
    }
    Some(total)
}

/// Line `i` is a list of readings whose extrapolation, and the sum over the
/// lines up to it, can be computed in `i64`.
pub open spec fn line_fits(lines: Seq<Seq<char>>, i: int, forwards: bool) -> bool {
    &&& valid_readings(lines[i])
    &&& readings_fit(readings(lines[i]), forwards)
    &&& i64::MIN <= extrapolated_sum(lines.subrange(0, i + 1), forwards) <= i64::MAX
}

/// Every line can be read and extrapolated within `i64`.
pub open spec fn extrapolation_fits(lines: Seq<Seq<char>>, forwards: bool) -> bool {
    forall|i: int| 0 <= i < lines.len() ==> #[trigger] line_fits(lines, i, forwards)
}

fn extrapolate_all(input: &Vec<String>, forwards: bool) -> (r: Option<i64>)
    ensures
        r matches Some(v) ==> (forall|i: int| 0 <= i < input@.len() ==> valid_readings(#[trigger] input@[i]@))
            && v == extrapolated_sum(views(input@), forwards),
        (exists|i: int| 0 <= i < input@.len() && !valid_readings(#[trigger] input@[i]@)) ==> r is None,
        extrapolation_fits(views(input@), forwards) ==> r is Some,
{
    let ghost lines = views(input@);
    let mut total: i64 = 0;
    let mut i: usize = 0;
    while i < input.len()
        invariant
            lines == views(input@),
            i <= input@.len(),
            forall|t: int| 0 <= t < i ==> valid_readings(#[trigger] input@[t]@),
            total == extrapolated_sum(lines.subrange(0, i as int), forwards),
        decreases input@.len() - i,
    {
        assert(lines[i as int] == input@[i as int]@);
        let xs = match read_line(&input[i]) {
            Some(xs) => xs,
            None => {
                assert(!line_fits(lines, i as int, forwards));
                return None;
            },
        };
        let v = match extrapolate(&xs, forwards) {
            Some(v) => v,
            None => {
                assert(!line_fits(lines, i as int, forwards));
                return None;
            },
        };
        assert(lines.subrange(0, i + 1).drop_last() =~= lines.subrange(0, i as int));
        total = match total.checked_add(v) {
            Some(s) => s,
            None => {
                assert(!line_fits(lines, i as int, forwards));
                return None;
            },
        };
        i += 1;
    }
    assert(lines.subrange(0, i as int) =~= lines);
    Some(total)
}

/// The sum over all lines of the next reading; `None` when a line is not a
/// list of numbers or the arithmetic overflows an `i64`.
pub fn part1(input: Vec<String>) -> (r: Option<i64>)
    ensures
        r matches Some(v) ==> (forall|i: int| 0 <= i < input@.len() ==> valid_readings(#[trigger] input@[i]@))
            && v == extrapolated_sum(views(input@), true),
        (exists|i: int| 0 <= i < input@.len() && !valid_readings(#[trigger] input@[i]@)) ==> r is None,
        extrapolation_fits(views(input@), true) ==> r is Some,
{
    extrapolate_all(&input, true)
}

/// The sum over all lines of the reading before the first; `None` when a line
/// is not a list of numbers or the arithmetic overflows an `i64`.
pub fn part2(input: Vec<String>) -> (r: Option<i64>)
    ensures
        r matches Some(v) ==> (forall|i: int| 0 <= i < input@.len() ==> valid_readings(#[trigger] input@[i]@))
            && v == extrapolated_sum(views(input@), false),
        (exists|i: int| 0 <= i < input@.len() && !valid_readings(#[trigger] input@[i]@)) ==> r is None,
        extrapolation_fits(views(input@), false) ==> r is Some,
{
    extrapolate_all(&input, false)
}

} // verus!
