//! Calibration values: the first and last digit of each line, where the second
//! reading also counts digits that are spelled out.
use vstd::prelude::*;
use crate::text::{chars_of, is_digit, digit_value};

verus! {

/// The value of the first digit of `s`, or zero when it has none.
pub open spec fn first_digit(s: Seq<char>) -> nat
    decreases s.len(),
{
    if s.len() == 0 {
        0
    } else if is_digit(s[0]) {
        digit_value(s[0])
    } else {
        first_digit(s.drop_first())
    }
}

/// The value of the last digit of `s`, or zero when it has none.
pub open spec fn last_digit(s: Seq<char>) -> nat
    decreases s.len(),
{
    if s.len() == 0 {
        0
    } else if is_digit(s.last()) {
        digit_value(s.last())
    } else {
        last_digit(s.drop_last())
    }
}

/// The calibration value of one line.
pub open spec fn calibration(s: Seq<char>) -> nat {
    10 * first_digit(s) + last_digit(s)
}

pub open spec fn calibration_sum(lines: Seq<Seq<char>>) -> nat
    decreases lines.len(),
{
    if lines.len() == 0 {
        0
    } else {
        calibration_sum(lines.drop_last()) + calibration(lines.last())
    }
}

/// `s` with every occurrence of `from` replaced by `to`, scanning left to right
/// without overlaps.
pub open spec fn replaced(s: Seq<char>, from: Seq<char>, to: Seq<char>) -> Seq<char>
    decreases s.len(),
{
    if s.len() == 0 {
        Seq::empty()
    } else if from.len() > 0 && from.len() <= s.len() && s.subrange(0, from.len() as int)
        == from {
        to + replaced(s.subrange(from.len() as int, s.len() as int), from, to)
    } else {
        seq![s[0]] + replaced(s.drop_first(), from, to)
    }
}

/// A line with each spelled-out digit rewritten so that the digit stands in its
/// middle and its first and last letters stay for overlapping words.
pub open spec fn spelled_out(s: Seq<char>) -> Seq<char> {
    let s1 = replaced(s, "one"@, "o1e"@);
    let s2 = replaced(s1, "two"@, "t2o"@);
    let s3 = replaced(s2, "three"@, "t3e"@);
    let s4 = replaced(s3, "four"@, "f4r"@);
    let s5 = replaced(s4, "five"@, "f5e"@);
    let s6 = replaced(s5, "six"@, "s6x"@);
    let s7 = replaced(s6, "seven"@, "s7n"@);
    let s8 = replaced(s7, "eight"@, "e8t"@);
    replaced(s8, "nine"@, "n9e"@)
}

pub open spec fn views(input: Seq<String>) -> Seq<Seq<char>> {
    input.map_values(|s: String| s@)
}

fn first_digit_of(s: &Vec<char>) -> (r: u32)
    ensures
        r == first_digit(s@),
        r <= 9,
{
    let mut i: usize = s.len();
    let mut r: u32 = 0;
    while i > 0
        invariant
            i <= s@.len(),
            r == first_digit(s@.subrange(i as int, s@.len() as int)),
            r <= 9,
        decreases i,
    {
        i -= 1;
        let ghost suf = s@.subrange(i as int, s@.len() as int);
        assert(suf.drop_first() =~= s@.subrange(i + 1, s@.len() as int));
        let c = s[i];
        if '0' <= c && c <= '9' {
            r = c as u32 - '0' as u32;
        }
    }
    assert(s@.subrange(0, s@.len() as int) =~= s@);
    r
}

fn last_digit_of(s: &Vec<char>) -> (r: u32)
    ensures
        r == last_digit(s@),
        r <= 9,
{
    let mut i: usize = 0;
    let mut r: u32 = 0;
    while i < s.len()
        invariant
            i <= s@.len(),
            r == last_digit(s@.subrange(0, i as int)),
            r <= 9,
        decreases s@.len() - i,
    {
        assert(s@.subrange(0, i + 1).drop_last() =~= s@.subrange(0, i as int));
        let c = s[i];
        if '0' <= c && c <= '9' {
            r = c as u32 - '0' as u32;
        }
        i += 1;
    }
    assert(s@.subrange(0, i as int) =~= s@);
    r
}

/// Replaces every occurrence of `from` in `s` by `to`, left to right.
pub fn replace_all(s: &Vec<char>, from: &Vec<char>, to: &Vec<char>) -> (r: Vec<char>)
    ensures
        r@ == replaced(s@, from@, to@),
{
    let n = s.len();
    let m = from.len();
    let mut out: Vec<char> = Vec::new();
    let mut i: usize = 0;
    assert(s@.subrange(0, n as int) =~= s@);
    assert(out@ + replaced(s@, from@, to@) =~= replaced(s@, from@, to@));
    while i < n
        invariant
            n == s@.len(),
            m == from@.len(),
            i <= n,
            out@ + replaced(s@.subrange(i as int, n as int), from@, to@) == replaced(
                s@,
                from@,
                to@,
            ),
        decreases n - i,
    {
        let ghost suf = s@.subrange(i as int, n as int);
        let mut matches = m > 0 && m <= n - i;
        let mut j: usize = 0;
        while matches && j < m
            invariant
                m == from@.len(),
                n == s@.len(),
                i < n,
                matches ==> m <= n - i && m > 0,
                j <= m,
                matches ==> forall|t: int| 0 <= t < j ==> s@[i + t] == from@[t],
                !matches ==> !(m > 0 && m <= n - i && suf.subrange(0, m as int) == from@),
                suf == s@.subrange(i as int, n as int),
            decreases m - j + (if matches { 1int } else { 0int }),
        {
            if s[i + j] != from[j] {
                assert(suf.subrange(0, m as int)[j as int] != from@[j as int]);
                matches = false;
            } else {
                j += 1;
            }
        }
        if matches {
            assert(suf.subrange(0, m as int) =~= from@);
            assert(suf.subrange(m as int, suf.len() as int) =~= s@.subrange(i + m, n as int));
            let ghost before = out@;
            let mut k: usize = 0;
            while k < to.len()
                invariant
                    k <= to@.len(),
                    out@ == before + to@.subrange(0, k as int),
                decreases to@.len() - k,
            {
                out.push(to[k]);
                k += 1;
                assert(out@ =~= before + to@.subrange(0, k as int));
            }
            assert(to@.subrange(0, to@.len() as int) =~= to@);
            assert(out@ + replaced(s@.subrange(i + m, n as int), from@, to@) =~= before + (to@
                + replaced(s@.subrange(i + m, n as int), from@, to@)));
            i = i + m;
        } else {
            assert(suf.drop_first() =~= s@.subrange(i + 1, n as int));
            let ghost before = out@;
            out.push(s[i]);
            assert(out@ + replaced(s@.subrange(i + 1, n as int), from@, to@) =~= before + (seq![
                s@[i as int],
            ] + replaced(s@.subrange(i + 1, n as int), from@, to@)));
            i = i + 1;
        }
    }
    assert(s@.subrange(n as int, n as int) =~= Seq::<char>::empty());
    assert(out@ + Seq::<char>::empty() =~= out@);
    out
}

pub open spec fn char_views(lines: Seq<Vec<char>>) -> Seq<Seq<char>> {
    lines.map_values(|v: Vec<char>| v@)
}

fn calibration_total(lines: &Vec<Vec<char>>) -> (r: Option<u32>)
    ensures
        r is Some <==> calibration_sum(char_views(lines@)) <= u32::MAX,
        r matches Some(v) ==> v == calibration_sum(char_views(lines@)),
{
    let ghost ls = char_views(lines@);
    let mut sum: u32 = 0;
    let mut i: usize = 0;
    while i < lines.len()
        invariant
            ls == char_views(lines@),
            i <= lines@.len(),
            sum == calibration_sum(ls.subrange(0, i as int)),
        decreases lines@.len() - i,
    {
        let v = 10 * first_digit_of(&lines[i]) + last_digit_of(&lines[i]);
        assert(ls.subrange(0, i + 1).drop_last() =~= ls.subrange(0, i as int));
        assert(ls[i as int] == lines@[i as int]@);
        if sum > u32::MAX - v {
            proof {
                lemma_sum_prefix_grows(ls, i + 1);
            }
            return None;
        }
        sum = sum + v;
        i += 1;
    }
    assert(ls.subrange(0, i as int) =~= ls);
    Some(sum)
}

/// The sum of the calibration values of the lines; `None` when it does not fit
/// in a `u32`.
pub fn part1(input: Vec<String>) -> (r: Option<u32>)
    ensures
        r is Some <==> calibration_sum(views(input@)) <= u32::MAX,
        r matches Some(v) ==> v == calibration_sum(views(input@)),
{
    let mut lines: Vec<Vec<char>> = Vec::new();
    let mut i: usize = 0;
    while i < input.len()
        invariant
            i <= input@.len(),
            char_views(lines@) == views(input@).subrange(0, i as int),
        decreases input@.len() - i,
    {
        let cs = chars_of(input[i].as_str());
        assert(cs@ == views(input@)[i as int]);
        let ghost before = lines@;
        lines.push(cs);
        assert(char_views(lines@) =~= char_views(before).push(cs@));
        i += 1;
        assert(char_views(lines@) =~= views(input@).subrange(0, i as int));
    }
    assert(views(input@).subrange(0, i as int) =~= views(input@));
    calibration_total(&lines)
}

proof fn lemma_sum_prefix_grows(lines: Seq<Seq<char>>, i: int)
    requires
        0 <= i <= lines.len(),
    ensures
        calibration_sum(lines.subrange(0, i)) <= calibration_sum(lines),
    decreases lines.len() - i,
{
    if i < lines.len() {
        lemma_sum_prefix_grows(lines, i + 1);
        assert(lines.subrange(0, i + 1).drop_last() =~= lines.subrange(0, i));
    } else {
        assert(lines.subrange(0, i) =~= lines);
    }
}

/// The sum of the calibration values once spelled-out digits are counted too;
/// `None` when it does not fit in a `u32`.
pub fn part2(input: Vec<String>) -> (r: Option<u32>)
    ensures
        r is Some <==> calibration_sum(views(input@).map_values(|s: Seq<char>| spelled_out(s)))
            <= u32::MAX,
        r matches Some(v) ==> v == calibration_sum(
            views(input@).map_values(|s: Seq<char>| spelled_out(s)),
        ),
{
    let mut rewritten: Vec<Vec<char>> = Vec::new();
    let mut i: usize = 0;
    while i < input.len()
        invariant
            i <= input@.len(),
            char_views(rewritten@) == views(input@).map_values(|s: Seq<char>| spelled_out(s)).subrange(0, i as int),
        decreases input@.len() - i,
    {
        let mut cs = chars_of(input[i].as_str());
        cs = replace_all(&cs, &chars_of("one"), &chars_of("o1e"));
        cs = replace_all(&cs, &chars_of("two"), &chars_of("t2o"));
        cs = replace_all(&cs, &chars_of("three"), &chars_of("t3e"));
        cs = replace_all(&cs, &chars_of("four"), &chars_of("f4r"));
        cs = replace_all(&cs, &chars_of("five"), &chars_of("f5e"));
        cs = replace_all(&cs, &chars_of("six"), &chars_of("s6x"));
        cs = replace_all(&cs, &chars_of("seven"), &chars_of("s7n"));
        cs = replace_all(&cs, &chars_of("eight"), &chars_of("e8t"));
        cs = replace_all(&cs, &chars_of("nine"), &chars_of("n9e"));
        assert(cs@ == views(input@).map_values(|s: Seq<char>| spelled_out(s))[i as int]);
        let ghost before = rewritten@;
        rewritten.push(cs);
        assert(char_views(rewritten@) =~= char_views(before).push(cs@));
        i += 1;
        assert(char_views(rewritten@) =~= views(input@).map_values(|s: Seq<char>| spelled_out(s)).subrange(0, i as int));
    }
    assert(views(input@).map_values(|s: Seq<char>| spelled_out(s)).subrange(0, i as int) =~= views(input@).map_values(|s: Seq<char>| spelled_out(s)));
    calibration_total(&rewritten)
}

} // verus!
