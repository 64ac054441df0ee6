//! Boat races: how many ways of holding the button reach the record distance.
use vstd::prelude::*;
use crate::text::{chars_of, split, split_words, parse_u64, words, split_on, is_u64_decimal, decimal_value};

verus! {

/// How many hold times `t` below `k` travel at least `distance` in a race of
/// `time` milliseconds: `t * (time - t) >= distance`.
pub open spec fn wins_below(time: nat, distance: nat, k: int) -> nat
    decreases k,
{
    if k <= 0 {
        0
    } else {
        wins_below(time, distance, k - 1) + (if (k - 1) * (time - (k - 1)) >= distance {
            1nat
        } else {
            0nat
        })
    }
}

/// The number of hold times from `0` to `time` that travel at least
/// `distance`.
pub open spec fn ways_to_win(time: nat, distance: nat) -> nat {
    wins_below(time, distance, time + 1int)
}

proof fn lemma_wins_bound(time: nat, distance: nat, k: int)
    requires
        k >= 0,
    ensures
        wins_below(time, distance, k) <= k,
    decreases k,
{
    if k > 0 {
        lemma_wins_bound(time, distance, k - 1);
    }
}

/// The number of hold times, from `0` to `time` milliseconds, that travel at
/// least `distance`; `None` when that count does not fit in a `u64`.
pub fn calc_winning(time: u64, distance: u64) -> (r: Option<u64>)
    ensures
        r is Some <==> ways_to_win(time as nat, distance as nat) <= u64::MAX,
        r matches Some(n) ==> n == ways_to_win(time as nat, distance as nat),
{
    let mut count: u64 = 0;
    let mut t: u64 = 0;
    let mut done = false;
    while !done
        invariant
            t <= time,
            !done ==> count == wins_below(time as nat, distance as nat, t as int),
            done ==> count == ways_to_win(time as nat, distance as nat),
            count <= t + 1,
        decreases time - t + (if done { 0int } else { 1int }),
    {
        proof {
            lemma_wins_bound(time as nat, distance as nat, t as int);
        }
        let rest = (time - t) as u128;
        proof {
            assert((t as u128) * rest <= 0xffff_ffff_ffff_ffff * 0xffff_ffff_ffff_ffffu128) by (nonlinear_arith)
                requires
                    t <= 0xffff_ffff_ffff_ffffu64,
                    rest <= 0xffff_ffff_ffff_ffffu128,
            ;
        }
        let travelled = (t as u128) * rest;
        if travelled >= distance as u128 {
            if count == u64::MAX {
                proof {
                    lemma_wins_grow(time as nat, distance as nat, t as int + 1, time as int + 1);
                }
                return None;
            }
            count = count + 1;
        }
        if t == time {
            done = true;
        } else {
            t = t + 1;
        }
    }
    Some(count)
}

proof fn lemma_wins_grow(time: nat, distance: nat, i: int, k: int)
    requires
        0 <= i <= k,
    ensures
        wins_below(time, distance, i) <= wins_below(time, distance, k),
    decreases k - i,
{
    if i < k {
        lemma_wins_grow(time, distance, i, k - 1);
    }
}

pub open spec fn views(input: Seq<String>) -> Seq<Seq<char>> {
    input.map_values(|s: String| s@)
}

/// Race `t` (counting from one) reads as two numbers.
pub open spec fn race_readable(input: Seq<Seq<char>>, t: int) -> bool {
    is_u64_decimal(words(input[0])[t]) && is_u64_decimal(words(input[1])[t])
}

/// The number of races: the pairs of a time and a distance.
pub open spec fn race_count(input: Seq<Seq<char>>) -> int {
    if words(input[0]).len() < words(input[1]).len() {
        words(input[0]).len() - 1
    } else {
        words(input[1]).len() - 1
    }
}

/// Race `t` can be won in a number of ways that fits in a `u64`, and so can
/// the product over races `1..=t`.
pub open spec fn race_fits(input: Seq<Seq<char>>, t: int) -> bool {
    ways_to_win(decimal_value(words(input[0])[t]), decimal_value(words(input[1])[t])) <= u64::MAX
        && product_of_ways(input, t) <= u64::MAX
}

/// Two lines, times then distances, whose words after the first are numbers;
/// races are paired up to the shorter of the two.
pub open spec fn valid_races(input: Seq<Seq<char>>) -> bool {
    &&& input.len() >= 2
    &&& words(input[0]).len() >= 1
    &&& words(input[1]).len() >= 1
    &&& forall|i: int|
        1 <= i && i < words(input[0]).len() && i < words(input[1]).len() ==> #[trigger] race_readable(input, i)
}

proof fn lemma_valid_races(input: Seq<Seq<char>>, n: int)
    requires
        input.len() >= 2,
        words(input[0]).len() >= 1,
        words(input[1]).len() >= 1,
        n == (if words(input[0]).len() < words(input[1]).len() {
            words(input[0]).len() - 1
        } else {
            words(input[1]).len() - 1
        }),
        forall|t: int|
            1 <= t && t <= n ==> #[trigger] race_readable(input, t),
    ensures
        valid_races(input),
{
    assert forall|i: int|
        1 <= i && i < words(input[0]).len() && i < words(input[1]).len() implies #[trigger] race_readable(input, i) by {
        assert(i <= n);
    }
}

/// The product of the ways to win over the first `k` races.
pub open spec fn product_of_ways(input: Seq<Seq<char>>, k: int) -> nat
    decreases k,
{
    if k <= 0 {
        1
    } else {
        product_of_ways(input, k - 1) * ways_to_win(
            decimal_value(words(input[0])[k]),
            decimal_value(words(input[1])[k]),
        )
    }
}

/// The product over all races of the number of ways to win; `None` when the
/// input is not two lines of numbers or the product overflows.
pub fn part1(input: Vec<String>) -> (r: Option<u64>)
    ensures
        !valid_races(views(input@)) ==> r is None,
        valid_races(views(input@)) && (forall|t: int| 1 <= t <= race_count(views(input@)) ==> #[trigger] race_fits(views(input@), t))
            ==> r is Some,
        r matches Some(p) ==> valid_races(views(input@)) && p == product_of_ways(
            views(input@),
            if words(views(input@)[0]).len() < words(views(input@)[1]).len() {
                words(views(input@)[0]).len() - 1
            } else {
                words(views(input@)[1]).len() - 1
            },
        ),
{
    let ghost lines = views(input@);
    if input.len() < 2 {
        return None;
    }
    let times = split_words(&chars_of(input[0].as_str()));
    let dists = split_words(&chars_of(input[1].as_str()));
    assert(lines[0] == input@[0]@ && lines[1] == input@[1]@);
    if times.len() < 1 || dists.len() < 1 {
        return None;
    }
    let n = if times.len() < dists.len() {
        times.len() - 1
    } else {
        dists.len() - 1
    };
    let mut result: u64 = 1;
    let mut i: usize = 0;
    while i < n
        invariant
            lines == views(input@),
            lines.len() >= 2,
            times@.len() == words(lines[0]).len(),
            dists@.len() == words(lines[1]).len(),
            forall|t: int| 0 <= t < times@.len() ==> #[trigger] times@[t]@ == words(lines[0])[t],
            forall|t: int| 0 <= t < dists@.len() ==> #[trigger] dists@[t]@ == words(lines[1])[t],
            times@.len() >= 1,
            dists@.len() >= 1,
            n == (if times@.len() < dists@.len() { times@.len() - 1 } else { dists@.len() - 1 }),
            i <= n,
            forall|t: int| 1 <= t && t <= i ==> #[trigger] race_readable(lines, t),
            result == product_of_ways(lines, i as int),
            n == race_count(lines),
        decreases n - i,
    {
        assert(times@[i + 1]@ == words(lines[0])[i + 1]);
        assert(dists@[i + 1]@ == words(lines[1])[i + 1]);
        let time = match parse_u64(&times[i + 1]) {
            Some(v) => v,
            None => {
                assert(!race_readable(lines, i + 1));
                return None;
            },
        };
        let distance = match parse_u64(&dists[i + 1]) {
            Some(v) => v,
            None => {
                assert(!race_readable(lines, i + 1));
                return None;
            },
        };
        assert(race_readable(lines, i + 1));
        assert(time == decimal_value(words(lines[0])[i + 1]));
        assert(distance == decimal_value(words(lines[1])[i + 1]));
        let w = match calc_winning(time, distance) {
            Some(w) => w,
            None => {
                assert(!race_fits(lines, i + 1));
                return None;
            },
        };
        result = match result.checked_mul(w) {
            Some(p) => p,
            None => {
                assert(!race_fits(lines, i + 1));
                return None;
            },
        };
        i += 1;
    }
    proof {
        lemma_valid_races(lines, n as int);
    }
    Some(result)
}

/// `s` without its spaces.
pub open spec fn without_spaces(s: Seq<char>) -> Seq<char> {
    s.filter(|c: char| c != ' ')
}

/// The one number that a line spells once its spaces are removed: the text
/// between its first and second colon.
pub open spec fn kerned(line: Seq<char>) -> Seq<char> {
    split_on(without_spaces(line), ':')[1]
}

fn strip_spaces(s: &Vec<char>) -> (r: Vec<char>)
    ensures
        r@ == without_spaces(s@),
{
    let mut r: Vec<char> = Vec::new();
    let mut i: usize = 0;
    while i < s.len()
        invariant
            i <= s@.len(),
            r@ == without_spaces(s@.subrange(0, i as int)),
        decreases s@.len() - i,
    {
        proof {
            reveal(Seq::filter);
            assert(s@.subrange(0, i + 1).drop_last() =~= s@.subrange(0, i as int));
        }
        if s[i] != ' ' {
            r.push(s[i]);
        }
        i += 1;
    }
    assert(s@.subrange(0, i as int) =~= s@);
    r
}


/// The number of ways to win the one long race that the two lines describe
/// once their spaces are removed; `None` when they do not spell two numbers or
/// the count overflows.
pub fn part2(input: Vec<String>) -> (r: Option<u64>)
    ensures
        r is Some <==> input@.len() >= 2 && split_on(without_spaces(input@[0]@), ':').len()
            >= 2 && split_on(without_spaces(input@[1]@), ':').len() >= 2 && is_u64_decimal(
            kerned(input@[0]@),
        ) && is_u64_decimal(kerned(input@[1]@)) && ways_to_win(
            decimal_value(kerned(input@[0]@)),
            decimal_value(kerned(input@[1]@)),
        ) <= u64::MAX,
        r matches Some(n) ==> n == ways_to_win(
            decimal_value(kerned(input@[0]@)),
            decimal_value(kerned(input@[1]@)),
        ),
{
    if input.len() < 2 {
        return None;
    }
    let t = split(&strip_spaces(&chars_of(input[0].as_str())), ':');
    let d = split(&strip_spaces(&chars_of(input[1].as_str())), ':');
    if t.len() < 2 || d.len() < 2 {
        return None;
    }
    let time = match parse_u64(&t[1]) {
        Some(v) => v,
        None => {
            return None;
        },
    };
    let distance = match parse_u64(&d[1]) {
        Some(v) => v,
        None => {
            return None;
        },
    };
    calc_winning(time, distance)
}

} // verus!
