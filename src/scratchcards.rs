//! Scratchcards: the numbers a card wins, its points, and the copies that
//! winning cards hand on to the cards after them.
use vstd::prelude::*;
use vstd::arithmetic::power::pow;
use crate::text::{chars_of, split_on, split, parse_u64, is_u64_decimal, decimal_value};
use crate::trebuchet::{replace_all, replaced};

verus! {

/// `s` spells a number that fits in a `u32`.
pub open spec fn is_u32_decimal(s: Seq<char>) -> bool {
    is_u64_decimal(s) && decimal_value(s) <= u32::MAX
}

pub open spec fn piece_ok(pieces: Seq<Seq<char>>, i: int) -> bool {
    is_u32_decimal(pieces[i])
}

/// A list of numbers separated by single spaces.
pub open spec fn number_list_ok(s: Seq<char>) -> bool {
    forall|i: int| 0 <= i < split_on(s, ' ').len() ==> #[trigger] piece_ok(split_on(s, ' '), i)
}

pub open spec fn number_list(s: Seq<char>) -> Seq<nat> {
    split_on(s, ' ').map_values(|p: Seq<char>| decimal_value(p))
}

/// Reads numbers separated by single spaces; `None` when a piece is not a
/// number that fits in a `u32`.
pub fn to_vec_u32(line: &str) -> (r: Option<Vec<u32>>)
    ensures
        r is Some <==> number_list_ok(line@),
        r matches Some(v) ==> v@.map_values(|x: u32| x as nat) == number_list(line@),
{
    read_numbers(&chars_of(line))
}

/// Relies on num_traits' `pow`: `base` multiplied by itself `exp` times, by
/// repeated squaring whose intermediate values stay at or below the result.
#[verifier::external_body]
fn power_of(base: u32, exp: usize) -> (r: u32)
    requires
        pow(base as int, exp as nat) <= u32::MAX,
    ensures
        r == pow(base as int, exp as nat),
{
    num_traits::pow(base, exp)
}

/// A card line once double spaces are collapsed: `Card <n>: <winning> | <have>`.
pub open spec fn collapsed(line: Seq<char>) -> Seq<char> {
    replaced(line, "  "@, " "@)
}

pub open spec fn card_body(line: Seq<char>) -> Seq<char> {
    split_on(collapsed(line), ':')[1].drop_first()
}

pub open spec fn winning_text(line: Seq<char>) -> Seq<char> {
    split_on(card_body(line), '|')[0].drop_last()
}

pub open spec fn having_text(line: Seq<char>) -> Seq<char> {
    split_on(card_body(line), '|')[1].drop_first()
}

/// A card line: a colon and a space, the winning numbers, ` | `, and the
/// numbers on the card.
pub open spec fn card_ok(line: Seq<char>) -> bool {
    &&& split_on(collapsed(line), ':').len() >= 2
    &&& split_on(collapsed(line), ':')[1].len() > 0
    &&& split_on(collapsed(line), ':')[1][0] == ' '
    &&& split_on(card_body(line), '|').len() >= 2
    &&& split_on(card_body(line), '|')[0].len() > 0
    &&& split_on(card_body(line), '|')[0].last() == ' '
    &&& split_on(card_body(line), '|')[1].len() > 0
    &&& split_on(card_body(line), '|')[1][0] == ' '
    &&& number_list_ok(winning_text(line))
    &&& number_list_ok(having_text(line))
}

/// How often `x` occurs among the first `k` numbers.
pub open spec fn occurrences(xs: Seq<nat>, x: nat, k: int) -> nat
    decreases k,
{
    if k <= 0 {
        0
    } else {
        occurrences(xs, x, k - 1) + (if xs[k - 1] == x {
            1nat
        } else {
            0nat
        })
    }
}

/// The pairs of a winning number among the first `k` and an equal number on
/// the card.
pub open spec fn matching_pairs(winning: Seq<nat>, having: Seq<nat>, k: int) -> nat
    decreases k,
{
    if k <= 0 {
        0
    } else {
        matching_pairs(winning, having, k - 1) + occurrences(having, winning[k - 1], having.len() as int)
    }
}

pub open spec fn card_matches(line: Seq<char>) -> nat {
    let w = number_list(winning_text(line));
    matching_pairs(w, number_list(having_text(line)), w.len() as int)
}

/// A card is worth one point for its first match, doubled for each further one.
pub open spec fn card_points(line: Seq<char>) -> nat {
    if card_matches(line) == 0 {
        0
    } else {
        pow(2, (card_matches(line) - 1) as nat) as nat
    }
}

fn text_of(cs: &Vec<char>, from: usize, to: usize) -> (r: Vec<char>)
    requires
        from <= to <= cs@.len(),
    ensures
        r@ == cs@.subrange(from as int, to as int),
{
    let mut r: Vec<char> = Vec::new();
    let mut k: usize = from;
    while k < to
        invariant
            from <= k <= to <= cs@.len(),
            r@ == cs@.subrange(from as int, k as int),
        decreases to - k,
    {
        r.push(cs[k]);
        k += 1;
        assert(r@ =~= cs@.subrange(from as int, k as int));
    }
    r
}

fn read_numbers(cs: &Vec<char>) -> (r: Option<Vec<u32>>)
    ensures
        r is Some <==> number_list_ok(cs@),
        r matches Some(v) ==> v@.map_values(|x: u32| x as nat) == number_list(cs@),
{
    let pieces = split(cs, ' ');
    let ghost ps = split_on(cs@, ' ');
    let mut out: Vec<u32> = Vec::new();
    let mut i: usize = 0;
    while i < pieces.len()
        invariant
            ps == split_on(cs@, ' '),
            pieces@.len() == ps.len(),
            forall|t: int| 0 <= t < ps.len() ==> #[trigger] pieces@[t]@ == ps[t],
            i <= pieces@.len(),
            out@.len() == i,
            forall|t: int| 0 <= t < i ==> #[trigger] piece_ok(ps, t),
            forall|t: int| 0 <= t < i ==> out@[t] == decimal_value(#[trigger] ps[t]),
        decreases pieces@.len() - i,
    {
        assert(pieces@[i as int]@ == ps[i as int]);
        match parse_u64(&pieces[i]) {
            Some(v) => {
                if v > u32::MAX as u64 {
                    assert(!piece_ok(ps, i as int));
                    return None;
                }
                out.push(v as u32);
            },
            None => {
                assert(!piece_ok(ps, i as int));
                return None;
            },
        }
        assert(piece_ok(ps, i as int));
        i += 1;
    }
    assert(out@.map_values(|x: u32| x as nat) =~= number_list(cs@));
    Some(out)
}

/// Reads a card line and counts its matches; `None` when it is not a card.
fn card_match_count(line: &String) -> (r: Option<u128>)
    ensures
        r is Some <==> card_ok(line@),
        r matches Some(m) ==> m == card_matches(line@),
{
    let cs = replace_all(&chars_of(line.as_str()), &chars_of("  "), &chars_of(" "));
    assert(cs@ == collapsed(line@));
    let halves = split(&cs, ':');
    if halves.len() < 2 {
        return None;
    }
    let after = &halves[1];
    assert(after@ == split_on(collapsed(line@), ':')[1]);
    if after.len() == 0 || after[0] != ' ' {
        return None;
    }
    let body = text_of(after, 1, after.len());
    assert(body@ =~= card_body(line@));
    let sides = split(&body, '|');
    if sides.len() < 2 {
        return None;
    }
    let left = &sides[0];
    let right = &sides[1];
    assert(left@ == split_on(card_body(line@), '|')[0]);
    assert(right@ == split_on(card_body(line@), '|')[1]);
    if left.len() == 0 || left[left.len() - 1] != ' ' || right.len() == 0 || right[0] != ' ' {
        return None;
    }
    let wtext = text_of(left, 0, left.len() - 1);
    let htext = text_of(right, 1, right.len());
    assert(wtext@ =~= winning_text(line@));
    assert(htext@ =~= having_text(line@));
    let winning = match read_numbers(&wtext) {
        Some(v) => v,
        None => {
            return None;
        },
    };
    let having = match read_numbers(&htext) {
        Some(v) => v,
        None => {
            return None;
        },
    };
    let ghost w = number_list(winning_text(line@));
    let ghost h = number_list(having_text(line@));
    let mut count: u128 = 0;
    let mut a: usize = 0;
    while a < winning.len()
        invariant
            winning@.map_values(|x: u32| x as nat) == w,
            having@.map_values(|x: u32| x as nat) == h,
            a <= winning@.len(),
            count == matching_pairs(w, h, a as int),
            count <= a * having@.len(),
        decreases winning@.len() - a,
    {
        let mut inner: u128 = 0;
        let mut b: usize = 0;
        assert(w[a as int] == winning@[a as int] as nat);
        while b < having.len()
            invariant
                having@.map_values(|x: u32| x as nat) == h,
                a < winning@.len(),
                w[a as int] == winning@[a as int] as nat,
                b <= having@.len(),
                inner == occurrences(h, w[a as int], b as int),
                inner <= b,
            decreases having@.len() - b,
        {
            assert(h[b as int] == having@[b as int] as nat);
            if winning[a] == having[b] {
                inner = inner + 1;
            }
            b += 1;
        }
        proof {
            assert((a + 1) * having@.len() == a * having@.len() + having@.len()) by (nonlinear_arith);
            assert((a + 1) * having@.len() <= winning@.len() * having@.len()) by (nonlinear_arith)
                requires
                    a + 1 <= winning@.len(),
            ;
            assert(winning@.len() * having@.len() <= u128::MAX) by (nonlinear_arith)
                requires
                    winning@.len() <= u64::MAX,
                    having@.len() <= u64::MAX,
            ;
        }
        count = count + inner;
        a += 1;
    }
    Some(count)
}

pub open spec fn views(input: Seq<String>) -> Seq<Seq<char>> {
    input.map_values(|s: String| s@)
}

pub open spec fn card_readable(lines: Seq<Seq<char>>, i: int) -> bool {
    card_ok(lines[i])
}

/// The points of the first `k` cards.
pub open spec fn points_sum(lines: Seq<Seq<char>>, k: int) -> nat
    decreases k,
{
    if k <= 0 {
        0
    } else {
        points_sum(lines, k - 1) + card_points(lines[k - 1])
    }
}

proof fn lemma_points_grow(lines: Seq<Seq<char>>, i: int, k: int)
    requires
        0 <= i <= k,
    ensures
        points_sum(lines, i) <= points_sum(lines, k),
    decreases k - i,
{
    if i < k {
        lemma_points_grow(lines, i, k - 1);
    }
}

/// The sum of the points of all cards; `None` when a line is not a card or a
/// value does not fit in a `u32`.
pub fn part1(input: &[String]) -> (r: Option<u32>)
    ensures
        r matches Some(v) ==> (forall|i: int| 0 <= i < input@.len() ==> #[trigger] card_readable(views(input@), i))
            && v == points_sum(views(input@), input@.len() as int),
        (exists|i: int| 0 <= i < input@.len() && !#[trigger] card_readable(views(input@), i)) ==> r is None,
        (forall|i: int| 0 <= i < input@.len() ==> #[trigger] card_readable(views(input@), i))
            && points_sum(views(input@), input@.len() as int) <= u32::MAX ==> r is Some,
{
    let ghost lines = views(input@);
    let mut sum: u32 = 0;
    let mut i: usize = 0;
    while i < input.len()
        invariant
            lines == views(input@),
            i <= input@.len(),
            forall|t: int| 0 <= t < i ==> #[trigger] card_readable(lines, t),
            sum == points_sum(lines, i as int),
        decreases input@.len() - i,
    {
        assert(lines[i as int] == input@[i as int]@);
        let m = match card_match_count(&input[i]) {
            Some(m) => m,
            None => {
                assert(!card_readable(lines, i as int));
                return None;
            },
        };
        assert(card_readable(lines, i as int));
        if m != 0 {
            if m > 32 {
                proof {
                    vstd::arithmetic::power::lemma_pow_increases(2, 32, (m - 1) as nat);
                    vstd::arithmetic::power2::lemma2_to64();
                    vstd::arithmetic::power2::lemma_pow2(32);
                    lemma_points_grow(lines, i + 1, input@.len() as int);
                }
                return None;
            }
            proof {
                vstd::arithmetic::power::lemma_pow_increases(2, (m - 1) as nat, 31);
                vstd::arithmetic::power2::lemma2_to64();
                vstd::arithmetic::power2::lemma_pow2((m - 1) as nat);
                vstd::arithmetic::power2::lemma_pow2(31);
                vstd::arithmetic::power::lemma_pow_positive(2, (m - 1) as nat);
            }
            let p = power_of(2, (m - 1) as usize);
            sum = match sum.checked_add(p) {
                Some(s) => s,
                None => {
                    proof {
                        lemma_points_grow(lines, i + 1, input@.len() as int);
                    }
                    return None;
                },
            };
        }
        i += 1;
    }
    Some(sum)
}

/// The copies of card `i`: the card itself, plus one for every copy of each
/// earlier card `k` whose matches reach card `i` (`i <= k + matches[k]`).
pub open spec fn copies(ms: Seq<nat>, i: int) -> nat
    decreases i, 1int,
{
    if i < 0 {
        0
    } else {
        1 + copies_received(ms, i, i)
    }
}

/// The copies that card `i` receives from the first `k` cards.
pub open spec fn copies_received(ms: Seq<nat>, i: int, k: int) -> nat
    decreases i, 0int, k,
{
    if k <= 0 || k > i {
        0
    } else {
        copies_received(ms, i, k - 1) + (if i <= (k - 1) + ms[k - 1] {
            copies(ms, k - 1)
        } else {
            0
        })
    }
}

/// The copies of the first `k` cards together.
pub open spec fn copies_total(ms: Seq<nat>, k: int) -> nat
    decreases k,
{
    if k <= 0 {
        0
    } else {
        copies_total(ms, k - 1) + copies(ms, k - 1)
    }
}

pub open spec fn line_matches(lines: Seq<Seq<char>>) -> Seq<nat> {
    lines.map_values(|l: Seq<char>| card_matches(l))
}

proof fn lemma_copies_total_grows(ms: Seq<nat>, i: int, k: int)
    requires
        0 <= i <= k,
    ensures
        copies_total(ms, i) <= copies_total(ms, k),
    decreases k - i,
{
    if i < k {
        lemma_copies_total_grows(ms, i, k - 1);
    }
}

proof fn lemma_received_grows(ms: Seq<nat>, t: int, k: int, k2: int)
    requires
        0 <= k <= k2 <= t,
    ensures
        copies_received(ms, t, k) <= copies_received(ms, t, k2),
    decreases k2 - k,
{
    if k < k2 {
        lemma_received_grows(ms, t, k, k2 - 1);
    }
}

/// The copies of one card are part of the total.
proof fn lemma_copy_in_total(ms: Seq<nat>, j: int, n: int)
    requires
        0 <= j < n,
    ensures
        copies(ms, j) <= copies_total(ms, n),
{
    lemma_copies_total_grows(ms, j + 1, n);
}

/// The number of cards in the end, once each card's matches win copies of
/// the cards after it; `None` when a line is not a card or a count overflows.
pub fn part2(input: &[String]) -> (r: Option<u32>)
    ensures
        r matches Some(v) ==> (forall|i: int| 0 <= i < input@.len() ==> #[trigger] card_readable(views(input@), i))
            && v == copies_total(line_matches(views(input@)), input@.len() as int),
        (exists|i: int| 0 <= i < input@.len() && !#[trigger] card_readable(views(input@), i)) ==> r is None,
        (forall|i: int| 0 <= i < input@.len() ==> #[trigger] card_readable(views(input@), i))
            && copies_total(line_matches(views(input@)), input@.len() as int) <= u32::MAX ==> r is Some,
{
    let ghost lines = views(input@);
    let n = input.len();
    let mut matches: Vec<u128> = Vec::new();
    let mut i: usize = 0;
    while i < n
        invariant
            lines == views(input@),
            n == input@.len(),
            i <= n,
            matches@.len() == i,
            forall|t: int| 0 <= t < i ==> #[trigger] card_readable(lines, t),
            forall|t: int| 0 <= t < i ==> matches@[t] == card_matches(#[trigger] lines[t]),
        decreases n - i,
    {
        assert(lines[i as int] == input@[i as int]@);
        match card_match_count(&input[i]) {
            Some(m) => {
                matches.push(m);
            },
            None => {
                assert(!card_readable(lines, i as int));
                return None;
            },
        }
        assert(card_readable(lines, i as int));
        i += 1;
    }
    let ghost ms = line_matches(lines);
    assert forall|t: int| 0 <= t < n implies ms[t] == matches@[t] by {}
    let mut number: Vec<u32> = Vec::new();
    let mut t: usize = 0;
    while t < n
        invariant
            n == ms.len(),
            t <= n,
            number@.len() == t,
            forall|u: int| 0 <= u < t ==> number@[u] == 1,
        decreases n - t,
    {
        number.push(1);
        t += 1;
    }
    let mut sum: u32 = 0;
    let mut i: usize = 0;
    while i < n
        invariant
            n == ms.len(),
            n == matches@.len(),
            forall|t: int| 0 <= t < n ==> ms[t] == matches@[t],
            i <= n,
            number@.len() == n,
            forall|t: int| 0 <= t < i ==> number@[t] == copies(ms, t),
            forall|t: int| i <= t < n ==> number@[t] == 1 + copies_received(ms, t, i as int),
            sum == copies_total(ms, i as int),
            ms == line_matches(views(input@)),
            n == input@.len(),
        decreases n - i,
    {
        assert(copies(ms, i as int) == 1 + copies_received(ms, i as int, i as int));
        let here = number[i];
        proof {
            lemma_copies_total_grows(ms, i as int + 1, n as int);
        }
        sum = match sum.checked_add(here) {
            Some(s) => s,
            None => {
                return None;
            },
        };
        let points = matches[i];
        let mut j: usize = i + 1;
        while j < n
            invariant
                n == ms.len(),
                n == matches@.len(),
                forall|t: int| 0 <= t < n ==> ms[t] == matches@[t],
                i < n,
                i + 1 <= j <= n,
                points == matches@[i as int],
                number@.len() == n,
                here == copies(ms, i as int),
                sum == copies_total(ms, i + 1),
                ms == line_matches(views(input@)),
                n == input@.len(),
                forall|t: int| 0 <= t <= i ==> number@[t] == copies(ms, t),
                forall|t: int| i < t < j ==> number@[t] == 1 + copies_received(ms, t, i + 1),
                forall|t: int| j <= t < n ==> number@[t] == 1 + copies_received(ms, t, i as int),
            decreases n - j,
        {
            assert(copies_received(ms, j as int, i + 1) == copies_received(ms, j as int, i as int) + (if j <= i + ms[i as int] {
                copies(ms, i as int)
            } else {
                0
            }));
            if ((j - i) as u128) <= points {
                let bumped = match number[j].checked_add(here) {
                    Some(v) => v,
                    None => {
                        proof {
                            lemma_received_grows(ms, j as int, i + 1, j as int);
                            assert(copies(ms, j as int) == 1 + copies_received(ms, j as int, j as int));
                            lemma_copy_in_total(ms, j as int, n as int);
                        }
                        return None;
                    },
                };
                number.set(j, bumped);
            }
            j += 1;
        }
        i += 1;
    }
    Some(sum)
}

} // verus!
