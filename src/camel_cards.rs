//! Ranking hands of five cards by type and then card by card, with an optional
//! wild card.
use vstd::prelude::*;
use crate::text::{chars_of, split_words, parse_u64, words, is_u64_decimal, decimal_value, is_digit, digit_value};

verus! {

/// A hand as read from a line: its cards, its bid, its comparison value and
/// the rank that it was given.
pub struct Hand {
    pub cards: [char; 5],
    pub bid: u64,
    pub value: u64,
    pub rank: u64,
}

/// A label that has a value: a digit, or one of `T`, `J`, `Q`, `K`, `A`.
pub open spec fn is_card(c: char) -> bool {
    is_digit(c) || c == 'A' || c == 'K' || c == 'Q' || c == 'J' || c == 'T'
}

pub open spec fn card_value(c: char) -> nat {
    if c == 'A' {
        14
    } else if c == 'K' {
        13
    } else if c == 'Q' {
        12
    } else if c == 'J' {
        11
    } else if c == 'T' {
        10
    } else {
        digit_value(c)
    }
}

/// The value of one card; `1` stands for a wild joker.
pub fn get_card_value(c: char) -> (r: u64)
    requires
        is_card(c),
    ensures
        r == card_value(c),
{
    if c == 'A' {
        14
    } else if c == 'K' {
        13
    } else if c == 'Q' {
        12
    } else if c == 'J' {
        11
    } else if c == 'T' {
        10
    } else {
        (c as u32 - '0' as u32) as u64
    }
}

/// How many of the first `k` cards are `c`.
pub open spec fn occurrences(cards: Seq<char>, c: char, k: int) -> nat
    decreases k,
{
    if k <= 0 {
        0
    } else {
        occurrences(cards, c, k - 1) + (if cards[k - 1] == c {
            1nat
        } else {
            0nat
        })
    }
}

/// Puts a count into a pair of largest counts.
pub open spec fn insert_count(o: nat, top: (nat, nat)) -> (nat, nat) {
    if o > top.0 {
        (o, top.0)
    } else if o > top.1 {
        (top.0, o)
    } else {
        top
    }
}

/// The largest and second largest count among the distinct labels, other
/// than the joker `1`, of the first `i` cards.
pub open spec fn top_two(cards: Seq<char>, i: int) -> (nat, nat)
    decreases i,
{
    if i <= 0 {
        (0, 0)
    } else {
        let c = cards[i - 1];
        if c == '1' || occurrences(cards, c, i - 1) > 0 {
            top_two(cards, i - 1)
        } else {
            insert_count(occurrences(cards, c, 5), top_two(cards, i - 1))
        }
    }
}

/// The type of a hand, from its largest count (jokers added) and its second
/// largest: 7 five of a kind, 6 four, 5 full house, 4 three, 3 two pairs,
/// 2 one pair, 1 high card.
pub open spec fn classify(big: nat, second: nat) -> nat {
    if big >= 4 {
        big + 2
    } else if big == 3 && second >= 2 {
        5
    } else if big == 2 && second == 2 {
        3
    } else if big == 3 {
        4
    } else {
        big
    }
}

pub open spec fn hand_type(cards: Seq<char>) -> nat {
    classify(top_two(cards, 5).0 + occurrences(cards, '1', 5), top_two(cards, 5).1)
}

/// The type followed by the first `k` card values, two decimal digits each.
pub open spec fn value_upto(cards: Seq<char>, k: int) -> nat
    decreases k,
{
    if k <= 0 {
        hand_type(cards)
    } else {
        value_upto(cards, k - 1) * 100 + card_value(cards[k - 1])
    }
}

pub open spec fn hand_value(cards: Seq<char>) -> nat {
    value_upto(cards, 5)
}

fn count_of(cards: &[char; 5], c: char) -> (r: u64)
    ensures
        r == occurrences(cards@, c, 5),
        r <= 5,
{
    let mut r: u64 = 0;
    let mut k: usize = 0;
    while k < 5
        invariant
            k <= 5,
            r == occurrences(cards@, c, k as int),
            r <= k,
        decreases 5 - k,
    {
        if cards[k] == c {
            r = r + 1;
        }
        k += 1;
    }
    r
}

/// The type of a hand, from 1 (high card) to 7 (five of a kind); `1` stands
/// for a joker that joins the largest group.
pub fn get_type_value(cards: [char; 5]) -> (r: u64)
    ensures
        r == hand_type(cards@),
{
    let mut big: u64 = 0;
    let mut second: u64 = 0;
    let mut i: usize = 0;
    while i < 5
        invariant
            i <= 5,
            (big as nat, second as nat) == top_two(cards@, i as int),
            big <= 5,
            second <= 5,
        decreases 5 - i,
    {
        let c = cards[i];
        let mut seen = false;
        let mut j: usize = 0;
        while j < i
            invariant
                j <= i < 5,
                c == cards@[i as int],
                seen == (occurrences(cards@, c, j as int) > 0),
            decreases i - j,
        {
            if cards[j] == c {
                seen = true;
            }
            j += 1;
        }
        if !(c == '1' || seen) {
            let occ = count_of(&cards, c);
            if occ > big {
                second = big;
                big = occ;
            } else if occ > second {
                second = occ;
            }
        }
        i += 1;
    }
    let wild = count_of(&cards, '1');
    big = big + wild;
    if big >= 4 {
        big + 2
    } else if big == 3 && second >= 2 {
        5
    } else if big == 2 && second == 2 {
        3
    } else if big == 3 {
        4
    } else {
        big
    }
}

/// The value that orders hands: the type, then each card's value, two decimal
/// digits per card.
pub fn get_hand_value(cards: [char; 5]) -> (r: u64)
    requires
        forall|i: int| 0 <= i < 5 ==> is_card(#[trigger] cards@[i]),
    ensures
        r == hand_value(cards@),
{
    let mut value: u64 = get_type_value(cards);
    proof {
        assert(hand_type(cards@) <= 12) by {
            assert(top_two(cards@, 5).0 <= 5) by {
                lemma_top_two_bound(cards@, 5);
            }
            lemma_occurrences_bound(cards@, '1', 5);
        }
    }
    let mut k: usize = 0;
    while k < 5
        invariant
            k <= 5,
            forall|i: int| 0 <= i < 5 ==> is_card(#[trigger] cards@[i]),
            value == value_upto(cards@, k as int),
            value < 13 * pow100(k as nat),
        decreases 5 - k,
    {
        let v = get_card_value(cards[k]);
        proof {
            assert(v <= 14);
            assert(pow100((k + 1) as nat) == 100 * pow100(k as nat));
            lemma_pow100_grows(k as nat);
            assert(value * 100 + v < 13 * pow100((k + 1) as nat)) by (nonlinear_arith)
                requires
                    value < 13 * pow100(k as nat),
                    v <= 14,
                    pow100((k + 1) as nat) == 100 * pow100(k as nat),
            ;
        }
        value = value * 100 + v;
        k += 1;
    }
    value
}

pub open spec fn pow100(k: nat) -> nat
    decreases k,
{
    if k == 0 {
        1
    } else {
        100 * pow100((k - 1) as nat)
    }
}

proof fn lemma_pow100_grows(k: nat)
    requires
        k < 5,
    ensures
        13 * pow100(k + 1) <= 13 * pow100(5),
        pow100(5) == 10000000000,
    decreases 5 - k,
{
    assert(pow100(0) == 1);
    assert(pow100(1) == 100);
    assert(pow100(2) == 10000);
    assert(pow100(3) == 1000000);
    assert(pow100(4) == 100000000);
    assert(pow100(5) == 10000000000);
    if k + 1 < 5 {
        lemma_pow100_grows(k + 1);
    }
}

proof fn lemma_occurrences_bound(cards: Seq<char>, c: char, k: int)
    requires
        k >= 0,
    ensures
        occurrences(cards, c, k) <= k,
    decreases k,
{
    if k > 0 {
        lemma_occurrences_bound(cards, c, k - 1);
    }
}

proof fn lemma_top_two_bound(cards: Seq<char>, i: int)
    requires
        0 <= i <= 5,
    ensures
        top_two(cards, i).0 <= 5,
        top_two(cards, i).1 <= 5,
    decreases i,
{
    if i > 0 {
        lemma_top_two_bound(cards, i - 1);
        lemma_occurrences_bound(cards, cards[i - 1], 5);
    }
}

/// The five cards that the first word of a line gives: its letters, padded
/// with `0` when it is shorter than five.
pub open spec fn hand_cards(w: Seq<char>) -> Seq<char> {
    Seq::new(5, |i: int| if i < w.len() { w[i] } else { '0' })
}

/// A line of a hand: at least two words, the first of at most five cards, the
/// second a bid that fits in a `u64`.
pub open spec fn valid_hand_line(line: Seq<char>) -> bool {
    let ws = words(line);
    &&& ws.len() >= 2
    &&& ws[0].len() <= 5
    &&& forall|i: int| 0 <= i < ws[0].len() ==> is_card(#[trigger] ws[0][i])
    &&& is_u64_decimal(ws[1])
}

pub open spec fn line_value(line: Seq<char>) -> nat {
    hand_value(hand_cards(words(line)[0]))
}

pub open spec fn line_bid(line: Seq<char>) -> nat {
    decimal_value(words(line)[1])
}

/// Reads a hand from the characters of a line; `None` when the line is not a
/// hand.
fn hand_of_chars(cs: &Vec<char>) -> (r: Option<Hand>)
    ensures
        r is Some <==> valid_hand_line(cs@),
        r matches Some(h) ==> h.cards@ == hand_cards(words(cs@)[0]) && h.bid == line_bid(cs@)
            && h.value == line_value(cs@) && h.rank == 0,
{
    let ws = split_words(cs);
    if ws.len() < 2 {
        return None;
    }
    let first = &ws[0];
    assert(first@ == words(cs@)[0]);
    assert(ws@[1]@ == words(cs@)[1]);
    if first.len() > 5 {
        return None;
    }
    let mut cards: [char; 5] = ['0'; 5];
    let mut i: usize = 0;
    while i < first.len()
        invariant
            first@ == words(cs@)[0],
            first@.len() <= 5,
            i <= first@.len(),
            cards@.len() == 5,
            forall|t: int| 0 <= t < i ==> is_card(#[trigger] first@[t]),
            forall|t: int| 0 <= t < 5 ==> #[trigger] cards@[t] == (if t < i { first@[t] } else { '0' }),
        decreases first@.len() - i,
    {
        let c = first[i];
        if !(('0' <= c && c <= '9') || c == 'A' || c == 'K' || c == 'Q' || c == 'J' || c == 'T') {
            return None;
        }
        cards[i] = c;
        i += 1;
    }
    let bid = match parse_u64(&ws[1]) {
        Some(b) => b,
        None => {
            return None;
        },
    };
    assert(cards@ =~= hand_cards(words(cs@)[0]));
    assert forall|t: int| 0 <= t < 5 implies is_card(#[trigger] cards@[t]) by {}
    let value = get_hand_value(cards);
    Some(Hand { cards, bid, value, rank: 0 })
}

/// Reads a hand from a line; `None` when the line is not a hand.
pub fn get_hand(line: String) -> (r: Option<Hand>)
    ensures
        r is Some <==> valid_hand_line(line@),
        r matches Some(h) ==> h.cards@ == hand_cards(words(line@)[0]) && h.bid == line_bid(line@)
            && h.value == line_value(line@) && h.rank == 0,
{
    let cs = chars_of(line.as_str());
    hand_of_chars(&cs)
}

/// A line with each `J` turned into the joker `1`.
pub open spec fn jokered(line: Seq<char>) -> Seq<char> {
    line.map_values(|c: char| if c == 'J' { '1' } else { c })
}

pub open spec fn views(input: Seq<String>) -> Seq<Seq<char>> {
    input.map_values(|s: String| s@)
}

fn hands_of(input: &Vec<String>, jokers: bool) -> (r: Option<Vec<Hand>>)
    ensures
        r is Some <==> forall|i: int| 0 <= i < input@.len() ==> valid_hand_line(
            #[trigger] read_as(input@[i]@, jokers),
        ),
        r matches Some(hs) ==> hs@.len() == input@.len() && forall|i: int|
            0 <= i < hs@.len() ==> (#[trigger] hs@[i]).value ==  line_value(read_as(input@[i]@, jokers))
                && hs@[i].bid == line_bid(read_as(input@[i]@, jokers)),
{
    let mut hands: Vec<Hand> = Vec::new();
    let mut i: usize = 0;
    while i < input.len()
        invariant
            i <= input@.len(),
            hands@.len() == i,
            forall|t: int| 0 <= t < i ==> valid_hand_line(#[trigger] read_as(input@[t]@, jokers)),
            forall|t: int|
                0 <= t < i ==> (#[trigger] hands@[t]).value == line_value(read_as(input@[t]@, jokers))
                    && hands@[t].bid == line_bid(read_as(input@[t]@, jokers)),
        decreases input@.len() - i,
    {
        let mut cs = chars_of(input[i].as_str());
        if jokers {
            let mut k: usize = 0;
            let ghost orig = cs@;
            while k < cs.len()
                invariant
                    orig == input@[i as int]@,
                    cs@.len() == orig.len(),
                    k <= cs@.len(),
                    forall|t: int| 0 <= t < k ==> #[trigger] cs@[t] == jokered(orig)[t],
                    forall|t: int| k <= t < cs@.len() ==> #[trigger] cs@[t] == orig[t],
                decreases cs@.len() - k,
            {
                if cs[k] == 'J' {
                    cs.set(k, '1');
                }
                k += 1;
            }
            assert(cs@ =~= jokered(input@[i as int]@));
        }
        assert(cs@ == read_as(input@[i as int]@, jokers));
        match hand_of_chars(&cs) {
            Some(h) => {
                hands.push(h);
            },
            None => {
                return None;
            },
        }
        i += 1;
    }
    Some(hands)
}

/// A line as the game reads it: as given, or with jokers.
pub open spec fn read_as(line: Seq<char>, jokers: bool) -> Seq<char> {
    if jokers {
        jokered(line)
    } else {
        line
    }
}

/// Reads every line as a hand; `None` when a line is not a hand.
pub fn get_hands(input: Vec<String>) -> (r: Option<Vec<Hand>>)
    ensures
        r is Some <==> forall|i: int| 0 <= i < input@.len() ==> valid_hand_line(#[trigger] input@[i]@),
        r matches Some(hs) ==> hs@.len() == input@.len() && forall|i: int|
            0 <= i < hs@.len() ==> (#[trigger] hs@[i]).value ==  line_value(input@[i]@) && hs@[i].bid
                == line_bid(input@[i]@),
{
    let r = hands_of(&input, false);
    proof {
        if r is Some {
            assert forall|i: int| 0 <= i < input@.len() implies valid_hand_line(#[trigger] input@[i]@) by {
                assert(valid_hand_line(read_as(input@[i]@, false)));
            }
        } else {
            let j = choose|j: int|
                0 <= j < input@.len() && !valid_hand_line(#[trigger] read_as(input@[j]@, false));
            assert(read_as(input@[j]@, false) == input@[j]@);
        }
    }
    r
}

/// Reads every line as a hand in which each `J` is a joker; `None` when a line
/// is not a hand.
pub fn get_hands2(input: Vec<String>) -> (r: Option<Vec<Hand>>)
    ensures
        r is Some <==> forall|i: int| 0 <= i < input@.len() ==> valid_hand_line(
            #[trigger] jokered(input@[i]@),
        ),
        r matches Some(hs) ==> hs@.len() == input@.len() && forall|i: int|
            0 <= i < hs@.len() ==> (#[trigger] hs@[i]).value ==  line_value(jokered(input@[i]@))
                && hs@[i].bid == line_bid(jokered(input@[i]@)),
{
    let r = hands_of(&input, true);
    proof {
        if r is Some {
            assert forall|i: int| 0 <= i < input@.len() implies valid_hand_line(#[trigger] jokered(input@[i]@)) by {
                assert(valid_hand_line(read_as(input@[i]@, true)));
            }
        } else {
            let j = choose|j: int|
                0 <= j < input@.len() && !valid_hand_line(#[trigger] read_as(input@[j]@, true));
            assert(read_as(input@[j]@, true) == jokered(input@[j]@));
        }
    }
    r
}

/// How many of the first `k` values are below `v` (or, with `equal`, equal to
/// it).
pub open spec fn count_below(values: Seq<nat>, v: nat, k: int, equal: bool) -> nat
    decreases k,
{
    if k <= 0 {
        0
    } else {
        count_below(values, v, k - 1, equal) + (if (!equal && values[k - 1] < v) || (equal
            && values[k - 1] == v) {
            1nat
        } else {
            0nat
        })
    }
}

/// The rank of hand `i` once the hands are sorted by value, equal values
/// keeping their order: one more than the hands of lower value and the equal
/// hands before it.
pub open spec fn rank_of(values: Seq<nat>, i: int) -> nat {
    1 + count_below(values, values[i], values.len() as int, false) + count_below(
        values,
        values[i],
        i,
        true,
    )
}

/// The sum of bid times rank over the first `k` hands.
pub open spec fn winnings(values: Seq<nat>, bids: Seq<nat>, k: int) -> nat
    decreases k,
{
    if k <= 0 {
        0
    } else {
        winnings(values, bids, k - 1) + bids[k - 1] * rank_of(values, k - 1)
    }
}

pub open spec fn hand_values(hs: Seq<Hand>) -> Seq<nat> {
    hs.map_values(|h: Hand| h.value as nat)
}

pub open spec fn hand_bids(hs: Seq<Hand>) -> Seq<nat> {
    hs.map_values(|h: Hand| h.bid as nat)
}

proof fn lemma_count_below_bound(values: Seq<nat>, v: nat, k: int, equal: bool)
    requires
        k >= 0,
    ensures
        count_below(values, v, k, equal) <= k,
    decreases k,
{
    if k > 0 {
        lemma_count_below_bound(values, v, k - 1, equal);
    }
}

fn count_hands_below(hands: &Vec<Hand>, v: u64, k: usize, equal: bool) -> (r: u64)
    requires
        k <= hands@.len(),
    ensures
        r == count_below(hand_values(hands@), v as nat, k as int, equal),
{
    let mut r: u64 = 0;
    let mut j: usize = 0;
    while j < k
        invariant
            k <= hands@.len(),
            j <= k,
            r == count_below(hand_values(hands@), v as nat, j as int, equal),
        decreases k - j,
    {
        proof {
            lemma_count_below_bound(hand_values(hands@), v as nat, j as int, equal);
        }
        let w = hands[j].value;
        if (!equal && w < v) || (equal && w == v) {
            r = r + 1;
        }
        j += 1;
    }
    r
}

/// Ranks the hands by value and sums bid times rank; `None` on overflow.
/// Hand `i`'s rank and its bid times its rank fit in a `u64`.
pub open spec fn stake_fits(values: Seq<nat>, bids: Seq<nat>, i: int) -> bool {
    rank_of(values, i) <= u64::MAX && bids[i] * rank_of(values, i) <= u64::MAX
}

/// Every rank and stake, and the total winnings, fit in a `u64`.
pub open spec fn winnings_fit(values: Seq<nat>, bids: Seq<nat>) -> bool {
    &&& forall|i: int| 0 <= i < values.len() ==> #[trigger] stake_fits(values, bids, i)
    &&& winnings(values, bids, values.len() as int) <= u64::MAX
}

fn total_winnings(hands: &mut Vec<Hand>) -> (r: Option<u64>)
    ensures
        winnings_fit(hand_values(old(hands)@), hand_bids(old(hands)@)) ==> r is Some,
        final(hands)@.len() == old(hands)@.len(),
        hand_values(final(hands)@) == hand_values(old(hands)@),
        hand_bids(final(hands)@) == hand_bids(old(hands)@),
        r matches Some(p) ==> p == winnings(
            hand_values(old(hands)@),
            hand_bids(old(hands)@),
            old(hands)@.len() as int,
        ),
{
    let ghost values = hand_values(hands@);
    let ghost bids = hand_bids(hands@);
    let n = hands.len();
    let mut points: u64 = 0;
    let mut i: usize = 0;
    while i < n
        invariant
            n == hands@.len(),
            n == old(hands)@.len(),
            values == hand_values(old(hands)@),
            bids == hand_bids(old(hands)@),
            hand_values(hands@) == values,
            hand_bids(hands@) == bids,
            i <= n,
            points == winnings(values, bids, i as int),
        decreases n - i,
    {
        let v = hands[i].value;
        let lower = count_hands_below(hands, v, n, false);
        let same_before = count_hands_below(hands, v, i, true);
        proof {
            lemma_count_below_bound(values, v as nat, n as int, false);
            lemma_count_below_bound(values, v as nat, i as int, true);
        }
        assert(values[i as int] == v);
        let rank = match lower.checked_add(same_before) {
            Some(x) => match x.checked_add(1) {
                Some(y) => y,
                None => {
                    assert(!stake_fits(values, bids, i as int));
                    return None;
                },
            },
            None => {
                assert(!stake_fits(values, bids, i as int));
                return None;
            },
        };
        assert(rank == rank_of(values, i as int));
        let bid = hands[i].bid;
        assert(bids[i as int] == bid);
        let gain = match bid.checked_mul(rank) {
            Some(g) => g,
            None => {
                assert(!stake_fits(values, bids, i as int));
                return None;
            },
        };
        if points > u64::MAX - gain {
            proof {
                lemma_winnings_grow(values, bids, i + 1, n as int);
            }
            return None;
        }
        points = points + gain;
        let ghost before = hands@;
        hands.set(i, Hand { rank, ..hands[i] });
        assert(hand_values(hands@) =~= hand_values(before));
        assert(hand_bids(hands@) =~= hand_bids(before));
        i += 1;
    }
    Some(points)
}

proof fn lemma_winnings_grow(values: Seq<nat>, bids: Seq<nat>, i: int, n: int)
    requires
        0 <= i <= n,
    ensures
        winnings(values, bids, i) <= winnings(values, bids, n),
    decreases n - i,
{
    if i < n {
        lemma_winnings_grow(values, bids, i, n - 1);
    }
}

pub open spec fn line_values(lines: Seq<Seq<char>>) -> Seq<nat> {
    lines.map_values(|l: Seq<char>| line_value(l))
}

pub open spec fn line_bids(lines: Seq<Seq<char>>) -> Seq<nat> {
    lines.map_values(|l: Seq<char>| line_bid(l))
}

/// The total winnings: each bid times the rank of its hand; `None` when a line
/// is not a hand or the total overflows.
pub fn part1(input: Vec<String>) -> (r: Option<u64>)
    ensures
        r matches Some(p) ==> (forall|i: int| 0 <= i < input@.len() ==> valid_hand_line(#[trigger] input@[i]@))
            && p == winnings(line_values(views(input@)), line_bids(views(input@)), input@.len() as int),
        (exists|i: int| 0 <= i < input@.len() && !valid_hand_line(#[trigger] input@[i]@)) ==> r is None,
        (forall|i: int| 0 <= i < input@.len() ==> valid_hand_line(#[trigger] input@[i]@))
            && winnings_fit(line_values(views(input@)), line_bids(views(input@))) ==> r is Some,
{
    let ghost lines = views(input@);
    let mut hands = match get_hands(input) {
        Some(h) => h,
        None => {
            return None;
        },
    };
    assert(hand_values(hands@) =~= line_values(lines));
    assert(hand_bids(hands@) =~= line_bids(lines));
    total_winnings(&mut hands)
}

/// The total winnings when each `J` is a joker; `None` when a line is not a
/// hand or the total overflows.
pub fn part2(input: Vec<String>) -> (r: Option<u64>)
    ensures
        r matches Some(p) ==> (forall|i: int| 0 <= i < input@.len() ==> valid_hand_line(#[trigger] jokered(input@[i]@)))
            && p == winnings(
                line_values(views(input@).map_values(|l: Seq<char>| jokered(l))),
                line_bids(views(input@).map_values(|l: Seq<char>| jokered(l))),
                input@.len() as int,
            ),
        (exists|i: int| 0 <= i < input@.len() && !valid_hand_line(#[trigger] jokered(input@[i]@))) ==> r is None,
        (forall|i: int| 0 <= i < input@.len() ==> valid_hand_line(#[trigger] jokered(input@[i]@)))
            && winnings_fit(
                line_values(views(input@).map_values(|l: Seq<char>| jokered(l))),
                line_bids(views(input@).map_values(|l: Seq<char>| jokered(l))),
            ) ==> r is Some,
{
    let ghost lines = views(input@).map_values(|l: Seq<char>| jokered(l));
    let mut hands = match get_hands2(input) {
        Some(h) => h,
        None => {
            return None;
        },
    };
    assert(hand_values(hands@) =~= line_values(lines));
    assert(hand_bids(hands@) =~= line_bids(lines));
    total_winnings(&mut hands)
}

} // verus!
