//! Condition records of springs: counting the ways to resolve unknown springs so
//! that the runs of broken springs match a list of run lengths.
use vstd::prelude::*;
use crate::text::{split_on, split, chars_of, parse_u64, is_u64_decimal, decimal_value};
use itertools::Itertools;

verus! {

/// The state of one spring in a condition record.
#[derive(Copy, Clone, Debug, PartialEq, Eq, Structural)]
pub enum State {
    Broken,
    Operational,
    Unknown,
}

// ---------------------------------------------------------------------------
// The count, stated recursively over suffixes of the record.

/// A run of `len` broken springs can start at the front of `rec`: it fits, none
/// of its cells is operational, and the cell after it (if any) is not broken.
pub open spec fn can_place(rec: Seq<State>, len: nat) -> bool {
    &&& 1 <= len <= rec.len()
    &&& forall|i: int| 0 <= i < len ==> rec[i] != State::Operational
    &&& (len == rec.len() || rec[len as int] != State::Broken)
}

/// The arrangements of `rec` whose first run starts at its first cell.
pub open spec fn ways_placed(rec: Seq<State>, runs: Seq<nat>) -> nat
    decreases rec.len(), 0nat,
{
    if runs.len() > 0 && can_place(rec, runs[0]) {
        if runs[0] == rec.len() {
            ways(Seq::empty(), runs.drop_first())
        } else {
            ways(rec.subrange(runs[0] + 1int, rec.len() as int), runs.drop_first())
        }
    } else {
        0
    }
}

/// The number of ways to resolve every unknown cell of `rec` so that its runs
/// of broken cells are exactly `runs`, in order.
pub open spec fn ways(rec: Seq<State>, runs: Seq<nat>) -> nat
    decreases rec.len(), 1nat,
{
    if rec.len() == 0 {
        if runs.len() == 0 {
            1
        } else {
            0
        }
    } else {
        (if rec[0] != State::Broken {
            ways(rec.drop_first(), runs)
        } else {
            0
        }) + ways_placed(rec, runs)
    }
}

/// The count fits in a `u64`, and the record is short enough that the
/// counter's table can be allocated.
pub open spec fn counter_fits(rec: Seq<State>, runs: Seq<nat>) -> bool {
    rec.len() + 2 <= usize::MAX && ways(rec, runs) <= u64::MAX
}

/// One more than the largest `u64`: the value at which the counter's table
/// stops counting.
pub const CAP: u128 = 0x1_0000_0000_0000_0000;

/// `x`, or `CAP` when `x` is larger.
pub open spec fn capped(x: nat) -> nat {
    if x < CAP {
        x
    } else {
        CAP as nat
    }
}

proof fn lemma_capped_add(a: nat, b: nat)
    ensures
        capped((capped(a) + capped(b)) as nat) == capped(a + b),
{
}

/// Adds two table values, stopping at `CAP`.
fn capped_add(a: u128, b: u128) -> (r: u128)
    requires
        a <= CAP,
        b <= CAP,
    ensures
        r == capped((a + b) as nat),
{
    if a + b > CAP {
        CAP
    } else {
        a + b
    }
}

pub open spec fn run_lengths(runs: Seq<u64>) -> Seq<nat> {
    runs.map_values(|x: u64| x as nat)
}

// ---------------------------------------------------------------------------
// Lemmas on the recursive count.

proof fn lemma_ways_unfold(rec: Seq<State>, v: int, runs: Seq<nat>)
    requires
        0 <= v < rec.len(),
    ensures
        ways(rec.subrange(v, rec.len() as int), runs) == (if rec[v] != State::Broken {
            ways(rec.subrange(v + 1, rec.len() as int), runs)
        } else {
            0
        }) + ways_placed(rec.subrange(v, rec.len() as int), runs),
{
    let suf = rec.subrange(v, rec.len() as int);
    assert(suf.drop_first() =~= rec.subrange(v + 1, rec.len() as int));
}

/// No arrangement has a run of length zero or one longer than the record.
proof fn lemma_ways_bad_run(rec: Seq<State>, runs: Seq<nat>, j: int)
    requires
        0 <= j < runs.len(),
        runs[j] == 0 || runs[j] > rec.len(),
    ensures
        ways(rec, runs) == 0,
        ways_placed(rec, runs) == 0,
    decreases rec.len(),
{
    if rec.len() > 0 {
        lemma_ways_bad_run(rec.drop_first(), runs, j);
        if j > 0 {
            assert(runs.drop_first()[j - 1] == runs[j]);
            if can_place(rec, runs[0]) && runs[0] < rec.len() {
                lemma_ways_bad_run(
                    rec.subrange(runs[0] + 1int, rec.len() as int),
                    runs.drop_first(),
                    j - 1,
                );
            }
        }
        assert(ways_placed(rec, runs) == 0);
        assert(ways(rec, runs) == (if rec[0] != State::Broken {
            ways(rec.drop_first(), runs)
        } else {
            0
        }) + ways_placed(rec, runs));
    }
}

// ---------------------------------------------------------------------------
// Scan bounds used by the final summation.

/// The index of the first broken cell at or after `i`, or the record's length.
pub open spec fn first_broken_from(rec: Seq<State>, i: int) -> int
    decreases rec.len() - i,
{
    if i >= rec.len() {
        rec.len() as int
    } else if rec[i] == State::Broken {
        i
    } else {
        first_broken_from(rec, i + 1)
    }
}

/// How many leading entries the final summation reads: all up to and including
/// the first broken cell, or all of them when no cell is broken.
pub open spec fn scan_end(rec: Seq<State>) -> int {
    let b = first_broken_from(rec, 0);
    if b < rec.len() {
        b + 1
    } else {
        b
    }
}

proof fn lemma_first_broken(rec: Seq<State>, i: int)
    requires
        0 <= i <= rec.len(),
    ensures
        i <= first_broken_from(rec, i) <= rec.len(),
        forall|t: int| i <= t < first_broken_from(rec, i) ==> rec[t] != State::Broken,
        first_broken_from(rec, i) < rec.len() ==> rec[first_broken_from(rec, i)]
            == State::Broken,
    decreases rec.len() - i,
{
    if i < rec.len() && rec[i] != State::Broken {
        lemma_first_broken(rec, i + 1);
    }
}

/// Length of the stretch of cells from `s` on that are not operational.
pub open spec fn open_stretch(rec: Seq<State>, s: int) -> nat
    decreases rec.len() - s,
{
    if s < 0 || s >= rec.len() || rec[s] == State::Operational {
        0
    } else {
        1 + open_stretch(rec, s + 1)
    }
}

proof fn lemma_open_stretch(rec: Seq<State>, s: int, len: nat)
    requires
        0 <= s <= rec.len(),
    ensures
        open_stretch(rec, s) <= rec.len() - s,
        open_stretch(rec, s) >= len <==> (s + len <= rec.len() && forall|i: int|
            s <= i < s + len ==> rec[i] != State::Operational),
    decreases rec.len() - s,
{
    if s < rec.len() && rec[s] != State::Operational {
        lemma_open_stretch(rec, s + 1, (if len > 0 { len - 1 } else { 0 }) as nat);
    }
    if s < rec.len() && rec[s] != State::Operational && len > 0 {
        if s + len <= rec.len() && forall|i: int| s <= i < s + len ==> rec[i] != State::Operational {
            assert forall|i: int| s + 1 <= i < s + 1 + (len - 1) implies rec[i]
                != State::Operational by {}
        }
    } else if s < rec.len() && rec[s] == State::Operational && len > 0 {
        assert(!(forall|i: int| s <= i < s + len ==> rec[i] != State::Operational) || s + len
            > rec.len()) by {
            if s + len <= rec.len() {
                assert(rec[s] == State::Operational);
            }
        }
    }
}

// ---------------------------------------------------------------------------
// The table that the counter fills, one column per run.

/// Entry `t` of the table built for runs `j..`: the arrangements of the cells
/// from `t` on whose first run starts at `t`, where the cell before `t` is not
/// broken.
pub open spec fn table_entry(rec: Seq<State>, runs: Seq<nat>, j: int, t: int) -> nat {
    if t < rec.len() && (t == 0 || rec[t - 1] != State::Broken) {
        ways_placed(rec.subrange(t, rec.len() as int), runs.subrange(j, runs.len() as int))
    } else {
        0
    }
}

/// The running total that the counter holds when a run of length `len`, for
/// runs `j..`, would end just before cell `v`: the ways to complete the later
/// runs after a gap at `v`.
pub open spec fn gap_ways(rec: Seq<State>, runs: Seq<nat>, j: int, v: int) -> nat {
    let n = rec.len() as int;
    let rest = runs.subrange(j + 1, runs.len() as int);
    if v > n {
        0
    } else if v == n {
        ways(rec.subrange(n, n), rest)
    } else if rec[v] == State::Broken {
        0
    } else {
        ways(rec.subrange(v + 1, n), rest)
    }
}

/// One step of the running total: a gap at `v` leaves the ways of a gap at
/// `v + 1`, plus those whose next run starts at `v + 1`.
proof fn lemma_gap_step(rec: Seq<State>, runs: Seq<nat>, j: int, v: int)
    requires
        0 <= j < runs.len(),
        0 <= v < rec.len(),
        rec[v] != State::Broken,
    ensures
        gap_ways(rec, runs, j, v) == gap_ways(rec, runs, j, v + 1) + table_entry(
            rec,
            runs,
            j + 1,
            v + 1,
        ),
{
    let n = rec.len() as int;
    if v + 1 < n {
        lemma_ways_unfold(rec, v + 1, runs.subrange(j + 1, runs.len() as int));
    }
}

/// The test that the counter makes before a run of length `len` may start at
/// cell `s`.
pub open spec fn run_may_start(rec: Seq<State>, s: int, len: nat) -> bool {
    &&& rec[s] != State::Operational
    &&& open_stretch(rec, s) >= len
    &&& s == 0 || rec[s - 1] != State::Broken
    &&& s + len == rec.len() || rec[s + len] != State::Broken
}

/// The table entry at `s` in terms of the running total, as the counter
/// computes it.
proof fn lemma_entry_from_gap(rec: Seq<State>, runs: Seq<nat>, j: int, s: int)
    requires
        0 <= j < runs.len(),
        0 <= s < rec.len(),
        1 <= runs[j] <= rec.len(),
    ensures
        table_entry(rec, runs, j, s) == (if run_may_start(rec, s, runs[j]) {
            gap_ways(rec, runs, j, s + runs[j])
        } else {
            0
        }),
{
    let n = rec.len() as int;
    let l = runs[j];
    let k = runs.len() as int;
    let rest = runs.subrange(j + 1, k);
    let suf = rec.subrange(s, n);
    lemma_open_stretch(rec, s, l);
    assert(rec.subrange(n, n) =~= Seq::<State>::empty());
    assert(runs.subrange(j, k)[0] == l);
    assert(runs.subrange(j, k).drop_first() =~= rest);
    if s + l < n {
        assert(suf.subrange(l + 1int, suf.len() as int) =~= rec.subrange(s + l + 1, n));
    }
    if s + l <= n {
        assert((forall|i: int| 0 <= i < l ==> suf[i] != State::Operational) <==> (forall|i: int|
            s <= i < s + l ==> rec[i] != State::Operational)) by {
            if forall|i: int| 0 <= i < l ==> suf[i] != State::Operational {
                assert forall|i: int| s <= i < s + l implies rec[i] != State::Operational by {
                    assert(suf[i - s] == rec[i]);
                }
            }
            if forall|i: int| s <= i < s + l ==> rec[i] != State::Operational {
                assert forall|i: int| 0 <= i < l implies suf[i] != State::Operational by {
                    assert(suf[i] == rec[s + i]);
                }
            }
        }
    }
    if rec[s] == State::Operational {
        assert(open_stretch(rec, s) == 0);
    }
    assert(can_place(suf, l) <==> (open_stretch(rec, s) >= l && (s + l == n || rec[s + l]
        != State::Broken)));
}

fn zeros(len: usize) -> (r: Vec<u128>)
    ensures
        r@.len() == len,
        forall|i: int| 0 <= i < len ==> r@[i] == 0,
{
    let mut r: Vec<u128> = Vec::new();
    let mut i: usize = 0;
    while i < len
        invariant
            i <= len,
            r@.len() == i,
            forall|k: int| 0 <= k < i ==> r@[k] == 0,
        decreases len - i,
    {
        r.push(0);
        i += 1;
    }
    r
}

/// Whether cell `s` of the record is anything but broken.
pub fn is_not_broken(states: &Vec<State>, s: usize) -> (r: bool)
    requires
        s < states@.len(),
    ensures
        r == (states@[s as int] != State::Broken),
{
    states[s] != State::Broken
}

/// Relies on itertools' `take_while_inclusive`: it yields items while the
/// predicate holds, then the first item on which it fails, then stops.
#[verifier::external_body]
fn counts_through_first_broken(counts: &Vec<u128>, states: &Vec<State>) -> (r: Vec<u128>)
    requires
        counts@.len() == states@.len(),
    ensures
        r@ == counts@.subrange(0, scan_end(states@)),
{
    Itertools::take_while_inclusive(
        counts.iter().enumerate(),
        |(s, _)| is_not_broken(states, *s),
    ).map(|(_, w)| *w).collect()
}

/// Counts the arrangements of `states` whose runs of broken springs are exactly
/// `configs`. `None` exactly when the count does not fit in a `u64` (or the
/// record is too long for the table to be allocated); the table's entries stop
/// at `CAP`, so a large intermediate value does not stop the count.
pub fn calculate_arrangements(states: &Vec<State>, configs: &Vec<u64>) -> (r: Option<u64>)
    ensures
        r is Some <==> counter_fits(states@, run_lengths(configs@)),
        r matches Some(c) ==> c == ways(states@, run_lengths(configs@)),
        r matches Some(c) ==> c == brute_force_count(states@, run_lengths(configs@)),
        counter_result(states@, run_lengths(configs@), r),
{
    let ghost rec = states@;
    let ghost runs = run_lengths(configs@);
    let n = states.len();
    if n > usize::MAX - 2 {
        return None;
    }
    let k = configs.len();
    let mut j: usize = 0;
    while j < k
        invariant
            k == configs@.len(),
            n == rec.len(),
            n + 2 <= usize::MAX,
            states@ == rec,
            runs == run_lengths(configs@),
            forall|i: int| 0 <= i < j ==> 1 <= #[trigger] configs@[i] <= n,
        decreases k - j,
    {
        assert(runs[j as int] == configs@[j as int] as nat);
        if configs[j] == 0 || configs[j] > n as u64 {
            assert(!(1 <= runs[j as int] <= rec.len()));
            proof {
                lemma_ways_bad_run(rec, runs, j as int);
                lemma_count_is_brute_force(rec, runs);
            }
            return Some(0);
        }
        j += 1;
    }
    let mut prev = zeros(n + 2);
    prev.set(n + 1, 1);
    proof {
        assert forall|t: int| 0 <= t <= n implies prev@[t] == capped(table_entry(
            rec,
            runs,
            k as int,
            t,
        )) by {
            assert(runs.subrange(k as int, k as int).len() == 0);
        }
    }
    let mut d: usize = k;
    while d > 0
        invariant
            n == rec.len(),
            states@ == rec,
            n + 2 <= usize::MAX,
            k == runs.len(),
            k == configs@.len(),
            runs == run_lengths(configs@),
            d <= k,
            forall|i: int| 0 <= i < k ==> 1 <= #[trigger] configs@[i] <= n,
            prev@.len() == n + 2,
            forall|t: int| 0 <= t <= n ==> prev@[t] == capped(table_entry(rec, runs, d as int, t)),
            prev@[n + 1] == (if d == k { 1nat } else { 0nat }),
        decreases d,
    {
        d -= 1;
        let l = configs[d] as usize;
        assert(runs[d as int] == l);
        let ghost rest = runs.subrange(d + 1, k as int);
        proof {
            assert(ways(rec.subrange(n as int, n as int), rest) == (if d + 1 == k { 1nat } else { 0nat })) by {
                assert(rec.subrange(n as int, n as int).len() == 0);
            }
        }
        let mut curr = zeros(n + 2);
        let mut nways: u128 = 0;
        let mut stretch: usize = 0;
        let mut s: usize = n;
        while s > 0
            invariant
                n == rec.len(),
                states@ == rec,
                runs == run_lengths(configs@),
                n + 2 <= usize::MAX,
                k == runs.len(),
                d < k,
                k == configs@.len(),
                forall|i: int| 0 <= i < k ==> 1 <= #[trigger] configs@[i] <= n,
                1 <= l <= n,
                runs[d as int] == l,
                rest == runs.subrange(d + 1, k as int),
                s <= n,
                prev@.len() == n + 2,
                curr@.len() == n + 2,
                forall|t: int| 0 <= t <= n ==> prev@[t] == capped(table_entry(rec, runs, d + 1, t)),
                prev@[n + 1] == (if d + 1 == k { 1nat } else { 0nat }),
                ways(rec.subrange(n as int, n as int), rest) == prev@[n + 1],
                forall|t: int| s <= t < n + 2 ==> curr@[t] == capped(table_entry(rec, runs, d as int, t)),
                forall|t: int| 0 <= t < s ==> curr@[t] == 0,
                nways == capped(gap_ways(rec, runs, d as int, s + l)),
                stretch == open_stretch(rec, s as int),
            decreases s,
        {
            s -= 1;
            proof {
                if s + l < n && rec[s + l] != State::Broken {
                    lemma_gap_step(rec, runs, d as int, s + l);
                }
            }
            if l > n - s {
                nways = 0;
            } else if s + l == n {
                nways = prev[n + 1];
            } else if states[s + l] == State::Broken {
                nways = 0;
            } else {
                let add = prev[s + l + 1];
                proof {
                    lemma_capped_add(
                        gap_ways(rec, runs, d as int, s + l + 1),
                        table_entry(rec, runs, d + 1, s + l + 1),
                    );
                }
                nways = capped_add(nways, add);
            }
            assert(nways == capped(gap_ways(rec, runs, d as int, s + l)));
            proof {
                lemma_open_stretch(rec, s as int, l as nat);
            }
            if states[s] == State::Operational {
                stretch = 0;
            } else {
                stretch = stretch + 1;
                if stretch >= l && (s == 0 || states[s - 1] != State::Broken) && (s + l == n
                    || states[s + l] != State::Broken) {
                    curr.set(s, nways);
                }
            }
            proof {
                lemma_entry_from_gap(rec, runs, d as int, s as int);
            }
        }
        prev = curr;
    }
    proof {
        assert(ways(rec.subrange(n as int, n as int), runs) == (if k == 0 { 1nat } else { 0nat })) by {
            assert(rec.subrange(n as int, n as int).len() == 0);
        }
    }
    let mut head: Vec<u128> = Vec::new();
    let mut t: usize = 0;
    while t < n
        invariant
            t <= n,
            n + 2 == prev@.len(),
            head@ == prev@.subrange(0, t as int),
        decreases n - t,
    {
        head.push(prev[t]);
        t += 1;
        assert(head@ =~= prev@.subrange(0, t as int));
    }
    let taken = counts_through_first_broken(&head, states);
    proof {
        lemma_first_broken(rec, 0);
        assert(head@.subrange(0, scan_end(rec)) =~= prev@.subrange(0, scan_end(rec)));
    }
    let ghost m = scan_end(rec);
    let ghost b = first_broken_from(rec, 0);
    proof {
        lemma_first_broken(rec, 0);
    }
    assert(rec.subrange(0, n as int) =~= rec);
    assert(runs.subrange(0, k as int) =~= runs);
    let mut total: u128 = 0;
    let ghost mut exact: nat = 0;
    let mut i: usize = 0;
    while i < taken.len()
        invariant
            n == rec.len(),
            states@ == rec,
            k == runs.len(),
            taken@ == prev@.subrange(0, m),
            runs == run_lengths(configs@),
            prev@.len() == n + 2,
            forall|t: int| 0 <= t <= n ==> prev@[t] == capped(table_entry(rec, runs, 0, t)),
            runs.subrange(0, k as int) == runs,
            m == scan_end(rec),
            b == first_broken_from(rec, 0),
            0 <= b <= n,
            forall|t: int| 0 <= t < b ==> rec[t] != State::Broken,
            b < n ==> rec[b] == State::Broken,
            i <= m,
            i <= b ==> exact + ways(rec.subrange(i as int, n as int), runs) == ways(rec, runs),
            i > b ==> exact == ways(rec, runs),
            total == capped(exact),
            prev@[n + 1] == (if k == 0 { 1nat } else { 0nat }),
            ways(rec.subrange(n as int, n as int), runs) == prev@[n + 1],
            n + 2 <= usize::MAX,
        decreases taken@.len() - i,
    {
        proof {
            lemma_ways_unfold(rec, i as int, runs);
            assert(rec.subrange(0, n as int) =~= rec);
            lemma_capped_add(exact, table_entry(rec, runs, 0, i as int));
            exact = exact + table_entry(rec, runs, 0, i as int);
        }
        total = capped_add(total, taken[i]);
        i += 1;
    }
    let reached_end = taken.len() == 0 || states[taken.len() - 1] != State::Broken;
    if reached_end {
        proof {
            assert(rec.subrange(0, n as int) =~= rec);
            lemma_capped_add(exact, prev@[n + 1] as nat);
            exact = exact + prev@[n + 1] as nat;
        }
        total = capped_add(total, prev[n + 1]);
    }
    assert(exact == ways(rec, runs));
    proof {
        lemma_count_is_brute_force(rec, runs);
    }
    if total > u64::MAX as u128 {
        return None;
    }
    Some(total as u64)
}

} // verus!

verus! {

// ---------------------------------------------------------------------------
// Runs of a resolved record, and the enumeration of all resolutions.

/// The lengths of the maximal runs of `true` in `r`, left to right, given that
/// a run of length `open` is already under way just before `r`.
pub open spec fn runs_from(r: Seq<bool>, open: nat) -> Seq<nat>
    decreases r.len(),
{
    if r.len() == 0 {
        if open > 0 {
            seq![open]
        } else {
            Seq::empty()
        }
    } else if r[0] {
        runs_from(r.drop_first(), open + 1)
    } else {
        (if open > 0 {
            seq![open]
        } else {
            Seq::<nat>::empty()
        }) + runs_from(r.drop_first(), 0)
    }
}

/// The lengths of the maximal runs of `true` in `r`, left to right.
pub open spec fn runs_of(r: Seq<bool>) -> Seq<nat> {
    runs_from(r, 0)
}

/// Which cells of a record are broken.
pub open spec fn broken_mask(rec: Seq<State>) -> Seq<bool> {
    rec.map_values(|s: State| s == State::Broken)
}

} // verus!

verus! {

/// Whether the broken cells of `states` form exactly the runs `configs`, in
/// order; unknown cells count as not broken.
pub fn test_arrangemnt(states: &Vec<State>, configs: &Vec<u64>) -> (r: bool)
    ensures
        r == (runs_of(broken_mask(states@)) == run_lengths(configs@)),
{
    let ghost mask = broken_mask(states@);
    let n = states.len();
    let mut found: Vec<u64> = Vec::new();
    let mut open: usize = 0;
    let mut i: usize = 0;
    assert(mask.subrange(0, n as int) =~= mask);
    assert(run_lengths(found@) + runs_from(mask, 0) =~= runs_from(mask, 0));
    while i < n
        invariant
            n == states@.len(),
            mask == broken_mask(states@),
            i <= n,
            open <= i,
            run_lengths(found@) + runs_from(mask.subrange(i as int, n as int), open as nat)
                == runs_of(mask),
        decreases n - i,
    {
        let ghost tail = mask.subrange(i as int, n as int);
        let ghost next = mask.subrange(i + 1, n as int);
        let ghost f = run_lengths(found@);
        assert(tail.drop_first() =~= next);
        assert(tail[0] == (states@[i as int] == State::Broken));
        if states[i] == State::Broken {
            open = open + 1;
        } else {
            if open > 0 {
                found.push(open as u64);
                assert(run_lengths(found@) =~= f + seq![open as nat]);
                assert(runs_from(tail, open as nat) == seq![open as nat] + runs_from(next, 0));
                assert(run_lengths(found@) + runs_from(next, 0) =~= f + runs_from(tail, open as nat));
            } else {
                assert(runs_from(tail, 0) == Seq::<nat>::empty() + runs_from(next, 0));
                assert(runs_from(tail, 0) =~= runs_from(next, 0));
            }
            open = 0;
        }
        i += 1;
    }
    if open > 0 {
        let ghost before = run_lengths(found@);
        found.push(open as u64);
        assert(run_lengths(found@) =~= before + seq![open as nat]);
    }
    assert(runs_from(mask.subrange(n as int, n as int), open as nat) =~= (if open > 0 {
        seq![open as nat]
    } else {
        Seq::<nat>::empty()
    }));
    assert(run_lengths(found@) =~= runs_of(mask));
    if found.len() != configs.len() {
        return false;
    }
    let mut j: usize = 0;
    while j < found.len()
        invariant
            found@.len() == configs@.len(),
            run_lengths(found@) == runs_of(broken_mask(states@)),
            j <= found@.len(),
            forall|t: int| 0 <= t < j ==> found@[t] == configs@[t],
        decreases found@.len() - j,
    {
        if found[j] != configs[j] {
            assert(run_lengths(found@)[j as int] != run_lengths(configs@)[j as int]);
            return false;
        }
        j += 1;
    }
    assert(run_lengths(found@) =~= run_lengths(configs@));
    true
}

} // verus!

verus! {

// ---------------------------------------------------------------------------
// Reading lines of the form `<symbols> <n1>,<n2>,...`.

/// The state that a symbol stands for: `#` broken, `.` operational, `?` unknown.
pub open spec fn symbol_state(c: char) -> Option<State> {
    if c == '#' {
        Some(State::Broken)
    } else if c == '.' {
        Some(State::Operational)
    } else if c == '?' {
        Some(State::Unknown)
    } else {
        None
    }
}

/// A well-formed line: one space between a string of symbols and a
/// comma-separated list of positive numbers that fit in a `u64`.
pub open spec fn valid_line(line: Seq<char>) -> bool {
    let f = split_on(line, ' ');
    let nums = split_on(f[1], ',');
    &&& f.len() == 2
    &&& forall|i: int| 0 <= i < f[0].len() ==> symbol_state(#[trigger] f[0][i]) is Some
    &&& forall|i: int|
        0 <= i < nums.len() ==> is_u64_decimal(#[trigger] nums[i]) && decimal_value(nums[i])
            > 0
}

/// The record that a well-formed line describes.
pub open spec fn line_record(line: Seq<char>) -> Seq<State> {
    split_on(line, ' ')[0].map_values(|c: char| symbol_state(c)->0)
}

/// The run lengths that a well-formed line describes.
pub open spec fn line_runs(line: Seq<char>) -> Seq<nat> {
    split_on(split_on(line, ' ')[1], ',').map_values(|t: Seq<char>| decimal_value(t))
}

/// `count` copies of `rec`, with one unknown cell between neighbouring copies.
pub open spec fn joined_copies(rec: Seq<State>, count: nat) -> Seq<State>
    decreases count,
{
    if count == 0 {
        Seq::empty()
    } else if count == 1 {
        rec
    } else {
        joined_copies(rec, (count - 1) as nat) + seq![State::Unknown] + rec
    }
}

/// `count` copies of `runs`, one after another.
pub open spec fn copies(runs: Seq<nat>, count: nat) -> Seq<nat>
    decreases count,
{
    if count == 0 {
        Seq::empty()
    } else {
        copies(runs, (count - 1) as nat) + runs
    }
}

/// Reads one line into its record and run lengths; `None` when the line is
/// malformed.
fn read_line(line: &String) -> (r: Option<(Vec<State>, Vec<u64>)>)
    ensures
        r is Some <==> valid_line(line@),
        r matches Some(p) ==> p.0@ == line_record(line@) && run_lengths(p.1@) == line_runs(
            line@,
        ),
{
    let cs = chars_of(line.as_str());
    let fields = split(&cs, ' ');
    if fields.len() != 2 {
        return None;
    }
    let ghost f = split_on(line@, ' ');
    assert(fields@[0]@ == f[0] && fields@[1]@ == f[1]);
    let symbols = &fields[0];
    let mut states: Vec<State> = Vec::new();
    let mut i: usize = 0;
    while i < symbols.len()
        invariant
            f == split_on(line@, ' '),
            f.len() == 2,
            symbols@ == f[0],
            i <= symbols@.len(),
            states@.len() == i,
            forall|t: int| 0 <= t < i ==> symbol_state(#[trigger] f[0][t]) is Some,
            forall|t: int| 0 <= t < i ==> states@[t] == symbol_state(#[trigger] f[0][t])->0,
        decreases symbols@.len() - i,
    {
        let c = symbols[i];
        let st = if c == '#' {
            State::Broken
        } else if c == '.' {
            State::Operational
        } else if c == '?' {
            State::Unknown
        } else {
            assert(symbol_state(f[0][i as int]) is None);
            return None;
        };
        states.push(st);
        i += 1;
    }
    assert(states@ =~= line_record(line@));
    let nums = split(&fields[1], ',');
    let ghost ns = split_on(f[1], ',');
    let mut configs: Vec<u64> = Vec::new();
    let mut j: usize = 0;
    while j < nums.len()
        invariant
            f == split_on(line@, ' '),
            f.len() == 2,
            ns == split_on(f[1], ','),
            nums@.len() == ns.len(),
            forall|t: int| 0 <= t < nums@.len() ==> #[trigger] nums@[t]@ == ns[t],
            j <= nums@.len(),
            configs@.len() == j,
            forall|t: int|
                0 <= t < j ==> is_u64_decimal(#[trigger] ns[t]) && decimal_value(ns[t]) > 0,
            forall|t: int| 0 <= t < j ==> configs@[t] == decimal_value(#[trigger] ns[t]),
        decreases nums@.len() - j,
    {
        assert(nums@[j as int]@ == ns[j as int]);
        match parse_u64(&nums[j]) {
            Some(v) => {
                if v == 0 {
                    return None;
                }
                configs.push(v);
            },
            None => {
                return None;
            },
        }
        j += 1;
    }
    assert(run_lengths(configs@) =~= line_runs(line@));
    Some((states, configs))
}

/// Whether a line is well-formed: symbols, one space, and positive run
/// lengths separated by commas.
pub fn is_valid_line(line: &String) -> (r: bool)
    ensures
        r == valid_line(line@),
{
    read_line(line).is_some()
}

/// Reads a well-formed line into its record and run lengths.
pub fn parse_input(line: &String) -> (r: (Vec<State>, Vec<u64>))
    requires
        valid_line(line@),
    ensures
        r.0@ == line_record(line@),
        run_lengths(r.1@) == line_runs(line@),
{
    match read_line(line) {
        Some(p) => p,
        None => (Vec::new(), Vec::new()),
    }
}

/// Reads a well-formed line and unfolds it: five copies of the record joined
/// by unknown cells, and five copies of the run lengths.
pub fn unfold_input(line: &String) -> (r: (Vec<State>, Vec<u64>))
    requires
        valid_line(line@),
    ensures
        r.0@ == joined_copies(line_record(line@), 5),
        run_lengths(r.1@) == copies(line_runs(line@), 5),
{
    let (rec, runs) = parse_input(line);
    let mut states: Vec<State> = Vec::new();
    let mut configs: Vec<u64> = Vec::new();
    let mut i: usize = 0;
    while i < 5
        invariant
            i <= 5,
            states@ == joined_copies(rec@, i as nat),
            run_lengths(configs@) == copies(run_lengths(runs@), i as nat),
        decreases 5 - i,
    {
        if i != 0 {
            states.push(State::Unknown);
        }
        let ghost before = states@;
        let ghost before_runs = run_lengths(configs@);
        let mut k: usize = 0;
        while k < rec.len()
            invariant
                k <= rec@.len(),
                states@ == before + rec@.subrange(0, k as int),
            decreases rec@.len() - k,
        {
            states.push(rec[k]);
            k += 1;
            assert(states@ =~= before + rec@.subrange(0, k as int));
        }
        let mut t: usize = 0;
        while t < runs.len()
            invariant
                t <= runs@.len(),
                run_lengths(configs@) == before_runs + run_lengths(runs@).subrange(
                    0,
                    t as int,
                ),
            decreases runs@.len() - t,
        {
            let ghost old_c = configs@;
            configs.push(runs[t]);
            assert(run_lengths(configs@) =~= run_lengths(old_c).push(runs@[t as int] as nat));
            t += 1;
            assert(run_lengths(configs@) =~= before_runs + run_lengths(runs@).subrange(
                0,
                t as int,
            ));
        }
        assert(rec@.subrange(0, rec@.len() as int) =~= rec@);
        assert(run_lengths(runs@).subrange(0, runs@.len() as int) =~= run_lengths(runs@));
        i += 1;
        assert(states@ =~= joined_copies(rec@, i as nat));
        assert(run_lengths(configs@) =~= copies(run_lengths(runs@), i as nat));
    }
    (states, configs)
}

} // verus!

verus! {

// ---------------------------------------------------------------------------
// Totals over a whole input.

/// The record and run lengths of a well-formed line, unfolded or as given.
pub open spec fn line_problem(line: Seq<char>, unfolded: bool) -> (Seq<State>, Seq<nat>) {
    if unfolded {
        (joined_copies(line_record(line), 5), copies(line_runs(line), 5))
    } else {
        (line_record(line), line_runs(line))
    }
}

pub open spec fn line_ways(line: Seq<char>, unfolded: bool) -> nat {
    ways(line_problem(line, unfolded).0, line_problem(line, unfolded).1)
}

/// The counter's intermediate values for this line fit in its integer types.
pub open spec fn line_fits(line: Seq<char>, unfolded: bool) -> bool {
    counter_fits(line_problem(line, unfolded).0, line_problem(line, unfolded).1)
}

/// A line that is well-formed and whose count the counter can form.
pub open spec fn line_ok(line: Seq<char>, unfolded: bool) -> bool {
    valid_line(line) && line_fits(line, unfolded)
}

/// The sum of the arrangement counts of all lines.
pub open spec fn total_ways(lines: Seq<Seq<char>>, unfolded: bool) -> nat
    decreases lines.len(),
{
    if lines.len() == 0 {
        0
    } else {
        total_ways(lines.drop_last(), unfolded) + line_ways(lines.last(), unfolded)
    }
}

pub open spec fn views(input: Seq<String>) -> Seq<Seq<char>> {
    input.map_values(|s: String| s@)
}

proof fn lemma_total_prefix_grows(lines: Seq<Seq<char>>, unfolded: bool, i: int)
    requires
        0 <= i <= lines.len(),
    ensures
        total_ways(lines.subrange(0, i), unfolded) <= total_ways(lines, unfolded),
    decreases lines.len() - i,
{
    if i < lines.len() {
        lemma_total_prefix_grows(lines, unfolded, i + 1);
        assert(lines.subrange(0, i + 1).drop_last() =~= lines.subrange(0, i));
    } else {
        assert(lines.subrange(0, i) =~= lines);
    }
}

fn total_arrangements(input: &Vec<String>, unfolded: bool) -> (r: Option<u64>)
    ensures
        r is Some <==> (forall|i: int| 0 <= i < input@.len() ==> #[trigger] line_ok(input@[i]@, unfolded))
            && total_ways(views(input@), unfolded) <= u64::MAX,
        r matches Some(t) ==> t == total_ways(views(input@), unfolded),
        (exists|i: int| 0 <= i < input@.len() && !valid_line(#[trigger] input@[i]@)) ==> r is None,
{
    let ghost lines = views(input@);
    let mut acc: u64 = 0;
    let mut i: usize = 0;
    while i < input.len()
        invariant
            lines == views(input@),
            i <= input@.len(),
            forall|t: int| 0 <= t < i ==> #[trigger] line_ok(input@[t]@, unfolded),
            acc == total_ways(lines.subrange(0, i as int), unfolded),
        decreases input@.len() - i,
    {
        if !is_valid_line(&input[i]) {
            assert(!line_ok(input@[i as int]@, unfolded));
            return None;
        }
        let (states, configs) = if unfolded {
            unfold_input(&input[i])
        } else {
            parse_input(&input[i])
        };
        let count = match calculate_arrangements(&states, &configs) {
            Some(c) => c,
            None => {
                assert(!line_ok(input@[i as int]@, unfolded));
                return None;
            },
        };
        assert(line_ok(input@[i as int]@, unfolded));
        assert(lines.subrange(0, i + 1).drop_last() =~= lines.subrange(0, i as int));
        assert(lines[i as int] == input@[i as int]@);
        if acc > u64::MAX - count {
            proof {
                lemma_total_prefix_grows(lines, unfolded, i + 1);
            }
            return None;
        }
        acc = acc + count;
        i += 1;
    }
    assert(lines.subrange(0, i as int) =~= lines);
    assert forall|t: int| 0 <= t < input@.len() implies valid_line(#[trigger] input@[t]@) by {
        assert(line_ok(input@[t]@, unfolded));
    }
    Some(acc)
}

/// The sum over all lines of the number of arrangements of the record as given.
pub fn part1(input: Vec<String>) -> (r: Option<u64>)
    ensures
        r is Some <==> (forall|i: int| 0 <= i < input@.len() ==> #[trigger] line_ok(input@[i]@, false))
            && total_ways(views(input@), false) <= u64::MAX,
        r matches Some(t) ==> t == total_ways(views(input@), false),
        (exists|i: int| 0 <= i < input@.len() && !valid_line(#[trigger] input@[i]@)) ==> r is None,
{
    total_arrangements(&input, false)
}

/// The sum over all lines of the number of arrangements of the unfolded record.
pub fn part2(input: Vec<String>) -> (r: Option<u64>)
    ensures
        r is Some <==> (forall|i: int| 0 <= i < input@.len() ==> #[trigger] line_ok(input@[i]@, true))
            && total_ways(views(input@), true) <= u64::MAX,
        r matches Some(t) ==> t == total_ways(views(input@), true),
        (exists|i: int| 0 <= i < input@.len() && !valid_line(#[trigger] input@[i]@)) ==> r is None,
{
    total_arrangements(&input, true)
}

} // verus!

verus! {

// ---------------------------------------------------------------------------
// The count against a brute-force enumeration of resolutions.

/// How many resolutions of `rec` satisfy `pred`: each unknown cell is tried as
/// broken (`true`) and as operational (`false`); known cells keep their state.
pub open spec fn count_resolutions(rec: Seq<State>, pred: spec_fn(Seq<bool>) -> bool) -> nat
    decreases rec.len(),
{
    if rec.len() == 0 {
        if pred(Seq::empty()) {
            1
        } else {
            0
        }
    } else {
        (if rec[0] != State::Operational {
            count_resolutions(rec.drop_first(), |r: Seq<bool>| pred(seq![true] + r))
        } else {
            0
        }) + (if rec[0] != State::Broken {
            count_resolutions(rec.drop_first(), |r: Seq<bool>| pred(seq![false] + r))
        } else {
            0
        })
    }
}

/// The resolutions whose runs, after a run of `open` already under way, are
/// exactly `runs`.
pub open spec fn runs_match(runs: Seq<nat>, open: nat) -> spec_fn(Seq<bool>) -> bool {
    |r: Seq<bool>| runs_from(r, open) == runs
}

/// The brute-force count: the resolutions of `rec` whose runs of broken cells
/// are exactly `runs`.
pub open spec fn brute_force_count(rec: Seq<State>, runs: Seq<nat>) -> nat {
    count_resolutions(rec, |r: Seq<bool>| runs_of(r) == runs)
}

/// The arrangements of `rec` once a run has `len` more cells to take at its
/// front, after which `tail` follows.
pub open spec fn finish_run(rec: Seq<State>, len: nat, tail: Seq<nat>) -> nat {
    if len <= rec.len() && (forall|i: int| 0 <= i < len ==> rec[i] != State::Operational) && (len
        == rec.len() || rec[len as int] != State::Broken) {
        if len == rec.len() {
            ways(Seq::empty(), tail)
        } else {
            ways(rec.subrange(len + 1int, rec.len() as int), tail)
        }
    } else {
        0
    }
}

proof fn lemma_count_ext(rec: Seq<State>, p: spec_fn(Seq<bool>) -> bool, q: spec_fn(Seq<bool>) -> bool)
    requires
        forall|r: Seq<bool>| #[trigger] p(r) == q(r),
    ensures
        count_resolutions(rec, p) == count_resolutions(rec, q),
    decreases rec.len(),
{
    if rec.len() > 0 {
        let pt = |r: Seq<bool>| p(seq![true] + r);
        let qt = |r: Seq<bool>| q(seq![true] + r);
        let pf = |r: Seq<bool>| p(seq![false] + r);
        let qf = |r: Seq<bool>| q(seq![false] + r);
        assert forall|r: Seq<bool>| #[trigger] pt(r) == qt(r) by {
            assert(p(seq![true] + r) == q(seq![true] + r));
        }
        assert forall|r: Seq<bool>| #[trigger] pf(r) == qf(r) by {
            assert(p(seq![false] + r) == q(seq![false] + r));
        }
        lemma_count_ext(rec.drop_first(), pt, qt);
        lemma_count_ext(rec.drop_first(), pf, qf);
    }
}

proof fn lemma_count_none(rec: Seq<State>, p: spec_fn(Seq<bool>) -> bool)
    requires
        forall|r: Seq<bool>| !#[trigger] p(r),
    ensures
        count_resolutions(rec, p) == 0,
    decreases rec.len(),
{
    if rec.len() > 0 {
        let pt = |r: Seq<bool>| p(seq![true] + r);
        let pf = |r: Seq<bool>| p(seq![false] + r);
        assert forall|r: Seq<bool>| !#[trigger] pt(r) by {
            assert(!p(seq![true] + r));
        }
        assert forall|r: Seq<bool>| !#[trigger] pf(r) by {
            assert(!p(seq![false] + r));
        }
        lemma_count_none(rec.drop_first(), pt);
        lemma_count_none(rec.drop_first(), pf);
    }
}

proof fn lemma_finish_step(rec: Seq<State>, len: nat, tail: Seq<nat>)
    requires
        rec.len() > 0,
        len >= 1,
    ensures
        finish_run(rec, len, tail) == (if rec[0] != State::Operational {
            finish_run(rec.drop_first(), (len - 1) as nat, tail)
        } else {
            0
        }),
{
    let rest = rec.drop_first();
    let l1 = (len - 1) as nat;
    if len <= rec.len() {
        if len < rec.len() {
            assert(rest.subrange(l1 + 1int, rest.len() as int) =~= rec.subrange(len + 1int, rec.len() as int));
        }
        assert((forall|i: int| 0 <= i < len ==> rec[i] != State::Operational) <==> (rec[0]
            != State::Operational && forall|i: int| 0 <= i < l1 ==> rest[i] != State::Operational)) by {
            if rec[0] != State::Operational && forall|i: int| 0 <= i < l1 ==> rest[i] != State::Operational {
                assert forall|i: int| 0 <= i < len implies rec[i] != State::Operational by {
                    if i > 0 {
                        assert(rec[i] == rest[i - 1]);
                    }
                }
            }
            if forall|i: int| 0 <= i < len ==> rec[i] != State::Operational {
                assert forall|i: int| 0 <= i < l1 implies rest[i] != State::Operational by {
                    assert(rest[i] == rec[i + 1]);
                }
            }
        }
        if len < rec.len() {
            assert(rest[l1 as int] == rec[len as int]);
        }
    }
}

/// The enumeration of resolutions, with a run of `open` cells already under
/// way, in terms of the recursive count.
proof fn lemma_enumeration(rec: Seq<State>, runs: Seq<nat>, open: nat)
    ensures
        count_resolutions(rec, runs_match(runs, open)) == (if open == 0 {
            ways(rec, runs)
        } else if runs.len() > 0 && runs[0] >= open {
            finish_run(rec, (runs[0] - open) as nat, runs.drop_first())
        } else {
            0
        }),
    decreases rec.len(),
{
    let p = runs_match(runs, open);
    let tail = runs.drop_first();
    if rec.len() == 0 {
        assert(p(Seq::empty()) == (runs_from(Seq::empty(), open) == runs));
        if open == 0 {
            assert(runs_from(Seq::<bool>::empty(), 0) == Seq::<nat>::empty());
            if runs.len() == 0 {
                assert(runs =~= Seq::<nat>::empty());
            }
        } else {
            assert(runs_from(Seq::<bool>::empty(), open) == seq![open]);
            if runs.len() > 0 && runs[0] == open && tail.len() == 0 {
                assert(runs =~= seq![open]);
            }
            if runs == seq![open] {
                assert(runs.len() == 1 && runs[0] == open);
                assert(tail.len() == 0);
            }
            assert(Seq::<State>::empty().len() == 0);
        }
    } else {
        let rest = rec.drop_first();
        let pt = |r: Seq<bool>| p(seq![true] + r);
        let pf = |r: Seq<bool>| p(seq![false] + r);
        assert(count_resolutions(rec, p) == (if rec[0] != State::Operational {
            count_resolutions(rest, pt)
        } else {
            0
        }) + (if rec[0] != State::Broken {
            count_resolutions(rest, pf)
        } else {
            0
        }));
        // A broken first cell extends the open run.
        assert forall|r: Seq<bool>| #[trigger] pt(r) == runs_match(runs, open + 1)(r) by {
            assert((seq![true] + r).drop_first() =~= r);
        }
        lemma_count_ext(rest, pt, runs_match(runs, open + 1));
        lemma_enumeration(rest, runs, open + 1);
        // An operational first cell closes the open run, if any.
        if open == 0 {
            assert forall|r: Seq<bool>| #[trigger] pf(r) == runs_match(runs, 0)(r) by {
                assert((seq![false] + r).drop_first() =~= r);
                assert(Seq::<nat>::empty() + runs_from(r, 0) =~= runs_from(r, 0));
            }
            lemma_count_ext(rest, pf, runs_match(runs, 0));
            lemma_enumeration(rest, runs, 0);
            if runs.len() > 0 && runs[0] >= 1 {
                lemma_finish_step(rec, runs[0], tail);
            }
            assert(ways(rec, runs) == (if rec[0] != State::Broken { ways(rest, runs) } else { 0 }) + ways_placed(rec, runs));
            assert(ways_placed(rec, runs) == (if runs.len() > 0 && runs[0] >= 1 { finish_run(rec, runs[0], tail) } else { 0 }));
        } else if runs.len() > 0 && runs[0] == open {
            assert forall|r: Seq<bool>| #[trigger] pf(r) == runs_match(tail, 0)(r) by {
                assert((seq![false] + r).drop_first() =~= r);
                let x = runs_from(r, 0);
                if seq![open] + x == runs {
                    assert(x =~= tail);
                }
                if x == tail {
                    assert(seq![open] + x =~= runs);
                }
            }
            lemma_count_ext(rest, pf, runs_match(tail, 0));
            lemma_enumeration(rest, tail, 0);
            assert(rec.subrange(1, rec.len() as int) =~= rest);
        } else {
            assert forall|r: Seq<bool>| !#[trigger] pf(r) by {
                assert((seq![false] + r).drop_first() =~= r);
                let x = runs_from(r, 0);
                if seq![open] + x == runs {
                    assert(runs[0] == (seq![open] + x)[0]);
                }
            }
            lemma_count_none(rest, pf);
            if runs.len() > 0 && runs[0] > open {
                lemma_finish_step(rec, (runs[0] - open) as nat, tail);
            }
        }
    }
}

/// The recursive count equals the brute-force count: of all the ways to make
/// each unknown cell broken or operational, exactly `ways(rec, runs)` give the
/// maximal runs of broken cells `runs`, in order. With the contract of
/// `calculate_arrangements`, the counter returns the brute-force count.
pub proof fn lemma_count_is_brute_force(rec: Seq<State>, runs: Seq<nat>)
    ensures
        ways(rec, runs) == brute_force_count(rec, runs),
{
    lemma_enumeration(rec, runs, 0);
    assert forall|r: Seq<bool>| #[trigger] runs_match(runs, 0)(r) == (|r: Seq<bool>| runs_of(r) == runs)(r) by {}
    lemma_count_ext(rec, runs_match(runs, 0), |r: Seq<bool>| runs_of(r) == runs);
}

} // verus!

verus! {

/// Unfolding a record of `n` cells gives five copies and four separators,
/// `5 * n + 4` cells, and five copies of its `k` run lengths, `5 * k` runs.
pub proof fn lemma_unfolded_lengths(rec: Seq<State>, runs: Seq<nat>)
    ensures
        joined_copies(rec, 5).len() == 5 * rec.len() + 4,
        copies(runs, 5).len() == 5 * runs.len(),
{
    assert(joined_copies(rec, 1).len() == rec.len());
    assert(joined_copies(rec, 2).len() == 2 * rec.len() + 1);
    assert(joined_copies(rec, 3).len() == 3 * rec.len() + 2);
    assert(joined_copies(rec, 4).len() == 4 * rec.len() + 3);
    assert(copies(runs, 0).len() == 0);
    assert(copies(runs, 1).len() == runs.len());
    assert(copies(runs, 2).len() == 2 * runs.len());
    assert(copies(runs, 3).len() == 3 * runs.len());
    assert(copies(runs, 4).len() == 4 * runs.len());
}

} // verus!

verus! {

/// What `calculate_arrangements` may return on a record and run lengths.
pub open spec fn counter_result(rec: Seq<State>, runs: Seq<nat>, r: Option<u64>) -> bool {
    &&& r is Some <==> counter_fits(rec, runs)
    &&& r matches Some(c) ==> c == ways(rec, runs)
}

/// Counting is a function of the record and the run lengths: two runs of the
/// counter on the same inputs give the same result.
pub proof fn lemma_count_is_repeatable(rec: Seq<State>, runs: Seq<nat>, first: Option<u64>, second: Option<u64>)
    requires
        counter_result(rec, runs, first),
        counter_result(rec, runs, second),
    ensures
        first == second,
{
}

} // verus!
