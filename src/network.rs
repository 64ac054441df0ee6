//! A network of nodes with a left and a right exit, walked by a repeating list
//! of instructions.
use vstd::prelude::*;
use crate::text::{chars_of, split_on, same_text, line_views};

verus! {

/// A node and the nodes that its left and right exits lead to.
pub struct Direction {
    pub key: String,
    pub left: String,
    pub right: String,
}

pub open spec fn direction_view(d: Direction) -> (Seq<char>, Seq<char>, Seq<char>) {
    (d.key@, d.left@, d.right@)
}

/// `s` without its parentheses and spaces.
pub open spec fn cleaned(s: Seq<char>) -> Seq<char> {
    s.filter(|c: char| c != '(' && c != ')' && c != ' ')
}

/// A node line `KEY = (LEFT, RIGHT)`, read once parentheses and spaces are
/// removed: a key, `=`, and two exits separated by a comma.
pub open spec fn direction_ok(line: Seq<char>) -> bool {
    split_on(cleaned(line), '=').len() >= 2 && split_on(split_on(cleaned(line), '=')[1], ',').len() >= 2
}

pub open spec fn direction_of(line: Seq<char>) -> (Seq<char>, Seq<char>, Seq<char>) {
    let halves = split_on(cleaned(line), '=');
    let exits = split_on(halves[1], ',');
    (halves[0], exits[0], exits[1])
}

fn clean(s: &Vec<char>) -> (r: Vec<char>)
    ensures
        r@ == cleaned(s@),
{
    let mut r: Vec<char> = Vec::new();
    let mut i: usize = 0;
    while i < s.len()
        invariant
            i <= s@.len(),
            r@ == cleaned(s@.subrange(0, i as int)),
        decreases s@.len() - i,
    {
        proof {
            reveal(Seq::filter);
            assert(s@.subrange(0, i + 1).drop_last() =~= s@.subrange(0, i as int));
        }
        let c = s[i];
        if c != '(' && c != ')' && c != ' ' {
            r.push(c);
        }
        i += 1;
    }
    assert(s@.subrange(0, i as int) =~= s@);
    r
}

/// Relies on std's `FromIterator<&char>` for `String`: collecting characters
/// gives the string of those characters, in order.
#[verifier::external_body]
fn chars_to_string(cs: &Vec<char>) -> (r: String)
    ensures
        r@ == cs@,
{
    cs.iter().collect()
}

/// Reads a node line such as `AAA = (BBB, CCC)`; `None` when it has no `=` or
/// no comma after it.
pub fn get_direction(line: String) -> (r: Option<Direction>)
    ensures
        r is Some <==> direction_ok(line@),
        r matches Some(d) ==> direction_view(d) == direction_of(line@),
{
    let cs = clean(&chars_of(line.as_str()));
    let halves = crate::text::split(&cs, '=');
    if halves.len() < 2 {
        return None;
    }
    let exits = crate::text::split(&halves[1], ',');
    if exits.len() < 2 {
        return None;
    }
    Some(Direction {
        key: chars_to_string(&halves[0]),
        left: chars_to_string(&exits[0]),
        right: chars_to_string(&exits[1]),
    })
}

pub open spec fn direction_readable(lines: Seq<Seq<char>>, i: int) -> bool {
    direction_ok(lines[i])
}

/// Reads every node line; `None` when one is malformed.
pub fn get_directions(input: Vec<String>) -> (r: Option<Vec<Direction>>)
    ensures
        r is Some <==> forall|i: int| 0 <= i < input@.len() ==> #[trigger] direction_readable(line_views(input@), i),
        r matches Some(ds) ==> ds@.len() == input@.len() && forall|i: int|
            0 <= i < ds@.len() ==> direction_view(#[trigger] ds@[i]) == direction_of(input@[i]@),
{
    let ghost ls = line_views(input@);
    let mut ds: Vec<Direction> = Vec::new();
    let mut i: usize = 0;
    while i < input.len()
        invariant
            ls == line_views(input@),
            i <= input@.len(),
            ds@.len() == i,
            forall|t: int| 0 <= t < i ==> #[trigger] direction_readable(ls, t),
            forall|t: int| 0 <= t < i ==> direction_view(#[trigger] ds@[t]) == direction_of(input@[t]@),
        decreases input@.len() - i,
    {
        assert(ls[i as int] == input@[i as int]@);
        match get_direction(input[i].clone()) {
            Some(d) => {
                ds.push(d);
            },
            None => {
                assert(!direction_readable(ls, i as int));
                return None;
            },
        }
        assert(direction_readable(ls, i as int));
        i += 1;
    }
    Some(ds)
}

/// The index of the last node among the first `k` whose key is `key`, or
/// `-1` when there is none.
pub open spec fn last_with_key(ds: Seq<(Seq<char>, Seq<char>, Seq<char>)>, key: Seq<char>, k: int) -> int
    decreases k,
{
    if k <= 0 {
        -1
    } else if ds[k - 1].0 == key {
        k - 1
    } else {
        last_with_key(ds, key, k - 1)
    }
}

pub open spec fn directions_view(ds: Seq<Direction>) -> Seq<(Seq<char>, Seq<char>, Seq<char>)> {
    ds.map_values(|d: Direction| direction_view(d))
}

proof fn lemma_last_with_key(ds: Seq<(Seq<char>, Seq<char>, Seq<char>)>, key: Seq<char>, k: int)
    requires
        0 <= k <= ds.len(),
    ensures
        -1 <= last_with_key(ds, key, k) < k,
        last_with_key(ds, key, k) >= 0 ==> ds[last_with_key(ds, key, k)].0 == key,
    decreases k,
{
    if k > 0 {
        lemma_last_with_key(ds, key, k - 1);
    }
}

/// The node with key `key`; a later line for the same key replaces an earlier
/// one.
pub fn lookup(directions: &Vec<Direction>, key: &str) -> (r: Option<usize>)
    ensures
        r matches Some(k) ==> k as int == last_with_key(directions_view(directions@), key@, directions@.len() as int),
        r is None ==> last_with_key(directions_view(directions@), key@, directions@.len() as int) == -1,
{
    let ghost dv = directions_view(directions@);
    let mut k: usize = directions.len();
    while k > 0
        invariant
            dv == directions_view(directions@),
            k <= directions@.len(),
            last_with_key(dv, key@, directions@.len() as int) == last_with_key(dv, key@, k as int),
        decreases k,
    {
        assert(dv[k - 1] == direction_view(directions@[k - 1]));
        if same_text(directions[k - 1].key.as_str(), key) {
            return Some(k - 1);
        }
        k -= 1;
    }
    None
}

/// The node that node `node` leads to at step `step`: its right exit for an
/// `R` instruction, its left exit otherwise; the node itself when no line
/// describes it.
pub open spec fn next_node(
    ds: Seq<(Seq<char>, Seq<char>, Seq<char>)>,
    instrs: Seq<char>,
    node: Seq<char>,
    step: nat,
) -> Seq<char> {
    let k = last_with_key(ds, node, ds.len() as int);
    if k < 0 || instrs.len() == 0 {
        node
    } else if instrs[(step % instrs.len()) as int] == 'R' {
        ds[k].2
    } else {
        ds[k].1
    }
}

/// The node reached from `start` after `k` steps.
pub open spec fn walk(
    ds: Seq<(Seq<char>, Seq<char>, Seq<char>)>,
    instrs: Seq<char>,
    start: Seq<char>,
    k: nat,
) -> Seq<char>
    decreases k,
{
    if k == 0 {
        start
    } else {
        next_node(ds, instrs, walk(ds, instrs, start, (k - 1) as nat), (k - 1) as nat)
    }
}

pub open spec fn ends_with(s: Seq<char>, c: char) -> bool {
    s.len() > 0 && s.last() == c
}

/// What ends a walk: the node `ZZZ`, or any node ending in `Z`.
pub open spec fn at_goal(node: Seq<char>, any_z: bool) -> bool {
    if any_z {
        ends_with(node, 'Z')
    } else {
        node == "ZZZ"@
    }
}

fn reaches_goal(node: &str, any_z: bool) -> (r: bool)
    ensures
        r == at_goal(node@, any_z),
{
    if any_z {
        let cs = chars_of(node);
        cs.len() > 0 && cs[cs.len() - 1] == 'Z'
    } else {
        same_text(node, "ZZZ")
    }
}

/// The walk from `start` first reaches its goal after `k` steps, and every
/// node before that has a line.
pub open spec fn walk_arrives(
    ds: Seq<(Seq<char>, Seq<char>, Seq<char>)>,
    instrs: Seq<char>,
    start: Seq<char>,
    any_z: bool,
    k: nat,
) -> bool {
    &&& at_goal(walk(ds, instrs, start, k), any_z)
    &&& forall|j: nat| j < k ==> !#[trigger] at_goal(walk(ds, instrs, start, j), any_z)
    &&& forall|j: nat| j < k ==> last_with_key(ds, #[trigger] walk(ds, instrs, start, j), ds.len() as int) >= 0
}

/// A walk that arrives within one pass over every pair of node and
/// instruction, with a bound that fits in a `u64`.
pub open spec fn arrives_in_time(
    ds: Seq<(Seq<char>, Seq<char>, Seq<char>)>,
    instrs: Seq<char>,
    start: Seq<char>,
    any_z: bool,
) -> bool {
    &&& instrs.len() > 0
    &&& ds.len() * instrs.len() <= u64::MAX
    &&& exists|k: nat| #[trigger] walk_arrives(ds, instrs, start, any_z, k) && k <= ds.len() * instrs.len()
}

/// Walks from `start` until the goal; the number of steps, or `None` when a
/// node has no line, there are no instructions, or the goal is not reached
/// within one pass over every pair of node and instruction.
fn steps_to_goal(ds: &Vec<Direction>, instrs: &Vec<char>, start: &str, any_z: bool) -> (r: Option<u64>)
    ensures
        r matches Some(k) ==> at_goal(walk(directions_view(ds@), instrs@, start@, k as nat), any_z)
            && forall|j: nat| j < k ==> !#[trigger] at_goal(walk(directions_view(ds@), instrs@, start@, j), any_z),
        arrives_in_time(directions_view(ds@), instrs@, start@, any_z) ==> r is Some,
{
    let ghost dv = directions_view(ds@);
    let ghost owed = arrives_in_time(dv, instrs@, start@, any_z);
    if instrs.len() == 0 {
        return None;
    }
    let limit = match (ds.len() as u64).checked_mul(instrs.len() as u64) {
        Some(l) => l,
        None => {
            return None;
        },
    };
    let ghost goal: nat = if owed {
        choose|k: nat| #[trigger] walk_arrives(dv, instrs@, start@, any_z, k) && k <= dv.len() * instrs@.len()
    } else {
        0
    };
    let mut current: String = start.to_owned();
    let mut step: u64 = 0;
    while !reaches_goal(current.as_str(), any_z)
        invariant
            dv == directions_view(ds@),
            instrs@.len() > 0,
            current@ == walk(dv, instrs@, start@, step as nat),
            forall|j: nat| j < step ==> !#[trigger] at_goal(walk(dv, instrs@, start@, j), any_z),
            step <= limit,
            limit == dv.len() * instrs@.len(),
            owed == arrives_in_time(dv, instrs@, start@, any_z),
            owed ==> walk_arrives(dv, instrs@, start@, any_z, goal) && goal <= limit && step <= goal,
        decreases limit - step,
    {
        proof {
            if owed && step == goal {
                assert(at_goal(walk(dv, instrs@, start@, goal), any_z));
            }
        }
        if step == limit {
            return None;
        }
        let idx = (step % instrs.len() as u64) as usize;
        let k = match lookup(ds, current.as_str()) {
            Some(k) => k,
            None => {
                assert(!owed) by {
                    if owed {
                        assert(last_with_key(dv, walk(dv, instrs@, start@, step as nat), dv.len() as int) >= 0);
                    }
                }
                return None;
            },
        };
        proof {
            lemma_last_with_key(dv, current@, dv.len() as int);
        }
        assert(dv[k as int] == direction_view(ds@[k as int]));
        let next = if instrs[idx] == 'R' {
            ds[k].right.clone()
        } else {
            ds[k].left.clone()
        };
        assert(!at_goal(walk(dv, instrs@, start@, step as nat), any_z));
        current = next;
        step = step + 1;
    }
    Some(step)
}

/// The number of steps from `AAA` to `ZZZ`, following the instructions of the
/// first line and the nodes after the second; `None` when the input is
/// malformed or the walk never arrives.
pub fn part1(input: Vec<String>) -> (r: Option<u64>)
    ensures
        r matches Some(k) ==> input@.len() >= 2 && at_goal(
            walk(directions_of_lines(input@.subrange(2, input@.len() as int)), input@[0]@, "AAA"@, k as nat),
            false,
        ) && forall|j: nat| j < k ==> !#[trigger] at_goal(
            walk(directions_of_lines(input@.subrange(2, input@.len() as int)), input@[0]@, "AAA"@, j),
            false,
        ),
        input@.len() >= 2 && (forall|i: int| 2 <= i < input@.len() ==> #[trigger] direction_ok(input@[i]@))
            && arrives_in_time(directions_of_lines(input@.subrange(2, input@.len() as int)), input@[0]@, "AAA"@, false)
            ==> r is Some,
{
    if input.len() < 2 {
        return None;
    }
    let instrs = chars_of(input[0].as_str());
    let rest = tail_lines(&input);
    proof {
        if forall|i: int| 2 <= i < input@.len() ==> #[trigger] direction_ok(input@[i]@) {
            assert forall|i: int| 0 <= i < rest@.len() implies #[trigger] direction_readable(line_views(rest@), i) by {
                assert(line_views(rest@)[i] == rest@[i]@);
                assert(direction_ok(input@[i + 2]@));
            }
        }
    }
    let ds = match get_directions(rest) {
        Some(d) => d,
        None => {
            return None;
        },
    };
    assert(directions_view(ds@) =~= directions_of_lines(input@.subrange(2, input@.len() as int)));
    steps_to_goal(&ds, &instrs, "AAA", false)
}

pub open spec fn directions_of_lines(lines: Seq<String>) -> Seq<(Seq<char>, Seq<char>, Seq<char>)> {
    lines.map_values(|l: String| direction_of(l@))
}

fn tail_lines(input: &Vec<String>) -> (r: Vec<String>)
    requires
        input@.len() >= 2,
    ensures
        r@.len() == input@.len() - 2,
        forall|i: int| 0 <= i < r@.len() ==> #[trigger] r@[i]@ == input@[i + 2]@,
{
    let mut r: Vec<String> = Vec::new();
    let mut i: usize = 2;
    while i < input.len()
        invariant
            2 <= i <= input@.len(),
            r@.len() == i - 2,
            forall|t: int| 0 <= t < r@.len() ==> #[trigger] r@[t]@ == input@[t + 2]@,
        decreases input@.len() - i,
    {
        r.push(input[i].clone());
        i += 1;
    }
    r
}

/// Euclid's greatest common divisor.
pub open spec fn gcd_spec(a: nat, b: nat) -> nat
    decreases b,
{
    if b == 0 {
        a
    } else {
        gcd_spec(b, a % b)
    }
}

/// The greatest common divisor of `a` and `b`.
pub fn gcd(a: u64, b: u64) -> (r: u64)
    ensures
        r == (if b > a { gcd_spec(b as nat, a as nat) } else { gcd_spec(a as nat, b as nat) }),
{
    let mut a = a;
    let mut b = b;
    if a == b {
        assert(gcd_spec(a as nat, a as nat) == gcd_spec(a as nat, 0)) by {
            assert((a as nat) % (a as nat) == 0 || a == 0);
        }
        return a;
    }
    if b > a {
        let temp = a;
        a = b;
        b = temp;
    }
    let ghost target = gcd_spec(a as nat, b as nat);
    while b > 0
        invariant
            gcd_spec(a as nat, b as nat) == target,
        decreases b,
    {
        let temp = a;
        a = b;
        b = temp % b;
    }
    a
}

/// The least common multiple of the first `k` numbers, folded left to right
/// as `m * x / gcd(m, x)`.
pub open spec fn lcm_upto(steps: Seq<u64>, k: int) -> nat
    decreases k,
{
    if k <= 1 {
        steps[0] as nat
    } else {
        let m = lcm_upto(steps, k - 1);
        let x = steps[k - 1] as nat;
        let g = if x > m { gcd_spec(x, m) } else { gcd_spec(m, x) };
        if g == 0 {
            0
        } else {
            m * x / g
        }
    }
}

/// The least common multiple of the numbers; `None` when there are none, two
/// zeros meet, or a product overflows.
/// Folding in number `k` keeps the product within a `u64` and has a divisor
/// that is not zero.
pub open spec fn lcm_step_fits(steps: Seq<u64>, k: int) -> bool {
    let m = lcm_upto(steps, k);
    let x = steps[k] as nat;
    &&& (if x > m { gcd_spec(x, m) } else { gcd_spec(m, x) }) != 0
    &&& m * x <= u64::MAX
}

/// The fold of the least common multiple can be computed in `u64`.
pub open spec fn lcm_fits(steps: Seq<u64>) -> bool {
    steps.len() > 0 && forall|k: int| 1 <= k < steps.len() ==> #[trigger] lcm_step_fits(steps, k)
}

pub fn lcm(steps: Vec<u64>) -> (r: Option<u64>)
    ensures
        r matches Some(v) ==> steps@.len() > 0 && v == lcm_upto(steps@, steps@.len() as int),
        r is Some <==> lcm_fits(steps@),
{
    if steps.len() == 0 {
        return None;
    }
    let mut result = steps[0];
    let mut i: usize = 1;
    while i < steps.len()
        invariant
            steps@.len() > 0,
            1 <= i <= steps@.len(),
            result == lcm_upto(steps@, i as int),
            forall|k: int| 1 <= k < i ==> #[trigger] lcm_step_fits(steps@, k),
        decreases steps@.len() - i,
    {
        let g = gcd(result, steps[i]);
        if g == 0 {
            assert(!lcm_step_fits(steps@, i as int));
            return None;
        }
        assert(lcm_upto(steps@, i + 1) == (result as nat) * (steps@[i as int] as nat) / (g as nat));
        let p = match result.checked_mul(steps[i]) {
            Some(p) => p,
            None => {
                assert(!lcm_step_fits(steps@, i as int));
                return None;
            },
        };
        result = p / g;
        i += 1;
    }
    Some(result)
}

/// `k` is the first step at which the walk from `start` reaches its goal.
pub open spec fn first_arrival(
    ds: Seq<(Seq<char>, Seq<char>, Seq<char>)>,
    instrs: Seq<char>,
    start: Seq<char>,
    any_z: bool,
    k: nat,
) -> bool {
    at_goal(walk(ds, instrs, start, k), any_z) && forall|j: nat| j < k ==> !#[trigger] at_goal(
        walk(ds, instrs, start, j),
        any_z,
    )
}

/// The keys ending in `A`, each once, in the order of their last lines, among
/// the first `k` lines.
pub open spec fn start_keys(ds: Seq<(Seq<char>, Seq<char>, Seq<char>)>, k: int) -> Seq<Seq<char>>
    decreases k,
{
    if k <= 0 {
        Seq::empty()
    } else if ends_with(ds[k - 1].0, 'A') && last_with_key(ds, ds[k - 1].0, ds.len() as int) == k - 1 {
        start_keys(ds, k - 1).push(ds[k - 1].0)
    } else {
        start_keys(ds, k - 1)
    }
}

/// `ks` are the first arrivals of the walks from all start keys, in order, and
/// `v` is their least common multiple.
pub open spec fn arrivals_with_lcm(input: Seq<String>, ks: Seq<u64>, v: u64) -> bool {
    let dv = directions_of_lines(input.subrange(2, input.len() as int));
    let starts = start_keys(dv, dv.len() as int);
    &&& ks.len() == starts.len()
    &&& ks.len() > 0
    &&& forall|i: int| 0 <= i < ks.len() ==> #[trigger] first_arrival(dv, input[0]@, starts[i], true, ks[i] as nat)
    &&& v == lcm_upto(ks, ks.len() as int)
}

/// The least common multiple of the numbers of steps that the walks from all
/// nodes ending in `A` take to a node ending in `Z`; `None` when the input is
/// malformed, there is no such node, a walk never arrives, or a value
/// overflows.
/// Node `t`, when it starts a walk (its key ends in `A` and no later line has
/// the same key), arrives within one pass over every pair of node and
/// instruction.
pub open spec fn start_arrives(ds: Seq<(Seq<char>, Seq<char>, Seq<char>)>, instrs: Seq<char>, t: int) -> bool {
    ends_with(ds[t].0, 'A') && last_with_key(ds, ds[t].0, ds.len() as int) == t
        ==> arrives_in_time(ds, instrs, ds[t].0, true)
}

/// The arrival counts `ks` of the walks from the start keys, if these are
/// what the walks take, have a least common multiple that fits in a `u64`.
pub open spec fn lcm_of_arrivals_fits(ds: Seq<(Seq<char>, Seq<char>, Seq<char>)>, instrs: Seq<char>, ks: Seq<u64>) -> bool {
    let starts = start_keys(ds, ds.len() as int);
    ks.len() == starts.len() && (forall|i: int| 0 <= i < ks.len() ==> #[trigger] first_arrival(ds, instrs, starts[i], true, ks[i] as nat))
        ==> lcm_fits(ks)
}

pub fn part2(input: Vec<String>) -> (r: Option<u64>)
    ensures
        r matches Some(v) ==> input@.len() >= 2 && exists|ks: Seq<u64>| #[trigger] arrivals_with_lcm(input@, ks, v),
        input@.len() >= 2 && (forall|i: int| 2 <= i < input@.len() ==> #[trigger] direction_ok(input@[i]@))
            && (forall|t: int| 0 <= t < input@.len() - 2 ==> #[trigger] start_arrives(directions_of_lines(input@.subrange(2, input@.len() as int)), input@[0]@, t))
            && (forall|ks: Seq<u64>| #[trigger] lcm_of_arrivals_fits(directions_of_lines(input@.subrange(2, input@.len() as int)), input@[0]@, ks))
            ==> r is Some,
{
    if input.len() < 2 {
        return None;
    }
    let instrs = chars_of(input[0].as_str());
    let rest = tail_lines(&input);
    proof {
        if forall|i: int| 2 <= i < input@.len() ==> #[trigger] direction_ok(input@[i]@) {
            assert forall|i: int| 0 <= i < rest@.len() implies #[trigger] direction_readable(line_views(rest@), i) by {
                assert(line_views(rest@)[i] == rest@[i]@);
                assert(direction_ok(input@[i + 2]@));
            }
        }
    }
    let ds = match get_directions(rest) {
        Some(d) => d,
        None => {
            return None;
        },
    };
    let ghost dv = directions_of_lines(input@.subrange(2, input@.len() as int));
    assert(directions_view(ds@) =~= dv);
    let mut steps: Vec<u64> = Vec::new();
    let ghost mut starts: Seq<Seq<char>> = Seq::empty();
    let mut t: usize = 0;
    while t < ds.len()
        invariant
            dv == directions_view(ds@),
            dv == directions_of_lines(input@.subrange(2, input@.len() as int)),
            input@.len() >= 2,
            instrs@ == input@[0]@,
            t <= ds@.len(),
            starts == start_keys(dv, t as int),
            steps@.len() == starts.len(),
            forall|i: int| 0 <= i < steps@.len() ==> #[trigger] first_arrival(dv, instrs@, starts[i], true, steps@[i] as nat),
        decreases ds@.len() - t,
    {
        let key = ds[t].key.as_str();
        assert(dv[t as int] == direction_view(ds@[t as int]));
        let kc = chars_of(key);
        if kc.len() > 0 && kc[kc.len() - 1] == 'A' {
            let last = lookup(&ds, key);
            if last == Some(t) {
                let k = match steps_to_goal(&ds, &instrs, key, true) {
                    Some(k) => k,
                    None => {
                        assert(key@ == dv[t as int].0);
                        assert(kc@ == key@);
                        assert(ends_with(dv[t as int].0, 'A'));
                        assert(!start_arrives(dv, instrs@, t as int));
                        return None;
                    },
                };
                steps.push(k);
                proof {
                    starts = starts.push(key@);
                }
            }
        }
        t += 1;
    }
    assert(starts == start_keys(dv, dv.len() as int));
    let ghost ks = steps@;
    match lcm(steps) {
        Some(v) => {
            assert(arrivals_with_lcm(input@, ks, v));
            Some(v)
        },
        None => {
            assert(!lcm_of_arrivals_fits(dv, instrs@, ks));
            None
        },
    }
}

} // verus!
