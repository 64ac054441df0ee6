//! Games of cubes drawn from a bag: which games a bag of 12 red, 13 green and
//! 14 blue cubes allows, and the fewest cubes that each game needs.
use vstd::prelude::*;
use crate::text::{chars_of, split_on, split_str, parse_u64, is_u64_decimal, decimal_value, same_text};

verus! {

/// Some cubes of one colour.
pub struct Cube {
    pub color: String,
    pub num: u32,
}

/// The cubes shown in one draw.
pub struct CubeSet {
    pub cubes: Vec<Cube>,
}

/// A game: its number and its draws.
pub struct Game {
    pub game_num: u32,
    pub game: Vec<CubeSet>,
}

pub open spec fn cube_view(c: Cube) -> (Seq<char>, nat) {
    (c.color@, c.num as nat)
}

pub open spec fn set_view(s: CubeSet) -> Seq<(Seq<char>, nat)> {
    s.cubes@.map_values(|c: Cube| cube_view(c))
}

pub open spec fn game_view(g: Game) -> Seq<Seq<(Seq<char>, nat)>> {
    g.game@.map_values(|s: CubeSet| set_view(s))
}

/// `s` spells a number that fits in a `u32`.
pub open spec fn is_u32_decimal(s: Seq<char>) -> bool {
    is_u64_decimal(s) && decimal_value(s) <= u32::MAX
}

/// A cube record ` <count> <colour>`: its words between single spaces, the
/// count second and the colour third.
pub open spec fn cube_ok(s: Seq<char>) -> bool {
    split_on(s, ' ').len() >= 3 && is_u32_decimal(split_on(s, ' ')[1])
}

pub open spec fn cube_of(s: Seq<char>) -> (Seq<char>, nat) {
    (split_on(s, ' ')[2], decimal_value(split_on(s, ' ')[1]))
}

/// Reads one cube record such as ` 3 blue`; `None` when it is malformed.
pub fn get_cube(line: &str) -> (r: Option<Cube>)
    ensures
        r is Some <==> cube_ok(line@),
        r matches Some(c) ==> cube_view(c) == cube_of(line@),
{
    let split = split_str(line, ' ');
    if split.len() < 3 {
        return None;
    }
    let digits = chars_of(split[1].as_str());
    match parse_u64(&digits) {
        Some(n) => {
            if n > u32::MAX as u64 {
                return None;
            }
            let color = split[2].clone();
            Some(Cube { color, num: n as u32 })
        },
        None => None,
    }
}

pub open spec fn cube_readable(pieces: Seq<Seq<char>>, i: int) -> bool {
    cube_ok(pieces[i])
}

/// A draw: cube records separated by commas.
pub open spec fn set_ok(s: Seq<char>) -> bool {
    forall|i: int| 0 <= i < split_on(s, ',').len() ==> #[trigger] cube_readable(split_on(s, ','), i)
}

pub open spec fn set_of(s: Seq<char>) -> Seq<(Seq<char>, nat)> {
    split_on(s, ',').map_values(|p: Seq<char>| cube_of(p))
}

/// Reads one draw such as ` 3 blue, 4 red`; `None` when a record is malformed.
pub fn get_set(line: &str) -> (r: Option<CubeSet>)
    ensures
        r is Some <==> set_ok(line@),
        r matches Some(s) ==> set_view(s) == set_of(line@),
{
    let pieces = split_str(line, ',');
    let ghost ps = split_on(line@, ',');
    let mut cubes: Vec<Cube> = Vec::new();
    let mut i: usize = 0;
    while i < pieces.len()
        invariant
            ps == split_on(line@, ','),
            pieces@.len() == ps.len(),
            forall|t: int| 0 <= t < ps.len() ==> #[trigger] pieces@[t]@ == ps[t],
            i <= pieces@.len(),
            cubes@.len() == i,
            forall|t: int| 0 <= t < i ==> #[trigger] cube_readable(ps, t),
            forall|t: int| 0 <= t < i ==> cube_view(#[trigger] cubes@[t]) == cube_of(ps[t]),
        decreases pieces@.len() - i,
    {
        assert(pieces@[i as int]@ == ps[i as int]);
        match get_cube(pieces[i].as_str()) {
            Some(c) => {
                cubes.push(c);
            },
            None => {
                assert(!cube_readable(ps, i as int));
                return None;
            },
        }
        assert(cube_readable(ps, i as int));
        i += 1;
    }
    let r = CubeSet { cubes };
    assert(set_view(r) =~= set_of(line@));
    Some(r)
}

/// A game line `Game <n>: <draw>; <draw>; ...`.
pub open spec fn game_ok(line: Seq<char>) -> bool {
    let halves = split_on(line, ':');
    &&& halves.len() >= 2
    &&& split_on(halves[0], ' ').len() >= 2
    &&& is_u32_decimal(split_on(halves[0], ' ')[1])
    &&& forall|i: int|
        0 <= i < split_on(halves[1], ';').len() ==> #[trigger] draw_readable(split_on(halves[1], ';'), i)
}

pub open spec fn draw_readable(draws: Seq<Seq<char>>, i: int) -> bool {
    set_ok(draws[i])
}

pub open spec fn game_number(line: Seq<char>) -> nat {
    decimal_value(split_on(split_on(line, ':')[0], ' ')[1])
}

pub open spec fn game_of(line: Seq<char>) -> Seq<Seq<(Seq<char>, nat)>> {
    split_on(split_on(line, ':')[1], ';').map_values(|d: Seq<char>| set_of(d))
}

/// Reads the number of a game line; `None` when it has none.
pub fn get_game_number(line: &str) -> (r: Option<u32>)
    ensures
        r is Some <==> (split_on(split_on(line@, ':')[0], ' ').len() >= 2 && is_u32_decimal(
            split_on(split_on(line@, ':')[0], ' ')[1],
        )),
        r matches Some(n) ==> n == game_number(line@),
{
    let halves = split_str(line, ':');
    proof {
        crate::text::lemma_split_on_nonempty(line@, ':');
    }
    let words = split_str(halves[0].as_str(), ' ');
    if words.len() < 2 {
        return None;
    }
    match parse_u64(&chars_of(words[1].as_str())) {
        Some(n) => {
            if n > u32::MAX as u64 {
                None
            } else {
                Some(n as u32)
            }
        },
        None => None,
    }
}

/// Reads a game line; `None` when it is malformed.
pub fn get_game(line: &str) -> (r: Option<Game>)
    ensures
        r is Some <==> game_ok(line@),
        r matches Some(g) ==> g.game_num == game_number(line@) && game_view(g) == game_of(line@),
{
    let halves = split_str(line, ':');
    if halves.len() < 2 {
        return None;
    }
    let game_num = match get_game_number(line) {
        Some(n) => n,
        None => {
            return None;
        },
    };
    let draws = split_str(halves[1].as_str(), ';');
    let ghost ds = split_on(split_on(line@, ':')[1], ';');
    assert(halves@[1]@ == split_on(line@, ':')[1]);
    let mut game: Vec<CubeSet> = Vec::new();
    let mut i: usize = 0;
    while i < draws.len()
        invariant
            ds == split_on(split_on(line@, ':')[1], ';'),
            draws@.len() == ds.len(),
            forall|t: int| 0 <= t < ds.len() ==> #[trigger] draws@[t]@ == ds[t],
            i <= draws@.len(),
            game@.len() == i,
            forall|t: int| 0 <= t < i ==> #[trigger] draw_readable(ds, t),
            forall|t: int| 0 <= t < i ==> set_view(#[trigger] game@[t]) == set_of(ds[t]),
        decreases draws@.len() - i,
    {
        assert(draws@[i as int]@ == ds[i as int]);
        match get_set(draws[i].as_str()) {
            Some(s) => {
                game.push(s);
            },
            None => {
                assert(!draw_readable(ds, i as int));
                return None;
            },
        }
        assert(draw_readable(ds, i as int));
        i += 1;
    }
    let g = Game { game_num, game };
    assert(game_view(g) =~= game_of(line@));
    Some(g)
}

/// The bag holds 12 red, 13 green and 14 blue cubes; other colours are not
/// limited.
pub open spec fn bag_limit(color: Seq<char>) -> nat {
    if color == "red"@ {
        12
    } else if color == "green"@ {
        13
    } else if color == "blue"@ {
        14
    } else {
        u32::MAX as nat
    }
}

pub open spec fn cube_fits(c: (Seq<char>, nat)) -> bool {
    c.1 <= bag_limit(c.0)
}

/// No draw of the game shows more cubes of a colour than the bag holds.
pub open spec fn possible(game: Seq<Seq<(Seq<char>, nat)>>) -> bool {
    forall|i: int, j: int| 0 <= i < game.len() && 0 <= j < game[i].len() ==> #[trigger] cube_fits(game[i][j])
}

fn fits_bag(c: &Cube) -> (r: bool)
    ensures
        r == cube_fits(cube_view(*c)),
{
    let color = c.color.as_str();
    if same_text(color, "red") {
        c.num <= 12
    } else if same_text(color, "green") {
        c.num <= 13
    } else if same_text(color, "blue") {
        c.num <= 14
    } else {
        true
    }
}

/// Whether the bag of 12 red, 13 green and 14 blue cubes allows every draw of
/// the game.
pub fn is_valid(game: &Game) -> (r: bool)
    ensures
        r == possible(game_view(*game)),
{
    let ghost gv = game_view(*game);
    let mut i: usize = 0;
    while i < game.game.len()
        invariant
            gv == game_view(*game),
            i <= game.game@.len(),
            forall|a: int, b: int| 0 <= a < i && 0 <= b < gv[a].len() ==> #[trigger] cube_fits(gv[a][b]),
        decreases game.game@.len() - i,
    {
        let set = &game.game[i];
        assert(set_view(*set) == gv[i as int]);
        let mut j: usize = 0;
        while j < set.cubes.len()
            invariant
                gv == game_view(*game),
                i < game.game@.len(),
                set_view(*set) == gv[i as int],
                j <= set.cubes@.len(),
                forall|a: int, b: int| 0 <= a < i && 0 <= b < gv[a].len() ==> #[trigger] cube_fits(gv[a][b]),
                forall|b: int| 0 <= b < j ==> #[trigger] cube_fits(gv[i as int][b]),
            decreases set.cubes@.len() - j,
        {
            assert(cube_view(set.cubes@[j as int]) == gv[i as int][j as int]);
            if !fits_bag(&set.cubes[j]) {
                return false;
            }
            j += 1;
        }
        i += 1;
    }
    true
}

/// The largest count of `color` among the first `k` records of a draw.
pub open spec fn max_in_draw(draw: Seq<(Seq<char>, nat)>, color: Seq<char>, k: int) -> nat
    decreases k,
{
    if k <= 0 {
        0
    } else {
        let m = max_in_draw(draw, color, k - 1);
        if draw[k - 1].0 == color && draw[k - 1].1 > m {
            draw[k - 1].1
        } else {
            m
        }
    }
}

/// The largest count of `color` over the first `k` draws of a game.
pub open spec fn max_in_game(game: Seq<Seq<(Seq<char>, nat)>>, color: Seq<char>, k: int) -> nat
    decreases k,
{
    if k <= 0 {
        0
    } else {
        let m = max_in_game(game, color, k - 1);
        let d = max_in_draw(game[k - 1], color, game[k - 1].len() as int);
        if d > m {
            d
        } else {
            m
        }
    }
}

pub open spec fn fewest(game: Seq<Seq<(Seq<char>, nat)>>, color: Seq<char>) -> nat {
    max_in_game(game, color, game.len() as int)
}

proof fn lemma_max_bounded(game: Seq<Seq<(Seq<char>, nat)>>, color: Seq<char>, k: int)
    requires
        forall|i: int, j: int| 0 <= i < game.len() && 0 <= j < game[i].len() ==> #[trigger] game[i][j].1 <= u32::MAX,
        0 <= k <= game.len(),
    ensures
        max_in_game(game, color, k) <= u32::MAX,
    decreases k,
{
    if k > 0 {
        lemma_max_bounded(game, color, k - 1);
        lemma_draw_max_bounded(game[k - 1], color, game[k - 1].len() as int);
    }
}

proof fn lemma_draw_max_bounded(draw: Seq<(Seq<char>, nat)>, color: Seq<char>, k: int)
    requires
        forall|j: int| 0 <= j < draw.len() ==> #[trigger] draw[j].1 <= u32::MAX,
        0 <= k <= draw.len(),
    ensures
        max_in_draw(draw, color, k) <= u32::MAX,
    decreases k,
{
    if k > 0 {
        lemma_draw_max_bounded(draw, color, k - 1);
    }
}

fn fewest_of(game: &Game, color: &str) -> (r: u32)
    ensures
        r == fewest(game_view(*game), color@),
{
    let ghost gv = game_view(*game);
    proof {
        assert forall|i: int, j: int| 0 <= i < gv.len() && 0 <= j < gv[i].len() implies #[trigger] gv[i][j].1 <= u32::MAX by {
            assert(gv[i] == set_view(game.game@[i]));
            assert(gv[i][j] == cube_view(game.game@[i].cubes@[j]));
        }
    }
    let mut best: u32 = 0;
    let mut i: usize = 0;
    while i < game.game.len()
        invariant
            gv == game_view(*game),
            forall|i: int, j: int| 0 <= i < gv.len() && 0 <= j < gv[i].len() ==> #[trigger] gv[i][j].1 <= u32::MAX,
            i <= game.game@.len(),
            best == max_in_game(gv, color@, i as int),
        decreases game.game@.len() - i,
    {
        let set = &game.game[i];
        assert(set_view(*set) == gv[i as int]);
        let mut in_draw: u32 = 0;
        let mut j: usize = 0;
        while j < set.cubes.len()
            invariant
                gv == game_view(*game),
                i < game.game@.len(),
                set_view(*set) == gv[i as int],
                j <= set.cubes@.len(),
                in_draw == max_in_draw(gv[i as int], color@, j as int),
            decreases set.cubes@.len() - j,
        {
            let c = &set.cubes[j];
            assert(cube_view(*c) == gv[i as int][j as int]);
            if same_text(c.color.as_str(), color) && c.num > in_draw {
                in_draw = c.num;
            }
            j += 1;
        }
        if in_draw > best {
            best = in_draw;
        }
        i += 1;
    }
    best
}

/// The fewest cubes of each colour that make the game possible: red, green
/// and blue, in that order.
pub fn get_min_set(g: &Game) -> (r: CubeSet)
    ensures
        set_view(r) == seq![
            ("red"@, fewest(game_view(*g), "red"@)),
            ("green"@, fewest(game_view(*g), "green"@)),
            ("blue"@, fewest(game_view(*g), "blue"@)),
        ],
{
    let mut cubes: Vec<Cube> = Vec::new();
    cubes.push(Cube { color: "red".to_owned(), num: fewest_of(g, "red") });
    cubes.push(Cube { color: "green".to_owned(), num: fewest_of(g, "green") });
    cubes.push(Cube { color: "blue".to_owned(), num: fewest_of(g, "blue") });
    let r = CubeSet { cubes };
    assert(set_view(r) =~= seq![
        ("red"@, fewest(game_view(*g), "red"@)),
        ("green"@, fewest(game_view(*g), "green"@)),
        ("blue"@, fewest(game_view(*g), "blue"@)),
    ]);
    r
}

/// The product of the counts of the first `k` records.
pub open spec fn count_product(set: Seq<(Seq<char>, nat)>, k: int) -> nat
    decreases k,
{
    if k <= 0 {
        1
    } else {
        count_product(set, k - 1) * set[k - 1].1
    }
}

/// The product of the counts of a draw; `None` when it does not fit in a
/// `u32`.
pub fn power(set: &CubeSet) -> (r: Option<u32>)
    ensures
        r matches Some(p) ==> p == count_product(set_view(*set), set.cubes@.len() as int),
        (forall|k: int| 0 <= k <= set.cubes@.len() ==> #[trigger] count_product(set_view(*set), k) <= u32::MAX)
            ==> r is Some,
{
    let ghost sv = set_view(*set);
    let mut p: u32 = 1;
    let mut i: usize = 0;
    while i < set.cubes.len()
        invariant
            sv == set_view(*set),
            i <= set.cubes@.len(),
            p == count_product(sv, i as int),
        decreases set.cubes@.len() - i,
    {
        assert(cube_view(set.cubes@[i as int]) == sv[i as int]);
        p = match p.checked_mul(set.cubes[i].num) {
            Some(q) => q,
            None => {
                assert(count_product(sv, i + 1) > u32::MAX);
                return None;
            },
        };
        i += 1;
    }
    Some(p)
}

pub open spec fn views(input: Seq<String>) -> Seq<Seq<char>> {
    input.map_values(|s: String| s@)
}

/// The sum of the numbers of the possible games among the first `k` lines.
pub open spec fn possible_sum(lines: Seq<Seq<char>>, k: int) -> nat
    decreases k,
{
    if k <= 0 {
        0
    } else {
        possible_sum(lines, k - 1) + (if possible(game_of(lines[k - 1])) {
            game_number(lines[k - 1])
        } else {
            0
        })
    }
}

/// The sum of the powers of the fewest cubes over the first `k` lines.
pub open spec fn power_sum(lines: Seq<Seq<char>>, k: int) -> nat
    decreases k,
{
    if k <= 0 {
        0
    } else {
        let g = game_of(lines[k - 1]);
        power_sum(lines, k - 1) + fewest(g, "red"@) * fewest(g, "green"@) * fewest(g, "blue"@)
    }
}

pub open spec fn line_readable(lines: Seq<Seq<char>>, i: int) -> bool {
    game_ok(lines[i])
}

proof fn lemma_possible_sum_grows(lines: Seq<Seq<char>>, i: int, k: int)
    requires
        0 <= i <= k,
    ensures
        possible_sum(lines, i) <= possible_sum(lines, k),
    decreases k - i,
{
    if i < k {
        lemma_possible_sum_grows(lines, i, k - 1);
    }
}

/// The sum of the numbers of the games that the bag allows; `None` when a line
/// is not a game or the sum overflows.
pub fn part1(input: Vec<String>) -> (r: Option<u32>)
    ensures
        r is Some <==> (forall|i: int| 0 <= i < input@.len() ==> #[trigger] line_readable(views(input@), i))
            && possible_sum(views(input@), input@.len() as int) <= u32::MAX,
        r matches Some(v) ==> (forall|i: int| 0 <= i < input@.len() ==> #[trigger] line_readable(views(input@), i))
            && v == possible_sum(views(input@), input@.len() as int),
        (exists|i: int| 0 <= i < input@.len() && !#[trigger] line_readable(views(input@), i)) ==> r is None,
{
    let ghost lines = views(input@);
    let mut sum: u32 = 0;
    let mut i: usize = 0;
    while i < input.len()
        invariant
            lines == views(input@),
            i <= input@.len(),
            forall|t: int| 0 <= t < i ==> #[trigger] line_readable(lines, t),
            sum == possible_sum(lines, i as int),
        decreases input@.len() - i,
    {
        assert(lines[i as int] == input@[i as int]@);
        let game = match get_game(input[i].as_str()) {
            Some(g) => g,
            None => {
                assert(!line_readable(lines, i as int));
                return None;
            },
        };
        assert(line_readable(lines, i as int));
        if is_valid(&game) {
            sum = match sum.checked_add(game.game_num) {
                Some(s) => s,
                None => {
                    proof {
                        lemma_possible_sum_grows(lines, i + 1, input@.len() as int);
                    }
                    return None;
                },
            };
        }
        i += 1;
    }
    Some(sum)
}

/// The product of the fewest red, green and blue cubes of game `i`, and the
/// product of the first two, fit in a `u32`.
pub open spec fn power_fits(lines: Seq<Seq<char>>, i: int) -> bool {
    let g = game_of(lines[i]);
    &&& fewest(g, "red"@) * fewest(g, "green"@) <= u32::MAX
    &&& fewest(g, "red"@) * fewest(g, "green"@) * fewest(g, "blue"@) <= u32::MAX
}

proof fn lemma_power_sum_grows(lines: Seq<Seq<char>>, i: int, k: int)
    requires
        0 <= i <= k,
    ensures
        power_sum(lines, i) <= power_sum(lines, k),
    decreases k - i,
{
    if i < k {
        lemma_power_sum_grows(lines, i, k - 1);
    }
}

/// The sum over all games of the product of the fewest red, green and blue
/// cubes; `None` when a line is not a game or the arithmetic overflows.
pub fn part2(input: Vec<String>) -> (r: Option<u32>)
    ensures
        r matches Some(v) ==> (forall|i: int| 0 <= i < input@.len() ==> #[trigger] line_readable(views(input@), i))
            && v == power_sum(views(input@), input@.len() as int),
        (exists|i: int| 0 <= i < input@.len() && !#[trigger] line_readable(views(input@), i)) ==> r is None,
        (forall|i: int| 0 <= i < input@.len() ==> #[trigger] line_readable(views(input@), i) && power_fits(views(input@), i))
            && power_sum(views(input@), input@.len() as int) <= u32::MAX ==> r is Some,
{
    let ghost lines = views(input@);
    let mut sum: u32 = 0;
    let mut i: usize = 0;
    while i < input.len()
        invariant
            lines == views(input@),
            i <= input@.len(),
            forall|t: int| 0 <= t < i ==> #[trigger] line_readable(lines, t),
            sum == power_sum(lines, i as int),
        decreases input@.len() - i,
    {
        assert(lines[i as int] == input@[i as int]@);
        let game = match get_game(input[i].as_str()) {
            Some(g) => g,
            None => {
                assert(!line_readable(lines, i as int));
                return None;
            },
        };
        assert(line_readable(lines, i as int));
        let least = get_min_set(&game);
        let p = match power(&least) {
            Some(p) => p,
            None => {
                proof {
                    let sv = set_view(least);
                    assert(sv.len() == 3);
                    let a = sv[0].1;
                    let b = sv[1].1;
                    let c = sv[2].1;
                    assert(count_product(sv, 0) == 1);
                    assert(count_product(sv, 1) == count_product(sv, 0) * a);
                    assert(count_product(sv, 2) == count_product(sv, 1) * b);
                    assert(count_product(sv, 3) == count_product(sv, 2) * c);
                    assert(a == least.cubes@[0].num);
                    assert(count_product(sv, 1) == a && count_product(sv, 2) == a * b
                        && count_product(sv, 3) == a * b * c) by (nonlinear_arith)
                        requires
                            count_product(sv, 0) == 1,
                            count_product(sv, 1) == count_product(sv, 0) * a,
                            count_product(sv, 2) == count_product(sv, 1) * b,
                            count_product(sv, 3) == count_product(sv, 2) * c,
                    ;
                    assert(!power_fits(lines, i as int));
                }
                return None;
            },
        };
        proof {
            let sv = set_view(least);
            assert(sv.len() == 3);
            assert(least.cubes@.len() == 3);
            assert(count_product(sv, 0) == 1);
            let a = sv[0].1;
            let b = sv[1].1;
            let c = sv[2].1;
            assert(count_product(sv, 1) == count_product(sv, 0) * a);
            assert(count_product(sv, 2) == count_product(sv, 1) * b);
            assert(count_product(sv, 3) == count_product(sv, 2) * c);
            assert(count_product(sv, 3) == a * b * c) by (nonlinear_arith)
                requires
                    count_product(sv, 0) == 1,
                    count_product(sv, 1) == count_product(sv, 0) * a,
                    count_product(sv, 2) == count_product(sv, 1) * b,
                    count_product(sv, 3) == count_product(sv, 2) * c,
            ;
        }
        sum = match sum.checked_add(p) {
            Some(s) => s,
            None => {
                proof {
                    lemma_power_sum_grows(lines, i + 1, input@.len() as int);
                }
                return None;
            },
        };
        i += 1;
    }
    Some(sum)
}

} // verus!
