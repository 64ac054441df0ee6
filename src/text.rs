//! Character-level helpers shared by the puzzle parsers: turning a string into
//! its characters, splitting on a separator, and reading decimal numbers.
use vstd::prelude::*;

verus! {

/// The pieces of `s` between occurrences of `sep`, as `str::split` yields them:
/// there is always at least one piece, and `k` separators give `k + 1` pieces.
pub open spec fn split_on(s: Seq<char>, sep: char) -> Seq<Seq<char>>
    decreases s.len(),
{
    if s.len() == 0 {
        seq![Seq::<char>::empty()]
    } else {
        let rest = split_on(s.drop_last(), sep);
        if s.last() == sep {
            rest.push(Seq::<char>::empty())
        } else {
            rest.update(rest.len() - 1, rest.last().push(s.last()))
        }
    }
}

pub proof fn lemma_split_on_nonempty(s: Seq<char>, sep: char)
    ensures
        split_on(s, sep).len() >= 1,
    decreases s.len(),
{
    if s.len() > 0 {
        lemma_split_on_nonempty(s.drop_last(), sep);
    }
}

pub open spec fn is_digit(c: char) -> bool {
    '0' <= c && c <= '9'
}

pub open spec fn digit_value(c: char) -> nat {
    (c as nat - '0' as nat) as nat
}

/// A non-empty string of decimal digits.
pub open spec fn is_decimal(s: Seq<char>) -> bool {
    s.len() > 0 && forall|i: int| 0 <= i < s.len() ==> is_digit(#[trigger] s[i])
}

/// The number that the digits of `s` spell in base ten.
pub open spec fn decimal_value(s: Seq<char>) -> nat
    decreases s.len(),
{
    if s.len() == 0 {
        0
    } else {
        decimal_value(s.drop_last()) * 10 + digit_value(s.last())
    }
}

/// `s` spells a decimal number that fits in a `u64`.
pub open spec fn is_u64_decimal(s: Seq<char>) -> bool {
    is_decimal(s) && decimal_value(s) <= u64::MAX
}

proof fn lemma_decimal_prefix_grows(s: Seq<char>, i: int)
    requires
        0 <= i <= s.len(),
    ensures
        decimal_value(s.subrange(0, i)) <= decimal_value(s),
    decreases s.len() - i,
{
    if i < s.len() {
        lemma_decimal_prefix_grows(s, i + 1);
        assert(s.subrange(0, i + 1).drop_last() =~= s.subrange(0, i));
    } else {
        assert(s.subrange(0, i) =~= s);
    }
}

/// The characters of `s`, in order.
pub fn chars_of(s: &str) -> (r: Vec<char>)
    ensures
        r@ == s@,
{
    let n = s.unicode_len();
    let mut r: Vec<char> = Vec::new();
    let mut i: usize = 0;
    while i < n
        invariant
            n == s@.len(),
            i <= n,
            r@ == s@.subrange(0, i as int),
        decreases n - i,
    {
        r.push(s.get_char(i));
        i += 1;
        assert(r@ =~= s@.subrange(0, i as int));
    }
    assert(r@ =~= s@);
    r
}

/// Splits `s` at every `sep`.
pub fn split(s: &Vec<char>, sep: char) -> (r: Vec<Vec<char>>)
    ensures
        r@.len() == split_on(s@, sep).len(),
        forall|i: int| 0 <= i < r@.len() ==> #[trigger] r@[i]@ == split_on(s@, sep)[i],
{
    let mut done: Vec<Vec<char>> = Vec::new();
    let mut cur: Vec<char> = Vec::new();
    let mut i: usize = 0;
    while i < s.len()
        invariant
            i <= s@.len(),
            split_on(s@.subrange(0, i as int), sep).len() == done@.len() + 1,
            forall|j: int|
                0 <= j < done@.len() ==> #[trigger] done@[j]@ == split_on(
                    s@.subrange(0, i as int),
                    sep,
                )[j],
            cur@ == split_on(s@.subrange(0, i as int), sep).last(),
        decreases s@.len() - i,
    {
        let ghost before = s@.subrange(0, i as int);
        let c = s[i];
        i += 1;
        assert(s@.subrange(0, i as int).drop_last() =~= before);
        if c == sep {
            done.push(cur);
            cur = Vec::new();
            assert(cur@ =~= Seq::<char>::empty());
        } else {
            cur.push(c);
        }
        assert forall|j: int| 0 <= j < done@.len() implies #[trigger] done@[j]@ == split_on(
            s@.subrange(0, i as int),
            sep,
        )[j] by {}
    }
    assert(s@.subrange(0, i as int) =~= s@);
    done.push(cur);
    assert forall|j: int| 0 <= j < done@.len() implies #[trigger] done@[j]@ == split_on(
        s@,
        sep,
    )[j] by {}
    done
}

/// Reads a decimal number; `None` unless `s` is a non-empty run of digits whose
/// value fits in a `u64`.
pub fn parse_u64(s: &Vec<char>) -> (r: Option<u64>)
    ensures
        r == (if is_u64_decimal(s@) {
            Some(decimal_value(s@) as u64)
        } else {
            None::<u64>
        }),
{
    if s.len() == 0 {
        return None;
    }
    let mut v: u64 = 0;
    let mut i: usize = 0;
    while i < s.len()
        invariant
            i <= s@.len(),
            forall|j: int| 0 <= j < i ==> is_digit(#[trigger] s@[j]),
            v == decimal_value(s@.subrange(0, i as int)),
        decreases s@.len() - i,
    {
        let c = s[i];
        if !('0' <= c && c <= '9') {
            return None;
        }
        let d = (c as u32 - '0' as u32) as u64;
        assert(s@.subrange(0, i + 1).drop_last() =~= s@.subrange(0, i as int));
        if v > (u64::MAX - d) / 10 {
            proof {
                lemma_decimal_prefix_grows(s@, i + 1);
            }
            return None;
        }
        v = v * 10 + d;
        i += 1;
    }
    assert(s@.subrange(0, i as int) =~= s@);
    Some(v)
}

/// The non-empty pieces of `ps`, in order.
pub open spec fn nonempty_pieces(ps: Seq<Seq<char>>) -> Seq<Seq<char>>
    decreases ps.len(),
{
    if ps.len() == 0 {
        Seq::empty()
    } else if ps.last().len() > 0 {
        nonempty_pieces(ps.drop_last()).push(ps.last())
    } else {
        nonempty_pieces(ps.drop_last())
    }
}

/// The words of `s`: the non-empty pieces between spaces, as
/// `str::split_whitespace` yields them on text without tabs or newlines.
pub open spec fn words(s: Seq<char>) -> Seq<Seq<char>> {
    nonempty_pieces(split_on(s, ' '))
}

/// Splits `s` into its words.
pub fn split_words(s: &Vec<char>) -> (r: Vec<Vec<char>>)
    ensures
        r@.len() == words(s@).len(),
        forall|i: int| 0 <= i < r@.len() ==> #[trigger] r@[i]@ == words(s@)[i],
{
    let pieces = split(s, ' ');
    let ghost ps = split_on(s@, ' ');
    let mut r: Vec<Vec<char>> = Vec::new();
    let mut i: usize = 0;
    while i < pieces.len()
        invariant
            pieces@.len() == ps.len(),
            forall|t: int| 0 <= t < pieces@.len() ==> #[trigger] pieces@[t]@ == ps[t],
            i <= pieces@.len(),
            r@.len() == nonempty_pieces(ps.subrange(0, i as int)).len(),
            forall|t: int| 0 <= t < r@.len() ==> #[trigger] r@[t]@ == nonempty_pieces(
                ps.subrange(0, i as int),
            )[t],
        decreases pieces@.len() - i,
    {
        assert(ps.subrange(0, i + 1).drop_last() =~= ps.subrange(0, i as int));
        assert(pieces@[i as int]@ == ps[i as int]);
        if pieces[i].len() > 0 {
            r.push(pieces[i].clone());
        }
        i += 1;
    }
    assert(ps.subrange(0, i as int) =~= ps);
    r
}

/// `s` spells an optionally negative decimal number.
pub open spec fn is_signed_decimal(s: Seq<char>) -> bool {
    if s.len() > 0 && s[0] == '-' {
        is_decimal(s.drop_first())
    } else {
        is_decimal(s)
    }
}

/// The value of an optionally negative decimal number.
pub open spec fn signed_value(s: Seq<char>) -> int {
    if s.len() > 0 && s[0] == '-' {
        -decimal_value(s.drop_first())
    } else {
        decimal_value(s) as int
    }
}

/// Reads an optionally negative decimal number; `None` unless `s` spells one
/// whose magnitude fits in a `u64` and whose value fits in an `i64`.
pub fn parse_i64(s: &Vec<char>) -> (r: Option<i64>)
    ensures
        r is Some <==> is_signed_decimal(s@) && (if s@.len() > 0 && s@[0] == '-' {
            decimal_value(s@.drop_first())
        } else {
            decimal_value(s@)
        }) <= u64::MAX && i64::MIN <= signed_value(s@) <= i64::MAX,
        r matches Some(v) ==> v == signed_value(s@),
{
    let negative = s.len() > 0 && s[0] == '-';
    let mut digits: Vec<char> = Vec::new();
    let mut i: usize = if negative { 1 } else { 0 };
    let start = i;
    while i < s.len()
        invariant
            start <= i <= s@.len(),
            start == (if negative { 1usize } else { 0usize }),
            negative == (s@.len() > 0 && s@[0] == '-'),
            digits@ == s@.subrange(start as int, i as int),
        decreases s@.len() - i,
    {
        digits.push(s[i]);
        i += 1;
        assert(digits@ =~= s@.subrange(start as int, i as int));
    }
    if negative {
        assert(digits@ =~= s@.drop_first());
    } else {
        assert(digits@ =~= s@);
    }
    match parse_u64(&digits) {
        None => None,
        Some(m) => {
            if negative {
                if m > 9223372036854775808 {
                    None
                } else if m == 9223372036854775808 {
                    Some(i64::MIN)
                } else {
                    Some(-(m as i64))
                }
            } else if m > 9223372036854775807 {
                None
            } else {
                Some(m as i64)
            }
        },
    }
}

/// Splits `s` at every `sep`, keeping the pieces as strings.
pub fn split_str(s: &str, sep: char) -> (r: Vec<String>)
    ensures
        r@.len() == split_on(s@, sep).len(),
        forall|i: int| 0 <= i < r@.len() ==> #[trigger] r@[i]@ == split_on(s@, sep)[i],
{
    let cs = chars_of(s);
    let n = cs.len();
    let mut done: Vec<String> = Vec::new();
    let mut start: usize = 0;
    let mut i: usize = 0;
    while i < n
        invariant
            n == s@.len(),
            cs@ == s@,
            start <= i <= n,
            split_on(s@.subrange(0, i as int), sep).len() == done@.len() + 1,
            forall|j: int|
                0 <= j < done@.len() ==> #[trigger] done@[j]@ == split_on(
                    s@.subrange(0, i as int),
                    sep,
                )[j],
            s@.subrange(start as int, i as int) == split_on(s@.subrange(0, i as int), sep).last(),
        decreases n - i,
    {
        let ghost before = s@.subrange(0, i as int);
        let c = cs[i];
        i += 1;
        assert(s@.subrange(0, i as int).drop_last() =~= before);
        if c == sep {
            done.push(s.substring_char(start, i - 1).to_owned());
            start = i;
            assert(s@.subrange(start as int, i as int) =~= Seq::<char>::empty());
        } else {
            assert(s@.subrange(start as int, i as int) =~= s@.subrange(start as int, i - 1).push(c));
        }
        assert forall|j: int| 0 <= j < done@.len() implies #[trigger] done@[j]@ == split_on(
            s@.subrange(0, i as int),
            sep,
        )[j] by {}
    }
    assert(s@.subrange(0, i as int) =~= s@);
    done.push(s.substring_char(start, n).to_owned());
    assert forall|j: int| 0 <= j < done@.len() implies #[trigger] done@[j]@ == split_on(
        s@,
        sep,
    )[j] by {}
    done
}

/// Whether two strings hold the same characters.
pub fn same_text(a: &str, b: &str) -> (r: bool)
    ensures
        r == (a@ == b@),
{
    let x = chars_of(a);
    let y = chars_of(b);
    if x.len() != y.len() {
        return false;
    }
    let mut i: usize = 0;
    while i < x.len()
        invariant
            x@ == a@,
            y@ == b@,
            x@.len() == y@.len(),
            i <= x@.len(),
            forall|k: int| 0 <= k < i ==> x@[k] == y@[k],
        decreases x@.len() - i,
    {
        if x[i] != y[i] {
            return false;
        }
        i += 1;
    }
    assert(a@ =~= b@);
    true
}

/// The characters of each line.
pub open spec fn line_views(input: Seq<String>) -> Seq<Seq<char>> {
    input.map_values(|s: String| s@)
}

/// The lines between empty lines, as `slice::split` yields them: `k` empty
/// lines give `k + 1` groups.
pub open spec fn split_groups(lines: Seq<Seq<char>>) -> Seq<Seq<Seq<char>>>
    decreases lines.len(),
{
    if lines.len() == 0 {
        seq![Seq::<Seq<char>>::empty()]
    } else {
        let rest = split_groups(lines.drop_last());
        if lines.last().len() == 0 {
            rest.push(Seq::<Seq<char>>::empty())
        } else {
            rest.update(rest.len() - 1, rest.last().push(lines.last()))
        }
    }
}

pub open spec fn group_views(gs: Seq<Vec<String>>) -> Seq<Seq<Seq<char>>> {
    gs.map_values(|g: Vec<String>| line_views(g@))
}

pub fn split_on_empty(input: &Vec<String>) -> (r: Vec<Vec<String>>)
    ensures
        group_views(r@) == split_groups(line_views(input@)),
{
    let ghost ls = line_views(input@);
    let mut done: Vec<Vec<String>> = Vec::new();
    let mut cur: Vec<String> = Vec::new();
    let mut i: usize = 0;
    assert(ls.subrange(0, 0).len() == 0);
    assert(line_views(cur@) =~= Seq::<Seq<char>>::empty());
    assert(group_views(done@) =~= Seq::<Seq<Seq<char>>>::empty());
    assert(group_views(done@).push(line_views(cur@)) =~= split_groups(ls.subrange(0, 0)));
    while i < input.len()
        invariant
            ls == line_views(input@),
            i <= input@.len(),
            group_views(done@).push(line_views(cur@)) == split_groups(ls.subrange(0, i as int)),
        decreases input@.len() - i,
    {
        let ghost before = ls.subrange(0, i as int);
        assert(ls.subrange(0, i + 1).drop_last() =~= before);
        assert(ls[i as int] == input@[i as int]@);
        if input[i].as_str().is_empty() {
            let ghost old_done = done@;
            done.push(cur);
            cur = Vec::new();
            assert(group_views(done@) =~= group_views(old_done).push(split_groups(before).last()));
            assert(line_views(cur@) =~= Seq::<Seq<char>>::empty());
            assert(group_views(done@).push(line_views(cur@)) =~= split_groups(ls.subrange(0, i + 1)));
        } else {
            let ghost old_cur = cur@;
            cur.push(input[i].clone());
            assert(line_views(cur@) =~= line_views(old_cur).push(ls[i as int]));
            assert(group_views(done@).push(line_views(cur@)) =~= split_groups(ls.subrange(0, i + 1)));
        }
        i += 1;
    }
    assert(ls.subrange(0, i as int) =~= ls);
    let ghost old_done = done@;
    done.push(cur);
    assert(group_views(done@) =~= group_views(old_done).push(line_views(cur@)));
    done
}

} // verus!
