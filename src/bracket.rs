//! Bracket expressions inside input templates.
//!
//! A numeric range `[a-b]` stands for each integer from `a` to `b`; a literal
//! class `[chars]` stands for each of its characters. Inside a class a
//! backslash makes the next character plain data (`\[`, `\]`, `\-`), and a
//! `[` right after a backslash never opens a class.
use rand::seq::SliceRandom;
use rand::Rng;
use vstd::prelude::*;

verus! {

pub open spec fn is_digit(c: char) -> bool {
    '0' <= c && c <= '9'
}

pub open spec fn digit_char(d: nat) -> char {
    ((d + 48) as u8) as char
}

/// The number that a run of decimal digits spells.
pub open spec fn digits_value(d: Seq<char>) -> nat
    decreases d.len(),
{
    if d.len() == 0 {
        0
    } else {
        digits_value(d.drop_last()) * 10 + ((d.last() as u32 - 48) as nat)
    }
}

/// The decimal form of `n`, without leading zeros.
pub open spec fn decimal(n: nat) -> Seq<char>
    decreases n,
{
    if n < 10 {
        seq![digit_char(n)]
    } else {
        decimal(n / 10).push(digit_char(n % 10))
    }
}

/// The first index at or after `i` that does not hold a digit.
pub open spec fn digits_end(s: Seq<char>, i: int) -> int
    decreases s.len() - i,
{
    if 0 <= i < s.len() && is_digit(s[i]) {
        digits_end(s, i + 1)
    } else {
        i
    }
}

/// A numeric range `[lo-hi]` that starts at `i`: the index just past it and
/// its two bounds. Bounds must fit in 64 bits.
pub open spec fn range_at(s: Seq<char>, i: int) -> Option<(int, nat, nat)> {
    if 0 <= i < s.len() && s[i] == '[' {
        let j = digits_end(s, i + 1);
        if j > i + 1 && j < s.len() && s[j] == '-' {
            let k = digits_end(s, j + 1);
            if k > j + 1 && k < s.len() && s[k] == ']' {
                let lo = digits_value(s.subrange(i + 1, j));
                let hi = digits_value(s.subrange(j + 1, k));
                if lo <= u64::MAX && hi <= u64::MAX {
                    Some((k + 1, lo, hi))
                } else {
                    None
                }
            } else {
                None
            }
        } else {
            None
        }
    } else {
        None
    }
}

/// The members of a class whose body starts at `p`: the index of the closing
/// `]` and the characters, escapes removed. A body may not hold a newline
/// or an unescaped `[`.
pub open spec fn class_members(s: Seq<char>, p: int) -> Option<(int, Seq<char>)>
    decreases s.len() - p,
{
    if p < 0 || p >= s.len() {
        None
    } else if s[p] == ']' {
        Some((p, Seq::<char>::empty()))
    } else if s[p] == '[' || s[p] == '\n' {
        None
    } else if s[p] == '\\' {
        if p + 1 < s.len() && s[p + 1] != '\n' {
            match class_members(s, p + 2) {
                Some((e, m)) => Some((e, seq![s[p + 1]] + m)),
                None => None,
            }
        } else {
            None
        }
    } else {
        match class_members(s, p + 1) {
            Some((e, m)) => Some((e, seq![s[p]] + m)),
            None => None,
        }
    }
}

/// A literal class that starts at `i`: the index just past it and its
/// members, of which there is at least one.
pub open spec fn class_at(s: Seq<char>, i: int) -> Option<(int, Seq<char>)> {
    if 0 <= i < s.len() && s[i] == '[' && (i == 0 || s[i - 1] != '\\') {
        match class_members(s, i + 1) {
            Some((e, m)) => if m.len() > 0 {
                Some((e + 1, m))
            } else {
                None
            },
            None => None,
        }
    } else {
        None
    }
}

/// The first index at or after `i` where a numeric range starts.
pub open spec fn find_range(s: Seq<char>, i: int) -> Option<int>
    decreases s.len() - i,
{
    if 0 <= i < s.len() {
        if range_at(s, i) is Some {
            Some(i)
        } else {
            find_range(s, i + 1)
        }
    } else {
        None
    }
}

/// The first index at or after `i` where a literal class starts.
pub open spec fn find_class(s: Seq<char>, i: int) -> Option<int>
    decreases s.len() - i,
{
    if 0 <= i < s.len() {
        if class_at(s, i) is Some {
            Some(i)
        } else {
            find_class(s, i + 1)
        }
    } else {
        None
    }
}

/// `s` with the part from `i` up to `e` replaced by `mid`.
pub open spec fn splice(s: Seq<char>, i: int, e: int, mid: Seq<char>) -> Seq<char> {
    s.subrange(0, i) + mid + s.subrange(e, s.len() as int)
}

pub open spec fn range_branches(s: Seq<char>, i: int, e: int, lo: nat, hi: nat) -> Seq<Seq<char>> {
    Seq::new(
        if lo <= hi {
            (hi - lo + 1) as nat
        } else {
            0
        },
        |j: int| splice(s, i, e, decimal((lo + j) as nat)),
    )
}

pub open spec fn class_branches(s: Seq<char>, i: int, e: int, m: Seq<char>) -> Seq<Seq<char>> {
    m.map_values(|c: char| splice(s, i, e, seq![c]))
}

/// The strings that one expansion step turns `s` into: the first numeric
/// range is replaced by each of its values; failing that, the first literal
/// class by each of its members. `None` when `s` holds neither.
pub open spec fn branches_of(s: Seq<char>) -> Option<Seq<Seq<char>>> {
    match find_range(s, 0) {
        Some(i) => match range_at(s, i) {
            Some((e, lo, hi)) => Some(range_branches(s, i, e, lo, hi)),
            None => None,
        },
        None => match find_class(s, 0) {
            Some(i) => match class_at(s, i) {
                Some((e, m)) => Some(class_branches(s, i, e, m)),
                None => None,
            },
            None => None,
        },
    }
}

/// Whether `s` still holds a bracket expression.
pub open spec fn has_bracket(s: Seq<char>) -> bool {
    branches_of(s) is Some
}

/// The number of `[` in `s`; each expansion step lowers it.
pub open spec fn count_open(s: Seq<char>) -> nat
    decreases s.len(),
{
    if s.len() == 0 {
        0
    } else {
        count_open(s.drop_last()) + if s.last() == '[' {
            1nat
        } else {
            0nat
        }
    }
}

/// Every string that `s` expands to once no bracket is left, in order.
pub open spec fn expand_all(s: Seq<char>) -> Seq<Seq<char>>
    decreases count_open(s), 1nat, 0nat,
{
    match branches_of(s) {
        None => seq![s],
        Some(bs) => expand_each(bs, count_open(s)),
    }
}

/// The expansions of each of `bs`, one after the other; `k` bounds the
/// number of `[` in each of them.
pub open spec fn expand_each(bs: Seq<Seq<char>>, k: nat) -> Seq<Seq<char>>
    decreases k, 0nat, bs.len(),
{
    if bs.len() == 0 {
        Seq::empty()
    } else if count_open(bs.last()) < k {
        expand_each(bs.drop_last(), k) + expand_all(bs.last())
    } else {
        Seq::empty()
    }
}


pub proof fn lemma_count_concat(a: Seq<char>, b: Seq<char>)
    ensures
        count_open(a + b) == count_open(a) + count_open(b),
    decreases b.len(),
{
    if b.len() == 0 {
        assert(a + b =~= a);
    } else {
        assert((a + b).drop_last() =~= a + b.drop_last());
        lemma_count_concat(a, b.drop_last());
    }
}

proof fn lemma_count_splice(s: Seq<char>, i: int, e: int, mid: Seq<char>)
    requires
        0 <= i <= e <= s.len(),
    ensures
        count_open(s) == count_open(s.subrange(0, i)) + count_open(s.subrange(i, e))
            + count_open(s.subrange(e, s.len() as int)),
        count_open(splice(s, i, e, mid)) == count_open(s.subrange(0, i)) + count_open(mid)
            + count_open(s.subrange(e, s.len() as int)),
{
    let pre = s.subrange(0, i);
    let seg = s.subrange(i, e);
    let post = s.subrange(e, s.len() as int);
    assert(s =~= pre + seg + post);
    lemma_count_concat(pre + seg, post);
    lemma_count_concat(pre, seg);
    lemma_count_concat(pre + mid, post);
    lemma_count_concat(pre, mid);
}

/// A segment that opens with `[` holds at least one more `[` than its tail.
proof fn lemma_count_first(s: Seq<char>)
    requires
        s.len() > 0,
    ensures
        count_open(s) == count_open(s.drop_first()) + if s[0] == '[' {
            1nat
        } else {
            0nat
        },
{
    assert(s =~= seq![s[0]] + s.drop_first());
    lemma_count_concat(seq![s[0]], s.drop_first());
    lemma_count_single(s[0]);
}

proof fn lemma_count_single(c: char)
    ensures
        count_open(seq![c]) == if c == '[' {
            1nat
        } else {
            0nat
        },
{
    assert(seq![c].drop_last() =~= Seq::<char>::empty());
    assert(count_open(Seq::<char>::empty()) == 0);
}

proof fn lemma_count_decimal(n: nat)
    ensures
        count_open(decimal(n)) == 0,
        forall|k: int| 0 <= k < decimal(n).len() ==> is_digit(#[trigger] decimal(n)[k]),
    decreases n,
{
    assert(is_digit(digit_char(n % 10)));
    if n < 10 {
        lemma_count_single(digit_char(n));
    } else {
        lemma_count_decimal(n / 10);
        assert(decimal(n).drop_last() =~= decimal(n / 10));
    }
}

proof fn lemma_class_members(s: Seq<char>, p: int)
    requires
        class_members(s, p) is Some,
    ensures
        ({
            let (e, m) = class_members(s, p)->0;
            &&& p <= e < s.len()
            &&& s[e] == ']'
            &&& count_open(s.subrange(p, e)) >= count_open(m)
        }),
    decreases s.len() - p,
{
    let (e, m) = class_members(s, p)->0;
    if s[p] == ']' {
        assert(m =~= Seq::<char>::empty());
    } else if s[p] == '\\' {
        lemma_class_members(s, p + 2);
        let m2 = (class_members(s, p + 2)->0).1;
        lemma_count_first(s.subrange(p, e));
        lemma_count_first(s.subrange(p + 1, e));
        assert(s.subrange(p, e).drop_first() =~= s.subrange(p + 1, e));
        assert(s.subrange(p + 1, e).drop_first() =~= s.subrange(p + 2, e));
        lemma_count_first(m);
        assert(m.drop_first() =~= m2);
    } else {
        lemma_class_members(s, p + 1);
        let m2 = (class_members(s, p + 1)->0).1;
        lemma_count_first(s.subrange(p, e));
        assert(s.subrange(p, e).drop_first() =~= s.subrange(p + 1, e));
        lemma_count_first(m);
        assert(m.drop_first() =~= m2);
    }
}

proof fn lemma_find_range(s: Seq<char>, i: int)
    requires
        find_range(s, i) is Some,
    ensures
        i <= find_range(s, i)->0,
        range_at(s, find_range(s, i)->0) is Some,
    decreases s.len() - i,
{
    if range_at(s, i) is None {
        lemma_find_range(s, i + 1);
    }
}

proof fn lemma_find_class(s: Seq<char>, i: int)
    requires
        find_class(s, i) is Some,
    ensures
        i <= find_class(s, i)->0,
        class_at(s, find_class(s, i)->0) is Some,
    decreases s.len() - i,
{
    if class_at(s, i) is None {
        lemma_find_class(s, i + 1);
    }
}

/// Each branch of an expansion step holds fewer `[` than the string it
/// came from.
pub proof fn lemma_branches_fewer_open(s: Seq<char>, bs: Seq<Seq<char>>)
    requires
        branches_of(s) == Some(bs),
    ensures
        forall|j: int| 0 <= j < bs.len() ==> count_open(#[trigger] bs[j]) < count_open(s),
{
    match find_range(s, 0) {
        Some(i) => {
            lemma_find_range(s, 0);
            let (e, lo, hi) = range_at(s, i)->0;
            assert(s.subrange(i, e)[0] == '[');
            lemma_count_first(s.subrange(i, e));
            assert forall|j: int| 0 <= j < bs.len() implies count_open(#[trigger] bs[j])
                < count_open(s) by {
                lemma_count_decimal((lo + j) as nat);
                lemma_count_splice(s, i, e, decimal((lo + j) as nat));
            }
        },
        None => {
            lemma_find_class(s, 0);
            let i = find_class(s, 0)->0;
            let (e, m) = class_at(s, i)->0;
            lemma_class_members(s, i + 1);
            let seg = s.subrange(i, e);
            lemma_count_first(seg);
            assert(seg.drop_first() =~= s.subrange(i + 1, e - 1) + seq![']']);
            lemma_count_concat(s.subrange(i + 1, e - 1), seq![']']);
            assert(seq![']'].drop_last() =~= Seq::<char>::empty());
            assert forall|j: int| 0 <= j < bs.len() implies count_open(#[trigger] bs[j])
                < count_open(s) by {
                let c = m[j];
                lemma_count_splice(s, i, e, seq![c]);
                assert(seq![c].drop_last() =~= Seq::<char>::empty());
                if c == '[' {
                    lemma_count_member(m, j);
                }
            }
        },
    }
}

proof fn lemma_count_member(m: Seq<char>, j: int)
    requires
        0 <= j < m.len(),
        m[j] == '[',
    ensures
        count_open(m) >= 1,
    decreases m.len(),
{
    if j == m.len() - 1 {
    } else {
        lemma_count_member(m.drop_last(), j);
    }
}


/// The character sequences held by a list of character vectors.
pub open spec fn views(v: Seq<Vec<char>>) -> Seq<Seq<char>> {
    v.map_values(|x: Vec<char>| x@)
}

fn is_digit_char(c: char) -> (r: bool)
    ensures
        r == is_digit(c),
{
    '0' <= c && c <= '9'
}

/// Reads the run of digits that starts at `from`: where it ends, and its
/// value when that fits in 64 bits.
pub fn scan_digits(s: &Vec<char>, from: usize) -> (r: (usize, Option<u64>))
    requires
        from <= s.len(),
    ensures
        r.0 as int == digits_end(s@, from as int),
        from <= r.0 <= s.len(),
        r.1 == if digits_value(s@.subrange(from as int, r.0 as int)) <= u64::MAX {
            Some(digits_value(s@.subrange(from as int, r.0 as int)) as u64)
        } else {
            None::<u64>
        },
{
    let mut t: usize = from;
    let mut val: u64 = 0;
    let mut over = false;
    assert(s@.subrange(from as int, from as int) =~= Seq::<char>::empty());
    while t < s.len() && is_digit_char(s[t])
        invariant
            from <= t <= s.len(),
            digits_end(s@, from as int) == digits_end(s@, t as int),
            !over ==> val as nat == digits_value(s@.subrange(from as int, t as int)),
            over ==> digits_value(s@.subrange(from as int, t as int)) > u64::MAX,
        decreases s.len() - t,
    {
        let d: u64 = (s[t] as u32 - 48) as u64;
        assert(s@.subrange(from as int, t + 1).drop_last() =~= s@.subrange(from as int, t as int));
        let ghost old_value = digits_value(s@.subrange(from as int, t as int));
        assert(digits_value(s@.subrange(from as int, t + 1)) == old_value * 10 + d);
        if !over {
            if val > (u64::MAX - d) / 10 {
                assert(val * 10 + d > u64::MAX) by (nonlinear_arith)
                    requires
                        val > (u64::MAX - d) / 10,
                        d <= 9,
                ;
                over = true;
            } else {
                assert(val * 10 + d <= u64::MAX) by (nonlinear_arith)
                    requires
                        val <= (u64::MAX - d) / 10,
                        d <= 9,
                ;
                val = val * 10 + d;
            }
        }
        t = t + 1;
    }
    if over {
        (t, None)
    } else {
        (t, Some(val))
    }
}

/// The numeric range that starts at `i`, if one does.
fn range_at_exec(s: &Vec<char>, i: usize) -> (r: Option<(usize, u64, u64)>)
    requires
        i < s.len(),
    ensures
        match r {
            None => range_at(s@, i as int) is None,
            Some((e, lo, hi)) => range_at(s@, i as int) == Some((e as int, lo as nat, hi as nat)),
        },
{
    if s[i] != '[' {
        return None;
    }
    let (j, lo) = scan_digits(s, i + 1);
    if !(j > i + 1 && j < s.len() && s[j] == '-') {
        return None;
    }
    let (k, hi) = scan_digits(s, j + 1);
    if !(k > j + 1 && k < s.len() && s[k] == ']') {
        return None;
    }
    match (lo, hi) {
        (Some(lo), Some(hi)) => Some((k + 1, lo, hi)),
        _ => None,
    }
}

pub open spec fn prepend_members(acc: Seq<char>, r: Option<(int, Seq<char>)>) -> Option<(int, Seq<char>)> {
    match r {
        Some((e, m)) => Some((e, acc + m)),
        None => None,
    }
}

/// The literal class that starts at `i`, if one does.
fn class_at_exec(s: &Vec<char>, i: usize) -> (r: Option<(usize, Vec<char>)>)
    requires
        i < s.len(),
    ensures
        match r {
            None => class_at(s@, i as int) is None,
            Some((e, m)) => class_at(s@, i as int) == Some((e as int, m@)),
        },
{
    if s[i] != '[' || (i > 0 && s[i - 1] == '\\') {
        return None;
    }
    let mut members: Vec<char> = Vec::new();
    let mut p: usize = i + 1;
    assert(members@ + Seq::<char>::empty() =~= members@);
    loop
        invariant
            i + 1 <= p <= s.len(),
            s@[i as int] == '[',
            i == 0 || s@[i - 1] != '\\',
            class_members(s@, i + 1) == prepend_members(members@, class_members(s@, p as int)),
        decreases s.len() - p,
    {
        if p >= s.len() {
            return None;
        }
        let c = s[p];
        if c == ']' {
            assert(class_members(s@, p as int) == Some((p as int, Seq::<char>::empty())));
            assert(members@ + Seq::<char>::empty() =~= members@);
            assert(class_members(s@, i + 1) == Some((p as int, members@)));
            if members.len() == 0 {
                return None;
            }
            return Some((p + 1, members));
        } else if c == '[' || c == '\n' {
            return None;
        } else if c == '\\' {
            if p + 1 < s.len() && s[p + 1] != '\n' {
                let ghost before = members@;
                members.push(s[p + 1]);
                assert(forall|m: Seq<char>| before + (seq![s@[p + 1]] + m) =~= #[trigger] (members@ + m));
                p = p + 2;
            } else {
                return None;
            }
        } else {
            let ghost before = members@;
            members.push(c);
            assert(forall|m: Seq<char>| before + (seq![c] + m) =~= #[trigger] (members@ + m));
            p = p + 1;
        }
    }
}

/// The first bracket expression of a string, by the priority of
/// `branches_of`.
pub enum Bracket {
    Range(usize, usize, u64, u64),
    Class(usize, usize, Vec<char>),
}

fn first_bracket(s: &Vec<char>) -> (r: Option<Bracket>)
    ensures
        match r {
            None => branches_of(s@) is None,
            Some(Bracket::Range(i, e, lo, hi)) => {
                &&& find_range(s@, 0) == Some(i as int)
                &&& range_at(s@, i as int) == Some((e as int, lo as nat, hi as nat))
            },
            Some(Bracket::Class(i, e, m)) => {
                &&& find_range(s@, 0) is None
                &&& find_class(s@, 0) == Some(i as int)
                &&& class_at(s@, i as int) == Some((e as int, m@))
            },
        },
{
    let mut i: usize = 0;
    while i < s.len()
        invariant
            i <= s.len(),
            find_range(s@, 0) == find_range(s@, i as int),
        decreases s.len() - i,
    {
        match range_at_exec(s, i) {
            Some((e, lo, hi)) => {
                return Some(Bracket::Range(i, e, lo, hi));
            },
            None => {},
        }
        i = i + 1;
    }
    let mut i: usize = 0;
    while i < s.len()
        invariant
            i <= s.len(),
            find_range(s@, 0) is None,
            find_class(s@, 0) == find_class(s@, i as int),
        decreases s.len() - i,
    {
        match class_at_exec(s, i) {
            Some((e, m)) => {
                return Some(Bracket::Class(i, e, m));
            },
            None => {},
        }
        i = i + 1;
    }
    None
}


fn digit_exec(d: u64) -> (c: char)
    requires
        d < 10,
    ensures
        c == digit_char(d as nat),
{
    ((d + 48) as u8) as char
}

/// Appends the decimal form of `n`.
pub fn push_decimal(n: u64, out: &mut Vec<char>)
    ensures
        final(out)@ == old(out)@ + decimal(n as nat),
    decreases n,
{
    if n < 10 {
        out.push(digit_exec(n));
        assert(old(out)@.push(digit_char(n as nat)) =~= old(out)@ + seq![digit_char(n as nat)]);
    } else {
        push_decimal(n / 10, out);
        out.push(digit_exec(n % 10));
        assert(decimal(n as nat) == decimal((n / 10) as nat).push(digit_char((n % 10) as nat)));
        assert(final(out)@ =~= old(out)@ + decimal(n as nat));
    }
}

/// `s` with the part from `i` up to `e` replaced by `mid`.
fn splice_exec(s: &Vec<char>, i: usize, e: usize, mid: &Vec<char>) -> (r: Vec<char>)
    requires
        i <= e <= s.len(),
    ensures
        r@ == splice(s@, i as int, e as int, mid@),
{
    let mut r: Vec<char> = Vec::new();
    let mut k: usize = 0;
    while k < i
        invariant
            k <= i <= e <= s.len(),
            r@ == s@.subrange(0, k as int),
        decreases i - k,
    {
        r.push(s[k]);
        assert(s@.subrange(0, k + 1) =~= s@.subrange(0, k as int).push(s@[k as int]));
        k = k + 1;
    }
    let mut k: usize = 0;
    while k < mid.len()
        invariant
            i <= e <= s.len(),
            k <= mid.len(),
            r@ == s@.subrange(0, i as int) + mid@.take(k as int),
        decreases mid.len() - k,
    {
        r.push(mid[k]);
        assert(mid@.take(k + 1) =~= mid@.take(k as int).push(mid@[k as int]));
        k = k + 1;
    }
    assert(mid@.take(mid.len() as int) =~= mid@);
    let mut k: usize = e;
    while k < s.len()
        invariant
            i <= e <= k <= s.len(),
            r@ == s@.subrange(0, i as int) + mid@ + s@.subrange(e as int, k as int),
        decreases s.len() - k,
    {
        r.push(s[k]);
        assert(s@.subrange(e as int, k + 1) =~= s@.subrange(e as int, k as int).push(s@[k as int]));
        k = k + 1;
    }
    r
}

proof fn lemma_expand_each_step(bs: Seq<Seq<char>>, k: nat, j: int)
    requires
        0 <= j < bs.len(),
        count_open(bs[j]) < k,
    ensures
        expand_each(bs.take(j + 1), k) == expand_each(bs.take(j), k) + expand_all(bs[j]),
{
    assert(bs.take(j + 1).drop_last() =~= bs.take(j));
    assert(bs.take(j + 1).last() == bs[j]);
}

/// A copy of `v`.
pub fn copy_chars(v: &Vec<char>) -> (r: Vec<char>)
    ensures
        r@ == v@,
{
    let mut r: Vec<char> = Vec::new();
    let mut k: usize = 0;
    while k < v.len()
        invariant
            k <= v.len(),
            r@ == v@.take(k as int),
        decreases v.len() - k,
    {
        r.push(v[k]);
        assert(v@.take(k + 1) =~= v@.take(k as int).push(v@[k as int]));
        k = k + 1;
    }
    assert(v@.take(v.len() as int) =~= v@);
    r
}

/// Appends every full expansion of `s`, in order.
pub fn expand_into(s: Vec<char>, out: &mut Vec<Vec<char>>)
    ensures
        views(final(out)@) == views(old(out)@) + expand_all(s@),
    decreases count_open(s@),
{
    let ghost k = count_open(s@);
    match first_bracket(&s) {
        None => {
            let ghost sv = s@;
            out.push(s);
            assert(views(final(out)@) =~= views(old(out)@) + seq![sv]);
        },
        Some(Bracket::Range(i, e, lo, hi)) => {
            let ghost bs = range_branches(s@, i as int, e as int, lo as nat, hi as nat);
            proof {
                lemma_find_range(s@, 0);
                assert(branches_of(s@) == Some(bs));
                lemma_branches_fewer_open(s@, bs);
                assert(bs.take(0) =~= Seq::<Seq<char>>::empty());
                assert(views(old(out)@) + Seq::<Seq<char>>::empty() =~= views(old(out)@));
            }
            if lo <= hi {
                let mut v: u64 = lo;
                loop
                    invariant_except_break
                        lo <= v <= hi,
                        i < e <= s.len(),
                        k == count_open(s@),
                        bs == range_branches(s@, i as int, e as int, lo as nat, hi as nat),
                        bs.len() == hi - lo + 1,
                        forall|x: int| 0 <= x < bs.len() ==> count_open(#[trigger] bs[x]) < k,
                        views(out@) == views(old(out)@) + expand_each(bs.take(v - lo), k),
                    ensures
                        views(out@) == views(old(out)@) + expand_each(bs, k),
                    decreases hi - v,
                {
                    let mut mid: Vec<char> = Vec::new();
                    push_decimal(v, &mut mid);
                    assert(mid@ =~= decimal(v as nat));
                    let t = splice_exec(&s, i, e, &mid);
                    let ghost j = v - lo;
                    assert(t@ == bs[j]);
                    proof {
                        lemma_expand_each_step(bs, k, j);
                    }
                    expand_into(t, out);
                    assert(views(out@) =~= views(old(out)@) + expand_each(bs.take(j + 1), k));
                    if v == hi {
                        assert(bs.take(j + 1) =~= bs);
                        break;
                    }
                    v = v + 1;
                }
            } else {
                assert(bs =~= Seq::<Seq<char>>::empty());
            }
        },
        Some(Bracket::Class(i, e, m)) => {
            let ghost bs = class_branches(s@, i as int, e as int, m@);
            proof {
                lemma_find_class(s@, 0);
                lemma_class_members(s@, i + 1);
                assert(branches_of(s@) == Some(bs));
                lemma_branches_fewer_open(s@, bs);
                assert(bs.take(0) =~= Seq::<Seq<char>>::empty());
                assert(views(old(out)@) + Seq::<Seq<char>>::empty() =~= views(old(out)@));
            }
            let mut j: usize = 0;
            while j < m.len()
                invariant
                    j <= m.len(),
                    k == count_open(s@),
                    bs.len() == m.len(),
                    i <= e <= s.len(),
                    bs == class_branches(s@, i as int, e as int, m@),
                    forall|x: int| 0 <= x < bs.len() ==> count_open(#[trigger] bs[x]) < k,
                    views(out@) == views(old(out)@) + expand_each(bs.take(j as int), k),
                decreases m.len() - j,
            {
                let mut mid: Vec<char> = Vec::new();
                mid.push(m[j]);
                assert(mid@ =~= seq![m@[j as int]]);
                let t = splice_exec(&s, i, e, &mid);
                assert(t@ == bs[j as int]);
                proof {
                    lemma_expand_each_step(bs, k, j as int);
                }
                expand_into(t, out);
                assert(views(out@) =~= views(old(out)@) + expand_each(bs.take(j + 1), k));
                j = j + 1;
            }
            assert(bs.take(m.len() as int) =~= bs);
        },
    }
}


/// Whether every choice of branches resolves `s` fully: no step meets an
/// empty range.
pub open spec fn always_resolves(s: Seq<char>) -> bool
    decreases count_open(s), 1nat, 0nat,
{
    match branches_of(s) {
        None => true,
        Some(bs) => bs.len() > 0 && each_resolves(bs, count_open(s)),
    }
}

pub open spec fn each_resolves(bs: Seq<Seq<char>>, k: nat) -> bool
    decreases k, 0nat, bs.len(),
{
    if bs.len() == 0 {
        true
    } else if count_open(bs.last()) < k {
        always_resolves(bs.last()) && each_resolves(bs.drop_last(), k)
    } else {
        false
    }
}

/// The expansions of the branch at `j` stand, in order, among those of all
/// branches.
proof fn lemma_expand_each_member(bs: Seq<Seq<char>>, k: nat, j: int)
    requires
        0 <= j < bs.len(),
        forall|x: int| 0 <= x < bs.len() ==> count_open(#[trigger] bs[x]) < k,
    ensures
        forall|t: Seq<char>| expand_all(bs[j]).contains(t) ==> expand_each(bs, k).contains(t),
        each_resolves(bs, k) ==> always_resolves(bs[j]),
    decreases bs.len(),
{
    let init = expand_each(bs.drop_last(), k);
    let tail = expand_all(bs.last());
    if j == bs.len() - 1 {
        assert forall|t: Seq<char>| expand_all(bs[j]).contains(t) implies expand_each(
            bs,
            k,
        ).contains(t) by {
            let x = choose|x: int| 0 <= x < tail.len() && tail[x] == t;
            assert((init + tail)[init.len() + x] == t);
        }
    } else {
        lemma_expand_each_member(bs.drop_last(), k, j);
        assert(bs.drop_last()[j] == bs[j]);
        assert forall|t: Seq<char>| expand_all(bs[j]).contains(t) implies expand_each(
            bs,
            k,
        ).contains(t) by {
            assert(init.contains(t));
            let x = choose|x: int| 0 <= x < init.len() && init[x] == t;
            assert((init + tail)[x] == t);
        }
    }
}

/// Relies on rand's `Rng::gen_range` over `lo..=hi` with the thread-local
/// generator: some value of that range. It panics on an empty range, which
/// `requires` leaves out.
#[verifier::external_body]
fn random_in_range(lo: u64, hi: u64) -> (r: u64)
    requires
        lo <= hi,
    ensures
        lo <= r <= hi,
{
    rand::thread_rng().gen_range(lo..=hi)
}

/// Relies on rand's `SliceRandom::choose` with the thread-local generator:
/// `None` exactly for an empty slice, else one of its elements.
#[verifier::external_body]
fn random_member(v: &Vec<char>) -> (r: Option<char>)
    ensures
        r is None <==> v@.len() == 0,
        r matches Some(c) ==> v@.contains(c),
{
    v.as_slice().choose(&mut rand::thread_rng()).copied()
}

/// Resolves every bracket of `s` by one random choice each, in the order
/// that full expansion takes them. The result is one of the full
/// expansions; `None` comes only where a choice met an empty range.
pub fn resolve_random(s: Vec<char>) -> (r: Option<Vec<char>>)
    ensures
        r matches Some(t) ==> expand_all(s@).contains(t@),
        r is None ==> !always_resolves(s@),
    decreases count_open(s@),
{
    let ghost k = count_open(s@);
    match first_bracket(&s) {
        None => {
            assert(expand_all(s@) == seq![s@]);
            assert(expand_all(s@)[0] == s@);
            Some(s)
        },
        Some(Bracket::Range(i, e, lo, hi)) => {
            let ghost bs = range_branches(s@, i as int, e as int, lo as nat, hi as nat);
            proof {
                lemma_find_range(s@, 0);
                assert(branches_of(s@) == Some(bs));
                lemma_branches_fewer_open(s@, bs);
                assert(expand_all(s@) == expand_each(bs, k));
            }
            if lo > hi {
                return None;
            }
            let v = random_in_range(lo, hi);
            let mut mid: Vec<char> = Vec::new();
            push_decimal(v, &mut mid);
            let t = splice_exec(&s, i, e, &mid);
            let ghost j = v - lo;
            assert(t@ == bs[j]);
            proof {
                lemma_expand_each_member(bs, k, j);
            }
            resolve_random(t)
        },
        Some(Bracket::Class(i, e, m)) => {
            let ghost bs = class_branches(s@, i as int, e as int, m@);
            proof {
                lemma_find_class(s@, 0);
                lemma_class_members(s@, i + 1);
                assert(branches_of(s@) == Some(bs));
                lemma_branches_fewer_open(s@, bs);
                assert(expand_all(s@) == expand_each(bs, k));
            }
            match random_member(&m) {
                None => None,
                Some(c) => {
                    let ghost j = choose|j: int| 0 <= j < m@.len() && m@[j] == c;
                    let mut mid: Vec<char> = Vec::new();
                    mid.push(c);
                    assert(mid@ =~= seq![c]);
                    let t = splice_exec(&s, i, e, &mid);
                    assert(t@ == bs[j]);
                    proof {
                        lemma_expand_each_member(bs, k, j);
                    }
                    resolve_random(t)
                },
            }
        },
    }
}


/// Full expansion of each string of `l`, one after the other.
pub open spec fn expand_list(l: Seq<Seq<char>>) -> Seq<Seq<char>>
    decreases l.len(),
{
    if l.len() == 0 {
        Seq::empty()
    } else {
        expand_list(l.drop_last()) + expand_all(l.last())
    }
}

/// No result of full expansion holds a bracket expression.
pub proof fn lemma_expand_all_resolved(s: Seq<char>)
    ensures
        forall|t: Seq<char>| #[trigger] expand_all(s).contains(t) ==> !has_bracket(t),
    decreases count_open(s), 1nat, 0nat,
{
    match branches_of(s) {
        None => {
            assert forall|t: Seq<char>| #[trigger] expand_all(s).contains(t) implies !has_bracket(
                t,
            ) by {
                assert(expand_all(s) == seq![s]);
                let x = choose|x: int| 0 <= x < expand_all(s).len() && expand_all(s)[x] == t;
                assert(x == 0);
            }
        },
        Some(bs) => {
            lemma_branches_fewer_open(s, bs);
            lemma_expand_each_resolved(bs, count_open(s));
            assert(expand_all(s) == expand_each(bs, count_open(s)));
        },
    }
}

proof fn lemma_expand_each_resolved(bs: Seq<Seq<char>>, k: nat)
    ensures
        forall|t: Seq<char>| #[trigger] expand_each(bs, k).contains(t) ==> !has_bracket(t),
    decreases k, 0nat, bs.len(),
{
    if bs.len() > 0 && count_open(bs.last()) < k {
        lemma_expand_each_resolved(bs.drop_last(), k);
        lemma_expand_all_resolved(bs.last());
        let a = expand_each(bs.drop_last(), k);
        let b = expand_all(bs.last());
        assert(expand_each(bs, k) == a + b);
        assert forall|t: Seq<char>| #[trigger] expand_each(bs, k).contains(t) implies !has_bracket(
            t,
        ) by {
            let x = choose|x: int| 0 <= x < (a + b).len() && (a + b)[x] == t;
            if x < a.len() {
                assert(a[x] == t);
                assert(a.contains(t));
            } else {
                assert(b[x - a.len()] == t);
                assert(b.contains(t));
            }
        }
    }
}

proof fn lemma_expand_list_resolved(l: Seq<Seq<char>>)
    requires
        forall|x: int| 0 <= x < l.len() ==> !has_bracket(#[trigger] l[x]),
    ensures
        expand_list(l) == l,
    decreases l.len(),
{
    if l.len() > 0 {
        lemma_expand_list_resolved(l.drop_last());
        assert(expand_all(l.last()) == seq![l.last()]);
        assert(l.drop_last().push(l.last()) =~= l);
        assert(l.drop_last() + seq![l.last()] =~= l);
    }
}

/// Expansion is idempotent: expanding again each string that full
/// expansion gave yields the same list.
pub proof fn lemma_expand_idempotent(s: Seq<char>)
    ensures
        expand_list(expand_all(s)) == expand_all(s),
{
    let l = expand_all(s);
    lemma_expand_all_resolved(s);
    assert forall|x: int| 0 <= x < l.len() implies !has_bracket(#[trigger] l[x]) by {
        assert(l.contains(l[x]));
    }
    lemma_expand_list_resolved(l);
}

proof fn lemma_digits_value_decimal(n: nat)
    ensures
        digits_value(decimal(n)) == n,
    decreases n,
{
    lemma_digit_char(n % 10);
    if n < 10 {
        assert(seq![digit_char(n)].drop_last() =~= Seq::<char>::empty());
        assert(digits_value(Seq::<char>::empty()) == 0);
    } else {
        lemma_digits_value_decimal(n / 10);
        assert(decimal(n).drop_last() =~= decimal(n / 10));
    }
}

proof fn lemma_digit_char(d: nat)
    requires
        d < 10,
    ensures
        digit_char(d) as u32 == d + 48,
{
    let b = (d + 48) as u8;
    assert(b == d + 48);
    assert((b as char) as u32 == b);
}

/// Distinct numbers have distinct decimal forms, so splicing them into the
/// same place gives distinct strings.
proof fn lemma_splice_decimal_distinct(s: Seq<char>, i: int, e: int, a: nat, b: nat)
    requires
        0 <= i <= e <= s.len(),
        a != b,
    ensures
        splice(s, i, e, decimal(a)) != splice(s, i, e, decimal(b)),
{
    let x = splice(s, i, e, decimal(a));
    let y = splice(s, i, e, decimal(b));
    if x == y {
        let n = decimal(a).len();
        assert(x.len() == i + n + (s.len() - e));
        assert(y.len() == i + decimal(b).len() + (s.len() - e));
        assert(decimal(b).len() == n);
        assert(x.subrange(i, i + n) =~= decimal(a));
        assert(y.subrange(i, i + n) =~= decimal(b));
        lemma_digits_value_decimal(a);
        lemma_digits_value_decimal(b);
    }
}

/// A numeric range `[a-b]` with `a <= b`, expanded once, gives exactly
/// `b - a + 1` strings: the range replaced by each integer from `a` to `b`
/// in turn, all distinct.
pub proof fn lemma_range_expansion(s: Seq<char>)
    requires
        find_range(s, 0) is Some,
        range_at(s, find_range(s, 0)->0) matches Some((e, a, b)) && a <= b,
    ensures
        ({
            let i = find_range(s, 0)->0;
            let (e, a, b) = range_at(s, i)->0;
            let bs = branches_of(s)->0;
            &&& branches_of(s) is Some
            &&& bs.len() == b - a + 1
            &&& forall|j: int|
                0 <= j < bs.len() ==> #[trigger] bs[j] == splice(s, i, e, decimal((a + j) as nat))
            &&& forall|j1: int, j2: int|
                0 <= j1 < bs.len() && 0 <= j2 < bs.len() && j1 != j2 ==> #[trigger] bs[j1]
                    != #[trigger] bs[j2]
        }),
{
    let i = find_range(s, 0)->0;
    let (e, a, b) = range_at(s, i)->0;
    let bs = branches_of(s)->0;
    assert forall|j1: int, j2: int|
        0 <= j1 < bs.len() && 0 <= j2 < bs.len() && j1 != j2 implies #[trigger] bs[j1]
        != #[trigger] bs[j2] by {
        lemma_splice_decimal_distinct(s, i, e, (a + j1) as nat, (a + j2) as nat);
    }
}

/// A literal class with `n` distinct members, expanded once, gives exactly
/// `n` distinct strings: the class replaced by each member in turn.
pub proof fn lemma_class_expansion(s: Seq<char>)
    requires
        find_range(s, 0) is None,
        find_class(s, 0) is Some,
        class_at(s, find_class(s, 0)->0) matches Some((e, m)) && m.no_duplicates(),
    ensures
        ({
            let i = find_class(s, 0)->0;
            let (e, m) = class_at(s, i)->0;
            let bs = branches_of(s)->0;
            &&& branches_of(s) is Some
            &&& bs.len() == m.len()
            &&& forall|j: int| 0 <= j < bs.len() ==> #[trigger] bs[j] == splice(s, i, e, seq![m[j]])
            &&& forall|j1: int, j2: int|
                0 <= j1 < bs.len() && 0 <= j2 < bs.len() && j1 != j2 ==> #[trigger] bs[j1]
                    != #[trigger] bs[j2]
        }),
{
    let i = find_class(s, 0)->0;
    let (e, m) = class_at(s, i)->0;
    let bs = branches_of(s)->0;
    lemma_class_members(s, i + 1);
    assert forall|j1: int, j2: int|
        0 <= j1 < bs.len() && 0 <= j2 < bs.len() && j1 != j2 implies #[trigger] bs[j1]
        != #[trigger] bs[j2] by {
        assert(bs[j1][i] == m[j1]);
        assert(bs[j2][i] == m[j2]);
    }
}

/// A `[` written right after a backslash never opens a class, and a range
/// never closes on an escaped `]`: so `\[...\]` stays as written.
pub proof fn lemma_escaped_bracket_is_data(s: Seq<char>, p: int)
    requires
        0 <= p,
        p + 1 < s.len(),
        s[p] == '\\',
        s[p + 1] == '[',
    ensures
        class_at(s, p + 1) is None,
        range_at(s, p + 1) matches Some((e, lo, hi)) ==> s[e - 2] != '\\',
{
    if range_at(s, p + 1) is Some {
        let j = digits_end(s, p + 2);
        let k = digits_end(s, j + 1);
        lemma_digits_end(s, j + 1);
    }
}

pub proof fn lemma_digits_end(s: Seq<char>, i: int)
    requires
        0 <= i <= s.len(),
    ensures
        i <= digits_end(s, i) <= s.len(),
        forall|t: int| i <= t < digits_end(s, i) ==> is_digit(#[trigger] s[t]),
        digits_end(s, i) < s.len() ==> !is_digit(s[digits_end(s, i)]),
    decreases s.len() - i,
{
    if i < s.len() && is_digit(s[i]) {
        lemma_digits_end(s, i + 1);
    }
}

} // verus!
