//! The "math" notation of coordinate lists: `a+b*n+c` stands for the
//! running sums of `a`, then `b` repeated `n` times, then `c`.
use vstd::prelude::*;
use crate::number::{
    decimal, is_digit, lemma_decimal_digits, lemma_parse_decimal, parse_u32, parse_u32_spec,
    push_decimal,
};
use crate::text::{
    all_chars, all_free_of, lemma_concat_chars, chars_of, copy_range, free_of, join_spec, lemma_join_then_split,
    lemma_split_chars, lemma_split_len, lemma_split_then_join, split_ranges, split_spec, string_of,
};

verus! {

/// `t` repeated `n` times.
pub open spec fn repeat_spec(t: Seq<char>, n: nat) -> Seq<char>
    decreases n,
{
    if n == 0 {
        Seq::<char>::empty()
    } else {
        repeat_spec(t, (n - 1) as nat) + t
    }
}

/// What one `+`-separated part of the notation expands to: `v*n` becomes
/// `+v` repeated `n` times (the count is the second `*`-field, parsed as a
/// `u32`); any other part `p` becomes `+p`.
pub open spec fn expand_part(p: Seq<char>) -> Option<Seq<char>> {
    if !free_of(p, '*') {
        let f = split_spec(p, '*');
        match parse_u32_spec(f[1]) {
            Some(n) => Some(repeat_spec(seq!['+'] + f[0], n as nat)),
            None => None,
        }
    } else {
        Some(seq!['+'] + p)
    }
}

/// The expansions of all parts, concatenated; `None` when a count does not parse.
pub open spec fn expand_parts(parts: Seq<Seq<char>>) -> Option<Seq<char>>
    decreases parts.len(),
{
    if parts.len() == 0 {
        Some(Seq::<char>::empty())
    } else {
        match (expand_parts(parts.drop_last()), expand_part(parts.last())) {
            (Some(a), Some(b)) => Some(a + b),
            _ => None,
        }
    }
}

/// `s` without its leading run of `c`.
pub open spec fn trim_start_spec(s: Seq<char>, c: char) -> Seq<char>
    decreases s.len(),
{
    if s.len() > 0 && s[0] == c {
        trim_start_spec(s.drop_first(), c)
    } else {
        s
    }
}

/// The expansion of a notation string; `None` where a repeat count is not a
/// decimal `u32`.
pub open spec fn expand_math_spec(s: Seq<char>) -> Option<Seq<char>> {
    match expand_parts(split_spec(s, '+')) {
        Some(t) => Some(trim_start_spec(t, '+')),
        None => None,
    }
}

pub proof fn lemma_split_has_two(s: Seq<char>, sep: char)
    requires
        !free_of(s, sep),
    ensures
        split_spec(s, sep).len() >= 2,
    decreases s.len(),
{
    lemma_split_len(s.drop_last(), sep);
    if s.last() != sep {
        let s0 = s.drop_last();
        assert(!free_of(s0, sep)) by {
            let i = choose|i: int| 0 <= i < s.len() && s[i] == sep;
            assert(i < s.len() - 1);
            assert(s0[i] == sep);
        }
        lemma_split_has_two(s0, sep);
    }
}

/// A split has a second piece exactly when the separator occurs.
pub proof fn lemma_split_has_two_converse(s: Seq<char>, sep: char)
    ensures
        split_spec(s, sep).len() >= 2 <==> !free_of(s, sep),
    decreases s.len(),
{
    if !free_of(s, sep) {
        lemma_split_has_two(s, sep);
    } else if s.len() > 0 {
        lemma_split_has_two_converse(s.drop_last(), sep);
        assert(free_of(s.drop_last(), sep));
        assert(s.last() != sep);
        lemma_split_len(s.drop_last(), sep);
    }
}

/// Whether `c` occurs in `s`.
pub fn has_char(s: &[char], c: char) -> (res: bool)
    ensures
        res == !free_of(s@, c),
{
    let mut i: usize = 0;
    while i < s.len()
        invariant
            0 <= i <= s@.len(),
            forall|j: int| 0 <= j < i ==> s@[j] != c,
        decreases s.len() - i,
    {
        if s[i] == c {
            return true;
        }
        i = i + 1;
    }
    false
}

/// Appends the expansion of one part to `out`; `false` (with `out` in any
/// state) where the repeat count does not parse.
fn push_expanded_part(out: &mut Vec<char>, p: &[char]) -> (ok: bool)
    ensures
        ok == (expand_part(p@) is Some),
        ok ==> final(out)@ == old(out)@ + expand_part(p@)->0,
{
    if has_char(p, '*') {
        proof {
            lemma_split_has_two(p@, '*');
        }
        let fields = split_ranges(p, '*');
        let number = copy_range(p, fields[0].0, fields[0].1);
        let count_text = copy_range(p, fields[1].0, fields[1].1);
        match parse_u32(count_text.as_slice()) {
            None => false,
            Some(count) => {
                let ghost t = seq!['+'] + number@;
                let ghost start = out@;
                let mut j: u32 = 0;
                while j < count
                    invariant
                        j <= count,
                        t == seq!['+'] + number@,
                        out@ == start + repeat_spec(t, j as nat),
                    decreases count - j,
                {
                    out.push('+');
                    let mut k: usize = 0;
                    let ghost mid = out@;
                    while k < number.len()
                        invariant
                            0 <= k <= number@.len(),
                            out@ == mid + number@.take(k as int),
                        decreases number.len() - k,
                    {
                        out.push(number[k]);
                        k = k + 1;
                        assert(out@ =~= mid + number@.take(k as int));
                    }
                    assert(number@.take(number@.len() as int) =~= number@);
                    j = j + 1;
                    assert(out@ =~= start + repeat_spec(t, j as nat));
                }
                true
            },
        }
    } else {
        let ghost start = out@;
        out.push('+');
        let mut k: usize = 0;
        while k < p.len()
            invariant
                0 <= k <= p@.len(),
                out@ == start.push('+') + p@.take(k as int),
            decreases p.len() - k,
        {
            out.push(p[k]);
            k = k + 1;
            assert(out@ =~= start.push('+') + p@.take(k as int));
        }
        assert(out@ =~= start + (seq!['+'] + p@));
        true
    }
}

/// `s` without its leading run of `c`.
pub fn trim_start(s: &[char], c: char) -> (res: Vec<char>)
    ensures
        res@ == trim_start_spec(s@, c),
{
    let mut i: usize = 0;
    assert(s@.skip(0) =~= s@);
    while i < s.len() && s[i] == c
        invariant
            0 <= i <= s@.len(),
            trim_start_spec(s@, c) == trim_start_spec(s@.skip(i as int), c),
        decreases s.len() - i,
    {
        assert(s@.skip(i as int).drop_first() =~= s@.skip(i + 1));
        i = i + 1;
    }
    let res = copy_range(s, i, s.len());
    assert(res@ =~= s@.skip(i as int));
    res
}

/// The expansion of a notation string, or `None` where a count does not parse.
pub fn expand_math_chars(s: &[char]) -> (res: Option<Vec<char>>)
    ensures
        match res {
            Some(v) => expand_math_spec(s@) == Some(v@),
            None => expand_math_spec(s@) is None,
        },
{
    let parts = split_ranges(s, '+');
    let ghost sp = split_spec(s@, '+');
    let mut out: Vec<char> = Vec::new();
    let mut k: usize = 0;
    while k < parts.len()
        invariant
            0 <= k <= parts@.len(),
            parts@.len() == sp.len(),
            sp == split_spec(s@, '+'),
            forall|m: int|
                0 <= m < parts@.len() ==> {
                    &&& (#[trigger] parts@[m]).0 <= parts@[m].1 <= s@.len()
                    &&& s@.subrange(parts@[m].0 as int, parts@[m].1 as int) == sp[m]
                },
            expand_parts(sp.take(k as int)) == Some(out@),
        decreases parts.len() - k,
    {
        let piece = copy_range(s, parts[k].0, parts[k].1);
        assert(sp.take(k + 1).drop_last() =~= sp.take(k as int));
        assert(sp.take(k + 1).last() == piece@);
        let ok = push_expanded_part(&mut out, piece.as_slice());
        if !ok {
            proof {
                lemma_expand_parts_prefix_none(sp, k + 1);
            }
            return None;
        }
        k = k + 1;
    }
    assert(sp.take(parts@.len() as int) =~= sp);
    Some(trim_start(out.as_slice(), '+'))
}

/// A failing prefix makes the whole expansion fail.
pub proof fn lemma_expand_parts_prefix_none(parts: Seq<Seq<char>>, k: int)
    requires
        0 <= k <= parts.len(),
        expand_parts(parts.take(k)) is None,
    ensures
        expand_parts(parts) is None,
    decreases parts.len() - k,
{
    if k < parts.len() {
        assert(parts.take(k + 1).drop_last() =~= parts.take(k));
        lemma_expand_parts_prefix_none(parts, k + 1);
    } else {
        assert(parts.take(k) =~= parts);
    }
}

/// Expands the repetitions of a notation string: `1+2*3` becomes `1+2+2+2`.
pub fn expand_math(s: &str) -> (res: String)
    requires
        expand_math_spec(s@) is Some,
    ensures
        res@ == expand_math_spec(s@)->0,
{
    let cs = chars_of(s);
    let v = expand_math_chars(cs.as_slice()).unwrap();
    string_of(&v)
}


/// Each part parsed as a `u32`; `None` where one does not parse.
pub open spec fn parse_all(parts: Seq<Seq<char>>) -> Option<Seq<u32>>
    decreases parts.len(),
{
    if parts.len() == 0 {
        Some(Seq::<u32>::empty())
    } else {
        match (parse_all(parts.drop_last()), parse_u32_spec(parts.last())) {
            (Some(a), Some(b)) => Some(a.push(b)),
            _ => None,
        }
    }
}

/// The running sums of `v` (the `k`-th is `v[0] + ... + v[k]`); `None` where
/// one exceeds `u32::MAX`.
pub open spec fn running_sums(v: Seq<u32>) -> Option<Seq<u32>>
    decreases v.len(),
{
    if v.len() == 0 {
        Some(Seq::<u32>::empty())
    } else {
        match running_sums(v.drop_last()) {
            Some(r) => {
                let before: int = if r.len() == 0 { 0 } else { r.last() as int };
                if before + v.last() <= u32::MAX {
                    Some(r.push((before + v.last()) as u32))
                } else {
                    None
                }
            },
            None => None,
        }
    }
}

/// The coordinates that an expanded notation string stands for: the running
/// sums of its `+`-separated numbers.
pub open spec fn math_values_spec(s: Seq<char>) -> Option<Seq<u32>> {
    match parse_all(split_spec(s, '+')) {
        Some(v) => running_sums(v),
        None => None,
    }
}

pub proof fn lemma_running_sums_len(v: Seq<u32>)
    ensures
        running_sums(v) matches Some(r) ==> r.len() == v.len(),
    decreases v.len(),
{
    if v.len() > 0 {
        lemma_running_sums_len(v.drop_last());
    }
}

pub proof fn lemma_parse_all_prefix_none(parts: Seq<Seq<char>>, k: int)
    requires
        0 <= k <= parts.len(),
        parse_all(parts.take(k)) is None,
    ensures
        parse_all(parts) is None,
    decreases parts.len() - k,
{
    if k < parts.len() {
        assert(parts.take(k + 1).drop_last() =~= parts.take(k));
        lemma_parse_all_prefix_none(parts, k + 1);
    } else {
        assert(parts.take(k) =~= parts);
    }
}

pub proof fn lemma_running_sums_prefix_none(v: Seq<u32>, k: int)
    requires
        0 <= k <= v.len(),
        running_sums(v.take(k)) is None,
    ensures
        running_sums(v) is None,
    decreases v.len() - k,
{
    if k < v.len() {
        assert(v.take(k + 1).drop_last() =~= v.take(k));
        lemma_running_sums_prefix_none(v, k + 1);
    } else {
        assert(v.take(k) =~= v);
    }
}

/// The coordinates of an expanded notation string, or `None` where a part is
/// not a decimal `u32` or a running sum overflows.
pub fn math_values(s: &[char]) -> (res: Option<Vec<u32>>)
    ensures
        match res {
            Some(v) => math_values_spec(s@) == Some(v@),
            None => math_values_spec(s@) is None,
        },
{
    let parts = split_ranges(s, '+');
    let ghost sp = split_spec(s@, '+');
    let mut nums: Vec<u32> = Vec::new();
    let mut k: usize = 0;
    while k < parts.len()
        invariant
            0 <= k <= parts@.len(),
            parts@.len() == sp.len(),
            sp == split_spec(s@, '+'),
            forall|m: int|
                0 <= m < parts@.len() ==> {
                    &&& (#[trigger] parts@[m]).0 <= parts@[m].1 <= s@.len()
                    &&& s@.subrange(parts@[m].0 as int, parts@[m].1 as int) == sp[m]
                },
            parse_all(sp.take(k as int)) == Some(nums@),
        decreases parts.len() - k,
    {
        let piece = copy_range(s, parts[k].0, parts[k].1);
        assert(sp.take(k + 1).drop_last() =~= sp.take(k as int));
        assert(sp.take(k + 1).last() == piece@);
        match parse_u32(piece.as_slice()) {
            Some(x) => {
                nums.push(x);
            },
            None => {
                proof {
                    lemma_parse_all_prefix_none(sp, k + 1);
                }
                return None;
            },
        }
        k = k + 1;
    }
    assert(sp.take(parts@.len() as int) =~= sp);
    let mut sums: Vec<u32> = Vec::new();
    let mut total: u32 = 0;
    let mut i: usize = 0;
    while i < nums.len()
        invariant
            0 <= i <= nums@.len(),
            running_sums(nums@.take(i as int)) == Some(sums@),
            math_values_spec(s@) == running_sums(nums@),
            sums@.len() == i,
            total == (if i == 0 { 0 } else { sums@.last() }),
        decreases nums.len() - i,
    {
        assert(nums@.take(i + 1).drop_last() =~= nums@.take(i as int));
        assert(nums@.take(i + 1).last() == nums@[i as int]);
        if total > 0xffff_ffff - nums[i] {
            proof {
                lemma_running_sums_prefix_none(nums@, i + 1);
            }
            return None;
        }
        total = total + nums[i];
        sums.push(total);
        i = i + 1;
    }
    assert(nums@.take(nums@.len() as int) =~= nums@);
    Some(sums)
}

/// The coordinates of an expanded notation string, in decimal: `1+2+3`
/// becomes `["1", "3", "6"]`.
pub fn math_to_vec(s: &str) -> (res: Vec<String>)
    requires
        math_values_spec(s@) is Some,
    ensures
        res@.len() == (math_values_spec(s@)->0).len(),
        forall|k: int|
            0 <= k < res@.len() ==> (#[trigger] res@[k])@ == decimal(
                (math_values_spec(s@)->0)[k] as nat,
            ),
{
    let cs = chars_of(s);
    let vals = math_values(cs.as_slice()).unwrap();
    let mut out: Vec<String> = Vec::new();
    let mut k: usize = 0;
    while k < vals.len()
        invariant
            0 <= k <= vals@.len(),
            out@.len() == k,
            forall|m: int| 0 <= m < k ==> (#[trigger] out@[m])@ == decimal(vals@[m] as nat),
        decreases vals.len() - k,
    {
        let mut digits: Vec<char> = Vec::new();
        push_decimal(&mut digits, vals[k]);
        assert(digits@ =~= decimal(vals@[k as int] as nat));
        out.push(string_of(&digits));
        k = k + 1;
    }
    out
}


/// The non-empty parts, in order.
pub open spec fn nonempty_parts(parts: Seq<Seq<char>>) -> Seq<Seq<char>>
    decreases parts.len(),
{
    if parts.len() == 0 {
        Seq::<Seq<char>>::empty()
    } else if parts.last().len() == 0 {
        nonempty_parts(parts.drop_last())
    } else {
        nonempty_parts(parts.drop_last()).push(parts.last())
    }
}

/// The runs of equal consecutive items: each item with the length of its run.
pub open spec fn runs_spec(items: Seq<Seq<char>>) -> Seq<(Seq<char>, nat)>
    decreases items.len(),
{
    if items.len() == 0 {
        Seq::<(Seq<char>, nat)>::empty()
    } else {
        let r = runs_spec(items.drop_last());
        if r.len() > 0 && r.last().0 == items.last() {
            r.update(r.len() - 1, (items.last(), r.last().1 + 1))
        } else {
            r.push((items.last(), 1nat))
        }
    }
}

/// A run in the notation: `v*n` for a run of `n > 1`, `v` alone otherwise.
pub open spec fn render_run(r: (Seq<char>, nat)) -> Seq<char> {
    if r.1 > 1 {
        r.0.push('*') + decimal(r.1)
    } else {
        r.0
    }
}

pub open spec fn render_runs(rs: Seq<(Seq<char>, nat)>) -> Seq<Seq<char>> {
    rs.map_values(|r: (Seq<char>, nat)| render_run(r))
}

/// The items of a `+`-separated list that `optimize_math_str` works on.
pub open spec fn math_items(s: Seq<char>) -> Seq<Seq<char>> {
    nonempty_parts(split_spec(s, '+'))
}

/// The compressed notation: the non-empty `+`-separated items of `s`, each run
/// of equal items written once with its length.
pub open spec fn optimize_math_spec(s: Seq<char>) -> Seq<char> {
    join_spec(render_runs(runs_spec(math_items(s))), '+')
}

pub proof fn lemma_runs_shape(items: Seq<Seq<char>>)
    ensures
        items.len() > 0 ==> runs_spec(items).len() > 0,
        runs_spec(items).len() <= items.len(),
        forall|k: int|
            0 <= k < runs_spec(items).len() ==> 1 <= (#[trigger] runs_spec(items)[k]).1 <= items.len(),
    decreases items.len(),
{
    if items.len() > 0 {
        lemma_runs_shape(items.drop_last());
    }
}

/// No run of equal items is longer than `i32::MAX` (the length of a run is
/// counted in an `i32`).
pub open spec fn runs_fit(items: Seq<Seq<char>>) -> bool {
    forall|k: int| 0 <= k < runs_spec(items).len() ==> (#[trigger] runs_spec(items)[k]).1 <= i32::MAX
}

/// No run of equal differences of a coordinate list is longer than
/// `i32::MAX`.
pub open spec fn deltas_fit(v: Seq<u32>) -> bool {
    runs_fit(decimals(deltas_spec(v)))
}

/// The runs of a prefix are the runs of the whole, the last one perhaps
/// shorter.
pub proof fn lemma_runs_grow(items: Seq<Seq<char>>, j: int)
    requires
        0 <= j <= items.len(),
    ensures
        runs_spec(items.take(j)).len() <= runs_spec(items).len(),
        forall|k: int|
            0 <= k < runs_spec(items.take(j)).len() ==> (#[trigger] runs_spec(items.take(j))[k]).1
                <= runs_spec(items)[k].1,
    decreases items.len() - j,
{
    if j < items.len() {
        let a = items.take(j);
        let b = items.take(j + 1);
        assert(b.drop_last() =~= a);
        lemma_runs_grow(items, j + 1);
        let ra = runs_spec(a);
        let rb = runs_spec(b);
        assert forall|k: int| 0 <= k < ra.len() implies (#[trigger] ra[k]).1 <= runs_spec(items)[k].1 by {
            assert(ra[k].1 <= rb[k].1);
        }
    } else {
        assert(items.take(j) =~= items);
    }
}

/// Whether no run of equal differences of the sorted list is longer than
/// `i32::MAX` (see `deltas_fit`).
pub fn deltas_fit_exec(v: &[u32]) -> (res: bool)
    requires
        nondecreasing(v@),
    ensures
        res == deltas_fit(v@),
{
    let ghost items = decimals(deltas_spec(v@));
    if v.len() == 0 {
        assert(items =~= Seq::<Seq<char>>::empty());
        return true;
    }
    let mut cur: u32 = v[0];
    let mut count: u64 = 1;
    let mut i: usize = 1;
    proof {
        assert(items.take(1).drop_last() =~= Seq::<Seq<char>>::empty());
        assert(runs_spec(Seq::<Seq<char>>::empty()).len() == 0);
        assert(items.take(1).last() == items[0]);
        assert(runs_spec(items.take(1)) =~= seq![(items[0], 1nat)]);
        assert(items[0] == decimal(v@[0] as nat));
    }
    while i < v.len()
        invariant
            1 <= i <= v@.len(),
            nondecreasing(v@),
            items == decimals(deltas_spec(v@)),
            runs_spec(items.take(i as int)).len() >= 1,
            runs_spec(items.take(i as int)).last() == (decimal(cur as nat), count as nat),
            1 <= count <= i32::MAX,
            runs_fit(items.take(i as int)),
        decreases v.len() - i,
    {
        let d = v[i] - v[i - 1];
        let ghost r = runs_spec(items.take(i as int));
        proof {
            assert(items.take(i + 1).drop_last() =~= items.take(i as int));
            assert(items.take(i + 1).last() == items[i as int]);
            assert(items[i as int] == decimal(d as nat));
            if decimal(d as nat) == decimal(cur as nat) {
                crate::number::lemma_parse_decimal(d);
                crate::number::lemma_parse_decimal(cur);
            }
        }
        if d == cur {
            if count == 0x7fff_ffff {
                proof {
                    let r1 = runs_spec(items.take(i + 1));
                    assert(r1 == r.update(r.len() - 1, (items[i as int], r.last().1 + 1)));
                    lemma_runs_grow(items, i + 1);
                    assert(r1[r1.len() - 1].1 > i32::MAX);
                    assert(runs_spec(items)[r1.len() - 1].1 > i32::MAX);
                }
                return false;
            }
            count = count + 1;
        } else {
            cur = d;
            count = 1;
        }
        i = i + 1;
    }
    assert(items.take(v@.len() as int) =~= items);
    true
}

/// Whether two ranges of `s` hold the same characters.
fn ranges_equal(s: &[char], a: (usize, usize), b: (usize, usize)) -> (res: bool)
    requires
        a.0 <= a.1 <= s@.len(),
        b.0 <= b.1 <= s@.len(),
    ensures
        res == (s@.subrange(a.0 as int, a.1 as int) == s@.subrange(b.0 as int, b.1 as int)),
{
    if a.1 - a.0 != b.1 - b.0 {
        assert(s@.subrange(a.0 as int, a.1 as int).len() != s@.subrange(b.0 as int, b.1 as int).len());
        return false;
    }
    let len = a.1 - a.0;
    let mut i: usize = 0;
    while i < len
        invariant
            0 <= i <= len,
            len == a.1 - a.0,
            len == b.1 - b.0,
            a.0 <= a.1 <= s@.len(),
            b.0 <= b.1 <= s@.len(),
            forall|j: int|
                0 <= j < i ==> #[trigger] s@.subrange(a.0 as int, a.1 as int)[j] == s@.subrange(
                    b.0 as int,
                    b.1 as int,
                )[j],
        decreases len - i,
    {
        if s[a.0 + i] != s[b.0 + i] {
            assert(s@.subrange(a.0 as int, a.1 as int)[i as int] != s@.subrange(
                b.0 as int,
                b.1 as int,
            )[i as int]);
            return false;
        }
        i = i + 1;
    }
    assert(s@.subrange(a.0 as int, a.1 as int) =~= s@.subrange(b.0 as int, b.1 as int));
    true
}

/// Appends `s[r.0..r.1]` to `out`.
fn push_range(out: &mut Vec<char>, s: &[char], r: (usize, usize))
    requires
        r.0 <= r.1 <= s@.len(),
    ensures
        final(out)@ == old(out)@ + s@.subrange(r.0 as int, r.1 as int),
{
    let ghost start = out@;
    let mut i = r.0;
    while i < r.1
        invariant
            r.0 <= i <= r.1 <= s@.len(),
            out@ == start + s@.subrange(r.0 as int, i as int),
        decreases r.1 - i,
    {
        out.push(s[i]);
        i = i + 1;
        assert(out@ =~= start + s@.subrange(r.0 as int, i as int));
    }
}

/// Appends the rendering of the run of `s[r.0..r.1]` of length `count`.
fn push_run(out: &mut Vec<char>, s: &[char], r: (usize, usize), count: u32)
    requires
        r.0 <= r.1 <= s@.len(),
    ensures
        final(out)@ == old(out)@ + render_run((s@.subrange(r.0 as int, r.1 as int), count as nat)),
{
    let ghost start = out@;
    push_range(out, s, r);
    if count > 1 {
        out.push('*');
        let ghost mid = out@;
        push_decimal(out, count);
        assert(out@ =~= start + (s@.subrange(r.0 as int, r.1 as int).push('*') + decimal(
            count as nat,
        )));
    }
}

/// The compressed notation of a `+`-separated list (see `optimize_math_spec`).
pub fn optimize_math_chars(s: &[char]) -> (res: Vec<char>)
    requires
        math_items(s@).len() >= 1,
        runs_fit(math_items(s@)),
    ensures
        res@ == optimize_math_spec(s@),
{
    let parts = split_ranges(s, '+');
    let ghost sp = split_spec(s@, '+');
    // the non-empty parts
    let mut items: Vec<(usize, usize)> = Vec::new();
    let mut k: usize = 0;
    while k < parts.len()
        invariant
            0 <= k <= parts@.len(),
            parts@.len() == sp.len(),
            sp == split_spec(s@, '+'),
            forall|m: int|
                0 <= m < parts@.len() ==> {
                    &&& (#[trigger] parts@[m]).0 <= parts@[m].1 <= s@.len()
                    &&& s@.subrange(parts@[m].0 as int, parts@[m].1 as int) == sp[m]
                },
            items@.len() == nonempty_parts(sp.take(k as int)).len(),
            forall|m: int|
                0 <= m < items@.len() ==> {
                    &&& (#[trigger] items@[m]).0 <= items@[m].1 <= s@.len()
                    &&& s@.subrange(items@[m].0 as int, items@[m].1 as int) == nonempty_parts(
                        sp.take(k as int),
                    )[m]
                },
        decreases parts.len() - k,
    {
        assert(sp.take(k + 1).drop_last() =~= sp.take(k as int));
        assert(sp.take(k + 1).last() == sp[k as int]);
        if parts[k].0 < parts[k].1 {
            items.push(parts[k]);
        }
        k = k + 1;
    }
    assert(sp.take(parts@.len() as int) =~= sp);
    let ghost np = math_items(s@);
    assert(np == nonempty_parts(sp));
    // the runs
    let mut out: Vec<char> = Vec::new();
    let mut cur = items[0];
    let mut count: u32 = 1;
    let mut flushed = false;
    let mut i: usize = 1;
    proof {
        assert(np.take(1).drop_last() =~= Seq::<Seq<char>>::empty());
        assert(runs_spec(Seq::<Seq<char>>::empty()).len() == 0);
        assert(np.take(1).last() == np[0]);
        assert(runs_spec(np.take(1)) =~= seq![(np[0], 1nat)]);
    }
    while i < items.len()
        invariant
            1 <= i <= items@.len(),
            items@.len() == np.len(),
            runs_fit(np),
            forall|m: int|
                0 <= m < items@.len() ==> {
                    &&& (#[trigger] items@[m]).0 <= items@[m].1 <= s@.len()
                    &&& s@.subrange(items@[m].0 as int, items@[m].1 as int) == np[m]
                },
            cur.0 <= cur.1 <= s@.len(),
            runs_spec(np.take(i as int)).len() >= 1,
            runs_spec(np.take(i as int)).last() == (s@.subrange(cur.0 as int, cur.1 as int), count as nat),
            flushed == (runs_spec(np.take(i as int)).len() > 1),
            out@ == join_spec(render_runs(runs_spec(np.take(i as int)).drop_last()), '+'),
        decreases items.len() - i,
    {
        let ghost r = runs_spec(np.take(i as int));
        assert(np.take(i + 1).drop_last() =~= np.take(i as int));
        assert(np.take(i + 1).last() == np[i as int]);
        if ranges_equal(s, cur, items[i]) {
            proof {
                let r2 = runs_spec(np.take(i + 1));
                assert(r2.last().1 == count + 1);
                lemma_runs_grow(np, i + 1);
                assert(r2[r2.len() - 1].1 <= runs_spec(np)[r2.len() - 1].1);
            }
            count = count + 1;
            proof {
                let r2 = runs_spec(np.take(i + 1));
                assert(r2.drop_last() =~= r.drop_last());
            }
        } else {
            let ghost before = out@;
            if flushed {
                out.push('+');
            }
            push_run(&mut out, s, cur, count);
            proof {
                let r2 = runs_spec(np.take(i + 1));
                assert(r2.drop_last() =~= r);
                assert(render_runs(r) =~= render_runs(r.drop_last()).push(render_run(r.last())));
                if r.len() > 1 {
                    assert(render_runs(r).drop_last() =~= render_runs(r.drop_last()));
                    assert(out@ =~= before.push('+') + render_run(r.last()));
                } else {
                    assert(render_runs(r.drop_last()).len() == 0);
                }
            }
            flushed = true;
            cur = items[i];
            count = 1;
        }
        i = i + 1;
    }
    let ghost r = runs_spec(np.take(i as int));
    assert(np.take(i as int) =~= np);
    let ghost before = out@;
    if flushed {
        out.push('+');
    }
    push_run(&mut out, s, cur, count);
    proof {
        assert(render_runs(r) =~= render_runs(r.drop_last()).push(render_run(r.last())));
        if r.len() > 1 {
            assert(render_runs(r).drop_last() =~= render_runs(r.drop_last()));
            assert(out@ =~= before.push('+') + render_run(r.last()));
        } else {
            assert(render_runs(r.drop_last()).len() == 0);
        }
    }
    out
}

/// Compresses a `+`-separated list: `1+1+1+2` becomes `1*3+2`.
pub fn optimize_math_str(input: String) -> (res: String)
    requires
        math_items(input@).len() >= 1,
        runs_fit(math_items(input@)),
    ensures
        res@ == optimize_math_spec(input@),
{
    let cs = chars_of(input.as_str());
    let out = optimize_math_chars(cs.as_slice());
    string_of(&out)
}


pub open spec fn nondecreasing(v: Seq<u32>) -> bool {
    forall|i: int, j: int| 0 <= i <= j < v.len() ==> v[i] <= v[j]
}

/// The first coordinate, then the difference of each coordinate to the one
/// before it.
pub open spec fn deltas_spec(v: Seq<u32>) -> Seq<u32> {
    Seq::new(v.len(), |k: int| if k == 0 { v[0] } else { (v[k] - v[k - 1]) as u32 })
}

pub open spec fn decimals(d: Seq<u32>) -> Seq<Seq<char>> {
    d.map_values(|x: u32| decimal(x as nat))
}

/// The uncompressed notation of a sorted coordinate list: its deltas, in
/// decimal, separated by `+`.
pub open spec fn delta_text(v: Seq<u32>) -> Seq<char> {
    join_spec(decimals(deltas_spec(v)), '+')
}

/// The notation that `vec_to_math` writes for one sorted coordinate list.
pub open spec fn coords_math_spec(v: Seq<u32>) -> Seq<char> {
    optimize_math_spec(delta_text(v))
}

/// `+p` for each item, concatenated.
pub open spec fn plus_join(ps: Seq<Seq<char>>) -> Seq<char>
    decreases ps.len(),
{
    if ps.len() == 0 {
        Seq::<char>::empty()
    } else {
        plus_join(ps.drop_last()) + (seq!['+'] + ps.last())
    }
}

pub open spec fn all_nonempty(ps: Seq<Seq<char>>) -> bool {
    forall|k: int| 0 <= k < ps.len() ==> (#[trigger] ps[k]).len() > 0
}

pub proof fn lemma_decimal_plain(n: nat)
    ensures
        free_of(decimal(n), '+'),
        free_of(decimal(n), '*'),
        decimal(n).len() > 0,
        decimal(n)[0] != '+',
{
    lemma_decimal_digits(n);
    assert forall|i: int| 0 <= i < decimal(n).len() implies decimal(n)[i] != '+' && decimal(n)[i]
        != '*' by {
        assert(is_digit(decimal(n)[i]));
    }
}

pub proof fn lemma_decimals_plain(d: Seq<u32>)
    ensures
        all_free_of(decimals(d), '+'),
        all_free_of(decimals(d), '*'),
        all_nonempty(decimals(d)),
        decimals(d).len() == d.len(),
{
    assert forall|k: int| 0 <= k < decimals(d).len() implies free_of(#[trigger] decimals(d)[k], '+')
        && free_of(decimals(d)[k], '*') && decimals(d)[k].len() > 0 by {
        lemma_decimal_plain(d[k] as nat);
    }
}

pub proof fn lemma_nonempty_parts_all(ps: Seq<Seq<char>>)
    requires
        all_nonempty(ps),
    ensures
        nonempty_parts(ps) == ps,
    decreases ps.len(),
{
    if ps.len() > 0 {
        assert(ps.last().len() > 0);
        lemma_nonempty_parts_all(ps.drop_last());
        assert(ps.drop_last().push(ps.last()) =~= ps);
    }
}

pub proof fn lemma_math_items_join(ps: Seq<Seq<char>>)
    requires
        ps.len() >= 1,
        all_free_of(ps, '+'),
        all_nonempty(ps),
    ensures
        math_items(join_spec(ps, '+')) == ps,
{
    lemma_join_then_split(ps, '+');
    lemma_nonempty_parts_all(ps);
}

pub proof fn lemma_repeat_one(t: Seq<char>)
    ensures
        repeat_spec(t, 1) == t,
{
    assert(repeat_spec(t, 0) =~= Seq::<char>::empty());
    assert(Seq::<char>::empty() + t =~= t);
}

/// A run expands to its item repeated.
pub proof fn lemma_expand_run(v: Seq<char>, c: nat)
    requires
        v.len() > 0,
        free_of(v, '+'),
        free_of(v, '*'),
        1 <= c <= u32::MAX,
    ensures
        expand_part(render_run((v, c))) == Some(repeat_spec(seq!['+'] + v, c)),
{
    if c > 1 {
        let dc = decimal(c);
        lemma_decimal_plain(c);
        let r = v.push('*') + dc;
        let two = seq![v, dc];
        assert(two.drop_last() =~= seq![v]);
        assert(join_spec(seq![v], '*') == v);
        assert(two.last() == dc);
        assert(join_spec(two, '*') =~= r);
        assert forall|k: int| 0 <= k < two.len() implies free_of(#[trigger] two[k], '*') by {}
        lemma_join_then_split(two, '*');
        assert(r[v.len() as int] == '*');
        lemma_parse_decimal(c as u32);
    } else {
        lemma_repeat_one(seq!['+'] + v);
    }
}

pub proof fn lemma_render_runs_push(rs: Seq<(Seq<char>, nat)>, x: (Seq<char>, nat))
    ensures
        render_runs(rs.push(x)) == render_runs(rs).push(render_run(x)),
{
    assert(render_runs(rs.push(x)) =~= render_runs(rs).push(render_run(x)));
}

/// Expanding the runs of the items gives every item back, each after a `+`.
pub proof fn lemma_expand_runs(ps: Seq<Seq<char>>)
    requires
        all_free_of(ps, '+'),
        all_free_of(ps, '*'),
        all_nonempty(ps),
        runs_fit(ps),
    ensures
        expand_parts(render_runs(runs_spec(ps))) == Some(plus_join(ps)),
    decreases ps.len(),
{
    if ps.len() == 0 {
        assert(render_runs(runs_spec(ps)) =~= Seq::<Seq<char>>::empty());
    } else {
        let p0 = ps.drop_last();
        assert forall|k: int| 0 <= k < p0.len() implies free_of(#[trigger] p0[k], '+') && free_of(
            p0[k],
            '*',
        ) && p0[k].len() > 0 by {
            assert(free_of(ps[k], '+') && free_of(ps[k], '*') && ps[k].len() > 0);
        }
        lemma_runs_grow(ps, ps.len() - 1);
        assert(ps.take(ps.len() - 1) =~= p0);
        lemma_expand_runs(p0);
        lemma_runs_shape(p0);
        lemma_runs_shape(ps);
        let r0 = runs_spec(p0);
        let x = ps.last();
        assert(free_of(ps[ps.len() - 1], '+') && free_of(ps[ps.len() - 1], '*') && ps[ps.len()
            - 1].len() > 0);
        let t = seq!['+'] + x;
        if r0.len() > 0 && r0.last().0 == x {
            let c = r0.last().1;
            assert(1 <= r0[r0.len() - 1].1);
            assert(runs_spec(ps)[r0.len() - 1].1 == c + 1);
            let rb = r0.drop_last();
            assert(r0 =~= rb.push(r0.last()));
            lemma_render_runs_push(rb, r0.last());
            lemma_render_runs_push(rb, (x, c + 1));
            assert(r0.update(r0.len() - 1, (x, c + 1)) =~= rb.push((x, c + 1)));
            assert(render_runs(rb.push((x, c + 1))).drop_last() =~= render_runs(rb));
            assert(render_runs(r0).drop_last() =~= render_runs(rb));
            lemma_expand_run(x, c);
            lemma_expand_run(x, c + 1);
            let e = expand_parts(render_runs(rb))->0;
            assert(plus_join(p0) == e + repeat_spec(t, c));
            assert(repeat_spec(t, c + 1) == repeat_spec(t, c) + t);
            assert(plus_join(ps) == plus_join(p0) + t);
            assert(e + repeat_spec(t, c + 1) =~= plus_join(ps));
        } else {
            lemma_render_runs_push(r0, (x, 1nat));
            assert(render_runs(r0.push((x, 1nat))).drop_last() =~= render_runs(r0));
            lemma_expand_run(x, 1);
            lemma_repeat_one(t);
        }
    }
}

pub proof fn lemma_plus_join(ps: Seq<Seq<char>>)
    requires
        ps.len() >= 1,
    ensures
        plus_join(ps) == seq!['+'] + join_spec(ps, '+'),
    decreases ps.len(),
{
    if ps.len() == 1 {
        assert(plus_join(ps.drop_last()) =~= Seq::<char>::empty());
        assert(plus_join(ps) =~= seq!['+'] + join_spec(ps, '+'));
    } else {
        lemma_plus_join(ps.drop_last());
        assert(plus_join(ps) =~= seq!['+'] + join_spec(ps, '+'));
    }
}

pub proof fn lemma_parse_decimals(d: Seq<u32>)
    ensures
        parse_all(decimals(d)) == Some(d),
    decreases d.len(),
{
    if d.len() > 0 {
        lemma_parse_decimals(d.drop_last());
        assert(decimals(d).drop_last() =~= decimals(d.drop_last()));
        lemma_parse_decimal(d.last());
        assert(d.drop_last().push(d.last()) =~= d);
    }
}

pub proof fn lemma_running_sums_deltas(v: Seq<u32>)
    requires
        nondecreasing(v),
    ensures
        running_sums(deltas_spec(v)) == Some(v),
    decreases v.len(),
{
    if v.len() > 0 {
        let v0 = v.drop_last();
        assert(nondecreasing(v0));
        lemma_running_sums_deltas(v0);
        let d = deltas_spec(v);
        if v.len() > 1 {
            assert(d.drop_last() =~= deltas_spec(v0));
            assert(v[v.len() - 2] <= v[v.len() - 1]);
            assert(d.last() == (v.last() - v[v.len() - 2]) as u32);
            assert(v0.last() == v[v.len() - 2]);
        } else {
            assert(d.drop_last() =~= Seq::<u32>::empty());
            assert(v0 =~= Seq::<u32>::empty());
            assert(deltas_spec(v0) =~= Seq::<u32>::empty());
            assert(d.last() == v[0]);
        }
        assert(v0.push(v.last()) =~= v);
    }
}

pub proof fn lemma_delta_text_items(v: Seq<u32>)
    requires
        v.len() >= 1,
    ensures
        math_items(delta_text(v)) == decimals(deltas_spec(v)),
        decimals(deltas_spec(v)).len() == v.len(),
{
    lemma_decimals_plain(deltas_spec(v));
    lemma_math_items_join(decimals(deltas_spec(v)));
}

/// Writing a sorted list of coordinates in the notation (deltas, then runs
/// compressed) and expanding it gives the uncompressed deltas back, whose
/// running sums are the list again.
pub proof fn law_math_roundtrip(v: Seq<u32>)
    requires
        v.len() >= 1,
        deltas_fit(v),
        nondecreasing(v),
    ensures
        expand_math_spec(coords_math_spec(v)) == Some(delta_text(v)),
        math_values_spec(delta_text(v)) == Some(v),
{
    let ps = decimals(deltas_spec(v));
    lemma_delta_text_items(v);
    lemma_decimals_plain(deltas_spec(v));
    let rendered = render_runs(runs_spec(ps));
    lemma_runs_shape(ps);
    assert forall|k: int| 0 <= k < rendered.len() implies free_of(#[trigger] rendered[k], '+') by {
        let r = runs_spec(ps)[k];
        assert(rendered[k] == render_run(r));
        assert(1 <= r.1 <= ps.len());
        // the item of a run is one of the items
        lemma_run_items(ps, k);
        let i = choose|i: int| 0 <= i < ps.len() && ps[i] == r.0;
        assert(free_of(ps[i], '+'));
        if r.1 > 1 {
            lemma_decimal_plain(r.1);
            let w = r.0.push('*') + decimal(r.1);
            assert forall|j: int| 0 <= j < w.len() implies w[j] != '+' by {
                if j < r.0.len() {
                    assert(w[j] == r.0[j]);
                } else if j > r.0.len() {
                    assert(w[j] == decimal(r.1)[j - r.0.len() - 1]);
                }
            }
        }
    }
    lemma_join_then_split(rendered, '+');
    lemma_expand_runs(ps);
    lemma_plus_join(ps);
    let w = join_spec(ps, '+');
    assert(w.len() > 0 && w[0] != '+') by {
        lemma_join_first(ps);
        lemma_decimal_plain(deltas_spec(v)[0] as nat);
    }
    assert((seq!['+'] + w).drop_first() =~= w);
    assert(trim_start_spec(seq!['+'] + w, '+') == trim_start_spec(w, '+'));
    lemma_join_then_split(ps, '+');
    lemma_parse_decimals(deltas_spec(v));
    lemma_running_sums_deltas(v);
}

/// The items a list of runs stands for: each run's item, as many times as
/// its length, in order.
pub open spec fn runs_items(r: Seq<(Seq<char>, nat)>) -> Seq<Seq<char>>
    decreases r.len(),
{
    if r.len() == 0 {
        Seq::<Seq<char>>::empty()
    } else {
        runs_items(r.drop_last()) + Seq::new(r.last().1, |i: int| r.last().0)
    }
}

/// The runs of a list are its maximal runs of equal items: together they
/// stand for the list, none is empty, and two neighbouring runs never hold
/// the same item (each maximal run is written once, with its full length).
pub proof fn law_runs_maximal(items: Seq<Seq<char>>)
    ensures
        runs_items(runs_spec(items)) == items,
        forall|k: int| 0 <= k < runs_spec(items).len() ==> (#[trigger] runs_spec(items)[k]).1 >= 1,
        forall|k: int|
            0 <= k < runs_spec(items).len() - 1 ==> (#[trigger] runs_spec(items)[k]).0 != runs_spec(
                items,
            )[k + 1].0,
    decreases items.len(),
{
    if items.len() > 0 {
        let p0 = items.drop_last();
        let x = items.last();
        law_runs_maximal(p0);
        let r0 = runs_spec(p0);
        let r = runs_spec(items);
        if r0.len() > 0 && r0.last().0 == x {
            let c = r0.last().1;
            assert(r == r0.update(r0.len() - 1, (x, c + 1)));
            assert(r.drop_last() =~= r0.drop_last());
            assert(runs_items(r0) == runs_items(r0.drop_last()) + Seq::new(c, |i: int| x));
            assert(Seq::new((c + 1) as nat, |i: int| x) =~= Seq::new(c, |i: int| x).push(x));
            assert(runs_items(r) =~= runs_items(r0).push(x));
            assert(p0.push(x) =~= items);
        } else {
            assert(r == r0.push((x, 1nat)));
            assert(r.drop_last() =~= r0);
            assert(Seq::new(1nat, |i: int| x) =~= seq![x]);
            assert(runs_items(r) =~= runs_items(r0).push(x));
            assert(p0.push(x) =~= items);
            assert forall|k: int| 0 <= k < r.len() - 1 implies (#[trigger] r[k]).0 != r[k + 1].0 by {
                if k < r0.len() - 1 {
                    assert(r[k] == r0[k] && r[k + 1] == r0[k + 1]);
                } else {
                    assert(r[k] == r0.last());
                }
            }
        }
    }
}

/// The item of every run is one of the items.
pub proof fn lemma_run_items(ps: Seq<Seq<char>>, k: int)
    requires
        0 <= k < runs_spec(ps).len(),
    ensures
        exists|i: int| 0 <= i < ps.len() && ps[i] == runs_spec(ps)[k].0,
    decreases ps.len(),
{
    let p0 = ps.drop_last();
    let r0 = runs_spec(p0);
    if k < r0.len() && !(k == r0.len() - 1 && r0.last().0 == ps.last()) {
        lemma_run_items(p0, k);
        let i = choose|i: int| 0 <= i < p0.len() && p0[i] == r0[k].0;
        assert(ps[i] == p0[i]);
    } else {
        assert(ps[ps.len() - 1] == runs_spec(ps)[k].0);
    }
}

/// A join starts with its first piece.
pub proof fn lemma_join_first(ps: Seq<Seq<char>>)
    requires
        ps.len() >= 1,
        ps[0].len() > 0,
    ensures
        join_spec(ps, '+').len() > 0,
        join_spec(ps, '+')[0] == ps[0][0],
    decreases ps.len(),
{
    if ps.len() > 1 {
        lemma_join_first(ps.drop_last());
    }
}


pub proof fn lemma_delta_text_step(v: Seq<u32>, k: int)
    requires
        1 <= k < v.len(),
        nondecreasing(v),
    ensures
        delta_text(v.take(k + 1)) == delta_text(v.take(k)).push('+') + decimal(
            (v[k] - v[k - 1]) as nat,
        ),
{
    let a = decimals(deltas_spec(v.take(k + 1)));
    assert(a.drop_last() =~= decimals(deltas_spec(v.take(k))));
    assert(a.last() == decimal((v[k] - v[k - 1]) as nat));
}

/// The notation of one sorted, non-empty coordinate list: its first value,
/// then each difference to the value before, compressed by runs.
#[verifier::spinoff_prover]
pub fn coords_to_math(v: &[u32]) -> (res: Vec<char>)
    requires
        v@.len() >= 1,
        deltas_fit(v@),
        nondecreasing(v@),
    ensures
        res@ == coords_math_spec(v@),
{
    let mut text: Vec<char> = Vec::new();
    push_decimal(&mut text, v[0]);
    proof {
        let a = decimals(deltas_spec(v@.take(1)));
        assert(a =~= seq![decimal(v@[0] as nat)]);
    }
    let mut k: usize = 1;
    while k < v.len()
        invariant
            1 <= k <= v@.len(),
            nondecreasing(v@),
            text@ == delta_text(v@.take(k as int)),
        decreases v.len() - k,
    {
        assert(v@[k - 1] <= v@[k as int]);
        proof {
            lemma_delta_text_step(v@, k as int);
        }
        text.push('+');
        push_decimal(&mut text, v[k] - v[k - 1]);
        k = k + 1;
    }
    assert(v@.take(v@.len() as int) =~= v@);
    proof {
        lemma_delta_text_items(v@);
    }
    optimize_math_chars(text.as_slice())
}

/// Each coordinate list written in the notation, keys kept.
pub fn vec_to_math<K>(input: Vec<(K, Vec<u32>)>) -> (res: Vec<(K, Vec<char>)>)
    requires
        forall|k: int|
            0 <= k < input@.len() ==> {
                &&& (#[trigger] input@[k]).1@.len() >= 1
                &&& deltas_fit(input@[k].1@)
                &&& nondecreasing(input@[k].1@)
            },
    ensures
        res@.len() == input@.len(),
        forall|k: int|
            0 <= k < res@.len() ==> {
                &&& (#[trigger] res@[k]).0 == input@[k].0
                &&& res@[k].1@ == coords_math_spec(input@[k].1@)
            },
{
    let ghost orig = input@;
    let mut out: Vec<(K, Vec<char>)> = Vec::new();
    let mut rest = input;
    assert(rest@ =~= orig.skip(0));
    while rest.len() > 0
        invariant
            out@.len() + rest@.len() == orig.len(),
            rest@ =~= orig.skip(out@.len() as int),
            forall|k: int|
                0 <= k < orig.len() ==> {
                    &&& (#[trigger] orig[k]).1@.len() >= 1
                    &&& deltas_fit(orig[k].1@)
                    &&& nondecreasing(orig[k].1@)
                },
            forall|k: int|
                0 <= k < out@.len() ==> {
                    &&& (#[trigger] out@[k]).0 == orig[k].0
                    &&& out@[k].1@ == coords_math_spec(orig[k].1@)
                },
        decreases rest@.len(),
    {
        let ghost i = out@.len() as int;
        let (key, coords) = rest.remove(0);
        assert(orig[i].0 == key && orig[i].1 == coords);
        let m = coords_to_math(coords.as_slice());
        out.push((key, m));
        assert(rest@ =~= orig.skip(out@.len() as int));
    }
    out
}

/// The non-empty parts are non-empty, and each is one of the parts.
pub proof fn lemma_nonempty_parts_from(parts: Seq<Seq<char>>)
    ensures
        forall|k: int|
            0 <= k < nonempty_parts(parts).len() ==> (#[trigger] nonempty_parts(parts)[k]).len() > 0
                && exists|i: int| 0 <= i < parts.len() && parts[i] == nonempty_parts(parts)[k],
    decreases parts.len(),
{
    if parts.len() > 0 {
        let p0 = parts.drop_last();
        lemma_nonempty_parts_from(p0);
        let n0 = nonempty_parts(p0);
        let n = nonempty_parts(parts);
        assert forall|k: int| 0 <= k < n.len() implies (#[trigger] n[k]).len() > 0 && exists|i: int|
            0 <= i < parts.len() && parts[i] == n[k] by {
            if k < n0.len() {
                assert(n[k] == n0[k]);
                let i = choose|i: int| 0 <= i < p0.len() && p0[i] == n0[k];
                assert(parts[i] == p0[i]);
            } else {
                assert(n[k] == parts[parts.len() - 1]);
            }
        }
    }
}

/// Compressing the runs of a `+`-separated list and expanding them again
/// gives the list's items back, joined by `+` (the list holds no `*`).
pub proof fn law_optimize_expand(s: Seq<char>)
    requires
        free_of(s, '*'),
        math_items(s).len() >= 1,
        runs_fit(math_items(s)),
    ensures
        expand_math_spec(optimize_math_spec(s)) == Some(join_spec(math_items(s), '+')),
{
    let ps = math_items(s);
    let parts = split_spec(s, '+');
    lemma_split_then_join(s, '+');
    let nq = |c: char| c != '*';
    assert(all_chars(s, nq));
    lemma_split_chars(s, '+', nq);
    lemma_nonempty_parts_from(parts);
    assert forall|k: int| 0 <= k < ps.len() implies free_of(#[trigger] ps[k], '+') && free_of(ps[k], '*')
        && ps[k].len() > 0 by {
        let i = choose|i: int| 0 <= i < parts.len() && parts[i] == ps[k];
        assert(free_of(parts[i], '+'));
        assert(all_chars(parts[i], nq));
    }
    let rendered = render_runs(runs_spec(ps));
    lemma_runs_shape(ps);
    assert forall|k: int| 0 <= k < rendered.len() implies free_of(#[trigger] rendered[k], '+') by {
        let r = runs_spec(ps)[k];
        assert(rendered[k] == render_run(r));
        lemma_run_items(ps, k);
        let i = choose|i: int| 0 <= i < ps.len() && ps[i] == r.0;
        assert(free_of(ps[i], '+'));
        if r.1 > 1 {
            lemma_decimal_plain(r.1);
            let w = r.0.push('*') + decimal(r.1);
            assert forall|j: int| 0 <= j < w.len() implies w[j] != '+' by {
                if j < r.0.len() {
                    assert(w[j] == r.0[j]);
                } else if j > r.0.len() {
                    assert(w[j] == decimal(r.1)[j - r.0.len() - 1]);
                }
            }
        }
    }
    lemma_join_then_split(rendered, '+');
    lemma_expand_runs(ps);
    lemma_plus_join(ps);
    let w = join_spec(ps, '+');
    assert(w.len() > 0 && w[0] != '+') by {
        lemma_join_first(ps);
        assert(free_of(ps[0], '+'));
    }
    assert((seq!['+'] + w).drop_first() =~= w);
    assert(trim_start_spec(seq!['+'] + w, '+') == trim_start_spec(w, '+'));
}

/// A repetition of text without `*` has none.
proof fn lemma_repeat_no_star(t: Seq<char>, n: nat)
    requires
        all_chars(t, |c: char| c != '*'),
    ensures
        all_chars(repeat_spec(t, n), |c: char| c != '*'),
    decreases n,
{
    if n > 0 {
        lemma_repeat_no_star(t, (n - 1) as nat);
        lemma_concat_chars(repeat_spec(t, (n - 1) as nat), t, |c: char| c != '*');
    }
}

/// Expanded parts hold no `*`.
proof fn lemma_expand_parts_no_star(parts: Seq<Seq<char>>)
    requires
        expand_parts(parts) is Some,
    ensures
        all_chars(expand_parts(parts)->0, |c: char| c != '*'),
    decreases parts.len(),
{
    let q = |c: char| c != '*';
    if parts.len() > 0 {
        let p = parts.last();
        lemma_expand_parts_no_star(parts.drop_last());
        let b = expand_part(p)->0;
        assert(all_chars(b, q)) by {
            if !free_of(p, '*') {
                let f = split_spec(p, '*');
                lemma_split_has_two(p, '*');
                lemma_split_then_join(p, '*');
                assert(free_of(f[0], '*'));
                assert(all_chars(seq!['+'] + f[0], q)) by {
                    assert forall|i: int| 0 <= i < (seq!['+'] + f[0]).len() implies q(#[trigger] (seq!['+'] + f[0])[i]) by {
                        if i > 0 {
                            assert((seq!['+'] + f[0])[i] == f[0][i - 1]);
                        }
                    }
                }
                lemma_repeat_no_star(seq!['+'] + f[0], parse_u32_spec(f[1])->0 as nat);
            } else {
                assert forall|i: int| 0 <= i < (seq!['+'] + p).len() implies q(#[trigger] (seq!['+'] + p)[i]) by {
                    if i > 0 {
                        assert((seq!['+'] + p)[i] == p[i - 1]);
                    }
                }
            }
        }
        lemma_concat_chars(expand_parts(parts.drop_last())->0, b, q);
    }
}

/// Trimming a leading run keeps what the text avoids, and leaves a text
/// that does not start with the trimmed character.
proof fn lemma_trim_start_shape(t: Seq<char>, c: char, q: spec_fn(char) -> bool)
    requires
        all_chars(t, q),
    ensures
        all_chars(trim_start_spec(t, c), q),
        trim_start_spec(t, c).len() > 0 ==> trim_start_spec(t, c)[0] != c,
    decreases t.len(),
{
    if t.len() > 0 && t[0] == c {
        assert(all_chars(t.drop_first(), q)) by {
            assert forall|i: int| 0 <= i < t.drop_first().len() implies q(#[trigger] t.drop_first()[i]) by {
                assert(t.drop_first()[i] == t[i + 1]);
            }
        }
        lemma_trim_start_shape(t.drop_first(), c, q);
    }
}

/// Text without `*` expands, part by part, to `+` and the part.
proof fn lemma_expand_parts_plain(ps: Seq<Seq<char>>)
    requires
        all_free_of(ps, '*'),
    ensures
        expand_parts(ps) == Some(plus_join(ps)),
    decreases ps.len(),
{
    if ps.len() > 0 {
        let p0 = ps.drop_last();
        assert forall|k: int| 0 <= k < p0.len() implies free_of(#[trigger] p0[k], '*') by {
            assert(free_of(ps[k], '*'));
        }
        lemma_expand_parts_plain(p0);
        assert(free_of(ps[ps.len() - 1], '*'));
    }
}

/// Expanding twice is expanding once: an expansion holds no `*`, does not
/// start with `+`, and expands to itself.
pub proof fn law_expand_idempotent(s: Seq<char>)
    requires
        expand_math_spec(s) is Some,
    ensures
        free_of(expand_math_spec(s)->0, '*'),
        expand_math_spec(s)->0.len() > 0 ==> expand_math_spec(s)->0[0] != '+',
        expand_math_spec(expand_math_spec(s)->0) == expand_math_spec(s),
{
    let q = |c: char| c != '*';
    let t = expand_parts(split_spec(s, '+'))->0;
    lemma_expand_parts_no_star(split_spec(s, '+'));
    lemma_trim_start_shape(t, '+', q);
    let r = trim_start_spec(t, '+');
    assert(free_of(r, '*')) by {
        assert forall|i: int| 0 <= i < r.len() implies r[i] != '*' by {
            assert(q(r[i]));
        }
    }
    // the expansion expands to itself
    let ps = split_spec(r, '+');
    lemma_split_then_join(r, '+');
    lemma_split_len(r, '+');
    let nq = |c: char| c != '*';
    assert(all_chars(r, nq)) by {
        assert forall|i: int| 0 <= i < r.len() implies nq(#[trigger] r[i]) by {}
    }
    lemma_split_chars(r, '+', nq);
    assert forall|k: int| 0 <= k < ps.len() implies free_of(#[trigger] ps[k], '*') by {
        assert(all_chars(ps[k], nq));
    }
    lemma_expand_parts_plain(ps);
    lemma_plus_join(ps);
    assert(plus_join(ps) == seq!['+'] + r);
    assert((seq!['+'] + r).drop_first() =~= r);
    assert(trim_start_spec(seq!['+'] + r, '+') == trim_start_spec(r, '+'));
}

} // verus!
