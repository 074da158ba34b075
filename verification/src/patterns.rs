//! Pattern compression of the text: the substring that would save the most
//! is replaced by the letter `a`, and the dictionary `_$pattern$a` appended.
use vstd::prelude::*;
use rayon::slice::ParallelSliceMut;
use std::cmp::Ordering;
use crate::restore::{occurs_at, replace_chars, replace_spec};
use crate::text::{chars_of, copy_range, string_of};

verus! {

/// `x` put before the first element whose key is smaller.
pub open spec fn insert_desc<X>(s: Seq<(i64, X)>, x: (i64, X)) -> Seq<(i64, X)>
    decreases s.len(),
{
    if s.len() == 0 {
        seq![x]
    } else if s[0].0 < x.0 {
        seq![x] + s
    } else {
        seq![s[0]] + insert_desc(s.drop_first(), x)
    }
}

/// The stable sort by key, largest key first: equal keys keep their order.
pub open spec fn sort_desc<X>(s: Seq<(i64, X)>) -> Seq<(i64, X)>
    decreases s.len(),
{
    if s.len() == 0 {
        Seq::<(i64, X)>::empty()
    } else {
        insert_desc(sort_desc(s.drop_last()), s.last())
    }
}

/// The order of the counted windows: the larger first element comes first,
/// equal first elements compare equal.
fn desc_order(a: &(i64, u64), b: &(i64, u64)) -> (res: Ordering)
    ensures
        res matches Ordering::Less <==> b.0 < a.0,
        res matches Ordering::Equal <==> a.0 == b.0,
        res matches Ordering::Greater <==> a.0 < b.0,
{
    if b.0 < a.0 {
        Ordering::Less
    } else if a.0 == b.0 {
        Ordering::Equal
    } else {
        Ordering::Greater
    }
}

/// `rayon`'s `par_sort_by` with `desc_order` as the comparator: a stable
/// sort (its documentation says so), largest first element first.
#[verifier::external_body]
fn par_sort_desc(v: &mut Vec<(i64, u64)>)
    ensures
        final(v)@ == sort_desc(old(v)@),
{
    v.par_sort_by(|a, b| desc_order(a, b));
}

/// The index of the first entry with key `k`, or `-1`.
pub open spec fn find_count(c: Seq<(i64, Seq<char>)>, k: Seq<char>) -> int
    decreases c.len(),
{
    if c.len() == 0 {
        -1
    } else {
        let r = find_count(c.drop_last(), k);
        if r >= 0 {
            r
        } else if c.last().1 == k {
            c.len() - 1
        } else {
            -1
        }
    }
}

/// How often each window occurs, the windows in order of first occurrence.
pub open spec fn count_windows(ws: Seq<Seq<char>>) -> Seq<(i64, Seq<char>)>
    decreases ws.len(),
{
    if ws.len() == 0 {
        Seq::<(i64, Seq<char>)>::empty()
    } else {
        let c = count_windows(ws.drop_last());
        let i = find_count(c, ws.last());
        if i >= 0 {
            c.update(i, ((c[i].0 + 1) as i64, ws.last()))
        } else {
            c.push((1i64, ws.last()))
        }
    }
}

/// The substrings of length `step`, from each position (the text is at
/// least that long).
pub open spec fn windows(t: Seq<char>, step: int) -> Seq<Seq<char>> {
    Seq::new((t.len() - step + 1) as nat, |i: int| t.subrange(i, i + step))
}

/// At most the first two elements.
pub open spec fn first_two<X>(s: Seq<X>) -> Seq<X> {
    if s.len() <= 2 {
        s
    } else {
        s.take(2)
    }
}

/// What `find_pattern` returns: the two most frequent substrings of length
/// `step` (ties in order of first occurrence), with their counts.
pub open spec fn top_patterns(t: Seq<char>, step: int) -> Seq<(i64, Seq<char>)> {
    first_two(sort_desc(count_windows(windows(t, step))))
}

/// The patterns found more than once, with what replacing them would save:
/// `count * (length - 2) - 1`.
pub open spec fn savings(top: Seq<(i64, Seq<char>)>, step: int) -> Seq<(i64, Seq<char>)>
    decreases top.len(),
{
    if top.len() == 0 {
        Seq::<(i64, Seq<char>)>::empty()
    } else {
        let r = savings(top.drop_last(), step);
        let (count, p) = top.last();
        if count != 1 {
            r.push(((count * (step - 2) - 1) as i64, p))
        } else {
            r
        }
    }
}

/// The worthy patterns of the sizes `min ..= hi`, in order of size.
pub open spec fn worthy(t: Seq<char>, min: int, hi: int) -> Seq<(i64, Seq<char>)>
    decreases hi - min + 1,
{
    if hi < min {
        Seq::<(i64, Seq<char>)>::empty()
    } else {
        worthy(t, min, hi - 1) + savings(top_patterns(t, hi), hi)
    }
}

/// The number of non-overlapping occurrences of `p`, found from the left
/// (`str::matches(p).count()`).
pub open spec fn count_matches(s: Seq<char>, p: Seq<char>) -> nat
    decreases s.len(),
{
    if p.len() == 0 || s.len() < p.len() {
        0
    } else if s.take(p.len() as int) == p {
        1 + count_matches(s.skip(p.len() as int), p)
    } else {
        count_matches(s.drop_first(), p)
    }
}

/// The pattern that would save most (the first of the best ones).
pub open spec fn best_pattern(t: Seq<char>, min: int, max: int) -> Seq<char> {
    sort_desc(worthy(t, min, max))[0].1
}

/// The text with its best pattern, where it occurs more than twice,
/// replaced by `a` and the dictionary `_$pattern$a` appended.
pub open spec fn remove_dup_spec(t: Seq<char>, min: int, max: int) -> Seq<char> {
    let p = best_pattern(t, min, max);
    if count_matches(t, p) > 2 {
        replace_spec(t, p, seq!['a']) + seq!['_', '$'] + p + seq!['$', 'a']
    } else {
        t
    }
}

pub open spec fn all_ascii(t: Seq<char>) -> bool {
    forall|i: int| 0 <= i < t.len() ==> (#[trigger] t[i] as u32) < 0x80
}

/// The savings `count * (size - 2) - 1` of every pattern counted for the
/// sizes `min ..= max` fit in 64 bits (where they do not, their computation
/// overflows).
pub open spec fn savings_fit(t: Seq<char>, min: int, max: int) -> bool {
    forall|step: int, k: int|
        #![trigger top_patterns(t, step)[k]]
        min <= step <= max && 0 <= k < top_patterns(t, step).len() ==> i64::MIN < top_patterns(t, step)[k].0 * (
        step - 2) <= i64::MAX
}

/// When pattern compression does not panic: the text is ASCII (the windows
/// are byte slices), at least `max` long, the savings fit, and some pattern
/// is worthy.
pub open spec fn remove_dup_ok(t: Seq<char>, min: int, max: int) -> bool {
    &&& all_ascii(t)
    &&& 1 <= min <= max
    &&& max <= t.len()
    &&& t.len() < 0x1000_0000_0000_0000
    &&& savings_fit(t, min, max)
    &&& worthy(t, min, max).len() >= 1
}

/// The savings fit where the text's length times the largest size does.
pub proof fn lemma_savings_fit(t: Seq<char>, min: int, max: int)
    requires
        1 <= min <= max <= t.len(),
        t.len() < 0x1000_0000_0000_0000,
        t.len() * max <= i64::MAX,
    ensures
        savings_fit(t, min, max),
{
    assert forall|step: int, k: int|
        #![trigger top_patterns(t, step)[k]]
        min <= step <= max && 0 <= k < top_patterns(t, step).len() implies i64::MIN < top_patterns(t, step)[k].0 * (
        step - 2) <= i64::MAX by {
        let ws = windows(t, step);
        let cw = count_windows(ws);
        lemma_count_windows_bound(ws);
        lemma_sort_desc_contains(cw);
        lemma_sort_desc_len(cw);
        let sd = sort_desc(cw);
        let e = top_patterns(t, step)[k];
        assert(e == sd[k]);
        assert(sd.contains(sd[k]));
        let j = choose|j: int| 0 <= j < cw.len() && cw[j] == sd[k];
        let c = e.0 as int;
        assert(1 <= c <= t.len());
        let n = t.len() as int;
        let f = step - 2;
        assert(-n <= c * f <= n * max) by (nonlinear_arith)
            requires
                1 <= c <= n,
                -1 <= f <= max,
                1 <= max,
        ;
    }
}


pub proof fn lemma_find_count(c: Seq<(i64, Seq<char>)>, k: Seq<char>)
    ensures
        -1 <= find_count(c, k) < c.len(),
        find_count(c, k) >= 0 ==> c[find_count(c, k)].1 == k,
        forall|j: int| 0 <= j < c.len() && (j < find_count(c, k) || find_count(c, k) == -1) ==> c[j].1 != k,
    decreases c.len(),
{
    if c.len() > 0 {
        lemma_find_count(c.drop_last(), k);
        assert forall|j: int| 0 <= j < c.len() && (j < find_count(c, k) || find_count(c, k) == -1)
            implies c[j].1 != k by {
            if j < c.len() - 1 {
                assert(c[j] == c.drop_last()[j]);
            }
        }
    }
}

pub proof fn lemma_find_count_is(c: Seq<(i64, Seq<char>)>, k: Seq<char>, i: int)
    requires
        -1 <= i < c.len(),
        i >= 0 ==> c[i].1 == k,
        forall|j: int| 0 <= j < c.len() && (j < i || i == -1) ==> c[j].1 != k,
    ensures
        find_count(c, k) == i,
{
    lemma_find_count(c, k);
    let f = find_count(c, k);
    if f >= 0 && i >= 0 {
        if f < i {
            assert(c[f].1 != k);
        } else if i < f {
            assert(c[i].1 != k);
        }
    } else if f >= 0 {
        assert(c[f].1 != k);
    } else if i >= 0 {
        assert(c[i].1 != k);
    }
}

pub proof fn lemma_count_windows_bound(ws: Seq<Seq<char>>)
    requires
        ws.len() < 0x1000_0000_0000_0000,
    ensures
        count_windows(ws).len() <= ws.len(),
        forall|k: int|
            0 <= k < count_windows(ws).len() ==> 1 <= (#[trigger] count_windows(ws)[k]).0 <= ws.len(),
    decreases ws.len(),
{
    if ws.len() > 0 {
        let c = count_windows(ws.drop_last());
        lemma_count_windows_bound(ws.drop_last());
        lemma_find_count(c, ws.last());
        let i = find_count(c, ws.last());
        let r = count_windows(ws);
        assert forall|k: int| 0 <= k < r.len() implies 1 <= (#[trigger] r[k]).0 <= ws.len() by {
            if i >= 0 && k == i {
                assert(r[k].0 == c[i].0 + 1);
            } else if k < c.len() {
                assert(r[k] == c[k]);
            }
        }
    }
}

/// Sorting by key does not look at the rest of an element.
proof fn lemma_count_windows_keys(ws: Seq<Seq<char>>, len: int)
    requires
        forall|i: int| 0 <= i < ws.len() ==> (#[trigger] ws[i]).len() == len,
    ensures
        forall|k: int| 0 <= k < count_windows(ws).len() ==> (#[trigger] count_windows(ws)[k]).1.len() == len,
    decreases ws.len(),
{
    if ws.len() > 0 {
        let w0 = ws.drop_last();
        assert forall|i: int| 0 <= i < w0.len() implies (#[trigger] w0[i]).len() == len by {
            assert(w0[i] == ws[i]);
        }
        lemma_count_windows_keys(w0, len);
        lemma_find_count(count_windows(w0), ws.last());
        assert(ws[ws.len() - 1].len() == len);
    }
}

pub proof fn lemma_insert_desc_map<X, Y>(s: Seq<(i64, X)>, x: (i64, X), f: spec_fn(X) -> Y)
    ensures
        insert_desc(s.map_values(|e: (i64, X)| (e.0, f(e.1))), (x.0, f(x.1))) == insert_desc(s, x).map_values(
            |e: (i64, X)| (e.0, f(e.1)),
        ),
    decreases s.len(),
{
    let m = s.map_values(|e: (i64, X)| (e.0, f(e.1)));
    if s.len() == 0 {
        assert(insert_desc(s, x).map_values(|e: (i64, X)| (e.0, f(e.1))) =~= seq![(x.0, f(x.1))]);
    } else if s[0].0 < x.0 {
        assert(insert_desc(s, x).map_values(|e: (i64, X)| (e.0, f(e.1))) =~= seq![(x.0, f(x.1))] + m);
    } else {
        lemma_insert_desc_map(s.drop_first(), x, f);
        assert(m.drop_first() =~= s.drop_first().map_values(|e: (i64, X)| (e.0, f(e.1))));
        assert(insert_desc(s, x).map_values(|e: (i64, X)| (e.0, f(e.1))) =~= seq![m[0]] + insert_desc(
            m.drop_first(),
            (x.0, f(x.1)),
        ));
    }
}

pub proof fn lemma_sort_desc_map<X, Y>(s: Seq<(i64, X)>, f: spec_fn(X) -> Y)
    ensures
        sort_desc(s.map_values(|e: (i64, X)| (e.0, f(e.1)))) == sort_desc(s).map_values(
            |e: (i64, X)| (e.0, f(e.1)),
        ),
    decreases s.len(),
{
    if s.len() > 0 {
        let m = s.map_values(|e: (i64, X)| (e.0, f(e.1)));
        lemma_sort_desc_map(s.drop_last(), f);
        assert(m.drop_last() =~= s.drop_last().map_values(|e: (i64, X)| (e.0, f(e.1))));
        lemma_insert_desc_map(sort_desc(s.drop_last()), s.last(), f);
    }
}

proof fn lemma_insert_desc_contains<X>(s: Seq<(i64, X)>, x: (i64, X))
    ensures
        forall|e: (i64, X)| #[trigger] insert_desc(s, x).contains(e) ==> s.contains(e) || e == x,
    decreases s.len(),
{
    if s.len() > 0 && !(s[0].0 < x.0) {
        lemma_insert_desc_contains(s.drop_first(), x);
        let r = insert_desc(s, x);
        assert forall|e: (i64, X)| #[trigger] r.contains(e) implies s.contains(e) || e == x by {
            let i = choose|i: int| 0 <= i < r.len() && r[i] == e;
            if i == 0 {
                assert(s[0] == e);
            } else {
                let it = insert_desc(s.drop_first(), x);
                assert(it[i - 1] == e);
                assert(it.contains(e));
                if s.drop_first().contains(e) {
                    let k = choose|k: int| 0 <= k < s.drop_first().len() && s.drop_first()[k] == e;
                    assert(s[k + 1] == e);
                }
            }
        }
    } else {
        let r = insert_desc(s, x);
        assert forall|e: (i64, X)| #[trigger] r.contains(e) implies s.contains(e) || e == x by {
            let i = choose|i: int| 0 <= i < r.len() && r[i] == e;
            if i > 0 {
                assert(s[i - 1] == e);
            }
        }
    }
}

/// Sorting only rearranges.
pub proof fn lemma_sort_desc_contains<X>(s: Seq<(i64, X)>)
    ensures
        forall|e: (i64, X)| #[trigger] sort_desc(s).contains(e) ==> s.contains(e),
    decreases s.len(),
{
    if s.len() > 0 {
        lemma_sort_desc_contains(s.drop_last());
        lemma_insert_desc_contains(sort_desc(s.drop_last()), s.last());
        assert forall|e: (i64, X)| #[trigger] sort_desc(s).contains(e) implies s.contains(e) by {
            if sort_desc(s.drop_last()).contains(e) {
                assert(s.drop_last().contains(e));
                let k = choose|k: int| 0 <= k < s.drop_last().len() && s.drop_last()[k] == e;
                assert(s[k] == e);
            } else {
                assert(s[s.len() - 1] == e);
            }
        }
    }
}

pub proof fn lemma_sort_desc_len<X>(s: Seq<(i64, X)>)
    ensures
        sort_desc(s).len() == s.len(),
    decreases s.len(),
{
    if s.len() > 0 {
        lemma_sort_desc_len(s.drop_last());
        lemma_insert_desc_len(sort_desc(s.drop_last()), s.last());
    }
}

proof fn lemma_insert_desc_len<X>(s: Seq<(i64, X)>, x: (i64, X))
    ensures
        insert_desc(s, x).len() == s.len() + 1,
    decreases s.len(),
{
    if s.len() > 0 {
        lemma_insert_desc_len(s.drop_first(), x);
    }
}

/// Whether the windows of length `step` at `a` and at `b` are equal.
fn windows_equal(t: &[char], a: usize, b: usize, step: usize) -> (res: bool)
    requires
        a + step <= t@.len(),
        b + step <= t@.len(),
    ensures
        res == (t@.subrange(a as int, a + step) == t@.subrange(b as int, b + step)),
{
    let mut i: usize = 0;
    let n = t.len();
    while i < step
        invariant
            0 <= i <= step,
            n == t@.len(),
            a + step <= n,
            b + step <= n,
            forall|j: int| 0 <= j < i ==> #[trigger] t@.subrange(a as int, a + step)[j] == t@.subrange(
                b as int,
                b + step,
            )[j],
        decreases step - i,
    {
        if t[a + i] != t[b + i] {
            assert(t@.subrange(a as int, a + step)[i as int] != t@.subrange(b as int, b + step)[i as int]);
            return false;
        }
        i = i + 1;
    }
    assert(t@.subrange(a as int, a + step) =~= t@.subrange(b as int, b + step));
    true
}

/// The counts viewed with their windows.
pub open spec fn counts_view(t: Seq<char>, step: int, c: Seq<(i64, usize)>) -> Seq<(i64, Seq<char>)> {
    c.map_values(|e: (i64, usize)| (e.0, t.subrange(e.1 as int, e.1 + step)))
}

/// The two most frequent substrings of length `step` and their counts (see
/// `top_patterns`).
pub fn find_pattern(t: &[char], step: usize) -> (res: Vec<(i64, Vec<char>)>)
    requires
        1 <= step <= t@.len(),
        t@.len() < 0x1000_0000_0000_0000,
    ensures
        res@.map_values(|e: (i64, Vec<char>)| (e.0, e.1@)) == top_patterns(t@, step as int),
        forall|q: int| 0 <= q < res@.len() ==> 1 <= (#[trigger] res@[q]).0 <= t@.len() && res@[q].1@.len() == step,
{
    let n = t.len() - step + 1;
    let ghost ws = windows(t@, step as int);
    let mut counts: Vec<(i64, usize)> = Vec::new();
    let mut i: usize = 0;
    assert(ws.take(0) =~= Seq::<Seq<char>>::empty());
    while i < n
        invariant
            0 <= i <= n,
            n == t@.len() - step + 1,
            t@.len() < 0x1000_0000_0000_0000,
            ws == windows(t@, step as int),
            forall|k: int| 0 <= k < counts@.len() ==> (#[trigger] counts@[k]).1 + step <= t@.len(),
            counts_view(t@, step as int, counts@) == count_windows(ws.take(i as int)),
        decreases n - i,
    {
        let ghost c = counts_view(t@, step as int, counts@);
        proof {
            lemma_count_windows_bound(ws.take(i as int));
            assert(ws.take(i + 1).drop_last() =~= ws.take(i as int));
            assert(ws.take(i + 1).last() == t@.subrange(i as int, i + step));
        }
        let mut j: usize = 0;
        while j < counts.len() && !windows_equal(t, counts[j].1, i, step)
            invariant
                0 <= j <= counts@.len(),
                i + step <= t@.len(),
                c == counts_view(t@, step as int, counts@),
                forall|k: int| 0 <= k < counts@.len() ==> (#[trigger] counts@[k]).1 + step <= t@.len(),
                forall|k: int| 0 <= k < j ==> (#[trigger] c[k]).1 != t@.subrange(i as int, i + step),
            decreases counts.len() - j,
        {
            j = j + 1;
        }
        if j < counts.len() {
            proof {
                lemma_find_count_is(c, t@.subrange(i as int, i + step), j as int);
                assert(c[j as int].0 <= i);
            }
            let (cnt, start) = counts[j];
            counts.set(j, (cnt + 1, start));
            assert(counts_view(t@, step as int, counts@) =~= c.update(
                j as int,
                ((c[j as int].0 + 1) as i64, t@.subrange(i as int, i + step)),
            ));
        } else {
            proof {
                lemma_find_count_is(c, t@.subrange(i as int, i + step), -1);
            }
            counts.push((1, i));
            assert(counts_view(t@, step as int, counts@) =~= c.push((1i64, t@.subrange(i as int, i + step))));
        }
        i = i + 1;
    }
    assert(ws.take(n as int) =~= ws);
    // sort (count, index) pairs, then look the windows up
    let mut keyed: Vec<(i64, u64)> = Vec::new();
    let mut k: usize = 0;
    while k < counts.len()
        invariant
            0 <= k <= counts@.len(),
            keyed@ == Seq::new(k as nat, |m: int| (counts@[m].0, m as u64)),
        decreases counts.len() - k,
    {
        keyed.push((counts[k].0, k as u64));
        k = k + 1;
        assert(keyed@ =~= Seq::new(k as nat, |m: int| (counts@[m].0, m as u64)));
    }
    let ghost before = keyed@;
    let ghost win = |m: u64| t@.subrange(counts@[m as int].1 as int, counts@[m as int].1 + step);
    assert(before.map_values(|e: (i64, u64)| (e.0, win(e.1))) =~= counts_view(t@, step as int, counts@));
    par_sort_desc(&mut keyed);
    proof {
        lemma_sort_desc_map(before, win);
        lemma_sort_desc_len(before);
        lemma_sort_desc_contains(before);
        assert forall|q: int| 0 <= q < keyed@.len() implies (#[trigger] keyed@[q]).1 < counts@.len() by {
            assert(keyed@.contains(keyed@[q]));
            assert(before.contains(keyed@[q]));
            let m = choose|m: int| 0 <= m < before.len() && before[m] == keyed@[q];
        }
    }
    let ghost sorted_view = keyed@.map_values(|e: (i64, u64)| (e.0, win(e.1)));
    assert(sorted_view == sort_desc(count_windows(ws)));
    let mut out: Vec<(i64, Vec<char>)> = Vec::new();
    let mut m: usize = 0;
    let tl = t.len();
    while m < keyed.len() && m < 2
        invariant
            tl == t@.len(),
            0 <= m <= keyed@.len(),
            m <= 2,
            keyed@.len() == counts@.len(),
            forall|q: int| 0 <= q < keyed@.len() ==> (#[trigger] keyed@[q]).1 < counts@.len(),
            forall|q: int| 0 <= q < counts@.len() ==> (#[trigger] counts@[q]).1 + step <= t@.len(),
            sorted_view == keyed@.map_values(|e: (i64, u64)| (e.0, win(e.1))),
            forall|q: u64|
                (q as int) < counts@.len() ==> #[trigger] win(q) == t@.subrange(
                    counts@[q as int].1 as int,
                    counts@[q as int].1 + step,
                ),
            out@.map_values(|e: (i64, Vec<char>)| (e.0, e.1@)) == sorted_view.take(m as int),
        decreases 2 - m,
    {
        let idx = keyed[m].1 as usize;
        let start = counts[idx].1;
        let w = copy_range(t, start, start + step);
        assert(sorted_view[m as int] == (keyed@[m as int].0, w@));
        let ghost prev = out@;
        let ghost wv = w@;
        out.push((keyed[m].0, w));
        assert(out@ == prev.push((keyed@[m as int].0, w)));
        assert(out@.map_values(|e: (i64, Vec<char>)| (e.0, e.1@)) =~= prev.map_values(
            |e: (i64, Vec<char>)| (e.0, e.1@),
        ).push((keyed@[m as int].0, wv)));
        assert(sorted_view.take(m + 1) =~= sorted_view.take(m as int).push(sorted_view[m as int]));
        m = m + 1;
        assert(out@.map_values(|e: (i64, Vec<char>)| (e.0, e.1@)) =~= sorted_view.take(m as int));
    }
    assert(first_two(sorted_view) =~= sorted_view.take(m as int));
    proof {
        let cw = count_windows(ws);
        lemma_count_windows_bound(ws);
        lemma_sort_desc_contains(cw);
        assert forall|q: int| 0 <= q < out@.len() implies 1 <= (#[trigger] out@[q]).0 <= t@.len() && out@[q].1@.len() == step by {
            assert(out@.map_values(|e: (i64, Vec<char>)| (e.0, e.1@))[q].0 == out@[q].0);
            assert(out@.map_values(|e: (i64, Vec<char>)| (e.0, e.1@))[q].1 == out@[q].1@);
            assert(sorted_view[q].0 == out@[q].0);
            assert(sort_desc(cw).contains(sorted_view[q]));
            let j = choose|j: int| 0 <= j < cw.len() && cw[j] == sorted_view[q];
            assert(1 <= cw[j].0 <= ws.len());
            lemma_count_windows_keys(ws, step as int);
            assert(cw[j].1.len() == step);
        }
    }
    out
}


/// The number of non-overlapping occurrences of `p` (see `count_matches`).
pub fn count_matches_exec(s: &[char], p: &[char]) -> (res: usize)
    requires
        p@.len() > 0,
    ensures
        res == count_matches(s@, p@),
{
    let mut count: usize = 0;
    let mut i: usize = 0;
    assert(s@.skip(0) =~= s@);
    while i < s.len()
        invariant
            0 <= i <= s@.len(),
            p@.len() > 0,
            count <= i,
            count_matches(s@, p@) == count + count_matches(s@.skip(i as int), p@),
        decreases s.len() - i,
    {
        let ghost rest = s@.skip(i as int);
        if occurs_at(s, p, i) {
            assert(rest.skip(p@.len() as int) =~= s@.skip(i + p@.len()));
            count = count + 1;
            i = i + p.len();
        } else {
            assert(rest.drop_first() =~= s@.skip(i + 1));
            i = i + 1;
        }
    }
    assert(s@.skip(i as int) =~= Seq::<char>::empty());
    count
}

/// What pattern compression needs besides a worthy pattern.
pub open spec fn remove_dup_input(t: Seq<char>, min: int, max: int) -> bool {
    &&& all_ascii(t)
    &&& 1 <= min <= max
    &&& max <= t.len()
    &&& t.len() < 0x1000_0000_0000_0000
    &&& savings_fit(t, min, max)
}

/// Compresses the text by its best pattern (see `remove_dup_spec`); `None`
/// where no pattern is worthy (there is no best one to take).
pub fn remove_dup_chars(t: &[char], min_pattern_size: usize, max_pattern_size: usize) -> (res: Option<Vec<char>>)
    requires
        remove_dup_input(t@, min_pattern_size as int, max_pattern_size as int),
    ensures
        match res {
            Some(v) => remove_dup_ok(t@, min_pattern_size as int, max_pattern_size as int)
                && v@ == remove_dup_spec(t@, min_pattern_size as int, max_pattern_size as int),
            None => worthy(t@, min_pattern_size as int, max_pattern_size as int).len() == 0,
        },
{
    let min = min_pattern_size;
    let max = max_pattern_size;
    let mut found: Vec<(i64, Vec<char>)> = Vec::new();
    let sizes = max - min + 1;
    let mut s: usize = 0;
    while s < sizes
        invariant
            1 <= min <= max,
            sizes == max - min + 1,
            s <= sizes,
            max <= t@.len(),
            t@.len() < 0x1000_0000_0000_0000,
            savings_fit(t@, min as int, max as int),
            found@.map_values(|e: (i64, Vec<char>)| (e.0, e.1@)) == worthy(t@, min as int, min + s - 1),
            forall|r: int| 0 <= r < found@.len() ==> (#[trigger] found@[r]).1@.len() >= 1,
        decreases sizes - s,
    {
        let step = min + s;
        let top = find_pattern(t, step);
        let ghost topv = top@.map_values(|e: (i64, Vec<char>)| (e.0, e.1@));
        let ghost base = found@.map_values(|e: (i64, Vec<char>)| (e.0, e.1@));
        let mut q: usize = 0;
        assert(topv.take(0) =~= Seq::<(i64, Seq<char>)>::empty());
        while q < top.len()
            invariant
                0 <= q <= top@.len(),
                2 <= step + 1,
                min <= step <= max,
                max <= t@.len(),
                t@.len() < 0x1000_0000_0000_0000,
                savings_fit(t@, min as int, max as int),
                topv == top_patterns(t@, step as int),
                topv == top@.map_values(|e: (i64, Vec<char>)| (e.0, e.1@)),
                forall|r: int| 0 <= r < top@.len() ==> 1 <= (#[trigger] top@[r]).0 <= t@.len() && top@[r].1@.len() == step,
                1 <= step,
                forall|r: int| 0 <= r < found@.len() ==> (#[trigger] found@[r]).1@.len() >= 1,
                found@.map_values(|e: (i64, Vec<char>)| (e.0, e.1@)) == base + savings(
                    topv.take(q as int),
                    step as int,
                ),
            decreases top.len() - q,
        {
            let cnt = top[q].0;
            assert(topv.take(q + 1).drop_last() =~= topv.take(q as int));
            assert(topv.take(q + 1).last() == topv[q as int]);
            if cnt != 1 {
                let f = step as i64 - 2;
                assert(topv[q as int].0 == cnt);
                assert(i64::MIN < top_patterns(t@, step as int)[q as int].0 * (step - 2) <= i64::MAX);
                assert(cnt * f == top_patterns(t@, step as int)[q as int].0 * (step - 2));
                let save = cnt * f - 1;
                let pat = top[q].1.clone();
                let ghost prev = found@;
                found.push((save, pat));
                assert(found@.map_values(|e: (i64, Vec<char>)| (e.0, e.1@)) =~= prev.map_values(
                    |e: (i64, Vec<char>)| (e.0, e.1@),
                ).push((save, topv[q as int].1)));
            }
            q = q + 1;
        }
        assert(topv.take(top@.len() as int) =~= topv);
        s = s + 1;
    }
    let ghost wv = found@.map_values(|e: (i64, Vec<char>)| (e.0, e.1@));
    if found.len() == 0 {
        return None;
    }
    // the best pattern
    let mut keyed: Vec<(i64, u64)> = Vec::new();
    let mut k: usize = 0;
    while k < found.len()
        invariant
            0 <= k <= found@.len(),
            keyed@ == Seq::new(k as nat, |m: int| (found@[m].0, m as u64)),
        decreases found.len() - k,
    {
        keyed.push((found[k].0, k as u64));
        k = k + 1;
        assert(keyed@ =~= Seq::new(k as nat, |m: int| (found@[m].0, m as u64)));
    }
    let ghost before = keyed@;
    let ghost pat_of = |m: u64| found@[m as int].1@;
    assert(before.map_values(|e: (i64, u64)| (e.0, pat_of(e.1))) =~= wv);
    par_sort_desc(&mut keyed);
    proof {
        lemma_sort_desc_map(before, pat_of);
        lemma_sort_desc_len(before);
        lemma_sort_desc_contains(before);
        assert(keyed@.contains(keyed@[0]));
        assert(before.contains(keyed@[0]));
        let m = choose|m: int| 0 <= m < before.len() && before[m] == keyed@[0];
        assert(keyed@[0].1 == m as u64);
    }
    let idx = keyed[0].1 as usize;
    let best = &found[idx].1;
    assert(best@ == best_pattern(t@, min as int, max as int)) by {
        assert(sort_desc(wv)[0] == (keyed@[0].0, pat_of(keyed@[0].1)));
    }
    let n = count_matches_exec(t, best.as_slice());
    if n > 2 {
        let mut a: Vec<char> = Vec::new();
        a.push('a');
        let mut out = replace_chars(t, best.as_slice(), a.as_slice());
        let ghost r = out@;
        out.push('_');
        out.push('$');
        let mut i: usize = 0;
        while i < best.len()
            invariant
                0 <= i <= best@.len(),
                out@ == r + seq!['_', '$'] + best@.take(i as int),
            decreases best.len() - i,
        {
            out.push(best[i]);
            i = i + 1;
            assert(out@ =~= r + seq!['_', '$'] + best@.take(i as int));
        }
        assert(best@.take(best@.len() as int) =~= best@);
        out.push('$');
        out.push('a');
        assert(out@ =~= r + seq!['_', '$'] + best@ + seq!['$', 'a']);
        Some(out)
    } else {
        Some(copy_range(t, 0, t.len()))
    }
}

/// Replaces the substring that would save most by `a`, where it occurs
/// more than twice, and appends the dictionary `_$pattern$a`.
pub fn remove_dup_patterns(
    compressed: String,
    min_pattern_size: usize,
    max_pattern_size: usize,
    verbose: bool,
) -> (res: String)
    requires
        remove_dup_ok(compressed@, min_pattern_size as int, max_pattern_size as int),
    ensures
        res@ == remove_dup_spec(compressed@, min_pattern_size as int, max_pattern_size as int),
{
    let t = chars_of(compressed.as_str());
    let out = remove_dup_chars(t.as_slice(), min_pattern_size, max_pattern_size).unwrap();
    string_of(&out)
}


/// Whether every character is ASCII.
pub fn is_all_ascii(t: &[char]) -> (res: bool)
    ensures
        res == all_ascii(t@),
{
    let mut i: usize = 0;
    while i < t.len()
        invariant
            0 <= i <= t@.len(),
            forall|j: int| 0 <= j < i ==> (#[trigger] t@[j] as u32) < 0x80,
        decreases t.len() - i,
    {
        if (t[i] as u32) >= 0x80 {
            return false;
        }
        i = i + 1;
    }
    true
}

} // verus!
