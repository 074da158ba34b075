//! Character-sequence helpers shared by the encoder and the decoder.
use vstd::prelude::*;

verus! {

broadcast use vstd::string::group_string_axioms;

/// The characters of `s`, in order.
pub fn chars_of(s: &str) -> (res: Vec<char>)
    ensures
        res@ == s@,
{
    let mut out: Vec<char> = Vec::new();
    for c in iter: s.chars()
        invariant
            iter.seq() == s@,
            out@ == iter.seq().take(iter.index() as int),
    {
        proof {
            assert(iter.seq().take(iter.index() as int).push(c) =~= iter.seq().take(iter.index() + 1));
        }
        out.push(c);
    }
    assert(out@ =~= s@);
    out
}

/// Collects characters into a `String` (std `FromIterator<&char> for String`).
#[verifier::external_body]
pub(crate) fn string_of(v: &Vec<char>) -> (res: String)
    ensures
        res@ == v@,
{
    v.iter().collect::<String>()
}

} // verus!

verus! {

/// The pieces of `s` between the occurrences of `sep`, as `str::split(char)`
/// yields them (there is always at least one piece).
pub open spec fn split_spec(s: Seq<char>, sep: char) -> Seq<Seq<char>>
    decreases s.len(),
{
    if s.len() == 0 {
        seq![Seq::<char>::empty()]
    } else {
        let r = split_spec(s.drop_last(), sep);
        if s.last() == sep {
            r.push(Seq::<char>::empty())
        } else {
            r.update(r.len() - 1, r.last().push(s.last()))
        }
    }
}

/// The pieces joined with `sep` between consecutive pieces.
pub open spec fn join_spec(parts: Seq<Seq<char>>, sep: char) -> Seq<char>
    decreases parts.len(),
{
    if parts.len() == 0 {
        Seq::<char>::empty()
    } else if parts.len() == 1 {
        parts[0]
    } else {
        join_spec(parts.drop_last(), sep).push(sep) + parts.last()
    }
}

pub open spec fn free_of(s: Seq<char>, c: char) -> bool {
    forall|i: int| 0 <= i < s.len() ==> s[i] != c
}

pub open spec fn all_free_of(parts: Seq<Seq<char>>, c: char) -> bool {
    forall|k: int| 0 <= k < parts.len() ==> free_of(#[trigger] parts[k], c)
}

pub proof fn lemma_split_len(s: Seq<char>, sep: char)
    ensures
        split_spec(s, sep).len() >= 1,
    decreases s.len(),
{
    if s.len() > 0 {
        lemma_split_len(s.drop_last(), sep);
    }
}

/// Text free of `sep` appended to `s` extends the last piece of the split.
pub proof fn lemma_split_append_free(s: Seq<char>, t: Seq<char>, sep: char)
    requires
        free_of(t, sep),
    ensures
        split_spec(s + t, sep) == split_spec(s, sep).update(
            split_spec(s, sep).len() - 1,
            split_spec(s, sep).last() + t,
        ),
    decreases t.len(),
{
    lemma_split_len(s, sep);
    if t.len() == 0 {
        assert(s + t =~= s);
        assert(split_spec(s, sep).last() + t =~= split_spec(s, sep).last());
        assert(split_spec(s, sep).update(split_spec(s, sep).len() - 1, split_spec(s, sep).last())
            =~= split_spec(s, sep));
    } else {
        let t0 = t.drop_last();
        lemma_split_append_free(s, t0, sep);
        assert((s + t).drop_last() =~= s + t0);
        assert((s + t).last() == t.last());
        lemma_split_len(s + t0, sep);
        let r = split_spec(s, sep);
        assert(r.last() + t0 + seq![t.last()] =~= r.last() + t);
        assert((r.last() + t0).push(t.last()) =~= r.last() + t);
        assert(split_spec(s + t, sep) =~= r.update(r.len() - 1, r.last() + t));
    }
}

/// No piece of a split contains the separator, and joining the pieces gives
/// back the text.
pub proof fn lemma_split_then_join(s: Seq<char>, sep: char)
    ensures
        all_free_of(split_spec(s, sep), sep),
        join_spec(split_spec(s, sep), sep) == s,
    decreases s.len(),
{
    lemma_split_len(s, sep);
    if s.len() > 0 {
        let s0 = s.drop_last();
        lemma_split_then_join(s0, sep);
        lemma_split_len(s0, sep);
        let r = split_spec(s0, sep);
        if s.last() == sep {
            let r2 = r.push(Seq::<char>::empty());
            assert(r2.drop_last() =~= r);
            assert(join_spec(r2, sep) =~= s);
        } else {
            let r2 = r.update(r.len() - 1, r.last().push(s.last()));
            assert forall|k: int| 0 <= k < r2.len() implies free_of(#[trigger] r2[k], sep) by {
                if k < r2.len() - 1 {
                    assert(r2[k] == r[k]);
                } else {
                    assert(free_of(r[k], sep));
                }
            }
            if r.len() == 1 {
                assert(join_spec(r2, sep) =~= s);
            } else {
                assert(r2.drop_last() =~= r.drop_last());
                assert(join_spec(r, sep) == join_spec(r.drop_last(), sep).push(sep) + r.last());
                assert(r2.last() == r.last().push(s.last()));
                assert(join_spec(r2, sep) == join_spec(r.drop_last(), sep).push(sep) + r2.last());
                assert(join_spec(r.drop_last(), sep).push(sep) + r.last().push(s.last())
                    =~= (join_spec(r.drop_last(), sep).push(sep) + r.last()).push(s.last()));
                assert(s =~= s0.push(s.last()));
                assert(join_spec(r2, sep) =~= s);
            }
        }
    }
}

/// Splitting a join of separator-free pieces gives back the pieces.
pub proof fn lemma_join_then_split(parts: Seq<Seq<char>>, sep: char)
    requires
        parts.len() >= 1,
        all_free_of(parts, sep),
    ensures
        split_spec(join_spec(parts, sep), sep) == parts,
    decreases parts.len(),
{
    if parts.len() == 1 {
        assert(free_of(parts[0], sep));
        lemma_split_append_free(Seq::<char>::empty(), parts[0], sep);
        assert(Seq::<char>::empty() + parts[0] =~= parts[0]);
        assert(split_spec(Seq::<char>::empty(), sep).update(0, Seq::<char>::empty() + parts[0])
            =~= parts);
    } else {
        let p0 = parts.drop_last();
        assert forall|k: int| 0 <= k < p0.len() implies free_of(#[trigger] p0[k], sep) by {
            assert(free_of(parts[k], sep));
        }
        lemma_join_then_split(p0, sep);
        let j0 = join_spec(p0, sep);
        let j1 = j0.push(sep);
        assert(j1.drop_last() =~= j0);
        assert(split_spec(j1, sep) == split_spec(j0, sep).push(Seq::<char>::empty()));
        assert(free_of(parts.last(), sep));
        lemma_split_append_free(j1, parts.last(), sep);
        assert(Seq::<char>::empty() + parts.last() =~= parts.last());
        assert(p0.push(Seq::<char>::empty()).update(parts.len() - 1, parts.last()) =~= parts);
    }
}

/// Copies `s[start..end]`.
pub fn copy_range(s: &[char], start: usize, end: usize) -> (res: Vec<char>)
    requires
        start <= end <= s@.len(),
    ensures
        res@ == s@.subrange(start as int, end as int),
{
    let mut out: Vec<char> = Vec::new();
    let mut i = start;
    while i < end
        invariant
            start <= i <= end <= s@.len(),
            out@ == s@.subrange(start as int, i as int),
        decreases end - i,
    {
        out.push(s[i]);
        i = i + 1;
        assert(out@ =~= s@.subrange(start as int, i as int));
    }
    out
}

/// The bounds, in `s`, of the pieces of `split_spec(s, sep)`.
pub fn split_ranges(s: &[char], sep: char) -> (res: Vec<(usize, usize)>)
    ensures
        res@.len() == split_spec(s@, sep).len(),
        forall|k: int|
            0 <= k < res@.len() ==> {
                &&& (#[trigger] res@[k]).0 <= res@[k].1 <= s@.len()
                &&& s@.subrange(res@[k].0 as int, res@[k].1 as int) == split_spec(s@, sep)[k]
            },
{
    let n = s.len();
    let mut out: Vec<(usize, usize)> = Vec::new();
    let mut start: usize = 0;
    let mut i: usize = 0;
    while i < n
        invariant
            n == s@.len(),
            start <= i <= n,
            split_spec(s@.take(i as int), sep).len() == out@.len() + 1,
            split_spec(s@.take(i as int), sep).last() == s@.subrange(start as int, i as int),
            forall|k: int|
                0 <= k < out@.len() ==> {
                    &&& (#[trigger] out@[k]).0 <= out@[k].1 <= s@.len()
                    &&& s@.subrange(out@[k].0 as int, out@[k].1 as int) == split_spec(
                        s@.take(i as int),
                        sep,
                    )[k]
                },
        decreases n - i,
    {
        let ghost old_sp = split_spec(s@.take(i as int), sep);
        assert(s@.take(i + 1).drop_last() =~= s@.take(i as int));
        assert(s@.take(i + 1).last() == s@[i as int]);
        if s[i] == sep {
            out.push((start, i));
            start = i + 1;
            assert(s@.subrange(start as int, i + 1) =~= Seq::<char>::empty());
        } else {
            assert(s@.subrange(start as int, i + 1) =~= s@.subrange(start as int, i as int).push(
                s@[i as int],
            ));
        }
        i = i + 1;
    }
    assert(s@.take(n as int) =~= s@);
    out.push((start, n));
    out
}

} // verus!

verus! {

/// Every character of `s` satisfies `q`.
pub open spec fn all_chars(s: Seq<char>, q: spec_fn(char) -> bool) -> bool {
    forall|i: int| 0 <= i < s.len() ==> q(#[trigger] s[i])
}

pub proof fn lemma_concat_chars(a: Seq<char>, b: Seq<char>, q: spec_fn(char) -> bool)
    ensures
        all_chars(a + b, q) == (all_chars(a, q) && all_chars(b, q)),
{
    if all_chars(a, q) && all_chars(b, q) {
        assert forall|i: int| 0 <= i < (a + b).len() implies q(#[trigger] (a + b)[i]) by {
            if i < a.len() {
                assert((a + b)[i] == a[i]);
            } else {
                assert((a + b)[i] == b[i - a.len()]);
            }
        }
    }
    if all_chars(a + b, q) {
        assert forall|i: int| 0 <= i < a.len() implies q(#[trigger] a[i]) by {
            assert((a + b)[i] == a[i]);
        }
        assert forall|i: int| 0 <= i < b.len() implies q(#[trigger] b[i]) by {
            assert((a + b)[i + a.len()] == b[i]);
        }
    }
}

/// Pieces whose characters satisfy `q`, joined by a separator that does too.
pub proof fn lemma_join_chars(parts: Seq<Seq<char>>, sep: char, q: spec_fn(char) -> bool)
    requires
        q(sep),
        forall|k: int| 0 <= k < parts.len() ==> all_chars(#[trigger] parts[k], q),
    ensures
        all_chars(join_spec(parts, sep), q),
    decreases parts.len(),
{
    if parts.len() == 1 {
        assert(all_chars(parts[0], q));
    } else if parts.len() > 1 {
        let p0 = parts.drop_last();
        assert forall|k: int| 0 <= k < p0.len() implies all_chars(#[trigger] p0[k], q) by {
            assert(p0[k] == parts[k]);
        }
        lemma_join_chars(p0, sep, q);
        let j = join_spec(p0, sep);
        lemma_concat_chars(j, seq![sep], q);
        assert(j.push(sep) =~= j + seq![sep]);
        assert(all_chars(parts[parts.len() - 1], q));
        lemma_concat_chars(j.push(sep), parts.last(), q);
    }
}

/// Characters that satisfy `q` differ from any character that does not.
pub proof fn lemma_chars_free(s: Seq<char>, q: spec_fn(char) -> bool, c: char)
    requires
        all_chars(s, q),
        !q(c),
    ensures
        free_of(s, c),
{
    assert forall|i: int| 0 <= i < s.len() implies s[i] != c by {
        assert(q(s[i]));
    }
}

/// A text free of the separator is a single piece.
pub proof fn lemma_split_free(s: Seq<char>, sep: char)
    requires
        free_of(s, sep),
    ensures
        split_spec(s, sep) == seq![s],
{
    lemma_split_append_free(Seq::<char>::empty(), s, sep);
    assert(Seq::<char>::empty() + s =~= s);
    assert(seq![Seq::<char>::empty()].update(0, Seq::<char>::empty() + s) =~= seq![s]);
}

/// A separator then a separator-free text add one piece.
pub proof fn lemma_split_sep_then(a: Seq<char>, b: Seq<char>, sep: char)
    requires
        free_of(b, sep),
    ensures
        split_spec(a.push(sep) + b, sep) == split_spec(a, sep).push(b),
{
    assert(a.push(sep).drop_last() =~= a);
    lemma_split_append_free(a.push(sep), b, sep);
    assert(Seq::<char>::empty() + b =~= b);
    assert(split_spec(a, sep).push(Seq::<char>::empty()).update(split_spec(a, sep).len() as int, b)
        =~= split_spec(a, sep).push(b));
}

/// The pieces of a split hold only characters of the text.
pub proof fn lemma_split_chars(s: Seq<char>, sep: char, q: spec_fn(char) -> bool)
    requires
        all_chars(s, q),
    ensures
        forall|k: int| 0 <= k < split_spec(s, sep).len() ==> all_chars(#[trigger] split_spec(s, sep)[k], q),
    decreases s.len(),
{
    lemma_split_len(s, sep);
    if s.len() > 0 {
        let s0 = s.drop_last();
        assert(all_chars(s0, q)) by {
            assert forall|i: int| 0 <= i < s0.len() implies q(#[trigger] s0[i]) by {
                assert(s0[i] == s[i]);
            }
        }
        lemma_split_chars(s0, sep, q);
        lemma_split_len(s0, sep);
        let r = split_spec(s0, sep);
        let r2 = split_spec(s, sep);
        assert forall|k: int| 0 <= k < r2.len() implies all_chars(#[trigger] r2[k], q) by {
            if s.last() == sep {
                if k < r.len() {
                    assert(r2[k] == r[k]);
                } else {
                    assert(r2[k] =~= Seq::<char>::empty());
                }
            } else {
                if k < r.len() - 1 {
                    assert(r2[k] == r[k]);
                } else {
                    assert(all_chars(r[r.len() - 1], q));
                    assert(q(s[s.len() - 1]));
                    lemma_concat_chars(r.last(), seq![s.last()], q);
                    assert(r.last().push(s.last()) =~= r.last() + seq![s.last()]);
                }
            }
        }
    }
}

} // verus!
