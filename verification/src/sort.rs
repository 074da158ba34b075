//! Sorting coordinate lists (what `slice::sort` does to the `u32` lists).
use vstd::prelude::*;

verus! {

/// `s` with `x` inserted before the first element that is not below it.
pub open spec fn insert_sorted(s: Seq<u32>, x: u32) -> Seq<u32>
    decreases s.len(),
{
    if s.len() == 0 {
        seq![x]
    } else if x <= s[0] {
        seq![x] + s
    } else {
        seq![s[0]] + insert_sorted(s.drop_first(), x)
    }
}

/// `s` in ascending order.
pub open spec fn sort_spec(s: Seq<u32>) -> Seq<u32>
    decreases s.len(),
{
    if s.len() == 0 {
        Seq::<u32>::empty()
    } else {
        insert_sorted(sort_spec(s.drop_last()), s.last())
    }
}

pub open spec fn sorted(s: Seq<u32>) -> bool {
    forall|i: int, j: int| 0 <= i <= j < s.len() ==> s[i] <= s[j]
}

proof fn lemma_insert_sorted(s: Seq<u32>, x: u32)
    requires
        sorted(s),
    ensures
        sorted(insert_sorted(s, x)),
        insert_sorted(s, x).len() == s.len() + 1,
        forall|e: u32| #[trigger] insert_sorted(s, x).contains(e) <==> (s.contains(e) || e == x),
        s.no_duplicates() && !s.contains(x) ==> insert_sorted(s, x).no_duplicates(),
    decreases s.len(),
{
    let r = insert_sorted(s, x);
    if s.len() == 0 {
        assert forall|e: u32| r.contains(e) <==> (s.contains(e) || e == x) by {
            if r.contains(e) {
                assert(r[0] == e);
            }
            if e == x {
                assert(r[0] == x);
            }
        }
    } else if x <= s[0] {
        assert forall|e: u32| r.contains(e) <==> (s.contains(e) || e == x) by {
            if r.contains(e) {
                let i = choose|i: int| 0 <= i < r.len() && r[i] == e;
                if i > 0 {
                    assert(s[i - 1] == e);
                }
            }
            if s.contains(e) {
                let i = choose|i: int| 0 <= i < s.len() && s[i] == e;
                assert(r[i + 1] == e);
            }
            if e == x {
                assert(r[0] == x);
            }
        }
        assert forall|i: int, j: int| 0 <= i <= j < r.len() implies r[i] <= r[j] by {
            if i > 0 {
                assert(r[i] == s[i - 1] && r[j] == s[j - 1]);
            } else if j > 0 {
                assert(r[j] == s[j - 1]);
                assert(s[0] <= s[j - 1]);
            }
        }
        if s.no_duplicates() && !s.contains(x) {
            assert forall|i: int, j: int| 0 <= i < r.len() && 0 <= j < r.len() && i != j implies r[i]
                != r[j] by {
                if i > 0 && j > 0 {
                    assert(r[i] == s[i - 1] && r[j] == s[j - 1]);
                } else if i == 0 {
                    assert(r[j] == s[j - 1]);
                } else {
                    assert(r[i] == s[i - 1]);
                }
            }
        }
    } else {
        let t = s.drop_first();
        assert(sorted(t)) by {
            assert forall|i: int, j: int| 0 <= i <= j < t.len() implies t[i] <= t[j] by {
                assert(t[i] == s[i + 1] && t[j] == s[j + 1]);
            }
        }
        lemma_insert_sorted(t, x);
        let it = insert_sorted(t, x);
        assert forall|e: u32| r.contains(e) <==> (s.contains(e) || e == x) by {
            if r.contains(e) {
                let i = choose|i: int| 0 <= i < r.len() && r[i] == e;
                if i > 0 {
                    let k = i - 1;
                    assert(0 <= k < it.len());
                    assert(it[k] == e);
                    assert(it.contains(e));
                    if t.contains(e) {
                        let k = choose|k: int| 0 <= k < t.len() && t[k] == e;
                        assert(s[k + 1] == e);
                    }
                } else {
                    assert(s[0] == e);
                }
            }
            if s.contains(e) {
                let i = choose|i: int| 0 <= i < s.len() && s[i] == e;
                if i > 0 {
                    assert(t[i - 1] == e);
                    assert(it.contains(e));
                    let k = choose|k: int| 0 <= k < it.len() && it[k] == e;
                    assert(r[k + 1] == e);
                } else {
                    assert(r[0] == e);
                }
            }
            if e == x {
                assert(it.contains(x));
                let k = choose|k: int| 0 <= k < it.len() && it[k] == x;
                assert(r[k + 1] == x);
            }
        }
        assert forall|i: int, j: int| 0 <= i <= j < r.len() implies r[i] <= r[j] by {
            if i > 0 {
                assert(r[i] == it[i - 1] && r[j] == it[j - 1]);
            } else if j > 0 {
                assert(r[j] == it[j - 1]);
                assert(it.contains(it[j - 1]));
                if t.contains(it[j - 1]) {
                    let k = choose|k: int| 0 <= k < t.len() && t[k] == it[j - 1];
                    assert(s[0] <= s[k + 1]);
                }
            }
        }
        if s.no_duplicates() && !s.contains(x) {
            assert(t.no_duplicates()) by {
                assert forall|i: int, j: int| 0 <= i < t.len() && 0 <= j < t.len() && i != j implies t[i]
                    != t[j] by {
                    assert(t[i] == s[i + 1] && t[j] == s[j + 1]);
                }
            }
            assert(!t.contains(x)) by {
                if t.contains(x) {
                    let k = choose|k: int| 0 <= k < t.len() && t[k] == x;
                    assert(s[k + 1] == x);
                }
            }
            assert forall|i: int, j: int| 0 <= i < r.len() && 0 <= j < r.len() && i != j implies r[i]
                != r[j] by {
                if i > 0 && j > 0 {
                    assert(r[i] == it[i - 1] && r[j] == it[j - 1]);
                } else {
                    let k = if i == 0 { j } else { i };
                    assert(r[k] == it[k - 1]);
                    assert(it.contains(it[k - 1]));
                    if it[k - 1] == s[0] {
                        if t.contains(s[0]) {
                            let m = choose|m: int| 0 <= m < t.len() && t[m] == s[0];
                            assert(s[m + 1] == s[0]);
                        }
                    }
                }
            }
        }
    }
}

/// The sorted list is ascending, as long, with the same elements, and
/// without repetitions where the list had none.
pub proof fn lemma_sort_spec(s: Seq<u32>)
    ensures
        sorted(sort_spec(s)),
        sort_spec(s).len() == s.len(),
        forall|e: u32| #[trigger] sort_spec(s).contains(e) <==> s.contains(e),
        s.no_duplicates() ==> sort_spec(s).no_duplicates(),
    decreases s.len(),
{
    if s.len() > 0 {
        let p = s.drop_last();
        lemma_sort_spec(p);
        lemma_insert_sorted(sort_spec(p), s.last());
        assert forall|e: u32| sort_spec(s).contains(e) <==> s.contains(e) by {
            if s.contains(e) {
                let i = choose|i: int| 0 <= i < s.len() && s[i] == e;
                if i < s.len() - 1 {
                    assert(p[i] == e);
                }
            }
            if p.contains(e) {
                let i = choose|i: int| 0 <= i < p.len() && p[i] == e;
                assert(s[i] == e);
            }
        }
        if s.no_duplicates() {
            assert(p.no_duplicates()) by {
                assert forall|i: int, j: int| 0 <= i < p.len() && 0 <= j < p.len() && i != j implies p[i]
                    != p[j] by {
                    assert(p[i] == s[i] && p[j] == s[j]);
                }
            }
            assert(!p.contains(s.last())) by {
                if p.contains(s.last()) {
                    let i = choose|i: int| 0 <= i < p.len() && p[i] == s.last();
                    assert(s[i] == s[s.len() - 1]);
                }
            }
        }
    }
}

/// The position at which `insert_sorted` puts `x`.
proof fn lemma_insert_at(s: Seq<u32>, x: u32, i: int)
    requires
        0 <= i <= s.len(),
        forall|j: int| 0 <= j < i ==> s[j] < x,
        i < s.len() ==> x <= s[i],
    ensures
        insert_sorted(s, x) == s.take(i).push(x) + s.skip(i),
    decreases s.len(),
{
    if s.len() == 0 {
        assert(s.take(i).push(x) + s.skip(i) =~= seq![x]);
    } else if i == 0 {
        assert(s.take(0).push(x) + s.skip(0) =~= seq![x] + s);
    } else {
        let t = s.drop_first();
        lemma_insert_at(t, x, i - 1);
        assert(s.take(i).push(x) + s.skip(i) =~= seq![s[0]] + (t.take(i - 1).push(x) + t.skip(i - 1)));
    }
}

/// `v` sorted in place, ascending.
pub fn sort_u32(v: &mut Vec<u32>)
    ensures
        final(v)@ == sort_spec(old(v)@),
{
    let ghost orig = old(v)@;
    let mut out: Vec<u32> = Vec::new();
    let mut k: usize = 0;
    while k < v.len()
        invariant
            0 <= k <= v@.len(),
            v@ == orig,
            out@ == sort_spec(orig.take(k as int)),
        decreases v.len() - k,
    {
        let x = v[k];
        proof {
            lemma_sort_spec(orig.take(k as int));
        }
        let mut i: usize = 0;
        while i < out.len() && out[i] < x
            invariant
                0 <= i <= out@.len(),
                forall|j: int| 0 <= j < i ==> out@[j] < x,
            decreases out.len() - i,
        {
            i = i + 1;
        }
        proof {
            lemma_insert_at(out@, x, i as int);
            assert(orig.take(k + 1).drop_last() =~= orig.take(k as int));
            assert(orig.take(k + 1).last() == x);
        }
        let ghost before = out@;
        out.insert(i, x);
        assert(out@ =~= before.take(i as int).push(x) + before.skip(i as int));
        k = k + 1;
    }
    assert(orig.take(orig.len() as int) =~= orig);
    *v = out;
}

} // verus!
