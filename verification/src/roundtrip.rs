//! What decoding gives back of what encoding wrote: pattern compression is
//! undone, a stored color reads back as itself, and an image comes back
//! pixel for pixel.
use vstd::prelude::*;
use crate::color::{
    display_rgba_spec, hex2, hex_color_parse_spec, hex_digit_upper, hex_pair, hex_pairs_doubled,
    hex_value, optimize_hex_spec, Rgba,
};
use crate::encode::color_text_spec;
use crate::math::nonempty_parts;
use crate::number::is_digit;
use crate::patterns::{
    best_pattern, count_windows, first_two, lemma_find_count, lemma_sort_desc_contains,
    lemma_sort_desc_len, remove_dup_ok, remove_dup_spec, savings, sort_desc, top_patterns, windows,
    worthy,
};
use crate::restore::{
    dictionary_tokens, expand_legacy, legacy_pair, replace_spec, restore_pairs, restore_spec,
};
use crate::text::{
    all_chars, free_of, lemma_chars_free, lemma_concat_chars, lemma_split_free,
    lemma_split_sep_then, split_spec,
};

verus! {

/// A character that pattern compression may meet in the text it compresses:
/// neither the pattern letter `a`, nor the dictionary markers `_` and `$`,
/// nor one of the characters the decoder reads as a pair of digits.
pub open spec fn pattern_free_char(c: char) -> bool {
    &&& c != 'a'
    &&& c != '_'
    &&& c != '$'
    &&& legacy_pair(c) is None
}

/// A window that pattern compression may pick from a text whose characters
/// satisfy `q`.
pub open spec fn window_ok(w: Seq<char>, min: int, max: int, q: spec_fn(char) -> bool) -> bool {
    &&& min <= w.len() <= max
    &&& all_chars(w, q)
}

proof fn lemma_count_windows_ok(ws: Seq<Seq<char>>, min: int, max: int, q: spec_fn(char) -> bool)
    requires
        forall|i: int| 0 <= i < ws.len() ==> window_ok(#[trigger] ws[i], min, max, q),
    ensures
        forall|k: int|
            0 <= k < count_windows(ws).len() ==> window_ok(#[trigger] count_windows(ws)[k].1, min, max, q),
    decreases ws.len(),
{
    if ws.len() > 0 {
        let w0 = ws.drop_last();
        assert forall|i: int| 0 <= i < w0.len() implies window_ok(#[trigger] w0[i], min, max, q) by {
            assert(w0[i] == ws[i]);
        }
        lemma_count_windows_ok(w0, min, max, q);
        lemma_find_count(count_windows(w0), ws.last());
        assert(window_ok(ws[ws.len() - 1], min, max, q));
    }
}

proof fn lemma_top_ok(t: Seq<char>, step: int, min: int, max: int, q: spec_fn(char) -> bool)
    requires
        1 <= min <= step <= max,
        step <= t.len(),
        all_chars(t, q),
    ensures
        forall|k: int|
            0 <= k < top_patterns(t, step).len() ==> window_ok(#[trigger] top_patterns(t, step)[k].1, min, max, q),
{
    let ws = windows(t, step);
    assert forall|i: int| 0 <= i < ws.len() implies window_ok(#[trigger] ws[i], min, max, q) by {
        assert(i + step <= t.len());
        let w = t.subrange(i, i + step);
        assert(ws[i] == w);
        assert forall|j: int| 0 <= j < w.len() implies q(#[trigger] w[j]) by {
            assert(w[j] == t[i + j]);
        }
    }
    lemma_count_windows_ok(ws, min, max, q);
    let cw = count_windows(ws);
    let sd = sort_desc(cw);
    lemma_sort_desc_contains(cw);
    lemma_sort_desc_len(cw);
    let top = top_patterns(t, step);
    assert forall|k: int| 0 <= k < top.len() implies window_ok(#[trigger] top[k].1, min, max, q) by {
        assert(top[k] == sd[k]);
        assert(sd.contains(sd[k]));
        let j = choose|j: int| 0 <= j < cw.len() && cw[j] == sd[k];
        assert(window_ok(cw[j].1, min, max, q));
    }
}

proof fn lemma_savings_ok(top: Seq<(i64, Seq<char>)>, step: int, min: int, max: int, q: spec_fn(char) -> bool)
    requires
        forall|k: int| 0 <= k < top.len() ==> window_ok(#[trigger] top[k].1, min, max, q),
    ensures
        forall|k: int|
            0 <= k < savings(top, step).len() ==> window_ok(#[trigger] savings(top, step)[k].1, min, max, q),
    decreases top.len(),
{
    if top.len() > 0 {
        let t0 = top.drop_last();
        assert forall|k: int| 0 <= k < t0.len() implies window_ok(#[trigger] t0[k].1, min, max, q) by {
            assert(t0[k] == top[k]);
        }
        lemma_savings_ok(t0, step, min, max, q);
        let r = savings(t0, step);
        assert(window_ok(top[top.len() - 1].1, min, max, q));
        let s = savings(top, step);
        assert forall|k: int| 0 <= k < s.len() implies window_ok(#[trigger] s[k].1, min, max, q) by {
            if k < r.len() {
                assert(s[k] == r[k]);
            } else {
                assert(s[k].1 == top.last().1);
            }
        }
    }
}

proof fn lemma_worthy_ok(t: Seq<char>, min: int, hi: int, max: int, q: spec_fn(char) -> bool)
    requires
        1 <= min,
        hi <= max,
        max <= t.len(),
        all_chars(t, q),
    ensures
        forall|k: int|
            0 <= k < worthy(t, min, hi).len() ==> window_ok(#[trigger] worthy(t, min, hi)[k].1, min, max, q),
    decreases hi - min + 1,
{
    if hi >= min {
        lemma_worthy_ok(t, min, hi - 1, max, q);
        lemma_top_ok(t, hi, min, max, q);
        lemma_savings_ok(top_patterns(t, hi), hi, min, max, q);
        let a = worthy(t, min, hi - 1);
        let b = savings(top_patterns(t, hi), hi);
        assert forall|k: int| 0 <= k < worthy(t, min, hi).len() implies window_ok(
            #[trigger] worthy(t, min, hi)[k].1,
            min,
            max,
            q,
        ) by {
            if k < a.len() {
                assert(worthy(t, min, hi)[k] == a[k]);
            } else {
                assert(worthy(t, min, hi)[k] == b[k - a.len()]);
            }
        }
    }
}

/// The pattern that compression picks is one of the text's windows: its
/// length lies between the sizes tried, and its characters are the text's.
pub proof fn lemma_best_pattern_ok(t: Seq<char>, min: int, max: int, q: spec_fn(char) -> bool)
    requires
        remove_dup_ok(t, min, max),
        all_chars(t, q),
    ensures
        window_ok(best_pattern(t, min, max), min, max, q),
{
    lemma_worthy_ok(t, min, max, max, q);
    let w = worthy(t, min, max);
    lemma_sort_desc_contains(w);
    lemma_sort_desc_len(w);
    let sd = sort_desc(w);
    assert(sd.contains(sd[0]));
    let j = choose|j: int| 0 <= j < w.len() && w[j] == sd[0];
    assert(window_ok(w[j].1, min, max, q));
}

/// Replacing the letter `a` in a text without it changes nothing.
proof fn lemma_replace_absent(s: Seq<char>, to: Seq<char>)
    requires
        free_of(s, 'a'),
    ensures
        replace_spec(s, seq!['a'], to) == s,
    decreases s.len(),
{
    if s.len() >= 1 {
        assert(s.take(1) != seq!['a']) by {
            assert(s.take(1)[0] == s[0]);
        }
        lemma_replace_absent(s.drop_first(), to);
        assert(seq![s[0]] + s.drop_first() =~= s);
    }
}

/// Replacing a pattern by `a`, then `a` by the pattern, gives the text back
/// where the text has no `a`.
proof fn lemma_replace_back(t: Seq<char>, p: Seq<char>)
    requires
        free_of(t, 'a'),
        p.len() >= 1,
    ensures
        replace_spec(replace_spec(t, p, seq!['a']), seq!['a'], p) == t,
    decreases t.len(),
{
    let a = seq!['a'];
    if t.len() < p.len() {
        lemma_replace_absent(t, p);
    } else if t.take(p.len() as int) == p {
        let rest = t.skip(p.len() as int);
        lemma_replace_back(rest, p);
        let r = a + replace_spec(rest, p, a);
        assert(r.take(1) =~= a);
        assert(r.skip(1) =~= replace_spec(rest, p, a));
        assert(p + rest =~= t);
    } else {
        let rest = t.drop_first();
        lemma_replace_back(rest, p);
        let r = seq![t[0]] + replace_spec(rest, p, a);
        assert(r.take(1) != a) by {
            assert(r.take(1)[0] == t[0]);
        }
        assert(r.drop_first() =~= replace_spec(rest, p, a));
        assert(seq![t[0]] + rest =~= t);
    }
}

/// The characters of a replacement come from the text and the replacing text.
proof fn lemma_replace_chars(s: Seq<char>, from: Seq<char>, to: Seq<char>, q: spec_fn(char) -> bool)
    requires
        all_chars(s, q),
        all_chars(to, q),
    ensures
        all_chars(replace_spec(s, from, to), q),
    decreases s.len(),
{
    if from.len() == 0 || s.len() < from.len() {
    } else if s.take(from.len() as int) == from {
        let rest = s.skip(from.len() as int);
        assert(all_chars(rest, q)) by {
            assert forall|i: int| 0 <= i < rest.len() implies q(#[trigger] rest[i]) by {
                assert(rest[i] == s[i + from.len()]);
            }
        }
        lemma_replace_chars(rest, from, to, q);
        lemma_concat_chars(to, replace_spec(rest, from, to), q);
    } else {
        let rest = s.drop_first();
        assert(all_chars(rest, q)) by {
            assert forall|i: int| 0 <= i < rest.len() implies q(#[trigger] rest[i]) by {
                assert(rest[i] == s[i + 1]);
            }
        }
        lemma_replace_chars(rest, from, to, q);
        assert(q(s[0]));
        lemma_concat_chars(seq![s[0]], replace_spec(rest, from, to), q);
    }
}

/// Text without the characters the decoder reads as digit pairs is kept.
proof fn lemma_expand_legacy_plain(t: Seq<char>)
    requires
        forall|i: int| 0 <= i < t.len() ==> legacy_pair(#[trigger] t[i]) is None,
    ensures
        expand_legacy(t) == t,
    decreases t.len(),
{
    if t.len() > 0 {
        let t0 = t.drop_last();
        assert forall|i: int| 0 <= i < t0.len() implies legacy_pair(#[trigger] t0[i]) is None by {
            assert(t0[i] == t[i]);
        }
        lemma_expand_legacy_plain(t0);
        assert(legacy_pair(t[t.len() - 1]) is None);
        assert(t0.push(t.last()) =~= t);
    }
}

/// Decoding undoes pattern compression: for a text without the pattern
/// letter `a`, the markers `_` and `$` and the characters read as digit
/// pairs, restoring the compressed text gives the text back.
pub proof fn law_pattern_roundtrip(t: Seq<char>, min: int, max: int)
    requires
        remove_dup_ok(t, min, max),
        all_chars(t, |c: char| pattern_free_char(c)),
    ensures
        restore_spec(expand_legacy(remove_dup_spec(t, min, max))) == Some(t),
{
    let q = |c: char| pattern_free_char(c);
    lemma_best_pattern_ok(t, min, max, q);
    let p = best_pattern(t, min, max);
    let out = remove_dup_spec(t, min, max);
    lemma_chars_free(t, q, 'a');
    lemma_chars_free(t, q, '_');
    lemma_chars_free(t, q, '$');
    lemma_chars_free(p, q, '_');
    lemma_chars_free(p, q, '$');
    // the compressed text has no digit-pair characters
    let lq = |c: char| legacy_pair(c) is None;
    let marks = seq!['_', '$'] + p + seq!['$', 'a'];
    let base = replace_spec(t, p, seq!['a']);
    assert(all_chars(seq!['a'], lq));
    assert(all_chars(t, lq));
    assert(all_chars(p, lq));
    lemma_replace_chars(t, p, seq!['a'], lq);
    assert(all_chars(seq!['_', '$'], lq));
    assert(all_chars(seq!['$', 'a'], lq));
    lemma_concat_chars(seq!['_', '$'], p, lq);
    lemma_concat_chars(seq!['_', '$'] + p, seq!['$', 'a'], lq);
    lemma_concat_chars(base, marks, lq);
    assert(all_chars(out, lq));
    assert forall|i: int| 0 <= i < out.len() implies legacy_pair(#[trigger] out[i]) is None by {
        assert(lq(out[i]));
    }
    lemma_expand_legacy_plain(out);
    if out != t {
        assert(out == base + marks);
        // the text before the dictionary has no `_`
        let nq = |c: char| c != '_';
        assert(all_chars(t, nq));
        assert(all_chars(seq!['a'], nq));
        lemma_replace_chars(t, p, seq!['a'], nq);
        lemma_chars_free(base, nq, '_');
        // the dictionary is `$p$a`
        let dict = seq!['$'] + p + seq!['$', 'a'];
        assert(out =~= base.push('_') + dict);
        assert(free_of(dict, '_')) by {
            assert forall|i: int| 0 <= i < dict.len() implies dict[i] != '_' by {
                if 1 <= i < 1 + p.len() {
                    assert(dict[i] == p[i - 1]);
                }
            }
        }
        lemma_split_free(base, '_');
        lemma_split_sep_then(base, dict, '_');
        assert(split_spec(out, '_') =~= seq![base, dict]);
        assert(!free_of(out, '_')) by {
            assert(out[base.len() as int] == '_');
        }
        // its tokens: the pattern, then the letter
        lemma_split_free(Seq::<char>::empty(), '$');
        lemma_split_sep_then(Seq::<char>::empty(), p, '$');
        let e = Seq::<char>::empty();
        assert(e.push('$') + p =~= seq!['$'] + p);
        lemma_split_sep_then(seq!['$'] + p, seq!['a'], '$');
        assert((seq!['$'] + p).push('$') + seq!['a'] =~= dict);
        let parts = split_spec(dict, '$');
        assert(parts =~= seq![e, p, seq!['a']]);
        assert(parts.drop_last() =~= seq![e, p]);
        assert(parts.drop_last().drop_last() =~= seq![e]);
        assert(seq![e].drop_last() =~= Seq::<Seq<char>>::empty());
        assert(seq![e].last().len() == 0);
        assert(nonempty_parts(Seq::<Seq<char>>::empty()) =~= Seq::<Seq<char>>::empty());
        assert(nonempty_parts(seq![e]) =~= Seq::<Seq<char>>::empty());
        assert(nonempty_parts(seq![e, p]) =~= seq![p]);
        assert(nonempty_parts(parts) =~= seq![p, seq!['a']]);
        assert(dictionary_tokens(out) =~= seq![p, seq!['a']]);
        let toks = seq![p, seq!['a']];
        assert(toks.skip(2) =~= Seq::<Seq<char>>::empty());
        assert(restore_pairs(base, toks.skip(2)) == base);
        assert(restore_pairs(base, toks) == replace_spec(base, seq!['a'], p));
        lemma_replace_back(t, p);
    } else {
        lemma_chars_free(t, q, '_');
    }
}

/// Pattern compression leaves a text without the letter `a` and the markers
/// `_` and `$` either as it is, or as the text with its pattern replaced by
/// `a`, followed by `_$`, the pattern and `$a`; the pattern is not empty,
/// holds none of those three characters, and putting it back for every `a`
/// gives the text back.
pub proof fn law_pattern_replace_back(t: Seq<char>, min: int, max: int)
    requires
        remove_dup_ok(t, min, max),
        free_of(t, 'a'),
        free_of(t, '_'),
        free_of(t, '$'),
    ensures
        ({
            let p = best_pattern(t, min, max);
            let base = replace_spec(t, p, seq!['a']);
            ||| remove_dup_spec(t, min, max) == t
            ||| {
                &&& remove_dup_spec(t, min, max) == base + seq!['_', '$'] + p + seq!['$', 'a']
                &&& p.len() >= 1
                &&& free_of(p, 'a')
                &&& free_of(p, '_')
                &&& free_of(p, '$')
                &&& replace_spec(base, seq!['a'], p) == t
            }
        }),
{
    let q = |c: char| c != 'a' && c != '_' && c != '$';
    assert(all_chars(t, q));
    lemma_best_pattern_ok(t, min, max, q);
    let p = best_pattern(t, min, max);
    lemma_chars_free(p, q, 'a');
    lemma_chars_free(p, q, '_');
    lemma_chars_free(p, q, '$');
    lemma_replace_back(t, p);
}

/// An upper-case hexadecimal digit.
pub open spec fn hex_upper_char(c: char) -> bool {
    is_digit(c) || ('A' <= c && c <= 'F')
}

proof fn lemma_hex_digit(d: int)
    requires
        0 <= d < 16,
    ensures
        hex_upper_char(hex_digit_upper(d)),
        hex_value(hex_digit_upper(d)) == Some(d as u8),
        hex_digit_upper(d) == 'F' <==> d == 15,
{
}

proof fn lemma_hex2(b: u8)
    ensures
        hex2(b).len() == 2,
        hex_upper_char(hex2(b)[0]),
        hex_upper_char(hex2(b)[1]),
        hex_pair(hex2(b)[0], hex2(b)[1]) == Some(b),
        (hex2(b)[0] == 'F' && hex2(b)[1] == 'F') <==> b == 255,
{
    let h = b as int / 16;
    let l = b as int % 16;
    lemma_hex_digit(h);
    lemma_hex_digit(l);
    assert(h * 16 + l == b as int);
}

/// The stored text of a color: `#`, then six or eight upper-case
/// hexadecimal digits, eight exactly where the color is not opaque.
pub proof fn lemma_color_text_shape(c: Rgba)
    ensures
        color_text_spec(c).len() == (if c.a == 255 { 7int } else { 9int }),
        color_text_spec(c)[0] == '#',
        forall|i: int| 1 <= i < color_text_spec(c).len() ==> hex_upper_char(#[trigger] color_text_spec(c)[i]),
{
    let d = display_rgba_spec(c);
    lemma_hex2(c.r);
    lemma_hex2(c.g);
    lemma_hex2(c.b);
    lemma_hex2(c.a);
    assert(d[1] == hex2(c.r)[0]);
    assert(!hex_pairs_doubled(d));
    assert(d[7] == hex2(c.a)[0] && d[8] == hex2(c.a)[1]);
    assert forall|i: int| 1 <= i < d.len() implies hex_upper_char(#[trigger] d[i]) by {
        if i < 3 {
            assert(d[i] == hex2(c.r)[i - 1]);
        } else if i < 5 {
            assert(d[i] == hex2(c.g)[i - 3]);
        } else if i < 7 {
            assert(d[i] == hex2(c.b)[i - 5]);
        } else {
            assert(d[i] == hex2(c.a)[i - 7]);
        }
    }
}

/// A stored color reads back as the same color.
pub proof fn law_color_roundtrip(c: Rgba)
    ensures
        hex_color_parse_spec(color_text_spec(c)) == Some(c),
{
    let d = display_rgba_spec(c);
    lemma_color_text_shape(c);
    lemma_hex2(c.r);
    lemma_hex2(c.g);
    lemma_hex2(c.b);
    lemma_hex2(c.a);
    let s = color_text_spec(c);
    assert(s[1] == hex2(c.r)[0] && s[2] == hex2(c.r)[1]);
    assert(s[3] == hex2(c.g)[0] && s[4] == hex2(c.g)[1]);
    assert(s[5] == hex2(c.b)[0] && s[6] == hex2(c.b)[1]);
    if c.a != 255 {
        assert(s[7] == hex2(c.a)[0] && s[8] == hex2(c.a)[1]);
    }
}

} // verus!
