//! The two text rewritings the decoder undoes before parsing: the legacy
//! one-character abbreviations of digit pairs, and the pattern dictionary
//! that `remove_dup_patterns` appends after `_`.
use vstd::prelude::*;
use crate::math::nonempty_parts;
use crate::text::{copy_range, free_of, split_ranges, split_spec};

verus! {

/// The digit pair a legacy abbreviation stands for.
pub open spec fn legacy_pair(c: char) -> Option<Seq<char>> {
    if c == 'é' { Some(seq!['1', '3']) }
    else if c == 'à' { Some(seq!['6', '9']) }
    else if c == '@' { Some(seq!['2', '8']) }
    else if c == 'ç' { Some(seq!['1', '8']) }
    else if c == ';' { Some(seq!['1', '9']) }
    else if c == 'µ' { Some(seq!['3', '7']) }
    else if c == '|' { Some(seq!['1', '0']) }
    else if c == '¤' { Some(seq!['1', '6']) }
    else if c == '£' { Some(seq!['2', '4']) }
    else if c == '\\' { Some(seq!['1', '4']) }
    else if c == '=' { Some(seq!['2', '1']) }
    else if c == '`' { Some(seq!['2', '2']) }
    else if c == '&' { Some(seq!['2', '7']) }
    else if c == '.' { Some(seq!['1', '2']) }
    else if c == '§' { Some(seq!['2', '3']) }
    else if c == '!' { Some(seq!['1', '7']) }
    else if c == '/' { Some(seq!['4', '2']) }
    else if c == 'è' { Some(seq!['1', '1']) }
    else if c == '~' { Some(seq!['0', '1']) }
    else if c == '^' { Some(seq!['0', '0']) }
    else { None }
}

/// Every legacy abbreviation replaced by its digit pair (the replacements
/// are digits, so doing them one after the other is doing them at once).
pub open spec fn expand_legacy(t: Seq<char>) -> Seq<char>
    decreases t.len(),
{
    if t.len() == 0 {
        Seq::<char>::empty()
    } else {
        expand_legacy(t.drop_last()) + match legacy_pair(t.last()) {
            Some(p) => p,
            None => seq![t.last()],
        }
    }
}

proof fn lemma_legacy_single(c: char)
    ensures
        expand_legacy(seq![c]) == match legacy_pair(c) {
            Some(p) => p,
            None => seq![c],
        },
{
    assert(seq![c].drop_last() =~= Seq::<char>::empty());
    assert(seq![c].last() == c);
    let tail = match legacy_pair(c) {
        Some(p) => p,
        None => seq![c],
    };
    assert(expand_legacy(seq![c]) == expand_legacy(Seq::<char>::empty()) + tail);
    assert(Seq::<char>::empty() + tail =~= tail);
}

/// The decoder's table of legacy abbreviations: each one alone expands to
/// its digit pair.
pub proof fn law_legacy_table()
    ensures
        expand_legacy(seq!['é']) == seq!['1', '3'],
        expand_legacy(seq!['à']) == seq!['6', '9'],
        expand_legacy(seq!['@']) == seq!['2', '8'],
        expand_legacy(seq!['ç']) == seq!['1', '8'],
        expand_legacy(seq![';']) == seq!['1', '9'],
        expand_legacy(seq!['µ']) == seq!['3', '7'],
        expand_legacy(seq!['|']) == seq!['1', '0'],
        expand_legacy(seq!['¤']) == seq!['1', '6'],
        expand_legacy(seq!['£']) == seq!['2', '4'],
        expand_legacy(seq!['\\']) == seq!['1', '4'],
        expand_legacy(seq!['=']) == seq!['2', '1'],
        expand_legacy(seq!['`']) == seq!['2', '2'],
        expand_legacy(seq!['&']) == seq!['2', '7'],
        expand_legacy(seq!['.']) == seq!['1', '2'],
        expand_legacy(seq!['§']) == seq!['2', '3'],
        expand_legacy(seq!['!']) == seq!['1', '7'],
        expand_legacy(seq!['/']) == seq!['4', '2'],
        expand_legacy(seq!['è']) == seq!['1', '1'],
        expand_legacy(seq!['~']) == seq!['0', '1'],
        expand_legacy(seq!['^']) == seq!['0', '0'],
{
    lemma_legacy_single('é');
    lemma_legacy_single('à');
    lemma_legacy_single('@');
    lemma_legacy_single('ç');
    lemma_legacy_single(';');
    lemma_legacy_single('µ');
    lemma_legacy_single('|');
    lemma_legacy_single('¤');
    lemma_legacy_single('£');
    lemma_legacy_single('\\');
    lemma_legacy_single('=');
    lemma_legacy_single('`');
    lemma_legacy_single('&');
    lemma_legacy_single('.');
    lemma_legacy_single('§');
    lemma_legacy_single('!');
    lemma_legacy_single('/');
    lemma_legacy_single('è');
    lemma_legacy_single('~');
    lemma_legacy_single('^');
}

/// A character that is no legacy abbreviation is kept as it is.
pub proof fn law_legacy_plain(c: char)
    requires
        c != 'é' && c != 'à' && c != '@' && c != 'ç' && c != ';' && c != 'µ' && c != '|' && c != '¤' && c != '£' && c != '\\' && c != '=' && c != '`' && c != '&' && c != '.' && c != '§' && c != '!' && c != '/' && c != 'è' && c != '~' && c != '^',
    ensures
        expand_legacy(seq![c]) == seq![c],
{
    lemma_legacy_single(c);
}

/// Expansion works character by character: expanding two texts one after
/// the other is expanding each and joining the results.
pub proof fn law_legacy_concat(a: Seq<char>, b: Seq<char>)
    ensures
        expand_legacy(a + b) == expand_legacy(a) + expand_legacy(b),
    decreases b.len(),
{
    if b.len() == 0 {
        assert(a + b =~= a);
        assert(expand_legacy(a) + Seq::<char>::empty() =~= expand_legacy(a));
    } else {
        law_legacy_concat(a, b.drop_last());
        assert((a + b).drop_last() =~= a + b.drop_last());
        assert((a + b).last() == b.last());
        let tail = match legacy_pair(b.last()) {
            Some(p) => p,
            None => seq![b.last()],
        };
        assert(expand_legacy(a) + expand_legacy(b.drop_last()) + tail =~= expand_legacy(a) + (
        expand_legacy(b.drop_last()) + tail));
    }
}

/// `str::replace(from, to)`: the non-overlapping occurrences of `from`,
/// found from the left, replaced by `to`.
pub open spec fn replace_spec(s: Seq<char>, from: Seq<char>, to: Seq<char>) -> Seq<char>
    recommends
        from.len() > 0,
    decreases s.len(),
{
    if from.len() == 0 || s.len() < from.len() {
        s
    } else if s.take(from.len() as int) == from {
        to + replace_spec(s.skip(from.len() as int), from, to)
    } else {
        seq![s[0]] + replace_spec(s.drop_first(), from, to)
    }
}

/// The dictionary applied: for the pairs `(pattern, letter)` of `tokens`,
/// from the last pair to the first, every `letter` replaced by `pattern`.
pub open spec fn restore_pairs(base: Seq<char>, tokens: Seq<Seq<char>>) -> Seq<char>
    decreases tokens.len(),
{
    if tokens.len() < 2 {
        base
    } else {
        replace_spec(restore_pairs(base, tokens.skip(2)), tokens[1], tokens[0])
    }
}

/// The tokens of the dictionary: the non-empty `$`-separated pieces of the
/// text between the first and the second `_`.
pub open spec fn dictionary_tokens(t: Seq<char>) -> Seq<Seq<char>> {
    nonempty_parts(split_spec(split_spec(t, '_')[1], '$'))
}

/// The text with its pattern dictionary applied, where it has one (a `_`);
/// `None` where the dictionary has an odd number of tokens.
pub open spec fn restore_spec(t: Seq<char>) -> Option<Seq<char>> {
    if free_of(t, '_') {
        Some(t)
    } else if dictionary_tokens(t).len() % 2 == 1 {
        None
    } else {
        Some(restore_pairs(split_spec(t, '_')[0], dictionary_tokens(t)))
    }
}

/// Every legacy abbreviation replaced by its digit pair.
pub fn expand_legacy_chars(t: &[char]) -> (res: Vec<char>)
    ensures
        res@ == expand_legacy(t@),
{
    let mut out: Vec<char> = Vec::new();
    let mut i: usize = 0;
    while i < t.len()
        invariant
            0 <= i <= t@.len(),
            out@ == expand_legacy(t@.take(i as int)),
        decreases t.len() - i,
    {
        let c = t[i];
        assert(t@.take(i + 1).drop_last() =~= t@.take(i as int));
        assert(t@.take(i + 1).last() == c);
        let ghost before = out@;
        if c == 'é' { out.push('1'); out.push('3'); }
        else if c == 'à' { out.push('6'); out.push('9'); }
        else if c == '@' { out.push('2'); out.push('8'); }
        else if c == 'ç' { out.push('1'); out.push('8'); }
        else if c == ';' { out.push('1'); out.push('9'); }
        else if c == 'µ' { out.push('3'); out.push('7'); }
        else if c == '|' { out.push('1'); out.push('0'); }
        else if c == '¤' { out.push('1'); out.push('6'); }
        else if c == '£' { out.push('2'); out.push('4'); }
        else if c == '\\' { out.push('1'); out.push('4'); }
        else if c == '=' { out.push('2'); out.push('1'); }
        else if c == '`' { out.push('2'); out.push('2'); }
        else if c == '&' { out.push('2'); out.push('7'); }
        else if c == '.' { out.push('1'); out.push('2'); }
        else if c == '§' { out.push('2'); out.push('3'); }
        else if c == '!' { out.push('1'); out.push('7'); }
        else if c == '/' { out.push('4'); out.push('2'); }
        else if c == 'è' { out.push('1'); out.push('1'); }
        else if c == '~' { out.push('0'); out.push('1'); }
        else if c == '^' { out.push('0'); out.push('0'); }
        else { out.push(c); }
        assert(out@ =~= before + match legacy_pair(c) {
            Some(p) => p,
            None => seq![c],
        });
        i = i + 1;
    }
    assert(t@.take(t@.len() as int) =~= t@);
    out
}

/// Whether `from` occurs in `s` at `i`.
pub(crate) fn occurs_at(s: &[char], from: &[char], i: usize) -> (res: bool)
    requires
        i <= s@.len(),
    ensures
        res == (i + from@.len() <= s@.len() && s@.skip(i as int).take(from@.len() as int) == from@),
{
    if from.len() > s.len() - i {
        return false;
    }
    let mut j: usize = 0;
    let n = s.len();
    while j < from.len()
        invariant
            0 <= j <= from@.len(),
            n == s@.len(),
            i + from@.len() <= n,
            forall|m: int| 0 <= m < j ==> #[trigger] s@.skip(i as int).take(from@.len() as int)[m] == from@[m],
        decreases from.len() - j,
    {
        if s[i + j] != from[j] {
            assert(s@.skip(i as int).take(from@.len() as int)[j as int] != from@[j as int]);
            return false;
        }
        j = j + 1;
    }
    assert(s@.skip(i as int).take(from@.len() as int) =~= from@);
    true
}

/// `str::replace(from, to)` on characters (`from` is not empty).
pub fn replace_chars(s: &[char], from: &[char], to: &[char]) -> (res: Vec<char>)
    requires
        from@.len() > 0,
    ensures
        res@ == replace_spec(s@, from@, to@),
{
    let mut out: Vec<char> = Vec::new();
    let mut i: usize = 0;
    assert(s@.skip(0) =~= s@);
    while i < s.len()
        invariant
            0 <= i <= s@.len(),
            from@.len() > 0,
            replace_spec(s@, from@, to@) == out@ + replace_spec(s@.skip(i as int), from@, to@),
        decreases s.len() - i,
    {
        let ghost rest = s@.skip(i as int);
        if occurs_at(s, from, i) {
            let ghost before = out@;
            let mut k: usize = 0;
            while k < to.len()
                invariant
                    0 <= k <= to@.len(),
                    out@ == before + to@.take(k as int),
                decreases to.len() - k,
            {
                out.push(to[k]);
                k = k + 1;
                assert(out@ =~= before + to@.take(k as int));
            }
            assert(to@.take(to@.len() as int) =~= to@);
            assert(rest.skip(from@.len() as int) =~= s@.skip(i + from@.len()));
            i = i + from.len();
            assert(before + (to@ + replace_spec(s@.skip(i as int), from@, to@)) =~= out@
                + replace_spec(s@.skip(i as int), from@, to@));
        } else {
            assert(rest.drop_first() =~= s@.skip(i + 1));
            assert(rest.len() >= from@.len() ==> rest.take(from@.len() as int) != from@);
            let ghost before = out@;
            out.push(s[i]);
            i = i + 1;
            proof {
                if rest.len() < from@.len() {
                    lemma_replace_short(rest, from@, to@);
                    lemma_replace_short(rest.drop_first(), from@, to@);
                    assert(rest =~= seq![rest[0]] + rest.drop_first());
                }
                assert(before + (seq![rest[0]] + replace_spec(s@.skip(i as int), from@, to@))
                    =~= out@ + replace_spec(s@.skip(i as int), from@, to@));
            }
        }
    }
    assert(s@.skip(i as int) =~= Seq::<char>::empty());
    assert(out@ + Seq::<char>::empty() =~= out@);
    out
}

proof fn lemma_replace_short(s: Seq<char>, from: Seq<char>, to: Seq<char>)
    requires
        s.len() < from.len(),
    ensures
        replace_spec(s, from, to) == s,
{
}

/// The text with its pattern dictionary applied (see `restore_spec`).
pub fn restore_chars(t: &[char]) -> (res: Option<Vec<char>>)
    ensures
        match res {
            Some(v) => restore_spec(t@) == Some(v@),
            None => restore_spec(t@) is None,
        },
{
    let parts = split_ranges(t, '_');
    if parts.len() < 2 {
        proof {
            crate::math::lemma_split_has_two_converse(t@, '_');
        }
        return Some(copy_range(t, 0, t.len()));
    }
    proof {
        crate::math::lemma_split_has_two_converse(t@, '_');
        assert(t@.subrange(0, t@.len() as int) =~= t@);
    }
    let base = copy_range(t, parts[0].0, parts[0].1);
    let letters = copy_range(t, parts[1].0, parts[1].1);
    let pieces = split_ranges(letters.as_slice(), '$');
    let ghost sp = split_spec(letters@, '$');
    let mut tokens: Vec<(usize, usize)> = Vec::new();
    let mut k: usize = 0;
    while k < pieces.len()
        invariant
            0 <= k <= pieces@.len(),
            pieces@.len() == sp.len(),
            sp == split_spec(letters@, '$'),
            forall|m: int|
                0 <= m < pieces@.len() ==> {
                    &&& (#[trigger] pieces@[m]).0 <= pieces@[m].1 <= letters@.len()
                    &&& letters@.subrange(pieces@[m].0 as int, pieces@[m].1 as int) == sp[m]
                },
            tokens@.len() == nonempty_parts(sp.take(k as int)).len(),
            forall|m: int|
                0 <= m < tokens@.len() ==> {
                    &&& (#[trigger] tokens@[m]).0 < tokens@[m].1 <= letters@.len()
                    &&& letters@.subrange(tokens@[m].0 as int, tokens@[m].1 as int)
                        == nonempty_parts(sp.take(k as int))[m]
                },
        decreases pieces.len() - k,
    {
        assert(sp.take(k + 1).drop_last() =~= sp.take(k as int));
        assert(sp.take(k + 1).last() == sp[k as int]);
        if pieces[k].0 < pieces[k].1 {
            tokens.push(pieces[k]);
        }
        k = k + 1;
    }
    assert(sp.take(pieces@.len() as int) =~= sp);
    let ghost toks = dictionary_tokens(t@);
    assert(toks == nonempty_parts(sp));
    if tokens.len() % 2 == 1 {
        return None;
    }
    let mut cur = base;
    let mut p: usize = tokens.len() / 2;
    proof {
        assert(toks.skip(2 * p as int) =~= Seq::<Seq<char>>::empty());
    }
    while p > 0
        invariant
            0 <= p <= tokens@.len() / 2,
            tokens@.len() % 2 == 0,
            tokens@.len() == toks.len(),
            forall|m: int|
                0 <= m < tokens@.len() ==> {
                    &&& (#[trigger] tokens@[m]).0 < tokens@[m].1 <= letters@.len()
                    &&& letters@.subrange(tokens@[m].0 as int, tokens@[m].1 as int) == toks[m]
                },
            cur@ == restore_pairs(base@, toks.skip(2 * p as int)),
        decreases p,
    {
        assert(2 * p <= tokens@.len());
        let count = tokens.len();
        assert(p + p <= count);
        let hi = p + p;
        let pattern = copy_range(letters.as_slice(), tokens[hi - 2].0, tokens[hi - 2].1);
        let letter = copy_range(letters.as_slice(), tokens[hi - 1].0, tokens[hi - 1].1);
        let ghost rest = toks.skip(2 * p - 2);
        assert(rest.skip(2) =~= toks.skip(2 * p as int));
        assert(rest[0] == toks[2 * p - 2] && rest[1] == toks[2 * p - 1]);
        cur = replace_chars(cur.as_slice(), letter.as_slice(), pattern.as_slice());
        p = p - 1;
    }
    assert(toks.skip(0) =~= toks);
    Some(cur)
}

} // verus!
