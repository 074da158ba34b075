//! Reading the PCF text: header `width%height%background%`, then one chunk
//! per color, either a plain list `RRGGBB[(x,y),...]` or a dictionary
//! `RRGGBB{ys:xs,...}` of coordinate notations; drawing it on an image.
use vstd::prelude::*;
use crate::color::{hex_color_parse_spec, parse_hex_color, Rgba};
use crate::image::{filled, from_pixel, grid_of, put_pixel, Image};
use crate::math::{
    expand_math_chars, expand_math_spec, math_values, math_values_spec, nonempty_parts,
    trim_start, trim_start_spec,
};
use crate::number::{parse_u32, parse_u32_spec};
use crate::restore::{expand_legacy, expand_legacy_chars, restore_chars, restore_spec};
use crate::text::{
    all_chars, chars_of, copy_range, free_of, join_spec, split_ranges, split_spec, string_of,
};
use crate::math::has_char;
use crate::encode::encode_text_spec;
use crate::lossless::law_lossless;
use vstd::utf8::{decode_utf8, valid_utf8};

verus! {

/// One pixel set by the decoder: column, row, color.
pub type Write = (u32, u32, Rgba);

/// `s` without its trailing run of `c`.
pub open spec fn trim_end_spec(s: Seq<char>, c: char) -> Seq<char>
    decreases s.len(),
{
    if s.len() > 0 && s.last() == c {
        trim_end_spec(s.drop_last(), c)
    } else {
        s
    }
}

/// A pixel entry of the plain list with its brackets and commas trimmed as
/// the decoder trims them.
pub open spec fn clean_pixel(p: Seq<char>) -> Seq<char> {
    let a = trim_end_spec(trim_end_spec(trim_start_spec(trim_start_spec(p, '('), ','), ','), ')');
    trim_end_spec(trim_end_spec(trim_start_spec(trim_start_spec(a, '('), ','), ','), ')')
}

/// The pixel entries of a plain list (the text after `[`).
pub open spec fn list_entries(list: Seq<char>) -> Seq<Seq<char>> {
    nonempty_parts(split_spec(trim_end_spec(list, ']'), ')').map_values(|p: Seq<char>| clean_pixel(p)))
}

/// The coordinates of a pixel entry `x,y`.
pub open spec fn entry_coords(e: Seq<char>) -> Option<(u32, u32)> {
    let f = split_spec(e, ',');
    if f.len() < 2 {
        None
    } else {
        match (parse_u32_spec(f[0]), parse_u32_spec(f[1])) {
            (Some(x), Some(y)) => Some((x, y)),
            _ => None,
        }
    }
}

pub open spec fn all_coords(es: Seq<Seq<char>>) -> Option<Seq<(u32, u32)>>
    decreases es.len(),
{
    if es.len() == 0 {
        Some(Seq::<(u32, u32)>::empty())
    } else {
        match (all_coords(es.drop_last()), entry_coords(es.last())) {
            (Some(a), Some(b)) => Some(a.push(b)),
            _ => None,
        }
    }
}

/// The color of a chunk whose text starts with `hex`.
pub open spec fn chunk_color(hex: Seq<char>) -> Option<Rgba> {
    hex_color_parse_spec(seq!['#'] + hex)
}

/// The pixels a plain list sets (the color is read only where there is one).
pub open spec fn list_writes(hex: Seq<char>, list: Seq<char>) -> Option<Seq<Write>> {
    match all_coords(list_entries(list)) {
        None => None,
        Some(cs) => if cs.len() == 0 {
            Some(Seq::<Write>::empty())
        } else {
            match chunk_color(hex) {
                None => None,
                Some(c) => Some(cs.map_values(|p: (u32, u32)| (p.0, p.1, c))),
            }
        },
    }
}

/// The dictionary text turned into JSON as the decoder does: `{` and
/// the text, `:` becoming `":"` and `,` becoming `","`, a `"` after the `{`
/// and one before the last character (`None` where that last character is
/// not ASCII, the byte insertion would panic there).
pub open spec fn json_text(dict: Seq<char>) -> Option<Seq<char>> {
    let p1 = seq!['{'] + quote_separators(dict);
    let p2 = seq!['{', '"'] + p1.drop_first();
    if (p2.last() as u32) < 0x80 {
        Some(p2.drop_last().push('"').push(p2.last()))
    } else {
        None
    }
}

pub open spec fn quote_separators(s: Seq<char>) -> Seq<char>
    decreases s.len(),
{
    if s.len() == 0 {
        Seq::<char>::empty()
    } else {
        quote_separators(s.drop_last()) + if s.last() == ':' {
            seq!['"', ':', '"']
        } else if s.last() == ',' {
            seq!['"', ',', '"']
        } else {
            seq![s.last()]
        }
    }
}

/// What `json::parse` gives for a text, as the key and (where it is a
/// string) the value of each entry, in the order `entries()` yields them;
/// `None` where the text is not JSON.
pub uninterp spec fn json_object_entries(text: Seq<char>) -> Option<Seq<(Seq<char>, Option<Seq<char>>)>>;

/// A character that a JSON string holds as it is: printable ASCII other
/// than `"` and `\`.
pub open spec fn json_plain_char(c: char) -> bool {
    &&& 0x20 <= (c as u32) < 0x7f
    &&& c != '"'
    &&& c != '\\'
}

/// Key-value pairs of plain strings with pairwise distinct keys.
pub open spec fn json_flat_pairs(ps: Seq<(Seq<char>, Seq<char>)>) -> bool {
    &&& forall|k: int|
        0 <= k < ps.len() ==> all_chars((#[trigger] ps[k]).0, |c: char| json_plain_char(c))
            && all_chars(ps[k].1, |c: char| json_plain_char(c))
    &&& forall|a: int, b: int| 0 <= a < b < ps.len() ==> (#[trigger] ps[a]).0 != (#[trigger] ps[b]).0
}

pub open spec fn json_quoted(s: Seq<char>) -> Seq<char> {
    seq!['"'] + s + seq!['"']
}

/// `{"k1":"v1","k2":"v2",...}`.
pub open spec fn json_object_text(ps: Seq<(Seq<char>, Seq<char>)>) -> Seq<char> {
    seq!['{'] + join_spec(
        ps.map_values(|p: (Seq<char>, Seq<char>)| json_quoted(p.0).push(':') + json_quoted(p.1)),
        ',',
    ) + seq!['}']
}

/// The JSON reader reads the text `j`, where it is the text of an object of
/// plain string pairs with distinct keys, as exactly those pairs in order.
pub open spec fn json_reads_flat_at(j: Seq<char>) -> bool {
    forall|ps: Seq<(Seq<char>, Seq<char>)>|
        json_flat_pairs(ps) && j == #[trigger] json_object_text(ps) ==> json_object_entries(j) == Some(
            ps.map_values(|p: (Seq<char>, Seq<char>)| (p.0, Some(p.1))),
        )
}

/// What the reader was seen to do on the JSON text of a color chunk, where
/// the chunk is a dictionary (see `chunk_writes`).
pub open spec fn chunk_json_read(x: Seq<char>) -> bool {
    let is_y = x.len() > 0 && x.last() == 'y';
    let body = if is_y { x.drop_last() } else { x };
    let braces = split_spec(body, '{');
    braces.len() == 1 || (json_text(braces[1]) matches Some(j) ==> json_reads_flat_at(j))
}

/// `chunk_json_read` of every chunk that the decoder reaches: those whose
/// earlier chunks all decode.
pub open spec fn chunks_json_read(chunks: Seq<Seq<char>>) -> bool
    decreases chunks.len(),
{
    if chunks.len() == 0 {
        true
    } else {
        &&& chunks_json_read(chunks.drop_last())
        &&& chunks_writes(chunks.drop_last()) is Some ==> chunk_json_read(chunks.last())
    }
}

/// `chunks_json_read` of the color section of a text, where the decoder
/// reaches it.
pub open spec fn decode_json_read(t: Seq<char>) -> bool {
    match restore_spec(expand_legacy(t)) {
        None => true,
        Some(r) => {
            let fields = split_spec(r, '%');
            fields.len() < 4 || chunks_json_read(color_chunks(fields[3]))
        },
    }
}

/// The pixels one dictionary entry sets: every row of the expanded key with
/// every column of the expanded value (swapped where the chunk is marked `y`).
pub open spec fn entry_writes(key: Seq<char>, value: Option<Seq<char>>, color: Rgba, is_y: bool) -> Option<Seq<Write>> {
    match value {
        None => None,
        Some(v) => match expand_math_spec(key) {
            None => None,
            Some(ke) => match math_values_spec(ke) {
                None => None,
                Some(ys) => match expand_math_spec(v) {
                    None => None,
                    Some(ve) => match math_values_spec(ve) {
                        None => None,
                        Some(zs) => Some(pairs_writes(ys, zs, color, is_y)),
                    },
                },
            },
        },
    }
}

/// For each `y` of `ys`, for each `z` of `zs`: `(z, y)`, or `(y, z)` where
/// `is_y`.
pub open spec fn pairs_writes(ys: Seq<u32>, zs: Seq<u32>, color: Rgba, is_y: bool) -> Seq<Write>
    decreases ys.len(),
{
    if ys.len() == 0 {
        Seq::<Write>::empty()
    } else {
        pairs_writes(ys.drop_last(), zs, color, is_y) + zs.map_values(
            |z: u32| if is_y { (ys.last(), z, color) } else { (z, ys.last(), color) },
        )
    }
}

/// The pixels all entries of a dictionary set, in order.
pub open spec fn entries_writes(
    entries: Seq<(Seq<char>, Option<Seq<char>>)>,
    color: Option<Rgba>,
    is_y: bool,
) -> Option<Seq<Write>>
    decreases entries.len(),
{
    if entries.len() == 0 {
        Some(Seq::<Write>::empty())
    } else {
        match (entries_writes(entries.drop_last(), color, is_y), color) {
            (Some(a), Some(c)) => match entry_writes(entries.last().0, entries.last().1, c, is_y) {
                Some(b) => Some(a + b),
                None => None,
            },
            _ => None,
        }
    }
}

/// The pixels a dictionary chunk sets (the text after the first `{`).
pub open spec fn dict_writes(hex: Seq<char>, dict: Seq<char>, is_y: bool) -> Option<Seq<Write>> {
    match json_text(dict) {
        None => None,
        Some(j) => match json_object_entries(j) {
            None => None,
            Some(es) => entries_writes(es, chunk_color(hex), is_y),
        },
    }
}

/// The pixels one color chunk sets.
pub open spec fn chunk_writes(x: Seq<char>) -> Option<Seq<Write>> {
    let is_y = x.len() > 0 && x.last() == 'y';
    let body = if is_y { x.drop_last() } else { x };
    let braces = split_spec(body, '{');
    if braces.len() == 1 {
        let brackets = split_spec(body, '[');
        if brackets.len() < 2 {
            None
        } else {
            list_writes(brackets[0], brackets[1])
        }
    } else {
        dict_writes(braces[0], braces[1], is_y)
    }
}

pub open spec fn chunks_writes(chunks: Seq<Seq<char>>) -> Option<Seq<Write>>
    decreases chunks.len(),
{
    if chunks.len() == 0 {
        Some(Seq::<Write>::empty())
    } else {
        match (chunks_writes(chunks.drop_last()), chunk_writes(chunks.last())) {
            (Some(a), Some(b)) => Some(a + b),
            _ => None,
        }
    }
}

/// The chunks of the color section: its non-empty `#`-separated pieces.
pub open spec fn color_chunks(section: Seq<char>) -> Seq<Seq<char>> {
    nonempty_parts(split_spec(section, '#'))
}

/// The decoded text: width, height, background and the pixels set on it,
/// in order; `None` wherever the decoder panics.
pub open spec fn decode_text_spec(t: Seq<char>) -> Option<(u32, u32, Rgba, Seq<Write>)> {
    match restore_spec(expand_legacy(t)) {
        None => None,
        Some(r) => {
            let fields = split_spec(r, '%');
            if fields.len() < 4 {
                None
            } else {
                match (
                    parse_u32_spec(fields[0]),
                    parse_u32_spec(fields[1]),
                    hex_color_parse_spec(fields[2]),
                    chunks_writes(color_chunks(fields[3])),
                ) {
                    (Some(w), Some(h), Some(bg), Some(ws)) => Some((w, h, bg, ws)),
                    _ => None,
                }
            }
        },
    }
}

/// The grid after setting the pixels in order on a `width` by `height`
/// grid of `bg`; `None` where one lies outside (`put_pixel` panics there).
pub open spec fn paint_spec(width: u32, height: u32, bg: Rgba, ws: Seq<Write>) -> Option<Seq<Seq<Rgba>>>
    decreases ws.len(),
{
    if ws.len() == 0 {
        Some(filled(width as nat, height as nat, bg))
    } else {
        match paint_spec(width, height, bg, ws.drop_last()) {
            None => None,
            Some(g) => {
                let (x, y, c) = ws.last();
                if x < width && y < height {
                    Some(g.update(y as int, g[y as int].update(x as int, c)))
                } else {
                    None
                }
            },
        }
    }
}

/// The decoded header and the pixels to set.
pub struct DecodedImage {
    pub width: u32,
    pub height: u32,
    pub background: Rgba,
    pub writes: Vec<Write>,
}


/// `json::parse`, its `entries()` taken out as (key, `as_str` of the value);
/// `None` where the text is not JSON. A text that parses to something other
/// than an object has no entries. Of an object of plain string pairs with
/// distinct keys (see `json_object_text`) the parser's source shows that it
/// reads exactly those pairs, in order (`Object` keeps insertion order); no
/// other result is stated. The text must be one that `json_text` builds:
/// there every `:` and `,` is followed by `"`, so each value the parser
/// meets is a string. Its number reader is never entered; that reader counts
/// a fraction's exponent down in an `i16` unchecked and panics in a debug
/// build on a fraction of more than 32768 digits.
#[verifier::external_body]
fn parse_json_entries(text: &str) -> (res: Option<Vec<(String, Option<String>)>>)
    requires
        exists|d: Seq<char>| json_text(d) == Some(text@),
    ensures
        match json_object_entries(text@) {
            None => res is None,
            Some(es) => res matches Some(v) && v@.len() == es.len() && forall|k: int|
                0 <= k < es.len() ==> {
                    &&& (#[trigger] v@[k]).0@ == es[k].0
                    &&& match v@[k].1 {
                        Some(s) => es[k].1 == Some(s@),
                        None => es[k].1 is None,
                    }
                },
        },
        forall|ps: Seq<(Seq<char>, Seq<char>)>|
            json_flat_pairs(ps) && text@ == #[trigger] json_object_text(ps) ==> (res matches Some(v)
                && v@.len() == ps.len() && forall|k: int|
                0 <= k < ps.len() ==> {
                    &&& (#[trigger] v@[k]).0@ == ps[k].0
                    &&& v@[k].1 matches Some(s) && s@ == ps[k].1
                }),
{
    match json::parse(text) {
        Ok(value) => Some(
            value.entries().map(|(k, v)| (k.to_string(), v.as_str().map(|s| s.to_string()))).collect(),
        ),
        Err(_) => None,
    }
}

/// `s` without its trailing run of `c`.
pub fn trim_end(s: &[char], c: char) -> (res: Vec<char>)
    ensures
        res@ == trim_end_spec(s@, c),
{
    let mut n = s.len();
    assert(s@.take(n as int) =~= s@);
    while n > 0 && s[n - 1] == c
        invariant
            n <= s@.len(),
            trim_end_spec(s@, c) == trim_end_spec(s@.take(n as int), c),
        decreases n,
    {
        assert(s@.take(n as int).drop_last() =~= s@.take(n - 1));
        n = n - 1;
    }
    copy_range(s, 0, n)
}

fn clean_pixel_chars(p: &[char]) -> (res: Vec<char>)
    ensures
        res@ == clean_pixel(p@),
{
    let a1 = trim_start(p, '(');
    let a2 = trim_start(a1.as_slice(), ',');
    let a3 = trim_end(a2.as_slice(), ',');
    let a4 = trim_end(a3.as_slice(), ')');
    let b1 = trim_start(a4.as_slice(), '(');
    let b2 = trim_start(b1.as_slice(), ',');
    let b3 = trim_end(b2.as_slice(), ',');
    trim_end(b3.as_slice(), ')')
}

fn entry_coords_chars(e: &[char]) -> (res: Option<(u32, u32)>)
    ensures
        res == entry_coords(e@),
{
    let f = split_ranges(e, ',');
    if f.len() < 2 {
        return None;
    }
    let xs = copy_range(e, f[0].0, f[0].1);
    let ys = copy_range(e, f[1].0, f[1].1);
    match (parse_u32(xs.as_slice()), parse_u32(ys.as_slice())) {
        (Some(x), Some(y)) => Some((x, y)),
        _ => None,
    }
}

proof fn lemma_all_coords_prefix_none(m: Seq<Seq<char>>, k: int)
    requires
        0 <= k <= m.len(),
        all_coords(nonempty_parts(m.take(k))) is None,
    ensures
        all_coords(nonempty_parts(m)) is None,
    decreases m.len() - k,
{
    if k < m.len() {
        assert(m.take(k + 1).drop_last() =~= m.take(k));
        let a = nonempty_parts(m.take(k + 1));
        if m.take(k + 1).last().len() > 0 {
            assert(a.drop_last() == nonempty_parts(m.take(k)));
        }
        lemma_all_coords_prefix_none(m, k + 1);
    } else {
        assert(m.take(k) =~= m);
    }
}

/// The color of a chunk: `#` and its hexadecimal text, parsed.
fn chunk_color_exec(hex: &[char]) -> (res: Option<Rgba>)
    ensures
        res == chunk_color(hex@),
{
    let mut t: Vec<char> = Vec::new();
    t.push('#');
    let mut i: usize = 0;
    while i < hex.len()
        invariant
            0 <= i <= hex@.len(),
            t@ == seq!['#'] + hex@.take(i as int),
        decreases hex.len() - i,
    {
        t.push(hex[i]);
        i = i + 1;
        assert(t@ =~= seq!['#'] + hex@.take(i as int));
    }
    assert(hex@.take(hex@.len() as int) =~= hex@);
    let s = string_of(&t);
    parse_hex_color(s.as_str())
}

/// The pixels a plain list sets (see `list_writes`).
pub fn list_writes_exec(hex: &[char], list: &[char]) -> (res: Option<Vec<Write>>)
    ensures
        match res {
            Some(v) => list_writes(hex@, list@) == Some(v@),
            None => list_writes(hex@, list@) is None,
        },
{
    let t = trim_end(list, ']');
    let pieces = split_ranges(t.as_slice(), ')');
    let ghost m = split_spec(t@, ')').map_values(|p: Seq<char>| clean_pixel(p));
    let mut coords: Vec<(u32, u32)> = Vec::new();
    let mut k: usize = 0;
    while k < pieces.len()
        invariant
            0 <= k <= pieces@.len(),
            pieces@.len() == m.len(),
            m == split_spec(t@, ')').map_values(|p: Seq<char>| clean_pixel(p)),
            t@ == trim_end_spec(list@, ']'),
            forall|j: int|
                0 <= j < pieces@.len() ==> {
                    &&& (#[trigger] pieces@[j]).0 <= pieces@[j].1 <= t@.len()
                    &&& t@.subrange(pieces@[j].0 as int, pieces@[j].1 as int) == split_spec(t@, ')')[j]
                },
            all_coords(nonempty_parts(m.take(k as int))) == Some(coords@),
        decreases pieces.len() - k,
    {
        let piece = copy_range(t.as_slice(), pieces[k].0, pieces[k].1);
        let e = clean_pixel_chars(piece.as_slice());
        assert(m[k as int] == e@);
        assert(m.take(k + 1).drop_last() =~= m.take(k as int));
        assert(m.take(k + 1).last() == e@);
        assert(nonempty_parts(m.take(k + 1)) == (if e@.len() == 0 {
            nonempty_parts(m.take(k as int))
        } else {
            nonempty_parts(m.take(k as int)).push(e@)
        }));
        proof {
            if e@.len() > 0 {
                assert(nonempty_parts(m.take(k + 1)).drop_last() =~= nonempty_parts(m.take(k as int)));
            }
        }
        if e.len() > 0 {
            match entry_coords_chars(e.as_slice()) {
                Some(c) => {
                    coords.push(c);
                },
                None => {
                    proof {
                        lemma_all_coords_prefix_none(m, k + 1);
                    }
                    return None;
                },
            }
        }
        k = k + 1;
    }
    assert(m.take(pieces@.len() as int) =~= m);
    if coords.len() == 0 {
        return Some(Vec::new());
    }
    match chunk_color_exec(hex) {
        None => None,
        Some(c) => {
            let mut out: Vec<Write> = Vec::new();
            let mut i: usize = 0;
            while i < coords.len()
                invariant
                    0 <= i <= coords@.len(),
                    out@ == coords@.take(i as int).map_values(|p: (u32, u32)| (p.0, p.1, c)),
                decreases coords.len() - i,
            {
                out.push((coords[i].0, coords[i].1, c));
                i = i + 1;
                assert(out@ =~= coords@.take(i as int).map_values(|p: (u32, u32)| (p.0, p.1, c)));
            }
            assert(coords@.take(coords@.len() as int) =~= coords@);
            Some(out)
        },
    }
}

/// The JSON text the decoder builds from a dictionary (see `json_text`).
fn json_text_exec(dict: &[char]) -> (res: Option<Vec<char>>)
    ensures
        match res {
            Some(v) => json_text(dict@) == Some(v@),
            None => json_text(dict@) is None,
        },
{
    let mut q: Vec<char> = Vec::new();
    let mut i: usize = 0;
    while i < dict.len()
        invariant
            0 <= i <= dict@.len(),
            q@ == quote_separators(dict@.take(i as int)),
        decreases dict.len() - i,
    {
        let c = dict[i];
        assert(dict@.take(i + 1).drop_last() =~= dict@.take(i as int));
        assert(dict@.take(i + 1).last() == c);
        let ghost before = q@;
        if c == ':' {
            q.push('"');
            q.push(':');
            q.push('"');
        } else if c == ',' {
            q.push('"');
            q.push(',');
            q.push('"');
        } else {
            q.push(c);
        }
        assert(q@ =~= quote_separators(dict@.take(i + 1)));
        i = i + 1;
    }
    assert(dict@.take(dict@.len() as int) =~= dict@);
    let mut p2: Vec<char> = Vec::new();
    p2.push('{');
    p2.push('"');
    let mut j: usize = 0;
    while j < q.len()
        invariant
            0 <= j <= q@.len(),
            p2@ == seq!['{', '"'] + q@.take(j as int),
        decreases q.len() - j,
    {
        p2.push(q[j]);
        j = j + 1;
        assert(p2@ =~= seq!['{', '"'] + q@.take(j as int));
    }
    assert(q@.take(q@.len() as int) =~= q@);
    let ghost g2 = seq!['{', '"'] + (seq!['{'] + quote_separators(dict@)).drop_first();
    assert(p2@ =~= g2);
    let last = p2[p2.len() - 1];
    if (last as u32) >= 0x80 {
        return None;
    }
    let n = p2.len();
    p2.set(n - 1, '"');
    p2.push(last);
    assert(p2@ =~= g2.drop_last().push('"').push(g2.last()));
    Some(p2)
}

/// The pixels of every row of `ys` with every column of `zs` (see
/// `pairs_writes`).
fn pairs_writes_exec(ys: &[u32], zs: &[u32], color: Rgba, is_y: bool, out: &mut Vec<Write>)
    ensures
        final(out)@ == old(out)@ + pairs_writes(ys@, zs@, color, is_y),
{
    let ghost start = out@;
    let mut i: usize = 0;
    assert(ys@.take(0) =~= Seq::<u32>::empty());
    while i < ys.len()
        invariant
            0 <= i <= ys@.len(),
            out@ == start + pairs_writes(ys@.take(i as int), zs@, color, is_y),
        decreases ys.len() - i,
    {
        let y = ys[i];
        let ghost mid = out@;
        let mut j: usize = 0;
        while j < zs.len()
            invariant
                0 <= j <= zs@.len(),
                out@ == mid + zs@.take(j as int).map_values(
                    |z: u32| if is_y { (y, z, color) } else { (z, y, color) },
                ),
            decreases zs.len() - j,
        {
            if is_y {
                out.push((y, zs[j], color));
            } else {
                out.push((zs[j], y, color));
            }
            j = j + 1;
            assert(out@ =~= mid + zs@.take(j as int).map_values(
                |z: u32| if is_y { (y, z, color) } else { (z, y, color) },
            ));
        }
        assert(zs@.take(zs@.len() as int) =~= zs@);
        assert(ys@.take(i + 1).drop_last() =~= ys@.take(i as int));
        assert(ys@.take(i + 1).last() == y);
        i = i + 1;
        assert(out@ =~= start + pairs_writes(ys@.take(i as int), zs@, color, is_y));
    }
    assert(ys@.take(ys@.len() as int) =~= ys@);
}

/// The coordinates a notation stands for: expanded, then summed.
fn notation_values(s: &[char]) -> (res: Option<Vec<u32>>)
    ensures
        match res {
            Some(v) => expand_math_spec(s@) matches Some(e) && math_values_spec(e) == Some(v@),
            None => expand_math_spec(s@) matches Some(e) ==> math_values_spec(e) is None,
        },
{
    match expand_math_chars(s) {
        None => None,
        Some(e) => math_values(e.as_slice()),
    }
}

proof fn lemma_entries_writes_prefix_none(
    es: Seq<(Seq<char>, Option<Seq<char>>)>,
    color: Option<Rgba>,
    is_y: bool,
    k: int,
)
    requires
        0 <= k <= es.len(),
        entries_writes(es.take(k), color, is_y) is None,
    ensures
        entries_writes(es, color, is_y) is None,
    decreases es.len() - k,
{
    if k < es.len() {
        assert(es.take(k + 1).drop_last() =~= es.take(k));
        lemma_entries_writes_prefix_none(es, color, is_y, k + 1);
    } else {
        assert(es.take(k) =~= es);
    }
}

/// The pixels all entries of a parsed dictionary set (see `entries_writes`).
pub fn entries_writes_exec(
    entries: &Vec<(String, Option<String>)>,
    color: Option<Rgba>,
    is_y: bool,
) -> (res: Option<Vec<Write>>)
    ensures
        ({
            let es = entries@.map_values(
                |e: (String, Option<String>)|
                    (e.0@, match e.1 {
                        Some(s) => Some(s@),
                        None => None,
                    }),
            );
            match res {
                Some(v) => entries_writes(es, color, is_y) == Some(v@),
                None => entries_writes(es, color, is_y) is None,
            }
        }),
{
    let ghost es = entries@.map_values(
        |e: (String, Option<String>)|
            (e.0@, match e.1 {
                Some(s) => Some(s@),
                None => None,
            }),
    );
    let mut out: Vec<Write> = Vec::new();
    let mut k: usize = 0;
    while k < entries.len()
        invariant
            0 <= k <= entries@.len(),
            es.len() == entries@.len(),
            es == entries@.map_values(
                |e: (String, Option<String>)|
                    (e.0@, match e.1 {
                        Some(s) => Some(s@),
                        None => None,
                    }),
            ),
            entries_writes(es.take(k as int), color, is_y) == Some(out@),
        decreases entries.len() - k,
    {
        assert(es.take(k + 1).drop_last() =~= es.take(k as int));
        assert(es.take(k + 1).last() == es[k as int]);
        let c = match color {
            None => {
                proof {
                    lemma_entries_writes_prefix_none(es, color, is_y, k + 1);
                }
                return None;
            },
            Some(c) => c,
        };
        let key = chars_of(entries[k].0.as_str());
        let value = match &entries[k].1 {
            None => {
                proof {
                    lemma_entries_writes_prefix_none(es, color, is_y, k + 1);
                }
                return None;
            },
            Some(v) => chars_of(v.as_str()),
        };
        let ys = notation_values(key.as_slice());
        let zs = notation_values(value.as_slice());
        match (ys, zs) {
            (Some(ys), Some(zs)) => {
                pairs_writes_exec(ys.as_slice(), zs.as_slice(), c, is_y, &mut out);
            },
            _ => {
                proof {
                    lemma_entries_writes_prefix_none(es, color, is_y, k + 1);
                }
                return None;
            },
        }
        k = k + 1;
    }
    assert(es.take(entries@.len() as int) =~= es);
    Some(out)
}


/// The pixels a dictionary chunk sets (see `dict_writes`).
pub fn dict_writes_exec(hex: &[char], dict: &[char], is_y: bool) -> (res: Option<Vec<Write>>)
    ensures
        match res {
            Some(v) => dict_writes(hex@, dict@, is_y) == Some(v@),
            None => dict_writes(hex@, dict@, is_y) is None,
        },
        json_text(dict@) matches Some(j) ==> json_reads_flat_at(j),
{
    let j = match json_text_exec(dict) {
        None => return None,
        Some(j) => j,
    };
    let text = string_of(&j);
    assert(json_text(dict@) == Some(text@));
    let parsed = parse_json_entries(text.as_str());
    proof {
        assert forall|ps: Seq<(Seq<char>, Seq<char>)>|
            json_flat_pairs(ps) && text@ == #[trigger] json_object_text(ps) implies json_object_entries(
            text@,
        ) == Some(ps.map_values(|p: (Seq<char>, Seq<char>)| (p.0, Some(p.1)))) by {
            let v = parsed->Some_0;
            let es = json_object_entries(text@)->Some_0;
            assert(es =~= ps.map_values(|p: (Seq<char>, Seq<char>)| (p.0, Some(p.1)))) by {
                assert forall|k: int| 0 <= k < es.len() implies es[k] == (ps[k].0, Some(ps[k].1)) by {
                    assert(v@[k].0@ == es[k].0);
                    assert(v@[k].0@ == ps[k].0);
                }
            }
        }
    }
    let entries = match parsed {
        None => return None,
        Some(e) => e,
    };
    let ghost es = entries@.map_values(
        |e: (String, Option<String>)|
            (e.0@, match e.1 {
                Some(s) => Some(s@),
                None => None,
            }),
    );
    assert(es =~= json_object_entries(j@)->0);
    let color = if entries.len() > 0 {
        chunk_color_exec(hex)
    } else {
        None
    };
    let res = entries_writes_exec(&entries, color, is_y);
    proof {
        if entries@.len() == 0 {
            assert(entries_writes(es, color, is_y) == entries_writes(es, chunk_color(hex@), is_y));
        }
    }
    res
}

/// The pixels one color chunk sets (see `chunk_writes`).
pub fn chunk_writes_exec(x: &[char]) -> (res: Option<Vec<Write>>)
    ensures
        match res {
            Some(v) => chunk_writes(x@) == Some(v@),
            None => chunk_writes(x@) is None,
        },
        chunk_json_read(x@),
{
    let is_y = x.len() > 0 && x[x.len() - 1] == 'y';
    let body = if is_y {
        copy_range(x, 0, x.len() - 1)
    } else {
        copy_range(x, 0, x.len())
    };
    assert(body@ =~= (if is_y { x@.drop_last() } else { x@ }));
    let braces = split_ranges(body.as_slice(), '{');
    if braces.len() == 1 {
        let brackets = split_ranges(body.as_slice(), '[');
        if brackets.len() < 2 {
            return None;
        }
        let hex = copy_range(body.as_slice(), brackets[0].0, brackets[0].1);
        let list = copy_range(body.as_slice(), brackets[1].0, brackets[1].1);
        list_writes_exec(hex.as_slice(), list.as_slice())
    } else {
        proof {
            crate::text::lemma_split_len(body@, '{');
        }
        let hex = copy_range(body.as_slice(), braces[0].0, braces[0].1);
        let dict = copy_range(body.as_slice(), braces[1].0, braces[1].1);
        dict_writes_exec(hex.as_slice(), dict.as_slice(), is_y)
    }
}

fn extend_writes(out: &mut Vec<Write>, w: &Vec<Write>)
    ensures
        final(out)@ == old(out)@ + w@,
{
    let ghost start = out@;
    let mut i: usize = 0;
    while i < w.len()
        invariant
            0 <= i <= w@.len(),
            out@ == start + w@.take(i as int),
        decreases w.len() - i,
    {
        out.push(w[i]);
        i = i + 1;
        assert(out@ =~= start + w@.take(i as int));
    }
    assert(w@.take(w@.len() as int) =~= w@);
}

proof fn lemma_chunks_writes_prefix_none(m: Seq<Seq<char>>, k: int)
    requires
        0 <= k <= m.len(),
        chunks_writes(nonempty_parts(m.take(k))) is None,
    ensures
        chunks_writes(nonempty_parts(m)) is None,
    decreases m.len() - k,
{
    if k < m.len() {
        assert(m.take(k + 1).drop_last() =~= m.take(k));
        let a = nonempty_parts(m.take(k + 1));
        if m.take(k + 1).last().len() > 0 {
            assert(a.drop_last() == nonempty_parts(m.take(k)));
        }
        lemma_chunks_writes_prefix_none(m, k + 1);
    } else {
        assert(m.take(k) =~= m);
    }
}

proof fn lemma_chunks_json_read_rest(m: Seq<Seq<char>>, k: int)
    requires
        0 <= k <= m.len(),
        chunks_writes(nonempty_parts(m.take(k))) is None,
        chunks_json_read(nonempty_parts(m.take(k))),
    ensures
        chunks_json_read(nonempty_parts(m)),
    decreases m.len() - k,
{
    if k < m.len() {
        assert(m.take(k + 1).drop_last() =~= m.take(k));
        let a = nonempty_parts(m.take(k + 1));
        if m.take(k + 1).last().len() > 0 {
            assert(a.drop_last() == nonempty_parts(m.take(k)));
        }
        lemma_chunks_json_read_rest(m, k + 1);
    } else {
        assert(m.take(k) =~= m);
    }
}

/// The pixels all chunks of the color section set, in order.
pub fn section_writes(section: &[char]) -> (res: Option<Vec<Write>>)
    ensures
        match res {
            Some(v) => chunks_writes(color_chunks(section@)) == Some(v@),
            None => chunks_writes(color_chunks(section@)) is None,
        },
        chunks_json_read(color_chunks(section@)),
{
    let pieces = split_ranges(section, '#');
    let ghost m = split_spec(section@, '#');
    let mut out: Vec<Write> = Vec::new();
    let mut k: usize = 0;
    while k < pieces.len()
        invariant
            0 <= k <= pieces@.len(),
            pieces@.len() == m.len(),
            m == split_spec(section@, '#'),
            forall|j: int|
                0 <= j < pieces@.len() ==> {
                    &&& (#[trigger] pieces@[j]).0 <= pieces@[j].1 <= section@.len()
                    &&& section@.subrange(pieces@[j].0 as int, pieces@[j].1 as int) == m[j]
                },
            chunks_writes(nonempty_parts(m.take(k as int))) == Some(out@),
            chunks_json_read(nonempty_parts(m.take(k as int))),
        decreases pieces.len() - k,
    {
        let piece = copy_range(section, pieces[k].0, pieces[k].1);
        assert(m.take(k + 1).drop_last() =~= m.take(k as int));
        assert(m.take(k + 1).last() == piece@);
        if piece.len() > 0 {
            assert(nonempty_parts(m.take(k + 1)).drop_last() =~= nonempty_parts(m.take(k as int)));
            match chunk_writes_exec(piece.as_slice()) {
                Some(w) => {
                    extend_writes(&mut out, &w);
                },
                None => {
                    proof {
                        lemma_chunks_writes_prefix_none(m, k + 1);
                        lemma_chunks_json_read_rest(m, k + 1);
                    }
                    return None;
                },
            }
        } else {
            assert(nonempty_parts(m.take(k + 1)) == nonempty_parts(m.take(k as int)));
        }
        k = k + 1;
    }
    assert(m.take(pieces@.len() as int) =~= m);
    Some(out)
}

/// Decodes the (decompressed) text of a PCF file: its size, background and
/// the pixels to set; `None` wherever the decoder panics. Where the text is
/// the one the encoder writes for an image, it decodes to that image's size
/// and to pixels that, painted on the background, give the image back.
pub fn decode_text(text: &str) -> (res: Option<DecodedImage>)
    ensures
        match res {
            Some(d) => decode_text_spec(text@) == Some((d.width, d.height, d.background, d.writes@)),
            None => decode_text_spec(text@) is None,
        },
        decode_json_read(text@),
        forall|grid: Seq<Seq<Rgba>>, w: u32, h: u32|
            #![trigger encode_text_spec(grid, w, h)]
            grid.len() == h && (forall|y: int| 0 <= y < grid.len() ==> (#[trigger] grid[y]).len() == w)
                && encode_text_spec(grid, w, h) == Some(text@) ==> (res matches Some(
                d,
            ) && d.width == w && d.height == h && paint_spec(w, h, d.background, d.writes@) == Some(grid)),
{
    let res = decode_fields(text);
    proof {
        assert forall|grid: Seq<Seq<Rgba>>, w: u32, h: u32|
            grid.len() == h && (forall|y: int| 0 <= y < grid.len() ==> (#[trigger] grid[y]).len() == w)
                && #[trigger] encode_text_spec(grid, w, h) == Some(
                text@,
            ) implies (res matches Some(d) && d.width == w && d.height == h && paint_spec(
            w,
            h,
            d.background,
            d.writes@,
        ) == Some(grid)) by {
            law_lossless(grid, w, h);
        }
    }
    res
}

fn decode_fields(text: &str) -> (res: Option<DecodedImage>)
    ensures
        match res {
            Some(d) => decode_text_spec(text@) == Some((d.width, d.height, d.background, d.writes@)),
            None => decode_text_spec(text@) is None,
        },
        decode_json_read(text@),
{
    let t0 = chars_of(text);
    let t1 = expand_legacy_chars(t0.as_slice());
    let r = match restore_chars(t1.as_slice()) {
        None => return None,
        Some(r) => r,
    };
    let fields = split_ranges(r.as_slice(), '%');
    if fields.len() < 4 {
        return None;
    }
    let w_text = copy_range(r.as_slice(), fields[0].0, fields[0].1);
    let h_text = copy_range(r.as_slice(), fields[1].0, fields[1].1);
    let bg_text = copy_range(r.as_slice(), fields[2].0, fields[2].1);
    let section = copy_range(r.as_slice(), fields[3].0, fields[3].1);
    let width = parse_u32(w_text.as_slice());
    let height = parse_u32(h_text.as_slice());
    let bg_string = string_of(&bg_text);
    let bg = parse_hex_color(bg_string.as_str());
    let writes = section_writes(section.as_slice());
    match (width, height, bg, writes) {
        (Some(w), Some(h), Some(b), Some(ws)) => Some(
            DecodedImage { width: w, height: h, background: b, writes: ws },
        ),
        _ => None,
    }
}

/// The image a decoded text describes: the background, then every pixel set
/// in order; `None` where a pixel lies outside (the decoder panics there).
pub fn render(d: &DecodedImage) -> (res: Option<Image>)
    ensures
        match res {
            Some(img) => {
                &&& img.wf()
                &&& img.width == d.width
                &&& img.height == d.height
                &&& paint_spec(d.width, d.height, d.background, d.writes@) == Some(img.grid())
            },
            None => paint_spec(d.width, d.height, d.background, d.writes@) is None,
        },
{
    let mut img = from_pixel(d.width, d.height, d.background);
    let mut k: usize = 0;
    while k < d.writes.len()
        invariant
            0 <= k <= d.writes@.len(),
            img.wf(),
            img.width == d.width,
            img.height == d.height,
            paint_spec(d.width, d.height, d.background, d.writes@.take(k as int)) == Some(img.grid()),
        decreases d.writes.len() - k,
    {
        let (x, y, c) = d.writes[k];
        assert(d.writes@.take(k + 1).drop_last() =~= d.writes@.take(k as int));
        assert(d.writes@.take(k + 1).last() == (x, y, c));
        if x >= d.width || y >= d.height {
            proof {
                lemma_paint_prefix_none(d.width, d.height, d.background, d.writes@, k + 1);
            }
            return None;
        }
        put_pixel(&mut img, x, y, c);
        k = k + 1;
    }
    assert(d.writes@.take(d.writes@.len() as int) =~= d.writes@);
    Some(img)
}

proof fn lemma_paint_prefix_none(w: u32, h: u32, bg: Rgba, ws: Seq<Write>, k: int)
    requires
        0 <= k <= ws.len(),
        paint_spec(w, h, bg, ws.take(k)) is None,
    ensures
        paint_spec(w, h, bg, ws) is None,
    decreases ws.len() - k,
{
    if k < ws.len() {
        assert(ws.take(k + 1).drop_last() =~= ws.take(k));
        lemma_paint_prefix_none(w, h, bg, ws, k + 1);
    } else {
        assert(ws.take(k) =~= ws);
    }
}


/// `String::from_utf8`: the text where the bytes are UTF-8.
#[verifier::external_body]
fn utf8_to_string(bytes: &[u8]) -> (res: Option<String>)
    ensures
        match res {
            Some(s) => valid_utf8(bytes@) && s@ == decode_utf8(bytes@),
            None => !valid_utf8(bytes@),
        },
{
    String::from_utf8(bytes.to_vec()).ok()
}

/// The text of a file stored without compression: UTF-8 holding a `%` and
/// a `#`. Other contents are compressed.
pub open spec fn stored_text_spec(bytes: Seq<u8>) -> Option<Seq<char>> {
    if valid_utf8(bytes) && !free_of(decode_utf8(bytes), '%') && !free_of(decode_utf8(bytes), '#') {
        Some(decode_utf8(bytes))
    } else {
        None
    }
}

/// The text of the file where it is stored uncompressed; `None` where the
/// contents must be decompressed first.
pub fn stored_text(contents: &[u8]) -> (res: Option<String>)
    ensures
        match res {
            Some(s) => stored_text_spec(contents@) == Some(s@),
            None => stored_text_spec(contents@) is None,
        },
{
    match utf8_to_string(contents) {
        None => None,
        Some(s) => {
            let cs = chars_of(s.as_str());
            if has_char(cs.as_slice(), '%') && has_char(cs.as_slice(), '#') {
                Some(s)
            } else {
                None
            }
        },
    }
}

} // verus!
