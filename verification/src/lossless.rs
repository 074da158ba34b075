//! An image comes back from its text pixel for pixel: the encoder's chunks
//! are read back as writes of each color on exactly its pixels, and
//! painting them on the background gives the image.
use vstd::prelude::*;
use crate::color::Rgba;
use crate::decode::{
    all_coords, chunk_color, chunk_writes, clean_pixel, dict_writes, entry_coords, list_entries,
    list_writes, trim_end_spec, entries_writes, entry_writes, json_flat_pairs,
    json_object_entries, json_object_text, json_plain_char, json_quoted, json_reads_flat_at, chunk_json_read, chunks_json_read, decode_json_read,
    json_text, pairs_writes, paint_spec, quote_separators, Write, chunks_writes, color_chunks,
    decode_text_spec,
};
use crate::restore::{expand_legacy, restore_spec};
use crate::roundtrip::{
    hex_upper_char, law_color_roundtrip, law_pattern_roundtrip, lemma_color_text_shape,
    pattern_free_char,
};
use crate::patterns::{lemma_savings_fit, remove_dup_ok};
use crate::encode::{
    chunk_coords_ok, color_text_spec, column_notations, columns, dict_entries, dict_text_spec,
    entry_text, lemma_columns, lemma_group_nonempty, lemma_row_sets, list_text_spec, pixel_items,
    pixel_text, row_items, row_sets, chunk_spec, chunks_spec, encode_text_spec, image_text_spec,
    lemma_groups_ok, lemma_max_group, image_fits, chunk_coords_in, max_group, lemma_pixel_items_nonempty,
};
use crate::group::{group_by, lemma_group_covers, lemma_group_keys_distinct, lemma_group_members};
use crate::image::filled;
use crate::sort::{lemma_sort_spec, sort_spec};
use crate::math::{
    coords_math_spec, expand_math_spec, law_math_roundtrip, deltas_fit, math_values_spec, decimals, deltas_spec, delta_text, lemma_decimal_plain,
    lemma_delta_text_items, lemma_join_first, lemma_run_items, lemma_runs_shape, math_items,
    nondecreasing, nonempty_parts, render_run, render_runs, runs_spec, trim_start_spec,
};
use crate::number::{decimal, is_digit, lemma_decimal_digits, lemma_parse_decimal};
use crate::text::{
    all_chars, free_of, join_spec, lemma_chars_free, lemma_concat_chars, lemma_join_chars,
    lemma_split_append_free, lemma_split_free, lemma_split_len, lemma_split_sep_then, split_spec,
};

verus! {

/// Some pixel item of the grid is the pixel `(x, y)` with its color.
pub open spec fn has_item(grid: Seq<Seq<Rgba>>, x: int, y: int) -> bool {
    exists|j: int|
        0 <= j < pixel_items(grid).len() && (#[trigger] pixel_items(grid)[j]).1.0 == x
            && pixel_items(grid)[j].1.1 == y && pixel_items(grid)[j].0 == grid[y][x]
}

/// The pixels of a grid in scan order are its pixels: each item is the
/// color at its position, and each position has its item.
pub proof fn lemma_pixel_items_at(grid: Seq<Seq<Rgba>>, w: int)
    requires
        forall|y: int| 0 <= y < grid.len() ==> (#[trigger] grid[y]).len() == w,
        0 <= w <= u32::MAX + 1,
        grid.len() <= u32::MAX + 1,
    ensures
        forall|j: int|
            0 <= j < pixel_items(grid).len() ==> {
                &&& (#[trigger] pixel_items(grid)[j]).1.0 < w
                &&& pixel_items(grid)[j].1.1 < grid.len()
                &&& pixel_items(grid)[j].0 == grid[pixel_items(grid)[j].1.1 as int][pixel_items(
                    grid,
                )[j].1.0 as int]
            },
        forall|x: int, y: int| 0 <= x < w && 0 <= y < grid.len() ==> #[trigger] has_item(grid, x, y),
    decreases grid.len(),
{
    if grid.len() > 0 {
        let g0 = grid.drop_last();
        assert forall|y: int| 0 <= y < g0.len() implies (#[trigger] g0[y]).len() == w by {
            assert(g0[y] == grid[y]);
        }
        lemma_pixel_items_at(g0, w);
        let a = pixel_items(g0);
        let n = grid.len() - 1;
        let r = row_items(grid.last(), n);
        let all = pixel_items(grid);
        assert(all == a + r);
        assert(grid.last().len() == w);
        assert forall|j: int| 0 <= j < all.len() implies {
            &&& (#[trigger] all[j]).1.0 < w
            &&& all[j].1.1 < grid.len()
            &&& all[j].0 == grid[all[j].1.1 as int][all[j].1.0 as int]
        } by {
            if j < a.len() {
                assert(all[j] == a[j]);
                assert(g0[a[j].1.1 as int] == grid[a[j].1.1 as int]);
            } else {
                assert(all[j] == r[j - a.len()]);
            }
        }
        assert forall|x: int, y: int| 0 <= x < w && 0 <= y < grid.len() implies #[trigger] has_item(grid, x, y) by {
            if y < n {
                assert(has_item(g0, x, y));
                assert(g0[y][x] == grid[y][x]);
                let j = choose|j: int|
                    0 <= j < a.len() && (#[trigger] a[j]).1.0 == x && a[j].1.1 == y && a[j].0 == g0[y][x];
                assert(all[j] == a[j]);
            } else {
                assert(all[a.len() + x] == r[x]);
            }
        }
    }
}

/// Some write sets the pixel `(x, y)`.
pub open spec fn written(ws: Seq<Write>, x: int, y: int) -> bool {
    exists|k: int| 0 <= k < ws.len() && (#[trigger] ws[k]).0 == x && ws[k].1 == y
}

/// The grid that painting gives: where a write sets a pixel, the grid's
/// color, elsewhere the background.
pub open spec fn painted(grid: Seq<Seq<Rgba>>, w: int, bg: Rgba, ws: Seq<Write>) -> Seq<Seq<Rgba>> {
    Seq::new(
        grid.len(),
        |y: int| Seq::new(w as nat, |x: int| if written(ws, x, y) { grid[y][x] } else { bg }),
    )
}

/// Each write lies inside the grid and sets the grid's own color.
pub open spec fn writes_agree(grid: Seq<Seq<Rgba>>, w: int, ws: Seq<Write>) -> bool {
    forall|k: int|
        0 <= k < ws.len() ==> {
            &&& (#[trigger] ws[k]).0 < w
            &&& ws[k].1 < grid.len()
            &&& grid[ws[k].1 as int][ws[k].0 as int] == ws[k].2
        }
}

proof fn lemma_paint_agreeing(grid: Seq<Seq<Rgba>>, width: u32, height: u32, bg: Rgba, ws: Seq<Write>)
    requires
        grid.len() == height,
        forall|y: int| 0 <= y < grid.len() ==> (#[trigger] grid[y]).len() == width,
        writes_agree(grid, width as int, ws),
    ensures
        paint_spec(width, height, bg, ws) == Some(painted(grid, width as int, bg, ws)),
    decreases ws.len(),
{
    let p = painted(grid, width as int, bg, ws);
    if ws.len() == 0 {
        assert forall|y: int| 0 <= y < height implies (#[trigger] p[y]) =~= filled(
            width as nat,
            height as nat,
            bg,
        )[y] by {
            assert forall|x: int| 0 <= x < width implies !written(ws, x, y) by {}
        }
        assert(p =~= filled(width as nat, height as nat, bg));
    } else {
        let w0 = ws.drop_last();
        assert(writes_agree(grid, width as int, w0)) by {
            assert forall|k: int| 0 <= k < w0.len() implies {
                &&& (#[trigger] w0[k]).0 < width
                &&& w0[k].1 < grid.len()
                &&& grid[w0[k].1 as int][w0[k].0 as int] == w0[k].2
            } by {
                assert(w0[k] == ws[k]);
            }
        }
        lemma_paint_agreeing(grid, width, height, bg, w0);
        let g = painted(grid, width as int, bg, w0);
        let (x, y, c) = ws.last();
        assert(ws[ws.len() - 1] == ws.last());
        assert(x < width && y < height);
        let q = g.update(y as int, g[y as int].update(x as int, c));
        assert forall|yy: int| 0 <= yy < height implies (#[trigger] q[yy]) =~= p[yy] by {
            assert forall|xx: int| 0 <= xx < width implies q[yy][xx] == p[yy][xx] by {
                if xx == x && yy == y {
                    assert(written(ws, xx, yy)) by {
                        assert(ws[ws.len() - 1].0 == xx);
                    }
                } else {
                    if written(ws, xx, yy) {
                        let k = choose|k: int| 0 <= k < ws.len() && (#[trigger] ws[k]).0 == xx && ws[k].1 == yy;
                        assert(k < w0.len());
                        assert(w0[k] == ws[k]);
                    }
                    if written(w0, xx, yy) {
                        let k = choose|k: int| 0 <= k < w0.len() && (#[trigger] w0[k]).0 == xx && w0[k].1 == yy;
                        assert(ws[k] == w0[k]);
                    }
                }
            }
        }
        assert(q =~= p);
    }
}

/// Painting writes that agree with a grid, and that set every pixel whose
/// color is not the background, gives the grid.
pub proof fn lemma_paint_gives_grid(grid: Seq<Seq<Rgba>>, width: u32, height: u32, bg: Rgba, ws: Seq<Write>)
    requires
        grid.len() == height,
        forall|y: int| 0 <= y < grid.len() ==> (#[trigger] grid[y]).len() == width,
        writes_agree(grid, width as int, ws),
        forall|x: int, y: int|
            0 <= x < width && 0 <= y < height && #[trigger] grid[y][x] != bg ==> written(ws, x, y),
    ensures
        paint_spec(width, height, bg, ws) == Some(grid),
{
    lemma_paint_agreeing(grid, width, height, bg, ws);
    let p = painted(grid, width as int, bg, ws);
    assert forall|y: int| 0 <= y < height implies (#[trigger] p[y]) =~= grid[y] by {
        assert forall|x: int| 0 <= x < width implies p[y][x] == grid[y][x] by {
            if grid[y][x] != bg {
                assert(written(ws, x, y));
            }
        }
    }
    assert(p =~= grid);
}


/// A character of the coordinate notation: a digit, `+` or `*`.
pub open spec fn math_char(c: char) -> bool {
    is_digit(c) || c == '+' || c == '*'
}

pub proof fn lemma_decimal_chars(n: nat)
    ensures
        all_chars(decimal(n), |c: char| math_char(c)),
        decimal(n).len() > 0,
{
    lemma_decimal_digits(n);
    assert forall|i: int| 0 <= i < decimal(n).len() implies math_char(#[trigger] decimal(n)[i]) by {
        assert(is_digit(decimal(n)[i]));
    }
}

/// The notation of a coordinate list is made of digits, `+` and `*`, and
/// is not empty.
pub proof fn lemma_math_chars(v: Seq<u32>)
    requires
        v.len() >= 1,
    ensures
        all_chars(coords_math_spec(v), |c: char| math_char(c)),
        coords_math_spec(v).len() > 0,
{
    let q = |c: char| math_char(c);
    lemma_delta_text_items(v);
    let ps = math_items(delta_text(v));
    let rs = runs_spec(ps);
    lemma_runs_shape(ps);
    let rendered = render_runs(rs);
    assert forall|k: int| 0 <= k < rendered.len() implies all_chars(#[trigger] rendered[k], q)
        && rendered[k].len() > 0 by {
        lemma_run_items(ps, k);
        let i = choose|i: int| 0 <= i < ps.len() && ps[i] == rs[k].0;
        assert(ps[i] == decimal(deltas_spec(v)[i] as nat));
        lemma_decimal_chars(deltas_spec(v)[i] as nat);
        assert(rendered[k] == render_run(rs[k]));
        if rs[k].1 > 1 {
            lemma_decimal_chars(rs[k].1);
            lemma_concat_chars(rs[k].0, seq!['*'], q);
            assert(rs[k].0.push('*') =~= rs[k].0 + seq!['*']);
            lemma_concat_chars(rs[k].0.push('*'), decimal(rs[k].1), q);
        }
    }
    lemma_join_chars(rendered, '+', q);
    lemma_join_first(rendered);
}

/// `quote_separators` works character by character.
pub proof fn lemma_quote_concat(a: Seq<char>, b: Seq<char>)
    ensures
        quote_separators(a + b) == quote_separators(a) + quote_separators(b),
    decreases b.len(),
{
    if b.len() == 0 {
        assert(a + b =~= a);
        assert(quote_separators(a) + quote_separators(b) =~= quote_separators(a));
    } else {
        let b0 = b.drop_last();
        lemma_quote_concat(a, b0);
        assert((a + b).drop_last() =~= a + b0);
        assert((a + b).last() == b.last());
    }
}

proof fn lemma_quote_char(c: char)
    ensures
        quote_separators(seq![c]) == (if c == ':' {
            seq!['"', ':', '"']
        } else if c == ',' {
            seq!['"', ',', '"']
        } else {
            seq![c]
        }),
{
    assert(seq![c].drop_last() =~= Seq::<char>::empty());
    assert(quote_separators(Seq::<char>::empty()) =~= Seq::<char>::empty());
    assert(seq![c].last() == c);
    assert(Seq::<char>::empty() + seq!['"', ':', '"'] =~= seq!['"', ':', '"']);
    assert(Seq::<char>::empty() + seq!['"', ',', '"'] =~= seq!['"', ',', '"']);
    assert(Seq::<char>::empty() + seq![c] =~= seq![c]);
}

/// Text without `:` and `,` is kept.
pub proof fn lemma_quote_plain(s: Seq<char>)
    requires
        free_of(s, ':'),
        free_of(s, ','),
    ensures
        quote_separators(s) == s,
    decreases s.len(),
{
    if s.len() > 0 {
        lemma_quote_plain(s.drop_last());
        assert(s[s.len() - 1] != ':' && s[s.len() - 1] != ',');
        assert(s.drop_last().push(s.last()) =~= s);
    }
}

/// The entries hold neither `:` nor `,`.
pub open spec fn entries_plain(ps: Seq<(Seq<char>, Seq<char>)>) -> bool {
    forall|k: int|
        0 <= k < ps.len() ==> free_of((#[trigger] ps[k]).0, ':') && free_of(ps[k].0, ',')
            && free_of(ps[k].1, ':') && free_of(ps[k].1, ',')
}

pub open spec fn json_pairs(ps: Seq<(Seq<char>, Seq<char>)>) -> Seq<Seq<char>> {
    ps.map_values(|p: (Seq<char>, Seq<char>)| json_quoted(p.0).push(':') + json_quoted(p.1))
}

pub open spec fn entry_texts(ps: Seq<(Seq<char>, Seq<char>)>) -> Seq<Seq<char>> {
    ps.map_values(|e: (Seq<char>, Seq<char>)| entry_text(e))
}

proof fn lemma_quoted_join(ps: Seq<(Seq<char>, Seq<char>)>)
    requires
        ps.len() >= 1,
        entries_plain(ps),
    ensures
        seq!['"'] + quote_separators(join_spec(entry_texts(ps), ',')) + seq!['"'] == join_spec(json_pairs(ps), ','),
    decreases ps.len(),
{
    let n = ps.len() - 1;
    let (k, v) = ps[n];
    assert(free_of(ps[n].0, ':') && free_of(ps[n].0, ','));
    assert(free_of(ps[n].1, ':') && free_of(ps[n].1, ','));
    lemma_quote_plain(k);
    lemma_quote_plain(v);
    lemma_quote_concat(k, seq![':']);
    lemma_quote_concat(k.push(':'), v);
    assert(k.push(':') =~= k + seq![':']);
    lemma_quote_char(':');
    let qe = quote_separators(entry_text((k, v)));
    assert(qe =~= k + seq!['"', ':', '"'] + v);
    assert(entry_texts(ps)[n] == entry_text((k, v)));
    assert(json_pairs(ps)[n] == json_quoted(k).push(':') + json_quoted(v));
    if ps.len() == 1 {
        assert(seq!['"'] + qe + seq!['"'] =~= json_quoted(k).push(':') + json_quoted(v));
    } else {
        let p0 = ps.drop_last();
        assert forall|i: int| 0 <= i < p0.len() implies free_of((#[trigger] p0[i]).0, ':') && free_of(p0[i].0, ',')
            && free_of(p0[i].1, ':') && free_of(p0[i].1, ',') by {
            assert(p0[i] == ps[i]);
        }
        lemma_quoted_join(p0);
        assert(entry_texts(ps).drop_last() =~= entry_texts(p0));
        assert(json_pairs(ps).drop_last() =~= json_pairs(p0));
        let j0 = join_spec(entry_texts(p0), ',');
        lemma_quote_concat(j0.push(','), entry_text((k, v)));
        lemma_quote_concat(j0, seq![',']);
        assert(j0.push(',') =~= j0 + seq![',']);
        lemma_quote_char(',');
        let q0 = quote_separators(j0);
        assert(seq!['"'] + quote_separators(join_spec(entry_texts(ps), ',')) + seq!['"'] =~= (seq!['"'] + q0 + seq!['"']).push(',') + (seq!['"'] + qe + seq!['"']));
        assert(seq!['"'] + qe + seq!['"'] =~= json_quoted(k).push(':') + json_quoted(v));
    }
}

/// The decoder's JSON text of a dictionary written by the encoder is the
/// object of its entries.
pub proof fn lemma_json_text_of_entries(ps: Seq<(Seq<char>, Seq<char>)>)
    requires
        ps.len() >= 1,
        entries_plain(ps),
    ensures
        json_text(join_spec(entry_texts(ps), ',') + seq!['}']) == Some(json_object_text(ps)),
{
    let j = join_spec(entry_texts(ps), ',');
    lemma_quoted_join(ps);
    lemma_quote_concat(j, seq!['}']);
    lemma_quote_char('}');
    let q = quote_separators(j);
    let p1 = seq!['{'] + quote_separators(j + seq!['}']);
    let p2 = seq!['{', '"'] + p1.drop_first();
    assert(p1.drop_first() =~= q + seq!['}']);
    assert(p2.last() == '}');
    assert(p2.drop_last().push('"').push(p2.last()) =~= seq!['{'] + (seq!['"'] + q + seq!['"']) + seq!['}']);
}


/// Some coordinate is `(x, y)`.
pub open spec fn has_coord(coords: Seq<(u32, u32)>, x: u32, y: u32) -> bool {
    exists|t: int| 0 <= t < coords.len() && (#[trigger] coords[t]).0 == x && coords[t].1 == y
}

/// Every write sets color `c` on one of the coordinates.
pub open spec fn writes_in(ws: Seq<Write>, coords: Seq<(u32, u32)>, c: Rgba) -> bool {
    forall|k: int| 0 <= k < ws.len() ==> (#[trigger] ws[k]).2 == c && has_coord(coords, ws[k].0, ws[k].1)
}

/// Every coordinate is set by some write.
pub open spec fn writes_cover(ws: Seq<Write>, coords: Seq<(u32, u32)>) -> bool {
    forall|t: int| 0 <= t < coords.len() ==> written(ws, (#[trigger] coords[t]).0 as int, coords[t].1 as int)
}

pub proof fn lemma_written_concat(a: Seq<Write>, b: Seq<Write>)
    ensures
        forall|x: int, y: int| written(a, x, y) ==> #[trigger] written(a + b, x, y),
        forall|x: int, y: int| written(b, x, y) ==> #[trigger] written(a + b, x, y),
{
    assert forall|x: int, y: int| written(a, x, y) implies #[trigger] written(a + b, x, y) by {
        let k = choose|k: int| 0 <= k < a.len() && (#[trigger] a[k]).0 == x && a[k].1 == y;
        assert((a + b)[k] == a[k]);
    }
    assert forall|x: int, y: int| written(b, x, y) implies #[trigger] written(a + b, x, y) by {
        let k = choose|k: int| 0 <= k < b.len() && (#[trigger] b[k]).0 == x && b[k].1 == y;
        assert((a + b)[k + a.len()] == b[k]);
    }
}

pub proof fn lemma_writes_in_concat(a: Seq<Write>, b: Seq<Write>, coords: Seq<(u32, u32)>, c: Rgba)
    requires
        writes_in(a, coords, c),
        writes_in(b, coords, c),
    ensures
        writes_in(a + b, coords, c),
{
    assert forall|k: int| 0 <= k < (a + b).len() implies (#[trigger] (a + b)[k]).2 == c && has_coord(
        coords,
        (a + b)[k].0,
        (a + b)[k].1,
    ) by {
        if k < a.len() {
            assert((a + b)[k] == a[k]);
        } else {
            assert((a + b)[k] == b[k - a.len()]);
        }
    }
}

/// A write of color `c` on some `(z, y)`, `y` from `ys` and `z` from `zs`.
pub open spec fn pair_write(w: Write, ys: Seq<u32>, zs: Seq<u32>, c: Rgba) -> bool {
    exists|a: int, b: int| 0 <= a < ys.len() && 0 <= b < zs.len() && w.0 == zs[b] && w.1 == ys[a] && w.2 == c
}

proof fn lemma_pairs(ys: Seq<u32>, zs: Seq<u32>, c: Rgba)
    ensures
        forall|k: int|
            0 <= k < pairs_writes(ys, zs, c, false).len() ==> pair_write(
                #[trigger] pairs_writes(ys, zs, c, false)[k],
                ys,
                zs,
                c,
            ),
        forall|a: int, b: int|
            0 <= a < ys.len() && 0 <= b < zs.len() ==> #[trigger] written(
                pairs_writes(ys, zs, c, false),
                zs[b] as int,
                ys[a] as int,
            ),
    decreases ys.len(),
{
    if ys.len() > 0 {
        let y0 = ys.drop_last();
        lemma_pairs(y0, zs, c);
        let p0 = pairs_writes(y0, zs, c, false);
        let m = zs.map_values(|z: u32| (z, ys.last(), c));
        let pw = pairs_writes(ys, zs, c, false);
        assert(pw == p0 + m);
        lemma_written_concat(p0, m);
        assert forall|k: int| 0 <= k < pw.len() implies pair_write(#[trigger] pw[k], ys, zs, c) by {
            if k < p0.len() {
                assert(pw[k] == p0[k]);
                assert(pair_write(p0[k], y0, zs, c));
                let (a, b) = choose|a: int, b: int|
                    0 <= a < y0.len() && 0 <= b < zs.len() && p0[k].0 == zs[b] && p0[k].1 == y0[a] && p0[k].2 == c;
                assert(y0[a] == ys[a]);
            } else {
                assert(pw[k] == m[k - p0.len()]);
                assert(pw[k].0 == zs[k - p0.len()] && pw[k].1 == ys[ys.len() - 1]);
            }
        }
        assert forall|a: int, b: int| 0 <= a < ys.len() && 0 <= b < zs.len() implies #[trigger] written(
            pw,
            zs[b] as int,
            ys[a] as int,
        ) by {
            if a < y0.len() {
                assert(y0[a] == ys[a]);
                assert(written(p0, zs[b] as int, y0[a] as int));
            } else {
                assert(m[b].0 == zs[b] && m[b].1 == ys[a]);
                assert(written(m, zs[b] as int, ys[a] as int));
            }
        }
    }
}

/// The writes of one dictionary entry (empty where it does not decode).
pub open spec fn entry_ws(e: (Seq<char>, Option<Seq<char>>), c: Rgba) -> Seq<Write> {
    match entry_writes(e.0, e.1, c, false) {
        Some(w) => w,
        None => Seq::<Write>::empty(),
    }
}

proof fn lemma_entries(es: Seq<(Seq<char>, Option<Seq<char>>)>, c: Rgba, coords: Seq<(u32, u32)>)
    requires
        forall|i: int| 0 <= i < es.len() ==> (entry_writes((#[trigger] es[i]).0, es[i].1, c, false) is Some),
        forall|i: int| 0 <= i < es.len() ==> writes_in(entry_ws(#[trigger] es[i], c), coords, c),
    ensures
        entries_writes(es, Some(c), false) is Some,
        writes_in(entries_writes(es, Some(c), false)->Some_0, coords, c),
        forall|i: int, x: int, y: int|
            #![trigger written(entry_ws(es[i], c), x, y)]
            0 <= i < es.len() && written(entry_ws(es[i], c), x, y) ==> written(
                entries_writes(es, Some(c), false)->Some_0,
                x,
                y,
            ),
    decreases es.len(),
{
    if es.len() > 0 {
        let e0 = es.drop_last();
        assert forall|i: int| 0 <= i < e0.len() implies (entry_writes((#[trigger] e0[i]).0, e0[i].1, c, false) is Some) by {
            assert(e0[i] == es[i]);
        }
        assert forall|i: int| 0 <= i < e0.len() implies writes_in(entry_ws(#[trigger] e0[i], c), coords, c) by {
            assert(e0[i] == es[i]);
        }
        lemma_entries(e0, c, coords);
        let a = entries_writes(e0, Some(c), false)->Some_0;
        let last = es[es.len() - 1];
        assert(entry_writes(last.0, last.1, c, false) is Some);
        assert(writes_in(entry_ws(last, c), coords, c));
        let b = entry_ws(last, c);
        assert(entries_writes(es, Some(c), false) == Some(a + b));
        lemma_writes_in_concat(a, b, coords, c);
        lemma_written_concat(a, b);
        assert forall|i: int, x: int, y: int|
            #![trigger written(entry_ws(es[i], c), x, y)]
            0 <= i < es.len() && written(entry_ws(es[i], c), x, y) implies written(
                entries_writes(es, Some(c), false)->Some_0,
                x,
                y,
            ) by {
            if i < e0.len() {
                assert(e0[i] == es[i]);
                assert(written(a, x, y));
            } else {
                assert(written(b, x, y));
            }
        }
    }
}


/// Entry `i` of the dictionary of a color, its value present.
pub open spec fn dict_entry_at(coords: Seq<(u32, u32)>, i: int) -> (Seq<char>, Option<Seq<char>>) {
    (dict_entries(coords)[i].0, Some(dict_entries(coords)[i].1))
}

/// The rows of a column read back from their notation.
proof fn lemma_column_rows(coords: Seq<(u32, u32)>, width: u32, height: u32, q: int)
    requires
        chunk_coords_ok(coords, width, height),
        0 <= q < columns(coords).len(),
    ensures
        expand_math_spec(coords_math_spec(columns(coords)[q].1)) == Some(delta_text(columns(coords)[q].1)),
        math_values_spec(delta_text(columns(coords)[q].1)) == Some(columns(coords)[q].1),
        columns(coords)[q].1.len() >= 1,
{
    lemma_columns(coords, width, height);
    let r = columns(coords)[q].1;
    assert(r.len() >= 1 && nondecreasing(r));
    assert(deltas_fit(r));
    law_math_roundtrip(r);
}

/// The items that group the columns by the notation of their rows.
pub open spec fn notation_items(coords: Seq<(u32, u32)>) -> Seq<(Seq<char>, u32)> {
    column_notations(coords).map_values(|e: (u32, Seq<char>)| (e.1, e.0))
}

proof fn lemma_notation_item(coords: Seq<(u32, u32)>, q: int)
    requires
        0 <= q < columns(coords).len(),
    ensures
        notation_items(coords).len() == columns(coords).len(),
        notation_items(coords)[q] == (coords_math_spec(columns(coords)[q].1), columns(coords)[q].0),
{
}

/// The rows a notation stands for (empty where it does not decode).
pub open spec fn notation_rows(n: Seq<char>) -> Seq<u32> {
    match expand_math_spec(n) {
        Some(e) => match math_values_spec(e) {
            Some(v) => v,
            None => Seq::<u32>::empty(),
        },
        None => Seq::<u32>::empty(),
    }
}

proof fn lemma_column_notation_rows(coords: Seq<(u32, u32)>, width: u32, height: u32, q: int)
    requires
        chunk_coords_ok(coords, width, height),
        0 <= q < columns(coords).len(),
    ensures
        notation_rows(coords_math_spec(columns(coords)[q].1)) == columns(coords)[q].1,
{
    lemma_column_rows(coords, width, height, q);
}

/// What a dictionary entry decodes to: every row its notation stands for
/// with every one of its (sorted) columns.
proof fn lemma_dict_entry_value(coords: Seq<(u32, u32)>, width: u32, height: u32, c: Rgba, i: int)
    requires
        chunk_coords_ok(coords, width, height),
        0 <= i < row_sets(coords).len(),
    ensures
        entry_writes(dict_entry_at(coords, i).0, dict_entry_at(coords, i).1, c, false) == Some(
            pairs_writes(notation_rows(row_sets(coords)[i].0), sort_spec(row_sets(coords)[i].1), c, false),
        ),
{
    let cols = columns(coords);
    let items = notation_items(coords);
    let rs = row_sets(coords);
    assert(rs == group_by(items));
    let n = rs[i].0;
    let xs = rs[i].1;
    let j = choose|j: int| 0 <= j < items.len() && #[trigger] items[j] == (rs[i].0, rs[i].1[0]);
    assert(0 <= j < items.len() && items[j] == (rs[i].0, rs[i].1[0])) by {
        lemma_group_keys_distinct(items);
        lemma_group_members(items);
        assert(xs.len() >= 1);
        assert(exists|j: int| 0 <= j < items.len() && #[trigger] items[j] == (rs[i].0, rs[i].1[0]));
    }
    lemma_notation_item(coords, j);
    let r = cols[j].1;
    assert(n == coords_math_spec(r));
    lemma_column_rows(coords, width, height, j);
    lemma_row_sets(coords, width, height);
    let sx = sort_spec(xs);
    assert(sx.len() >= 1 && nondecreasing(sx));
    assert(deltas_fit(sort_spec(rs[i].1)));
    law_math_roundtrip(sx);
    let e = dict_entry_at(coords, i);
    assert(e.0 == n);
    assert(e.1 == Some(coords_math_spec(sx)));
}

/// A column of a dictionary entry: it has the entry's notation.
proof fn lemma_entry_column(coords: Seq<(u32, u32)>, i: int, b: int)
    requires
        0 <= i < row_sets(coords).len(),
        0 <= b < row_sets(coords)[i].1.len(),
    ensures
        exists|q: int|
            0 <= q < columns(coords).len() && columns(coords)[q].0 == row_sets(coords)[i].1[b]
                && coords_math_spec(#[trigger] columns(coords)[q].1) == row_sets(coords)[i].0,
{
    let items = notation_items(coords);
    let rs = row_sets(coords);
    assert(rs == group_by(items));
    lemma_group_members(items);
    let q = choose|q: int| 0 <= q < items.len() && #[trigger] items[q] == (rs[i].0, rs[i].1[b]);
    lemma_notation_item(coords, q);
}

/// The entry of a column: its notation and the column.
proof fn lemma_column_entry(coords: Seq<(u32, u32)>, q: int)
    requires
        0 <= q < columns(coords).len(),
    ensures
        exists|i: int, b: int|
            0 <= i < row_sets(coords).len() && 0 <= b < row_sets(coords)[i].1.len()
                && #[trigger] row_sets(coords)[i].1[b] == columns(coords)[q].0 && row_sets(coords)[i].0
                == coords_math_spec(columns(coords)[q].1),
{
    let items = notation_items(coords);
    let rs = row_sets(coords);
    assert(rs == group_by(items));
    lemma_group_covers(items);
    lemma_notation_item(coords, q);
    let (i, b) = choose|i: int, b: int|
        0 <= i < rs.len() && 0 <= b < rs[i].1.len() && rs[i].0 == (#[trigger] items[q]).0 && rs[i].1[b] == items[q].1;
    assert(rs[i].1[b] == columns(coords)[q].0);
}

/// The writes of a dictionary entry set the color on the color's pixels.
proof fn lemma_dict_entry_in(coords: Seq<(u32, u32)>, width: u32, height: u32, c: Rgba, i: int)
    requires
        chunk_coords_ok(coords, width, height),
        0 <= i < row_sets(coords).len(),
    ensures
        writes_in(entry_ws(dict_entry_at(coords, i), c), coords, c),
{
    lemma_dict_entry_value(coords, width, height, c, i);
    let rs = row_sets(coords);
    let cols = columns(coords);
    let r = notation_rows(rs[i].0);
    let xs = rs[i].1;
    let sx = sort_spec(xs);
    let pw = pairs_writes(r, sx, c, false);
    lemma_pairs(r, sx, c);
    lemma_sort_spec(xs);
    assert forall|k: int| 0 <= k < pw.len() implies (#[trigger] pw[k]).2 == c && has_coord(coords, pw[k].0, pw[k].1) by {
        assert(pair_write(pw[k], r, sx, c));
        let (a, b) = choose|a: int, b: int|
            0 <= a < r.len() && 0 <= b < sx.len() && pw[k].0 == sx[b] && pw[k].1 == r[a] && pw[k].2 == c;
        assert(sx.contains(sx[b]));
        assert(xs.contains(sx[b]));
        let m = choose|m: int| 0 <= m < xs.len() && xs[m] == sx[b];
        lemma_entry_column(coords, i, m);
        let q = choose|q: int|
            0 <= q < cols.len() && cols[q].0 == rs[i].1[m] && coords_math_spec(#[trigger] cols[q].1) == rs[i].0;
        lemma_column_notation_rows(coords, width, height, q);
        assert(cols[q].1 == r);
        assert(cols[q].1[a] == r[a]);
        lemma_group_members(coords);
        let m2 = choose|m2: int| 0 <= m2 < coords.len() && #[trigger] coords[m2] == (cols[q].0, cols[q].1[a]);
        assert(coords[m2].0 == pw[k].0 && coords[m2].1 == pw[k].1);
    }
}

/// Each pixel of the color is set by the entry of its column.
proof fn lemma_dict_covers_pixel(coords: Seq<(u32, u32)>, width: u32, height: u32, c: Rgba, t: int)
    requires
        chunk_coords_ok(coords, width, height),
        0 <= t < coords.len(),
    ensures
        exists|i: int|
            0 <= i < row_sets(coords).len() && #[trigger] written(
                entry_ws(dict_entry_at(coords, i), c),
                coords[t].0 as int,
                coords[t].1 as int,
            ),
{
    let cols = columns(coords);
    let rs = row_sets(coords);
    lemma_group_covers(coords);
    let (q, a) = choose|q: int, a: int|
        0 <= q < cols.len() && 0 <= a < cols[q].1.len() && cols[q].0 == (#[trigger] coords[t]).0 && cols[q].1[a]
            == coords[t].1;
    lemma_column_entry(coords, q);
    let (i, b) = choose|i: int, b: int|
        0 <= i < rs.len() && 0 <= b < rs[i].1.len() && #[trigger] rs[i].1[b] == cols[q].0 && rs[i].0
            == coords_math_spec(cols[q].1);
    lemma_dict_entry_value(coords, width, height, c, i);
    let r = notation_rows(rs[i].0);
    let xs = rs[i].1;
    let sx = sort_spec(xs);
    lemma_pairs(r, sx, c);
    lemma_sort_spec(xs);
    lemma_column_notation_rows(coords, width, height, q);
    assert(cols[q].1 == r);
    assert(xs.contains(xs[b]));
    assert(sx.contains(cols[q].0));
    let b2 = choose|b2: int| 0 <= b2 < sx.len() && sx[b2] == cols[q].0;
    assert(written(pairs_writes(r, sx, c, false), sx[b2] as int, r[a] as int));
    assert(entry_ws(dict_entry_at(coords, i), c) == pairs_writes(r, sx, c, false));
    assert(sx[b2] == coords[t].0 && r[a] == coords[t].1);
    assert(written(entry_ws(dict_entry_at(coords, i), c), coords[t].0 as int, coords[t].1 as int));
}


/// Characters that satisfy `q1` satisfy `q2` where every such one does.
pub proof fn lemma_chars_weaken(s: Seq<char>, q1: spec_fn(char) -> bool, q2: spec_fn(char) -> bool)
    requires
        all_chars(s, q1),
        forall|c: char| #[trigger] q1(c) ==> q2(c),
    ensures
        all_chars(s, q2),
{
    assert forall|i: int| 0 <= i < s.len() implies q2(#[trigger] s[i]) by {
        assert(q1(s[i]));
    }
}

/// A character of a dictionary text: the notation's, `:` and `,`.
pub open spec fn dict_char(c: char) -> bool {
    math_char(c) || c == ':' || c == ','
}

/// The entries of a color's dictionary are made of notation characters,
/// and their keys are distinct.
proof fn lemma_dict_entries_plain(coords: Seq<(u32, u32)>, width: u32, height: u32)
    requires
        chunk_coords_ok(coords, width, height),
    ensures
        dict_entries(coords).len() >= 1,
        forall|k: int|
            0 <= k < dict_entries(coords).len() ==> all_chars((#[trigger] dict_entries(coords)[k]).0, |c: char| math_char(c))
                && all_chars(dict_entries(coords)[k].1, |c: char| math_char(c)),
        forall|a: int, b: int|
            0 <= a < b < dict_entries(coords).len() ==> (#[trigger] dict_entries(coords)[a]).0 != (
            #[trigger] dict_entries(coords)[b]).0,
{
    let ps = dict_entries(coords);
    let rs = row_sets(coords);
    let items = notation_items(coords);
    assert(rs == group_by(items));
    lemma_group_nonempty(coords);
    assert(items.len() == columns(coords).len());
    lemma_group_nonempty(items);
    lemma_group_keys_distinct(items);
    lemma_row_sets(coords, width, height);
    lemma_columns(coords, width, height);
    assert forall|k: int| 0 <= k < ps.len() implies all_chars((#[trigger] ps[k]).0, |c: char| math_char(c))
        && all_chars(ps[k].1, |c: char| math_char(c)) by {
        lemma_entry_column(coords, k, 0);
        let q = choose|q: int|
            0 <= q < columns(coords).len() && columns(coords)[q].0 == rs[k].1[0] && coords_math_spec(
                #[trigger] columns(coords)[q].1,
            ) == rs[k].0;
        assert(columns(coords)[q].1.len() >= 1);
        lemma_math_chars(columns(coords)[q].1);
        lemma_math_chars(sort_spec(rs[k].1));
    }
    assert forall|a: int, b: int| 0 <= a < b < ps.len() implies (#[trigger] ps[a]).0 != (#[trigger] ps[b]).0 by {
        assert(rs[a].0 != rs[b].0);
    }
}

/// The color's hexadecimal digits, as the chunk text holds them after `#`.
pub open spec fn hex_of(c: Rgba) -> Seq<char> {
    color_text_spec(c).drop_first()
}

proof fn lemma_hex_of(c: Rgba)
    ensures
        all_chars(hex_of(c), |ch: char| hex_upper_char(ch)),
        chunk_color(hex_of(c)) == Some(c),
        seq!['#'] + hex_of(c) == color_text_spec(c),
{
    lemma_color_text_shape(c);
    law_color_roundtrip(c);
    let ct = color_text_spec(c);
    assert(seq!['#'] + hex_of(c) =~= ct);
    assert forall|i: int| 0 <= i < hex_of(c).len() implies hex_upper_char(#[trigger] hex_of(c)[i]) by {
        assert(hex_of(c)[i] == ct[i + 1]);
    }
}

/// The dictionary chunk of a color decodes to writes of the color on
/// exactly the color's pixels.
pub proof fn lemma_dict_chunk(coords: Seq<(u32, u32)>, width: u32, height: u32, c: Rgba)
    requires
        chunk_coords_ok(coords, width, height),
        chunk_json_read(hex_of(c) + dict_text_spec(coords)),
    ensures
        chunk_writes(hex_of(c) + dict_text_spec(coords)) matches Some(w) && writes_in(w, coords, c)
            && writes_cover(w, coords),
{
    let ps = dict_entries(coords);
    let mq = |ch: char| math_char(ch);
    let jq = |ch: char| json_plain_char(ch);
    let dq = |ch: char| dict_char(ch);
    lemma_dict_entries_plain(coords, width, height);
    assert(entries_plain(ps)) by {
        assert forall|k: int| 0 <= k < ps.len() implies free_of((#[trigger] ps[k]).0, ':') && free_of(ps[k].0, ',')
            && free_of(ps[k].1, ':') && free_of(ps[k].1, ',') by {
            assert(all_chars(ps[k].0, mq) && all_chars(ps[k].1, mq));
            lemma_chars_free(ps[k].0, mq, ':');
            lemma_chars_free(ps[k].0, mq, ',');
            lemma_chars_free(ps[k].1, mq, ':');
            lemma_chars_free(ps[k].1, mq, ',');
        }
    }
    assert(json_flat_pairs(ps)) by {
        assert forall|k: int| 0 <= k < ps.len() implies all_chars((#[trigger] ps[k]).0, jq) && all_chars(ps[k].1, jq) by {
            assert(all_chars(ps[k].0, mq) && all_chars(ps[k].1, mq));
            lemma_chars_weaken(ps[k].0, mq, jq);
            lemma_chars_weaken(ps[k].1, mq, jq);
        }
    }
    // the chunk splits at its `{`
    let et = entry_texts(ps);
    assert forall|k: int| 0 <= k < et.len() implies all_chars(#[trigger] et[k], dq) by {
        assert(all_chars(ps[k].0, mq) && all_chars(ps[k].1, mq));
        lemma_chars_weaken(ps[k].0, mq, dq);
        lemma_chars_weaken(ps[k].1, mq, dq);
        assert(et[k] == ps[k].0.push(':') + ps[k].1);
        assert(ps[k].0.push(':') =~= ps[k].0 + seq![':']);
        lemma_concat_chars(ps[k].0, seq![':'], dq);
        lemma_concat_chars(ps[k].0.push(':'), ps[k].1, dq);
    }
    let j = join_spec(et, ',');
    lemma_join_chars(et, ',', dq);
    let rest = j + seq!['}'];
    let hx = hex_of(c);
    lemma_hex_of(c);
    lemma_chars_free(hx, |ch: char| hex_upper_char(ch), '{');
    assert(free_of(rest, '{')) by {
        lemma_chars_free(j, dq, '{');
        assert forall|i: int| 0 <= i < rest.len() implies rest[i] != '{' by {
            if i < j.len() {
                assert(rest[i] == j[i]);
            }
        }
    }
    let x = hx + dict_text_spec(coords);
    assert(dict_text_spec(coords) == seq!['{'] + j + seq!['}']);
    assert(x =~= hx.push('{') + rest);
    lemma_split_free(hx, '{');
    lemma_split_sep_then(hx, rest, '{');
    let braces = split_spec(x, '{');
    assert(braces =~= seq![hx, rest]);
    assert(x.last() == '}');
    assert(chunk_writes(x) == dict_writes(hx, rest, false));
    // the dictionary is read as its entries
    lemma_json_text_of_entries(ps);
    assert(json_reads_flat_at(json_object_text(ps)));
    let es = ps.map_values(|p: (Seq<char>, Seq<char>)| (p.0, Some(p.1)));
    assert(json_object_entries(json_object_text(ps)) == Some(es));
    assert(dict_writes(hx, rest, false) == entries_writes(es, Some(c), false));
    assert forall|i: int| 0 <= i < es.len() implies #[trigger] es[i] == dict_entry_at(coords, i) by {}
    assert forall|i: int| 0 <= i < es.len() implies (entry_writes((#[trigger] es[i]).0, es[i].1, c, false) is Some) by {
        lemma_dict_entry_value(coords, width, height, c, i);
    }
    assert forall|i: int| 0 <= i < es.len() implies writes_in(entry_ws(#[trigger] es[i], c), coords, c) by {
        lemma_dict_entry_in(coords, width, height, c, i);
    }
    lemma_entries(es, c, coords);
    let w = entries_writes(es, Some(c), false)->Some_0;
    assert forall|t: int| 0 <= t < coords.len() implies written(w, (#[trigger] coords[t]).0 as int, coords[t].1 as int) by {
        lemma_dict_covers_pixel(coords, width, height, c, t);
        let i = choose|i: int|
            0 <= i < row_sets(coords).len() && #[trigger] written(
                entry_ws(dict_entry_at(coords, i), c),
                coords[t].0 as int,
                coords[t].1 as int,
            );
        assert(es[i] == dict_entry_at(coords, i));
        assert(written(entry_ws(es[i], c), coords[t].0 as int, coords[t].1 as int));
    }
}


/// `(x,y`: a pixel's text before its `)`.
pub open spec fn pixel_open(p: (u32, u32)) -> Seq<char> {
    seq!['('] + decimal(p.0 as nat) + seq![','] + decimal(p.1 as nat)
}

/// `x,y`: a pixel's entry once trimmed.
pub open spec fn pixel_entry(p: (u32, u32)) -> Seq<char> {
    decimal(p.0 as nat) + seq![','] + decimal(p.1 as nat)
}

proof fn lemma_trim_start_skip(s: Seq<char>, c: char)
    requires
        s.len() > 0 ==> s[0] != c,
    ensures
        trim_start_spec(s, c) == s,
{
}

proof fn lemma_trim_end_keep(s: Seq<char>, c: char)
    requires
        s.len() > 0 ==> s.last() != c,
    ensures
        trim_end_spec(s, c) == s,
{
}

/// The decoder trims both `(x,y` and `,(x,y` to `x,y`.
proof fn lemma_clean_pixel(p: (u32, u32))
    ensures
        clean_pixel(pixel_open(p)) == pixel_entry(p),
        clean_pixel(seq![','] + pixel_open(p)) == pixel_entry(p),
        clean_pixel(Seq::<char>::empty()) == Seq::<char>::empty(),
        pixel_entry(p).len() > 0,
{
    lemma_decimal_digits(p.0 as nat);
    lemma_decimal_digits(p.1 as nat);
    let dx = decimal(p.0 as nat);
    let dy = decimal(p.1 as nat);
    let e = pixel_entry(p);
    let o = pixel_open(p);
    assert(is_digit(dx[0]) && is_digit(dy[dy.len() - 1]));
    assert(e[0] == dx[0]);
    assert(e.last() == dy.last());
    assert(o.last() == dy.last());
    assert(o.drop_first() =~= e);
    lemma_trim_start_skip(e, '(');
    lemma_trim_start_skip(e, ',');
    lemma_trim_end_keep(e, ',');
    lemma_trim_end_keep(e, ')');
    assert(trim_start_spec(o, '(') == e);
    let co = seq![','] + o;
    assert(co.drop_first() =~= o);
    assert(o[0] == '(');
    lemma_trim_start_skip(co, '(');
    lemma_trim_start_skip(o, ',');
    lemma_trim_end_keep(o, ',');
    lemma_trim_end_keep(o, ')');
    assert(trim_start_spec(co, ',') == o);
    let em = Seq::<char>::empty();
    lemma_trim_start_skip(em, '(');
    lemma_trim_start_skip(em, ',');
    lemma_trim_end_keep(em, ',');
    lemma_trim_end_keep(em, ')');
}

/// A pixel's entry reads back as the pixel.
proof fn lemma_entry_coords(p: (u32, u32))
    ensures
        entry_coords(pixel_entry(p)) == Some(p),
{
    let dx = decimal(p.0 as nat);
    let dy = decimal(p.1 as nat);
    lemma_decimal_digits(p.0 as nat);
    lemma_decimal_digits(p.1 as nat);
    assert(free_of(dx, ',')) by {
        assert forall|i: int| 0 <= i < dx.len() implies dx[i] != ',' by {
            assert(is_digit(dx[i]));
        }
    }
    assert(free_of(dy, ',')) by {
        assert forall|i: int| 0 <= i < dy.len() implies dy[i] != ',' by {
            assert(is_digit(dy[i]));
        }
    }
    lemma_split_free(dx, ',');
    lemma_split_sep_then(dx, dy, ',');
    assert(dx.push(',') + dy =~= pixel_entry(p));
    lemma_parse_decimal(p.0);
    lemma_parse_decimal(p.1);
}

pub open spec fn pixel_texts(coords: Seq<(u32, u32)>) -> Seq<Seq<char>> {
    coords.map_values(|p: (u32, u32)| pixel_text(p))
}

pub open spec fn cleaned(parts: Seq<Seq<char>>) -> Seq<Seq<char>> {
    parts.map_values(|p: Seq<char>| clean_pixel(p))
}

/// The pieces of a list text split at `)` and trimmed are the pixels'
/// entries, then an empty piece.
#[verifier::rlimit(30)]
proof fn lemma_list_pieces(coords: Seq<(u32, u32)>, n: int)
    requires
        1 <= n <= coords.len(),
    ensures
        split_spec(join_spec(pixel_texts(coords.take(n)), ','), ')').len() >= 1,
        split_spec(join_spec(pixel_texts(coords.take(n)), ','), ')').last() == Seq::<char>::empty(),
        nonempty_parts(cleaned(split_spec(join_spec(pixel_texts(coords.take(n)), ','), ')')))
            == coords.take(n).map_values(|p: (u32, u32)| pixel_entry(p)),
        join_spec(pixel_texts(coords.take(n)), ',').len() > 0,
        join_spec(pixel_texts(coords.take(n)), ',').last() == ')',
    decreases n,
{
    let pn = coords[n - 1];
    let a = pixel_open(pn);
    lemma_clean_pixel(pn);
    assert(free_of(a, ')')) by {
        lemma_decimal_digits(pn.0 as nat);
        lemma_decimal_digits(pn.1 as nat);
        assert forall|i: int| 0 <= i < a.len() implies a[i] != ')' by {
            if 1 <= i < 1 + decimal(pn.0 as nat).len() {
                assert(is_digit(decimal(pn.0 as nat)[i - 1]));
            } else if i > 1 + decimal(pn.0 as nat).len() {
                assert(is_digit(decimal(pn.1 as nat)[i - 2 - decimal(pn.0 as nat).len()]));
            }
        }
    }
    let parts = pixel_texts(coords.take(n));
    assert(parts[n - 1] == pixel_text(pn));
    assert(pixel_text(pn) =~= a.push(')'));
    let em = Seq::<char>::empty();
    let ent = coords.take(n).map_values(|p: (u32, u32)| pixel_entry(p));
    if n == 1 {
        assert(join_spec(parts, ',') == a.push(')'));
        lemma_split_free(a, ')');
        lemma_split_sep_then(a, em, ')');
        assert(a.push(')') + em =~= a.push(')'));
        let sp = split_spec(a.push(')'), ')');
        assert(sp =~= seq![a, em]);
        let m = cleaned(sp);
        assert(m =~= seq![pixel_entry(pn), em]);
        assert(m.drop_last() =~= seq![pixel_entry(pn)]);
        assert(seq![pixel_entry(pn)].drop_last() =~= Seq::<Seq<char>>::empty());
        assert(nonempty_parts(Seq::<Seq<char>>::empty()) =~= Seq::<Seq<char>>::empty());
        assert(seq![pixel_entry(pn)].last().len() > 0);
        assert(nonempty_parts(seq![pixel_entry(pn)]) =~= seq![pixel_entry(pn)]);
        assert(ent =~= seq![pixel_entry(pn)]);
    } else {
        lemma_list_pieces(coords, n - 1);
        let l0 = join_spec(pixel_texts(coords.take(n - 1)), ',');
        assert(parts.drop_last() =~= pixel_texts(coords.take(n - 1)));
        assert(join_spec(parts, ',') == l0.push(',') + pixel_text(pn));
        let l = join_spec(parts, ',');
        let tail = seq![','] + a;
        assert(free_of(tail, ')')) by {
            assert forall|i: int| 0 <= i < tail.len() implies tail[i] != ')' by {
                if i > 0 {
                    assert(tail[i] == a[i - 1]);
                }
            }
        }
        assert(l =~= (l0 + tail).push(')') + em);
        let s0 = split_spec(l0, ')');
        lemma_split_append_free(l0, tail, ')');
        assert(s0.last() + tail =~= tail);
        let s1 = s0.update(s0.len() - 1, tail);
        assert(split_spec(l0 + tail, ')') == s1);
        lemma_split_sep_then(l0 + tail, em, ')');
        let sp = s1.push(em);
        assert(split_spec(l, ')') == sp);
        let m0 = cleaned(s0);
        let m = cleaned(sp);
        assert(m.drop_last() =~= m0.update(m0.len() - 1, pixel_entry(pn)));
        assert(m.last() == em);
        assert(nonempty_parts(m) == nonempty_parts(m.drop_last()));
        let md = m.drop_last();
        assert(md.last() == pixel_entry(pn));
        assert(md.drop_last() =~= m0.drop_last());
        assert(nonempty_parts(md) == nonempty_parts(m0.drop_last()).push(pixel_entry(pn)));
        assert(m0.last() == clean_pixel(s0.last()));
        assert(nonempty_parts(m0) == nonempty_parts(m0.drop_last()));
        assert(ent =~= coords.take(n - 1).map_values(|p: (u32, u32)| pixel_entry(p)).push(pixel_entry(pn)));
        assert(l.last() == ')');
    }
}

/// The entries of pixels read back as the pixels.
proof fn lemma_all_coords_entries(coords: Seq<(u32, u32)>)
    ensures
        all_coords(coords.map_values(|p: (u32, u32)| pixel_entry(p))) == Some(coords),
    decreases coords.len(),
{
    let es = coords.map_values(|p: (u32, u32)| pixel_entry(p));
    if coords.len() > 0 {
        let c0 = coords.drop_last();
        lemma_all_coords_entries(c0);
        assert(es.drop_last() =~= c0.map_values(|p: (u32, u32)| pixel_entry(p)));
        lemma_entry_coords(coords.last());
        assert(c0.push(coords.last()) =~= coords);
    } else {
        assert(coords =~= Seq::<(u32, u32)>::empty());
    }
}

/// A character of a plain list: a digit, `(`, `)` or `,`.
pub open spec fn list_char(c: char) -> bool {
    is_digit(c) || c == '(' || c == ')' || c == ','
}

/// The plain-list chunk of a color decodes to writes of the color on
/// exactly the color's pixels.
pub proof fn lemma_list_chunk(coords: Seq<(u32, u32)>, c: Rgba)
    requires
        coords.len() >= 1,
    ensures
        chunk_writes(hex_of(c) + list_text_spec(coords)) matches Some(w) && writes_in(w, coords, c)
            && writes_cover(w, coords),
{
    let n = coords.len() as int;
    assert(coords.take(n) =~= coords);
    lemma_list_pieces(coords, n);
    let l = join_spec(pixel_texts(coords), ',');
    let lq = |ch: char| list_char(ch);
    assert forall|k: int| 0 <= k < pixel_texts(coords).len() implies all_chars(#[trigger] pixel_texts(coords)[k], lq) by {
        let p = coords[k];
        lemma_decimal_digits(p.0 as nat);
        lemma_decimal_digits(p.1 as nat);
        let t = pixel_texts(coords)[k];
        assert(t == pixel_text(p));
        let dx = decimal(p.0 as nat);
        let dy = decimal(p.1 as nat);
        assert forall|i: int| 0 <= i < t.len() implies lq(#[trigger] t[i]) by {
            if 1 <= i < 1 + dx.len() {
                assert(t[i] == dx[i - 1]);
                assert(is_digit(dx[i - 1]));
            } else if 2 + dx.len() <= i < 2 + dx.len() + dy.len() {
                assert(t[i] == dy[i - 2 - dx.len()]);
                assert(is_digit(dy[i - 2 - dx.len()]));
            }
        }
    }
    lemma_join_chars(pixel_texts(coords), ',', lq);
    let rest = l + seq![']'];
    let hx = hex_of(c);
    lemma_hex_of(c);
    let hq = |ch: char| hex_upper_char(ch);
    let x = hx + list_text_spec(coords);
    assert(list_text_spec(coords) == seq!['['] + l + seq![']']);
    assert(x =~= hx.push('[') + rest);
    // no `{`: one piece
    assert(free_of(x, '{')) by {
        lemma_chars_free(hx, hq, '{');
        lemma_chars_free(l, lq, '{');
        assert forall|i: int| 0 <= i < x.len() implies x[i] != '{' by {
            if i < hx.len() {
                assert(x[i] == hx[i]);
            } else if hx.len() < i < hx.len() + 1 + l.len() {
                assert(x[i] == l[i - hx.len() - 1]);
            }
        }
    }
    lemma_split_free(x, '{');
    // the `[` splits the color from the list
    assert(free_of(rest, '[')) by {
        lemma_chars_free(l, lq, '[');
        assert forall|i: int| 0 <= i < rest.len() implies rest[i] != '[' by {
            if i < l.len() {
                assert(rest[i] == l[i]);
            }
        }
    }
    lemma_chars_free(hx, hq, '[');
    lemma_split_free(hx, '[');
    lemma_split_sep_then(hx, rest, '[');
    assert(split_spec(x, '[') =~= seq![hx, rest]);
    assert(x.last() == ']');
    assert(chunk_writes(x) == list_writes(hx, rest));
    // the list reads back as the pixels
    assert(rest.drop_last() =~= l);
    assert(trim_end_spec(rest, ']') == trim_end_spec(l, ']'));
    lemma_trim_end_keep(l, ']');
    assert(list_entries(rest) == nonempty_parts(cleaned(split_spec(l, ')'))));
    lemma_all_coords_entries(coords);
    assert(all_coords(list_entries(rest)) == Some(coords));
    let w = coords.map_values(|p: (u32, u32)| (p.0, p.1, c));
    assert(list_writes(hx, rest) == Some(w));
    assert forall|k: int| 0 <= k < w.len() implies (#[trigger] w[k]).2 == c && has_coord(coords, w[k].0, w[k].1) by {
        assert(coords[k].0 == w[k].0 && coords[k].1 == w[k].1);
    }
    assert forall|t: int| 0 <= t < coords.len() implies written(w, (#[trigger] coords[t]).0 as int, coords[t].1 as int) by {
        assert(w[t].0 == coords[t].0 && w[t].1 == coords[t].1);
    }
}


/// A character of a color's chunk after its `#`.
pub open spec fn chunk_char(c: char) -> bool {
    ||| hex_upper_char(c)
    ||| dict_char(c)
    ||| c == '{'
    ||| c == '}'
    ||| list_char(c)
    ||| c == '['
    ||| c == ']'
}

proof fn lemma_dict_text_chars(coords: Seq<(u32, u32)>, width: u32, height: u32)
    requires
        chunk_coords_ok(coords, width, height),
    ensures
        all_chars(dict_text_spec(coords), |ch: char| chunk_char(ch)),
{
    let ps = dict_entries(coords);
    let mq = |ch: char| math_char(ch);
    let dq = |ch: char| dict_char(ch);
    let cq = |ch: char| chunk_char(ch);
    lemma_dict_entries_plain(coords, width, height);
    let et = entry_texts(ps);
    assert forall|k: int| 0 <= k < et.len() implies all_chars(#[trigger] et[k], dq) by {
        assert(all_chars(ps[k].0, mq) && all_chars(ps[k].1, mq));
        lemma_chars_weaken(ps[k].0, mq, dq);
        lemma_chars_weaken(ps[k].1, mq, dq);
        assert(et[k] == ps[k].0.push(':') + ps[k].1);
        assert(ps[k].0.push(':') =~= ps[k].0 + seq![':']);
        lemma_concat_chars(ps[k].0, seq![':'], dq);
        lemma_concat_chars(ps[k].0.push(':'), ps[k].1, dq);
    }
    let j = join_spec(et, ',');
    lemma_join_chars(et, ',', dq);
    lemma_chars_weaken(j, dq, cq);
    assert(all_chars(seq!['{'], cq));
    assert(all_chars(seq!['}'], cq));
    lemma_concat_chars(seq!['{'], j, cq);
    lemma_concat_chars(seq!['{'] + j, seq!['}'], cq);
}

proof fn lemma_list_text_chars(coords: Seq<(u32, u32)>)
    ensures
        all_chars(list_text_spec(coords), |ch: char| chunk_char(ch)),
{
    let lq = |ch: char| list_char(ch);
    let cq = |ch: char| chunk_char(ch);
    assert forall|k: int| 0 <= k < pixel_texts(coords).len() implies all_chars(#[trigger] pixel_texts(coords)[k], lq) by {
        let p = coords[k];
        lemma_decimal_digits(p.0 as nat);
        lemma_decimal_digits(p.1 as nat);
        let t = pixel_texts(coords)[k];
        assert(t == pixel_text(p));
        let dx = decimal(p.0 as nat);
        let dy = decimal(p.1 as nat);
        assert forall|i: int| 0 <= i < t.len() implies lq(#[trigger] t[i]) by {
            if 1 <= i < 1 + dx.len() {
                assert(t[i] == dx[i - 1]);
                assert(is_digit(dx[i - 1]));
            } else if 2 + dx.len() <= i < 2 + dx.len() + dy.len() {
                assert(t[i] == dy[i - 2 - dx.len()]);
                assert(is_digit(dy[i - 2 - dx.len()]));
            }
        }
    }
    let l = join_spec(pixel_texts(coords), ',');
    lemma_join_chars(pixel_texts(coords), ',', lq);
    lemma_chars_weaken(l, lq, cq);
    assert(all_chars(seq!['['], cq));
    assert(all_chars(seq![']'], cq));
    lemma_concat_chars(seq!['['], l, cq);
    lemma_concat_chars(seq!['['] + l, seq![']'], cq);
}

/// A color's chunk: `#`, then text without `#`, which decodes to writes
/// of the color on exactly its pixels.
pub proof fn lemma_chunk(coords: Seq<(u32, u32)>, width: u32, height: u32, c: Rgba)
    requires
        chunk_coords_ok(coords, width, height),
    ensures
        chunk_spec(c, coords) == seq!['#'] + chunk_spec(c, coords).drop_first(),
        chunk_spec(c, coords).drop_first().len() > 0,
        all_chars(chunk_spec(c, coords).drop_first(), |ch: char| chunk_char(ch)),
        chunk_json_read(chunk_spec(c, coords).drop_first()) ==> (chunk_writes(chunk_spec(c, coords).drop_first()) matches Some(w)
            && writes_in(w, coords, c) && writes_cover(w, coords)),
{
    let cq = |ch: char| chunk_char(ch);
    let hq = |ch: char| hex_upper_char(ch);
    lemma_hex_of(c);
    let hx = hex_of(c);
    let d = dict_text_spec(coords);
    let l = list_text_spec(coords);
    let body = if d.len() + 2 * dict_entries(coords).len() > l.len() + 2 * coords.len() {
        l
    } else {
        d
    };
    assert(chunk_spec(c, coords) == color_text_spec(c) + body);
    assert(chunk_spec(c, coords) =~= seq!['#'] + (hx + body));
    assert(chunk_spec(c, coords).drop_first() =~= hx + body);
    lemma_chars_weaken(hx, hq, cq);
    lemma_dict_text_chars(coords, width, height);
    lemma_list_text_chars(coords);
    lemma_concat_chars(hx, body, cq);
    assert(body.len() > 0);
    if chunk_json_read(chunk_spec(c, coords).drop_first()) {
        if body == l {
            lemma_list_chunk(coords, c);
        } else {
            lemma_dict_chunk(coords, width, height, c);
        }
    }
}

/// The chunk texts after each `#`, the background's left out.
pub open spec fn chunk_bodies(g: Seq<(Rgba, Seq<(u32, u32)>)>, bg: int, n: int) -> Seq<Seq<char>>
    decreases n,
{
    if n <= 0 {
        Seq::<Seq<char>>::empty()
    } else if n - 1 == bg {
        chunk_bodies(g, bg, n - 1)
    } else {
        chunk_bodies(g, bg, n - 1).push(chunk_spec(g[n - 1].0, g[n - 1].1).drop_first())
    }
}

/// The color section splits at its `#` into an empty piece and the chunk
/// texts.
proof fn lemma_chunks_split(g: Seq<(Rgba, Seq<(u32, u32)>)>, bg: int, n: int, width: u32, height: u32)
    requires
        0 <= n <= g.len(),
        forall|i: int| 0 <= i < g.len() && i != bg ==> chunk_coords_ok((#[trigger] g[i]).1, width, height),
    ensures
        split_spec(chunks_spec(g, bg, n), '#') == seq![Seq::<char>::empty()] + chunk_bodies(g, bg, n),
        all_chars(chunks_spec(g, bg, n), |ch: char| chunk_char(ch) || ch == '#'),
        forall|k: int| 0 <= k < chunk_bodies(g, bg, n).len() ==> (#[trigger] chunk_bodies(g, bg, n)[k]).len() > 0,
    decreases n,
{
    let hq = |ch: char| chunk_char(ch) || ch == '#';
    if n == 0 {
        assert(chunks_spec(g, bg, 0) =~= Seq::<char>::empty());
        assert(seq![Seq::<char>::empty()] + chunk_bodies(g, bg, 0) =~= seq![Seq::<char>::empty()]);
    } else {
        lemma_chunks_split(g, bg, n - 1, width, height);
        if n - 1 != bg {
            let s0 = chunks_spec(g, bg, n - 1);
            let ch = chunk_spec(g[n - 1].0, g[n - 1].1);
            assert(chunk_coords_ok(g[n - 1].1, width, height));
            lemma_chunk(g[n - 1].1, width, height, g[n - 1].0);
            let body = ch.drop_first();
            assert(s0 + ch =~= s0.push('#') + body);
            lemma_chars_free(body, |c: char| chunk_char(c), '#');
            lemma_split_sep_then(s0, body, '#');
            assert(seq![Seq::<char>::empty()] + chunk_bodies(g, bg, n) =~= (seq![Seq::<char>::empty()]
                + chunk_bodies(g, bg, n - 1)).push(body));
            lemma_chars_weaken(body, |c: char| chunk_char(c), hq);
            assert(all_chars(seq!['#'], hq));
            lemma_concat_chars(seq!['#'], body, hq);
            lemma_concat_chars(s0, ch, hq);
            let b = chunk_bodies(g, bg, n);
            assert forall|k: int| 0 <= k < b.len() implies (#[trigger] b[k]).len() > 0 by {
                if k < b.len() - 1 {
                    assert(b[k] == chunk_bodies(g, bg, n - 1)[k]);
                }
            }
        }
    }
}

/// Dropping one empty piece in front of non-empty pieces.
proof fn lemma_nonempty_after_empty(b: Seq<Seq<char>>)
    requires
        forall|k: int| 0 <= k < b.len() ==> (#[trigger] b[k]).len() > 0,
    ensures
        nonempty_parts(seq![Seq::<char>::empty()] + b) == b,
    decreases b.len(),
{
    let e = seq![Seq::<char>::empty()];
    if b.len() == 0 {
        assert(e + b =~= e);
        assert(e.drop_last() =~= Seq::<Seq<char>>::empty());
        assert(nonempty_parts(Seq::<Seq<char>>::empty()) =~= Seq::<Seq<char>>::empty());
    } else {
        let b0 = b.drop_last();
        assert forall|k: int| 0 <= k < b0.len() implies (#[trigger] b0[k]).len() > 0 by {
            assert(b0[k] == b[k]);
        }
        lemma_nonempty_after_empty(b0);
        assert((e + b).drop_last() =~= e + b0);
        assert((e + b).last() == b.last());
        assert(b.last().len() > 0) by {
            assert(b[b.len() - 1].len() > 0);
        }
        assert(b0.push(b.last()) =~= b);
    }
}


/// The color groups of a grid's pixels, in scan order.
pub open spec fn groups_of(grid: Seq<Seq<Rgba>>) -> Seq<(Rgba, Seq<(u32, u32)>)> {
    group_by(pixel_items(grid))
}

pub proof fn lemma_writes_agree_concat(grid: Seq<Seq<Rgba>>, w: int, a: Seq<Write>, b: Seq<Write>)
    requires
        writes_agree(grid, w, a),
        writes_agree(grid, w, b),
    ensures
        writes_agree(grid, w, a + b),
{
    assert forall|k: int| 0 <= k < (a + b).len() implies {
        &&& (#[trigger] (a + b)[k]).0 < w
        &&& (a + b)[k].1 < grid.len()
        &&& grid[(a + b)[k].1 as int][(a + b)[k].0 as int] == (a + b)[k].2
    } by {
        if k < a.len() {
            assert((a + b)[k] == a[k]);
        } else {
            assert((a + b)[k] == b[k - a.len()]);
        }
    }
}

/// Writes of a group's color on the group's pixels agree with the grid.
proof fn lemma_group_writes_agree(grid: Seq<Seq<Rgba>>, width: u32, i: int, ws: Seq<Write>)
    requires
        forall|y: int| 0 <= y < grid.len() ==> (#[trigger] grid[y]).len() == width,
        grid.len() <= u32::MAX,
        0 <= i < groups_of(grid).len(),
        writes_in(ws, groups_of(grid)[i].1, groups_of(grid)[i].0),
    ensures
        writes_agree(grid, width as int, ws),
{
    let items = pixel_items(grid);
    let g = groups_of(grid);
    lemma_pixel_items_at(grid, width as int);
    lemma_group_members(items);
    assert forall|k: int| 0 <= k < ws.len() implies {
        &&& (#[trigger] ws[k]).0 < width
        &&& ws[k].1 < grid.len()
        &&& grid[ws[k].1 as int][ws[k].0 as int] == ws[k].2
    } by {
        assert(has_coord(g[i].1, ws[k].0, ws[k].1));
        let t = choose|t: int| 0 <= t < g[i].1.len() && (#[trigger] g[i].1[t]).0 == ws[k].0 && g[i].1[t].1 == ws[k].1;
        let j = choose|j: int| 0 <= j < items.len() && #[trigger] items[j] == (g[i].0, g[i].1[t]);
        assert(items[j].1.0 == ws[k].0 && items[j].1.1 == ws[k].1);
    }
}

/// The writes of the chunk of group `i` agree with the grid and set every
/// pixel of the group.
proof fn lemma_group_chunk(grid: Seq<Seq<Rgba>>, width: u32, height: u32, i: int)
    requires
        grid.len() == height,
        forall|y: int| 0 <= y < grid.len() ==> (#[trigger] grid[y]).len() == width,
        image_fits(grid),
        0 <= i < groups_of(grid).len(),
        i != max_group(groups_of(grid)),
        chunk_json_read(chunk_spec(groups_of(grid)[i].0, groups_of(grid)[i].1).drop_first()),
    ensures
        chunk_writes(chunk_spec(groups_of(grid)[i].0, groups_of(grid)[i].1).drop_first()) matches Some(w)
            && writes_agree(grid, width as int, w) && writes_cover(w, groups_of(grid)[i].1),
{
    let g = groups_of(grid);
    assert(chunk_coords_ok(g[i].1, width, height)) by {
        lemma_groups_ok(grid, width, height);
    }
    lemma_chunk(g[i].1, width, height, g[i].0);
    let wx = chunk_writes(chunk_spec(g[i].0, g[i].1).drop_first())->Some_0;
    lemma_group_writes_agree(grid, width, i, wx);
}

/// Every pixel of the groups before `n`, but the background's, is written.
pub open spec fn groups_written(grid: Seq<Seq<Rgba>>, ws: Seq<Write>, bg: int, n: int) -> bool {
    forall|i: int, t: int|
        #![trigger groups_of(grid)[i].1[t]]
        0 <= i < n && i != bg && 0 <= t < groups_of(grid)[i].1.len() ==> written(
            ws,
            groups_of(grid)[i].1[t].0 as int,
            groups_of(grid)[i].1[t].1 as int,
        )
}

proof fn lemma_chunks_writes_push(b: Seq<Seq<char>>, x: Seq<char>)
    requires
        chunks_writes(b) is Some,
        chunk_writes(x) is Some,
    ensures
        chunks_writes(b.push(x)) == Some(chunks_writes(b)->Some_0 + chunk_writes(x)->Some_0),
{
    assert(b.push(x).drop_last() =~= b);
}

proof fn lemma_groups_written_step(
    grid: Seq<Seq<Rgba>>,
    a: Seq<Write>,
    wx: Seq<Write>,
    bg: int,
    n: int,
)
    requires
        0 < n <= groups_of(grid).len(),
        n - 1 != bg,
        groups_written(grid, a, bg, n - 1),
        writes_cover(wx, groups_of(grid)[n - 1].1),
    ensures
        groups_written(grid, a + wx, bg, n),
{
    let g = groups_of(grid);
    lemma_written_concat(a, wx);
    assert forall|i: int, t: int|
        #![trigger groups_of(grid)[i].1[t]]
        0 <= i < n && i != bg && 0 <= t < groups_of(grid)[i].1.len() implies written(
        a + wx,
        groups_of(grid)[i].1[t].0 as int,
        groups_of(grid)[i].1[t].1 as int,
    ) by {
        if i < n - 1 {
            assert(written(a, g[i].1[t].0 as int, g[i].1[t].1 as int));
        } else {
            assert(written(wx, g[i].1[t].0 as int, g[i].1[t].1 as int));
        }
    }
}

/// The chunks of the groups before `n` decode to writes that agree with
/// the grid and set every pixel of those groups but the background's.
proof fn lemma_chunks_writes(grid: Seq<Seq<Rgba>>, width: u32, height: u32, bg: int, n: int)
    requires
        grid.len() == height,
        forall|y: int| 0 <= y < grid.len() ==> (#[trigger] grid[y]).len() == width,
        image_fits(grid),
        bg == max_group(groups_of(grid)),
        0 <= n <= groups_of(grid).len(),
        chunks_json_read(chunk_bodies(groups_of(grid), bg, n)),
    ensures
        chunks_writes(chunk_bodies(groups_of(grid), bg, n)) is Some,
        writes_agree(grid, width as int, chunks_writes(chunk_bodies(groups_of(grid), bg, n))->Some_0),
        groups_written(grid, chunks_writes(chunk_bodies(groups_of(grid), bg, n))->Some_0, bg, n),
    decreases n,
{
    let g = groups_of(grid);
    if n == 0 {
        assert(chunk_bodies(g, bg, 0) =~= Seq::<Seq<char>>::empty());
    } else {
        let b0 = chunk_bodies(g, bg, n - 1);
        if n - 1 != bg {
            let x = chunk_spec(g[n - 1].0, g[n - 1].1).drop_first();
            assert(chunk_bodies(g, bg, n) == b0.push(x));
            assert(b0.push(x).drop_last() =~= b0);
        } else {
            assert(chunk_bodies(g, bg, n) == b0);
        }
        lemma_chunks_writes(grid, width, height, bg, n - 1);
        let a = chunks_writes(b0)->Some_0;
        if n - 1 != bg {
            let x = chunk_spec(g[n - 1].0, g[n - 1].1).drop_first();
            lemma_group_chunk(grid, width, height, n - 1);
            let wx = chunk_writes(x)->Some_0;
            assert(chunk_bodies(g, bg, n) == b0.push(x));
            lemma_chunks_writes_push(b0, x);
            lemma_writes_agree_concat(grid, width as int, a, wx);
            lemma_groups_written_step(grid, a, wx, bg, n);
        } else {
            assert(chunk_bodies(g, bg, n) == b0);
            assert forall|i: int, t: int|
                #![trigger groups_of(grid)[i].1[t]]
                0 <= i < n && i != bg && 0 <= t < groups_of(grid)[i].1.len() implies written(
                a,
                groups_of(grid)[i].1[t].0 as int,
                groups_of(grid)[i].1[t].1 as int,
            ) by {
                assert(i < n - 1);
            }
        }
    }
}

/// A character of an image's text: the chunks', `#`, `%` and digits.
pub open spec fn image_char(c: char) -> bool {
    chunk_char(c) || c == '#' || c == '%'
}

/// The image text is a join at `%` of its width, its height, its
/// background and its chunks.
proof fn lemma_image_text_fields(grid: Seq<Seq<Rgba>>, width: u32, height: u32)
    requires
        grid.len() == height,
        forall|y: int| 0 <= y < grid.len() ==> (#[trigger] grid[y]).len() == width,
        image_fits(grid),
        width >= 1,
        height >= 1,
    ensures
        groups_of(grid).len() >= 1,
        0 <= max_group(groups_of(grid)) < groups_of(grid).len(),
        split_spec(image_text_spec(grid, width, height), '%') == seq![
            decimal(width as nat),
            decimal(height as nat),
            color_text_spec(groups_of(grid)[max_group(groups_of(grid))].0),
            chunks_spec(groups_of(grid), max_group(groups_of(grid)), groups_of(grid).len() as int),
        ],
        all_chars(image_text_spec(grid, width, height), |c: char| image_char(c)),
{
    let g = groups_of(grid);
    assert(grid[0].len() >= 1);
    lemma_pixel_items_nonempty(grid);
    lemma_group_nonempty(pixel_items(grid));
    lemma_max_group(g);
    let b = max_group(g);
    lemma_groups_ok(grid, width, height);
    let iq = |c: char| image_char(c);
    let dw = decimal(width as nat);
    let dh = decimal(height as nat);
    let ct = color_text_spec(g[b].0);
    let cs = chunks_spec(g, b, g.len() as int);
    lemma_decimal_digits(width as nat);
    lemma_decimal_digits(height as nat);
    assert forall|i: int| 0 <= i < dw.len() implies iq(#[trigger] dw[i]) by {
        assert(is_digit(dw[i]));
    }
    assert forall|i: int| 0 <= i < dh.len() implies iq(#[trigger] dh[i]) by {
        assert(is_digit(dh[i]));
    }
    lemma_color_text_shape(g[b].0);
    assert forall|i: int| 0 <= i < ct.len() implies iq(#[trigger] ct[i]) by {
        if i > 0 {
            assert(hex_upper_char(ct[i]));
        }
    }
    lemma_chunks_split(g, b, g.len() as int, width, height);
    lemma_chars_weaken(cs, |ch: char| chunk_char(ch) || ch == '#', iq);
    let t = image_text_spec(grid, width, height);
    let s1 = dw.push('%') + dh;
    let s2 = s1.push('%') + ct;
    assert(t =~= s2.push('%') + cs);
    assert(free_of(dw, '%')) by {
        assert forall|i: int| 0 <= i < dw.len() implies dw[i] != '%' by {
            assert(is_digit(dw[i]));
        }
    }
    assert(free_of(dh, '%')) by {
        assert forall|i: int| 0 <= i < dh.len() implies dh[i] != '%' by {
            assert(is_digit(dh[i]));
        }
    }
    assert(free_of(ct, '%')) by {
        assert forall|i: int| 0 <= i < ct.len() implies ct[i] != '%' by {
            if i > 0 {
                assert(hex_upper_char(ct[i]));
            }
        }
    }
    lemma_chars_free(cs, |ch: char| chunk_char(ch) || ch == '#', '%');
    lemma_split_free(dw, '%');
    lemma_split_sep_then(dw, dh, '%');
    lemma_split_sep_then(s1, ct, '%');
    lemma_split_sep_then(s2, cs, '%');
    assert(split_spec(t, '%') =~= seq![dw, dh, ct, cs]);
    lemma_concat_chars(dw, seq!['%'], iq);
    assert(dw.push('%') =~= dw + seq!['%']);
    lemma_concat_chars(dw.push('%'), dh, iq);
    lemma_concat_chars(s1, seq!['%'], iq);
    assert(s1.push('%') =~= s1 + seq!['%']);
    lemma_concat_chars(s1.push('%'), ct, iq);
    lemma_concat_chars(s2, seq!['%'], iq);
    assert(s2.push('%') =~= s2 + seq!['%']);
    lemma_concat_chars(s2.push('%'), cs, iq);
}

proof fn lemma_image_chars_pattern_free()
    ensures
        forall|c: char| #[trigger] image_char(c) ==> pattern_free_char(c),
{
}

/// The writes an image's chunks decode to.
pub open spec fn image_writes(grid: Seq<Seq<Rgba>>) -> Seq<Write> {
    chunks_writes(chunk_bodies(groups_of(grid), max_group(groups_of(grid)), groups_of(grid).len() as int))->Some_0
}

/// Decoding reads a restored text as its four `%`-separated fields.
proof fn lemma_decode_fields(
    t: Seq<char>,
    r: Seq<char>,
    f: Seq<Seq<char>>,
    w: u32,
    h: u32,
    bg: crate::color::Rgba,
    ws: Seq<Write>,
)
    requires
        restore_spec(expand_legacy(t)) == Some(r),
        split_spec(r, '%') == f,
        f.len() == 4,
        crate::number::parse_u32_spec(f[0]) == Some(w),
        crate::number::parse_u32_spec(f[1]) == Some(h),
        crate::color::hex_color_parse_spec(f[2]) == Some(bg),
        chunks_writes(color_chunks(f[3])) == Some(ws),
    ensures
        decode_text_spec(t) == Some((w, h, bg, ws)),
{
}

/// The encoder's text, restored, is the image text.
proof fn lemma_restores(grid: Seq<Seq<Rgba>>, width: u32, height: u32)
    requires
        grid.len() == height,
        forall|y: int| 0 <= y < grid.len() ==> (#[trigger] grid[y]).len() == width,
        image_fits(grid),
        encode_text_spec(grid, width, height) is Some,
    ensures
        restore_spec(expand_legacy(encode_text_spec(grid, width, height)->Some_0)) == Some(
            image_text_spec(grid, width, height),
        ),
{
    let t0 = image_text_spec(grid, width, height);
    assert(width >= 1 && height >= 1);
    lemma_image_text_fields(grid, width, height);
    lemma_image_chars_pattern_free();
    lemma_chars_weaken(t0, |c: char| image_char(c), |c: char| pattern_free_char(c));
    lemma_savings_fit(t0, 2, 4);
    assert(remove_dup_ok(t0, 2, 4));
    law_pattern_roundtrip(t0, 2, 4);
}

/// The color section of an image's text decodes to the image's writes.
proof fn lemma_image_chunks(grid: Seq<Seq<Rgba>>, width: u32, height: u32)
    requires
        grid.len() == height,
        forall|y: int| 0 <= y < grid.len() ==> (#[trigger] grid[y]).len() == width,
        image_fits(grid),
        chunks_json_read(color_chunks(chunks_spec(groups_of(grid), max_group(groups_of(grid)), groups_of(grid).len() as int))),
    ensures
        chunks_writes(color_chunks(chunks_spec(groups_of(grid), max_group(groups_of(grid)), groups_of(grid).len() as int)))
            == Some(image_writes(grid)),
        writes_agree(grid, width as int, image_writes(grid)),
        groups_written(grid, image_writes(grid), max_group(groups_of(grid)), groups_of(grid).len() as int),
{
    let g = groups_of(grid);
    let b = max_group(g);
    lemma_groups_ok(grid, width, height);
    lemma_chunks_split(g, b, g.len() as int, width, height);
    lemma_nonempty_after_empty(chunk_bodies(g, b, g.len() as int));
    lemma_chunks_writes(grid, width, height, b, g.len() as int);
}

/// The four `%`-separated fields of an image's text.
proof fn lemma_image_split(grid: Seq<Seq<Rgba>>, width: u32, height: u32)
    requires
        grid.len() == height,
        forall|y: int| 0 <= y < grid.len() ==> (#[trigger] grid[y]).len() == width,
        image_fits(grid),
        width >= 1,
        height >= 1,
    ensures
        groups_of(grid).len() >= 1,
        0 <= max_group(groups_of(grid)) < groups_of(grid).len(),
        split_spec(image_text_spec(grid, width, height), '%') == seq![
            decimal(width as nat),
            decimal(height as nat),
            color_text_spec(groups_of(grid)[max_group(groups_of(grid))].0),
            chunks_spec(groups_of(grid), max_group(groups_of(grid)), groups_of(grid).len() as int),
        ],
{
    lemma_image_text_fields(grid, width, height);
}

/// The four `%`-separated fields of an image's text read back as its width,
/// its height, its background and the writes of its chunks.
#[verifier::spinoff_prover]
proof fn lemma_header(grid: Seq<Seq<Rgba>>, width: u32, height: u32)
    requires
        grid.len() == height,
        forall|y: int| 0 <= y < grid.len() ==> (#[trigger] grid[y]).len() == width,
        image_fits(grid),
        width >= 1,
        height >= 1,
        chunks_json_read(color_chunks(split_spec(image_text_spec(grid, width, height), '%')[3])),
    ensures
        groups_of(grid).len() >= 1,
        0 <= max_group(groups_of(grid)) < groups_of(grid).len(),
        split_spec(image_text_spec(grid, width, height), '%').len() == 4,
        crate::number::parse_u32_spec(split_spec(image_text_spec(grid, width, height), '%')[0]) == Some(width),
        crate::number::parse_u32_spec(split_spec(image_text_spec(grid, width, height), '%')[1]) == Some(height),
        crate::color::hex_color_parse_spec(split_spec(image_text_spec(grid, width, height), '%')[2]) == Some(
            groups_of(grid)[max_group(groups_of(grid))].0,
        ),
        chunks_writes(color_chunks(split_spec(image_text_spec(grid, width, height), '%')[3])) == Some(
            image_writes(grid),
        ),
{
    let g = groups_of(grid);
    let b = max_group(g);
    let f = split_spec(image_text_spec(grid, width, height), '%');
    lemma_image_split(grid, width, height);
    assert(f[0] == decimal(width as nat));
    assert(f[1] == decimal(height as nat));
    assert(f[2] == color_text_spec(g[b].0));
    assert(f[3] == chunks_spec(g, b, g.len() as int));
    lemma_parse_decimal(width);
    lemma_parse_decimal(height);
    law_color_roundtrip(g[b].0);
    lemma_image_chunks(grid, width, height);
}

/// Decoding an image's PCF text gives its header and the writes of its
/// chunks.
#[verifier::spinoff_prover]
proof fn lemma_decodes(grid: Seq<Seq<Rgba>>, width: u32, height: u32)
    requires
        grid.len() == height,
        forall|y: int| 0 <= y < grid.len() ==> (#[trigger] grid[y]).len() == width,
        image_fits(grid),
        encode_text_spec(grid, width, height) is Some,
        decode_json_read(encode_text_spec(grid, width, height)->Some_0),
    ensures
        groups_of(grid).len() >= 1,
        0 <= max_group(groups_of(grid)) < groups_of(grid).len(),
        decode_text_spec(encode_text_spec(grid, width, height)->Some_0) == Some(
            (width, height, groups_of(grid)[max_group(groups_of(grid))].0, image_writes(grid)),
        ),
{
    let t = encode_text_spec(grid, width, height)->Some_0;
    assert(width >= 1 && height >= 1);
    lemma_restores(grid, width, height);
    lemma_image_split(grid, width, height);
    lemma_header(grid, width, height);
    let t0 = image_text_spec(grid, width, height);
    lemma_decode_fields(
        t,
        t0,
        split_spec(t0, '%'),
        width,
        height,
        groups_of(grid)[max_group(groups_of(grid))].0,
        image_writes(grid),
    );
}

/// What decoding an image's text saw the JSON reader do covers the
/// dictionaries of the image's color section.
#[verifier::spinoff_prover]
#[verifier::rlimit(30)]
proof fn lemma_section_read(grid: Seq<Seq<Rgba>>, width: u32, height: u32)
    requires
        grid.len() == height,
        forall|y: int| 0 <= y < grid.len() ==> (#[trigger] grid[y]).len() == width,
        image_fits(grid),
        encode_text_spec(grid, width, height) is Some,
        decode_json_read(encode_text_spec(grid, width, height)->Some_0),
    ensures
        chunks_json_read(color_chunks(chunks_spec(groups_of(grid), max_group(groups_of(grid)), groups_of(grid).len() as int))),
{
    let t = encode_text_spec(grid, width, height)->Some_0;
    let t0 = image_text_spec(grid, width, height);
    assert(width >= 1 && height >= 1);
    lemma_restores(grid, width, height);
    lemma_image_split(grid, width, height);
    let f = split_spec(t0, '%');
    assert(f.len() == 4);
    assert(restore_spec(expand_legacy(t)) == Some(t0));
    assert(chunks_json_read(color_chunks(f[3])));
}

/// Encoding loses nothing: where an image has a PCF text, decoding that
/// text gives its width, its height, and writes that, painted on the
/// background, give the image back pixel for pixel. This rests on what the JSON reader does with the dictionaries of
/// that text (`decode_json_read`), which `decode_text` ensures of every text
/// it is given.
#[verifier::spinoff_prover]
pub proof fn law_lossless(grid: Seq<Seq<Rgba>>, width: u32, height: u32)
    requires
        grid.len() == height,
        forall|y: int| 0 <= y < grid.len() ==> (#[trigger] grid[y]).len() == width,
    ensures
        encode_text_spec(grid, width, height) matches Some(t) && decode_json_read(t) ==> (decode_text_spec(
            encode_text_spec(grid, width, height)->Some_0,
        ) matches Some(d) && d.0 == width && d.1 == height && paint_spec(d.0, d.1, d.2, d.3) == Some(grid)),
{
    if encode_text_spec(grid, width, height) is Some && decode_json_read(encode_text_spec(grid, width, height)->Some_0) {
        lemma_decodes(grid, width, height);
        lemma_section_read(grid, width, height);
        lemma_image_chunks(grid, width, height);
        let g = groups_of(grid);
        let b = max_group(g);
        let bg = g[b].0;
        let ws = image_writes(grid);
        let items = pixel_items(grid);
        lemma_pixel_items_at(grid, width as int);
        lemma_group_covers(items);
        assert forall|x: int, y: int|
            0 <= x < width && 0 <= y < height && #[trigger] grid[y][x] != bg implies written(ws, x, y) by {
            assert(has_item(grid, x, y));
            let j = choose|j: int|
                0 <= j < items.len() && (#[trigger] items[j]).1.0 == x && items[j].1.1 == y && items[j].0
                    == grid[y][x];
            let (i, t) = choose|i: int, t: int|
                0 <= i < g.len() && 0 <= t < g[i].1.len() && g[i].0 == (#[trigger] items[j]).0 && g[i].1[t]
                    == items[j].1;
            assert(i != b);
            assert(written(ws, g[i].1[t].0 as int, g[i].1[t].1 as int));
        }
        lemma_paint_gives_grid(grid, width, height, bg, ws);
    }
}

} // verus!
