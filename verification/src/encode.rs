//! Writing the PCF text of an image: the pixels grouped by color, the most
//! frequent color as background, and one chunk per other color.
use vstd::prelude::*;
use crate::color::{
    display_rgba, display_rgba_spec, lemma_display_rgba_ascii, optimize_hex_color,
    optimize_hex_spec, Rgba,
};
use crate::group::{
    find_key, group_by, lemma_find_key, lemma_find_key_is, lemma_group_keys_distinct,
    lemma_group_members, lemma_group_ordered, lemma_group_sizes, key_count, lemma_group_count,
};
use crate::image::Image;
use crate::math::{
    coords_math_spec, coords_to_math, deltas_fit, deltas_fit_exec, nondecreasing, vec_to_math,
};
use crate::number::{decimal, push_decimal};
use crate::sort::{lemma_sort_spec, sort_spec, sort_u32, sorted};
use crate::text::{chars_of, join_spec, string_of};
use crate::patterns::{
    all_ascii, is_all_ascii, lemma_savings_fit, remove_dup_chars, remove_dup_spec, worthy,
};

verus! {

/// The groups with their value vectors viewed as sequences.
pub open spec fn groups_view<K, V>(g: Seq<(K, Vec<V>)>) -> Seq<(K, Seq<V>)> {
    g.map_values(|e: (K, Vec<V>)| (e.0, e.1@))
}

/// The pixels of row `y`, left to right, each as its color and `(x, y)`.
pub open spec fn row_items(row: Seq<Rgba>, y: int) -> Seq<(Rgba, (u32, u32))> {
    Seq::new(row.len(), |x: int| (row[x], (x as u32, y as u32)))
}

/// The pixels of a grid in scan order (row by row, left to right).
pub open spec fn pixel_items(grid: Seq<Seq<Rgba>>) -> Seq<(Rgba, (u32, u32))>
    decreases grid.len(),
{
    if grid.len() == 0 {
        Seq::<(Rgba, (u32, u32))>::empty()
    } else {
        pixel_items(grid.drop_last()) + row_items(grid.last(), grid.len() - 1)
    }
}

/// The grouping after one more item.
pub open spec fn group_step<K, V>(g: Seq<(K, Seq<V>)>, k: K, v: V) -> Seq<(K, Seq<V>)> {
    let i = find_key(g, k);
    if i >= 0 {
        g.update(i, (k, g[i].1.push(v)))
    } else {
        g.push((k, seq![v]))
    }
}

pub proof fn lemma_group_by_push<K, V>(items: Seq<(K, V)>, k: K, v: V)
    ensures
        group_by(items.push((k, v))) == group_step(group_by(items), k, v),
{
    assert(items.push((k, v)).drop_last() =~= items);
}

fn add_color(groups: &mut Vec<(Rgba, Vec<(u32, u32)>)>, c: Rgba, xy: (u32, u32))
    ensures
        groups_view(final(groups)@) == group_step(groups_view(old(groups)@), c, xy),
{
    let ghost g = groups_view(groups@);
    let mut i: usize = 0;
    while i < groups.len() && groups[i].0 != c
        invariant
            0 <= i <= groups@.len(),
            g == groups_view(groups@),
            forall|j: int| 0 <= j < i ==> (#[trigger] groups@[j]).0 != c,
        decreases groups.len() - i,
    {
        i = i + 1;
    }
    if i < groups.len() {
        proof {
            lemma_find_key_is(g, c, i as int);
        }
        groups[i].1.push(xy);
        assert(groups_view(groups@) =~= g.update(i as int, (c, g[i as int].1.push(xy))));
    } else {
        proof {
            lemma_find_key_is(g, c, -1);
        }
        let mut fresh: Vec<(u32, u32)> = Vec::new();
        fresh.push(xy);
        groups.push((c, fresh));
        assert(groups_view(groups@) =~= g.push((c, seq![xy])));
    }
}

/// The pixels of the image grouped by color, in scan order.
pub fn color_groups(img: &Image) -> (res: Vec<(Rgba, Vec<(u32, u32)>)>)
    requires
        img.wf(),
    ensures
        groups_view(res@) == group_by(pixel_items(img.grid())),
{
    let mut groups: Vec<(Rgba, Vec<(u32, u32)>)> = Vec::new();
    let ghost grid = img.grid();
    let mut y: u32 = 0;
    assert(grid.take(0) =~= Seq::<Seq<Rgba>>::empty());
    while y < img.height
        invariant
            img.wf(),
            grid == img.grid(),
            y <= img.height,
            grid.len() == img.height,
            groups_view(groups@) == group_by(pixel_items(grid.take(y as int))),
        decreases img.height - y,
    {
        let ghost before = pixel_items(grid.take(y as int));
        let ghost row = grid[y as int];
        assert(row.len() == img.width) by {
            assert(row == img.rows@[y as int]@);
        }
        let mut x: u32 = 0;
        while x < img.width
            invariant
                img.wf(),
                grid == img.grid(),
                y < img.height,
                x <= img.width,
                row == grid[y as int],
                row.len() == img.width,
                groups_view(groups@) == group_by(before + row_items(row, y as int).take(x as int)),
            decreases img.width - x,
        {
            let c = img.rows[y as usize][x as usize];
            assert(c == row[x as int]);
            let ghost prev = before + row_items(row, y as int).take(x as int);
            assert(before + row_items(row, y as int).take(x + 1) =~= prev.push((c, (x, y))));
            proof {
                lemma_group_by_push(prev, c, (x, y));
            }
            add_color(&mut groups, c, (x, y));
            x = x + 1;
        }
        assert(row_items(row, y as int).take(img.width as int) =~= row_items(row, y as int));
        assert(grid.take(y + 1).drop_last() =~= grid.take(y as int));
        assert(grid.take(y + 1).last() == row);
        y = y + 1;
    }
    assert(grid.take(img.height as int) =~= grid);
    groups
}


/// Distinct values below `w` are at most `w` many.
pub proof fn lemma_distinct_bounded(s: Seq<u32>, w: int)
    requires
        s.no_duplicates(),
        0 <= w,
        forall|i: int| 0 <= i < s.len() ==> s[i] < w,
    ensures
        s.len() <= w,
{
    let si = s.map_values(|x: u32| x as int);
    assert(si.no_duplicates()) by {
        assert forall|i: int, j: int| 0 <= i < si.len() && 0 <= j < si.len() && i != j implies si[i]
            != si[j] by {
            assert(s[i] != s[j]);
        }
    }
    si.unique_seq_to_set();
    vstd::set_lib::lemma_int_range(0, w);
    assert(si.to_set().subset_of(vstd::set_lib::set_int_range(0, w))) by {
        assert forall|v: int| si.to_set().contains(v) implies vstd::set_lib::set_int_range(0, w).contains(v) by {
            assert(si.contains(v));
            let i = choose|i: int| 0 <= i < si.len() && si[i] == v;
            assert(s[i] < w);
        }
    }
    vstd::set_lib::lemma_len_subset(si.to_set(), vstd::set_lib::set_int_range(0, w));
}

/// `(x1, y1)` comes before `(x2, y2)` in scan order.
pub open spec fn scan_before(a: (u32, u32), b: (u32, u32)) -> bool {
    a.1 < b.1 || (a.1 == b.1 && a.0 < b.0)
}

/// The pixels of a grid are in scan order and inside it.
pub proof fn lemma_pixel_items(grid: Seq<Seq<Rgba>>, w: int)
    requires
        forall|y: int| 0 <= y < grid.len() ==> (#[trigger] grid[y]).len() == w,
        w <= u32::MAX + 1,
        grid.len() <= u32::MAX + 1,
    ensures
        forall|j: int|
            0 <= j < pixel_items(grid).len() ==> (#[trigger] pixel_items(grid)[j]).1.0 < w
                && pixel_items(grid)[j].1.1 < grid.len(),
        forall|j1: int, j2: int|
            0 <= j1 < j2 < pixel_items(grid).len() ==> scan_before(
                #[trigger] pixel_items(grid)[j1].1,
                #[trigger] pixel_items(grid)[j2].1,
            ),
    decreases grid.len(),
{
    if grid.len() > 0 {
        let g0 = grid.drop_last();
        assert forall|y: int| 0 <= y < g0.len() implies (#[trigger] g0[y]).len() == w by {
            assert(g0[y] == grid[y]);
        }
        lemma_pixel_items(g0, w);
        let a = pixel_items(g0);
        let r = row_items(grid.last(), grid.len() - 1);
        let all = pixel_items(grid);
        assert(all == a + r);
        assert(grid.last().len() == w);
        assert forall|j: int| 0 <= j < all.len() implies (#[trigger] all[j]).1.0 < w && all[j].1.1
            < grid.len() by {
            if j < a.len() {
                assert(all[j] == a[j]);
            } else {
                assert(all[j] == r[j - a.len()]);
            }
        }
        assert forall|j1: int, j2: int| 0 <= j1 < j2 < all.len() implies scan_before(
            #[trigger] all[j1].1,
            #[trigger] all[j2].1,
        ) by {
            if j2 < a.len() {
                assert(all[j1] == a[j1] && all[j2] == a[j2]);
            } else if j1 < a.len() {
                assert(all[j1] == a[j1] && all[j2] == r[j2 - a.len()]);
                assert(a[j1].1.1 < g0.len());
            } else {
                assert(all[j1] == r[j1 - a.len()] && all[j2] == r[j2 - a.len()]);
            }
        }
    }
}


/// The coordinates of one color grouped by column: each `x` with its rows.
pub open spec fn columns(coords: Seq<(u32, u32)>) -> Seq<(u32, Seq<u32>)> {
    group_by(coords)
}

/// Each column with the notation of its rows.
pub open spec fn column_notations(coords: Seq<(u32, u32)>) -> Seq<(u32, Seq<char>)> {
    columns(coords).map_values(|e: (u32, Seq<u32>)| (e.0, coords_math_spec(e.1)))
}

/// The columns grouped by the notation of their rows.
pub open spec fn row_sets(coords: Seq<(u32, u32)>) -> Seq<(Seq<char>, Seq<u32>)> {
    group_by(column_notations(coords).map_values(|e: (u32, Seq<char>)| (e.1, e.0)))
}

/// The dictionary of a color: the notation of a set of rows, then the
/// notation of the (sorted) columns that have exactly those rows.
pub open spec fn dict_entries(coords: Seq<(u32, u32)>) -> Seq<(Seq<char>, Seq<char>)> {
    row_sets(coords).map_values(|e: (Seq<char>, Seq<u32>)| (e.0, coords_math_spec(sort_spec(e.1))))
}

pub open spec fn entry_text(e: (Seq<char>, Seq<char>)) -> Seq<char> {
    e.0.push(':') + e.1
}

/// `{rows:columns,...}`.
pub open spec fn dict_text_spec(coords: Seq<(u32, u32)>) -> Seq<char> {
    seq!['{'] + join_spec(dict_entries(coords).map_values(|e: (Seq<char>, Seq<char>)| entry_text(e)), ',') + seq!['}']
}

pub open spec fn pixel_text(p: (u32, u32)) -> Seq<char> {
    seq!['('] + decimal(p.0 as nat) + seq![','] + decimal(p.1 as nat) + seq![')']
}

/// `[(x,y),...]`.
pub open spec fn list_text_spec(coords: Seq<(u32, u32)>) -> Seq<char> {
    seq!['['] + join_spec(coords.map_values(|p: (u32, u32)| pixel_text(p)), ',') + seq![']']
}

/// The stored text of a color: `#RRGGBB`, with `AA` where not opaque.
pub open spec fn color_text_spec(c: Rgba) -> Seq<char> {
    optimize_hex_spec(display_rgba_spec(c))
}

/// The chunk of one color: its text, then the plain list where the
/// dictionary would be longer. (`Debug` renders the dictionary, without its
/// quotes, `2m - 1` characters longer than its text, for `m` entries, and
/// the list `2p - 1` longer, for `p` pixels.)
pub open spec fn chunk_spec(c: Rgba, coords: Seq<(u32, u32)>) -> Seq<char> {
    let d = dict_text_spec(coords);
    let l = list_text_spec(coords);
    color_text_spec(c) + if d.len() + 2 * dict_entries(coords).len() > l.len() + 2 * coords.len() {
        l
    } else {
        d
    }
}

/// A color's pixels: at least one, in scan order, inside a `width` by
/// `height` image.
pub open spec fn chunk_coords_in(coords: Seq<(u32, u32)>, width: u32, height: u32) -> bool {
    &&& coords.len() >= 1
    &&& forall|i: int| 0 <= i < coords.len() ==> (#[trigger] coords[i]).0 < width && coords[i].1 < height
    &&& forall|i: int, j: int| 0 <= i < j < coords.len() ==> scan_before(#[trigger] coords[i], #[trigger] coords[j])
}

/// The notations of a color's pixels can be written: no run of equal
/// differences, among the rows of a column or among the sorted columns that
/// share a row notation, is longer than `i32::MAX` (the notation counts a
/// run in an `i32`).
pub open spec fn notations_fit(coords: Seq<(u32, u32)>) -> bool {
    &&& forall|i: int| 0 <= i < columns(coords).len() ==> deltas_fit(#[trigger] columns(coords)[i].1)
    &&& forall|i: int| 0 <= i < row_sets(coords).len() ==> deltas_fit(sort_spec(#[trigger] row_sets(coords)[i].1))
}

/// What the chunk of a color needs: its pixels in scan order inside the
/// image, with notations that can be written.
pub open spec fn chunk_coords_ok(coords: Seq<(u32, u32)>, width: u32, height: u32) -> bool {
    &&& chunk_coords_in(coords, width, height)
    &&& notations_fit(coords)
}

fn add_u32(groups: &mut Vec<(u32, Vec<u32>)>, k: u32, v: u32)
    ensures
        groups_view(final(groups)@) == group_step(groups_view(old(groups)@), k, v),
{
    let ghost g = groups_view(groups@);
    let mut i: usize = 0;
    while i < groups.len() && groups[i].0 != k
        invariant
            0 <= i <= groups@.len(),
            g == groups_view(groups@),
            forall|j: int| 0 <= j < i ==> (#[trigger] groups@[j]).0 != k,
        decreases groups.len() - i,
    {
        i = i + 1;
    }
    if i < groups.len() {
        proof {
            lemma_find_key_is(g, k, i as int);
        }
        groups[i].1.push(v);
        assert(groups_view(groups@) =~= g.update(i as int, (k, g[i as int].1.push(v))));
    } else {
        proof {
            lemma_find_key_is(g, k, -1);
        }
        let mut fresh: Vec<u32> = Vec::new();
        fresh.push(v);
        groups.push((k, fresh));
        assert(groups_view(groups@) =~= g.push((k, seq![v])));
    }
}

/// The groups with text keys viewed as sequences.
pub open spec fn text_groups_view(g: Seq<(Vec<char>, Vec<u32>)>) -> Seq<(Seq<char>, Seq<u32>)> {
    g.map_values(|e: (Vec<char>, Vec<u32>)| (e.0@, e.1@))
}

fn same_text(a: &Vec<char>, b: &Vec<char>) -> (res: bool)
    ensures
        res == (a@ == b@),
{
    if a.len() != b.len() {
        return false;
    }
    let mut i: usize = 0;
    while i < a.len()
        invariant
            0 <= i <= a@.len(),
            a@.len() == b@.len(),
            forall|j: int| 0 <= j < i ==> a@[j] == b@[j],
        decreases a.len() - i,
    {
        if a[i] != b[i] {
            return false;
        }
        i = i + 1;
    }
    assert(a@ =~= b@);
    true
}

fn add_text(groups: &mut Vec<(Vec<char>, Vec<u32>)>, k: Vec<char>, v: u32)
    ensures
        text_groups_view(final(groups)@) == group_step(text_groups_view(old(groups)@), k@, v),
{
    let ghost g = text_groups_view(groups@);
    let mut i: usize = 0;
    while i < groups.len() && !same_text(&groups[i].0, &k)
        invariant
            0 <= i <= groups@.len(),
            g == text_groups_view(groups@),
            forall|j: int| 0 <= j < i ==> (#[trigger] groups@[j]).0@ != k@,
        decreases groups.len() - i,
    {
        i = i + 1;
    }
    if i < groups.len() {
        proof {
            lemma_find_key_is(g, k@, i as int);
        }
        groups[i].1.push(v);
        assert(text_groups_view(groups@) =~= g.update(i as int, (k@, g[i as int].1.push(v))));
    } else {
        proof {
            lemma_find_key_is(g, k@, -1);
        }
        let mut fresh: Vec<u32> = Vec::new();
        fresh.push(v);
        let ghost kv = k@;
        groups.push((k, fresh));
        assert(text_groups_view(groups@) =~= g.push((kv, seq![v])));
    }
}


/// The columns of a color's pixels, with their rows ascending and below
/// `height`, and distinct keys below `width`.
pub proof fn lemma_columns(coords: Seq<(u32, u32)>, width: u32, height: u32)
    requires
        chunk_coords_in(coords, width, height),
    ensures
        forall|i: int|
            0 <= i < columns(coords).len() ==> {
                &&& (#[trigger] columns(coords)[i]).1.len() >= 1
                &&& columns(coords)[i].1.len() <= height
                &&& nondecreasing(columns(coords)[i].1)
                &&& columns(coords)[i].0 < width
            },
        forall|a: int, b: int|
            0 <= a < b < columns(coords).len() ==> columns(coords)[a].0 != columns(coords)[b].0,
{
    let g = columns(coords);
    let lt = |a: u32, b: u32| a < b;
    assert forall|j1: int, j2: int| 0 <= j1 < j2 < coords.len() && coords[j1].0 == coords[j2].0 implies lt(
        #[trigger] coords[j1].1,
        #[trigger] coords[j2].1,
    ) by {
        assert(scan_before(coords[j1], coords[j2]));
    }
    lemma_group_ordered(coords, lt);
    lemma_group_members(coords);
    lemma_group_keys_distinct(coords);
    assert forall|i: int| 0 <= i < g.len() implies {
        &&& (#[trigger] g[i]).1.len() >= 1
        &&& g[i].1.len() <= height
        &&& nondecreasing(g[i].1)
        &&& g[i].0 < width
    } by {
        let ys = g[i].1;
        assert forall|t1: int, t2: int| 0 <= t1 <= t2 < ys.len() implies ys[t1] <= ys[t2] by {
            if t1 < t2 {
                assert(lt(g[i].1[t1], g[i].1[t2]));
            }
        }
        assert(ys.no_duplicates()) by {
            assert forall|t1: int, t2: int| 0 <= t1 < ys.len() && 0 <= t2 < ys.len() && t1 != t2 implies ys[t1]
                != ys[t2] by {
                if t1 < t2 {
                    assert(lt(g[i].1[t1], g[i].1[t2]));
                } else {
                    assert(lt(g[i].1[t2], g[i].1[t1]));
                }
            }
        }
        assert forall|t: int| 0 <= t < ys.len() implies ys[t] < height by {
            let j = choose|j: int| 0 <= j < coords.len() && #[trigger] coords[j] == (g[i].0, g[i].1[t]);
            assert(coords[j].1 < height);
        }
        lemma_distinct_bounded(ys, height as int);
        let j = choose|j: int| 0 <= j < coords.len() && #[trigger] coords[j] == (g[i].0, g[i].1[0]);
        assert(coords[j].0 < width);
    }
}

/// A color has at most `width` columns.
pub proof fn lemma_distinct_columns_bounded(coords: Seq<(u32, u32)>, width: u32, height: u32)
    requires
        chunk_coords_in(coords, width, height),
    ensures
        columns(coords).len() <= width,
{
    lemma_columns(coords, width, height);
    let g = columns(coords);
    let xs = g.map_values(|e: (u32, Seq<u32>)| e.0);
    assert(xs.no_duplicates()) by {
        assert forall|a: int, b: int| 0 <= a < xs.len() && 0 <= b < xs.len() && a != b implies xs[a] != xs[b] by {
            if a < b {
                assert(g[a].0 != g[b].0);
            } else {
                assert(g[b].0 != g[a].0);
            }
        }
    }
    assert forall|i: int| 0 <= i < xs.len() implies xs[i] < width by {
        assert(g[i].0 < width);
    }
    lemma_distinct_bounded(xs, width as int);
}

/// The column sets of each row notation: sorted, they are ascending and
/// fit the limits of the notation.
pub proof fn lemma_row_sets(coords: Seq<(u32, u32)>, width: u32, height: u32)
    requires
        chunk_coords_in(coords, width, height),
    ensures
        forall|i: int|
            0 <= i < row_sets(coords).len() ==> {
                &&& sort_spec((#[trigger] row_sets(coords)[i]).1).len() >= 1
                &&& nondecreasing(sort_spec(row_sets(coords)[i].1))
            },
{
    lemma_columns(coords, width, height);
    let cn = column_notations(coords);
    let items = cn.map_values(|e: (u32, Seq<char>)| (e.1, e.0));
    let g = group_by(items);
    let ne = |a: u32, b: u32| a != b;
    assert forall|j1: int, j2: int| 0 <= j1 < j2 < items.len() && items[j1].0 == items[j2].0 implies ne(
        #[trigger] items[j1].1,
        #[trigger] items[j2].1,
    ) by {
        assert(items[j1].1 == columns(coords)[j1].0 && items[j2].1 == columns(coords)[j2].0);
    }
    lemma_group_ordered(items, ne);
    lemma_group_members(items);
    lemma_group_keys_distinct(items);
    assert forall|i: int| 0 <= i < g.len() implies {
        &&& sort_spec((#[trigger] g[i]).1).len() >= 1
        &&& nondecreasing(sort_spec(g[i].1))
    } by {
        let xs = g[i].1;
        lemma_sort_spec(xs);
        assert(xs.no_duplicates()) by {
            assert forall|t1: int, t2: int| 0 <= t1 < xs.len() && 0 <= t2 < xs.len() && t1 != t2 implies xs[t1]
                != xs[t2] by {
                if t1 < t2 {
                    assert(ne(g[i].1[t1], g[i].1[t2]));
                } else {
                    assert(ne(g[i].1[t2], g[i].1[t1]));
                }
            }
        }
        assert forall|t: int| 0 <= t < xs.len() implies xs[t] < width by {
            let j = choose|j: int| 0 <= j < items.len() && #[trigger] items[j] == (g[i].0, g[i].1[t]);
            assert(items[j].1 == columns(coords)[j].0);
        }
        lemma_distinct_bounded(xs, width as int);
        let sx = sort_spec(xs);
        assert(sorted(sx));
    }
}

fn append_chars(out: &mut Vec<char>, t: &Vec<char>)
    ensures
        final(out)@ == old(out)@ + t@,
{
    let ghost start = out@;
    let mut i: usize = 0;
    while i < t.len()
        invariant
            0 <= i <= t@.len(),
            out@ == start + t@.take(i as int),
        decreases t.len() - i,
    {
        out.push(t[i]);
        i = i + 1;
        assert(out@ =~= start + t@.take(i as int));
    }
    assert(t@.take(t@.len() as int) =~= t@);
}

/// The stored text of a color (see `color_text_spec`).
pub fn color_text(c: Rgba) -> (res: Vec<char>)
    ensures
        res@ == color_text_spec(c),
{
    let d = display_rgba(c);
    proof {
        lemma_display_rgba_ascii(c);
    }
    let o = optimize_hex_color(d);
    chars_of(o.as_str())
}


/// The dictionary text of a list of entries.
fn dict_text(entries: &Vec<(Vec<char>, Vec<char>)>) -> (res: Vec<char>)
    ensures
        res@ == seq!['{'] + join_spec(
            entries@.map_values(|e: (Vec<char>, Vec<char>)| entry_text((e.0@, e.1@))),
            ',',
        ) + seq!['}'],
{
    let ghost ts = entries@.map_values(|e: (Vec<char>, Vec<char>)| entry_text((e.0@, e.1@)));
    let mut out: Vec<char> = Vec::new();
    out.push('{');
    let mut k: usize = 0;
    while k < entries.len()
        invariant
            0 <= k <= entries@.len(),
            ts == entries@.map_values(|e: (Vec<char>, Vec<char>)| entry_text((e.0@, e.1@))),
            out@ == seq!['{'] + join_spec(ts.take(k as int), ','),
        decreases entries.len() - k,
    {
        let ghost before = out@;
        if k > 0 {
            out.push(',');
        }
        append_chars(&mut out, &entries[k].0);
        out.push(':');
        append_chars(&mut out, &entries[k].1);
        proof {
            let t = ts.take(k + 1);
            assert(t.drop_last() =~= ts.take(k as int));
            assert(t.last() == entry_text((entries@[k as int].0@, entries@[k as int].1@)));
            if k == 0 {
                assert(out@ =~= seq!['{'] + join_spec(t, ','));
            } else {
                assert(out@ =~= seq!['{'] + join_spec(t, ','));
            }
        }
        k = k + 1;
    }
    assert(ts.take(entries@.len() as int) =~= ts);
    out.push('}');
    out
}

/// The plain list text of a color's pixels.
fn list_text(coords: &Vec<(u32, u32)>) -> (res: Vec<char>)
    ensures
        res@ == list_text_spec(coords@),
{
    let ghost ts = coords@.map_values(|p: (u32, u32)| pixel_text(p));
    let mut out: Vec<char> = Vec::new();
    out.push('[');
    let mut k: usize = 0;
    while k < coords.len()
        invariant
            0 <= k <= coords@.len(),
            ts == coords@.map_values(|p: (u32, u32)| pixel_text(p)),
            out@ == seq!['['] + join_spec(ts.take(k as int), ','),
        decreases coords.len() - k,
    {
        let ghost before = out@;
        if k > 0 {
            out.push(',');
        }
        out.push('(');
        push_decimal(&mut out, coords[k].0);
        out.push(',');
        push_decimal(&mut out, coords[k].1);
        out.push(')');
        proof {
            let t = ts.take(k + 1);
            assert(t.drop_last() =~= ts.take(k as int));
            assert(t.last() == pixel_text(coords@[k as int]));
            assert(out@ =~= seq!['['] + join_spec(t, ','));
        }
        k = k + 1;
    }
    assert(ts.take(coords@.len() as int) =~= ts);
    out.push(']');
    out
}

/// The columns and the notation of their rows, notation first.
pub open spec fn notation_keys(input: Seq<(u32, Vec<char>)>) -> Seq<(Seq<char>, u32)> {
    input.map_values(|e: (u32, Vec<char>)| (e.1@, e.0))
}

/// The columns grouped by the notation of their rows (first occurrence
/// first), each group's columns sorted and written in the notation.
pub open spec fn key_groups_spec(items: Seq<(Seq<char>, u32)>) -> Seq<(Seq<char>, Seq<char>)> {
    group_by(items).map_values(|e: (Seq<char>, Seq<u32>)| (e.0, coords_math_spec(sort_spec(e.1))))
}

/// Groups the columns by the notation of their rows: for each notation,
/// the notation of the (sorted) columns that have it.
pub fn group_by_key(input: Vec<(u32, Vec<char>)>) -> (res: Vec<(Vec<char>, Vec<char>)>)
    requires
        forall|i: int|
            0 <= i < group_by(notation_keys(input@)).len() ==> deltas_fit(
                sort_spec(#[trigger] group_by(notation_keys(input@))[i].1),
            ),
    ensures
        res@.map_values(|e: (Vec<char>, Vec<char>)| (e.0@, e.1@)) == key_groups_spec(notation_keys(input@)),
{
    let ghost items = notation_keys(input@);
    let ghost rs = group_by(items);
    let inv = sorted_notation_groups(&input);
    proof {
        lemma_group_sizes(items);
        lemma_group_keys_distinct(items);
    }
    assert forall|m: int| 0 <= m < inv@.len() implies {
        &&& (#[trigger] inv@[m]).1@.len() >= 1
        &&& deltas_fit(inv@[m].1@)
        &&& nondecreasing(inv@[m].1@)
    } by {
        lemma_sort_spec(rs[m].1);
        assert(inv@[m].1@ == sort_spec(rs[m].1));
        assert(deltas_fit(sort_spec(rs[m].1)));
    }
    let m2 = vec_to_math(inv);
    assert(m2@.map_values(|e: (Vec<char>, Vec<char>)| (e.0@, e.1@)) =~= key_groups_spec(items));
    m2
}

/// The columns grouped by the notation of their rows, each group's columns
/// sorted.
fn sorted_notation_groups(input: &Vec<(u32, Vec<char>)>) -> (res: Vec<(Vec<char>, Vec<u32>)>)
    ensures
        res@.len() == group_by(notation_keys(input@)).len(),
        forall|m: int|
            0 <= m < res@.len() ==> (#[trigger] res@[m]).0@ == group_by(notation_keys(input@))[m].0
                && res@[m].1@ == sort_spec(group_by(notation_keys(input@))[m].1),
{
    let ghost items = notation_keys(input@);
    let mut inv: Vec<(Vec<char>, Vec<u32>)> = Vec::new();
    let mut j: usize = 0;
    assert(items.take(0) =~= Seq::<(Seq<char>, u32)>::empty());
    while j < input.len()
        invariant
            0 <= j <= input@.len(),
            items == notation_keys(input@),
            text_groups_view(inv@) == group_by(items.take(j as int)),
        decreases input.len() - j,
    {
        let key = input[j].1.clone();
        let x = input[j].0;
        proof {
            assert(items[j as int] == (key@, x));
            lemma_group_by_push(items.take(j as int), key@, x);
            assert(items.take(j + 1) =~= items.take(j as int).push((key@, x)));
        }
        add_text(&mut inv, key, x);
        j = j + 1;
    }
    assert(items.take(input@.len() as int) =~= items);
    // sort the columns of each group
    let ghost rs = group_by(items);
    let mut i: usize = 0;
    while i < inv.len()
        invariant
            0 <= i <= inv@.len(),
            inv@.len() == rs.len(),
            forall|m: int|
                0 <= m < inv@.len() ==> (#[trigger] inv@[m]).0@ == rs[m].0 && inv@[m].1@ == (if m < i {
                    sort_spec(rs[m].1)
                } else {
                    rs[m].1
                }),
        decreases inv.len() - i,
    {
        sort_u32(&mut inv[i].1);
        i = i + 1;
    }
    inv
}

/// The chunk of one color (see `chunk_spec`); `None` where a notation has a
/// run longer than `i32::MAX` (see `notations_fit`).
pub fn chunk_text(c: Rgba, coords: &Vec<(u32, u32)>, width: u32, height: u32) -> (res: Option<Vec<char>>)
    requires
        chunk_coords_in(coords@, width, height),
    ensures
        match res {
            Some(t) => notations_fit(coords@) && t@ == chunk_spec(c, coords@),
            None => !notations_fit(coords@),
        },
{
    // group by column
    let mut cols: Vec<(u32, Vec<u32>)> = Vec::new();
    let mut k: usize = 0;
    assert(coords@.take(0) =~= Seq::<(u32, u32)>::empty());
    while k < coords.len()
        invariant
            0 <= k <= coords@.len(),
            groups_view(cols@) == group_by(coords@.take(k as int)),
        decreases coords.len() - k,
    {
        let (x, y) = coords[k];
        proof {
            lemma_group_by_push(coords@.take(k as int), x, y);
            assert(coords@.take(k + 1) =~= coords@.take(k as int).push((x, y)));
        }
        add_u32(&mut cols, x, y);
        k = k + 1;
    }
    assert(coords@.take(coords@.len() as int) =~= coords@);
    proof {
        lemma_columns(coords@, width, height);
    }
    assert(groups_view(cols@) == columns(coords@));
    // every column's rows must fit the notation
    let mut i: usize = 0;
    while i < cols.len()
        invariant
            i <= cols@.len(),
            groups_view(cols@) == columns(coords@),
            forall|m: int| 0 <= m < columns(coords@).len() ==> nondecreasing(#[trigger] columns(coords@)[m].1),
            forall|m: int| 0 <= m < i ==> deltas_fit(#[trigger] columns(coords@)[m].1),
        decreases cols.len() - i,
    {
        assert(cols@[i as int].1@ == columns(coords@)[i as int].1);
        if !deltas_fit_exec(cols[i].1.as_slice()) {
            return None;
        }
        i = i + 1;
    }
    assert forall|i: int| 0 <= i < cols@.len() implies {
        &&& (#[trigger] cols@[i]).1@.len() >= 1
        &&& deltas_fit(cols@[i].1@)
        &&& nondecreasing(cols@[i].1@)
    } by {
        assert(cols@[i].1@ == columns(coords@)[i].1);
    }
    let m1 = vec_to_math(cols);
    let ghost cn = column_notations(coords@);
    assert(m1@.len() == cn.len());
    assert(notation_keys(m1@) =~= cn.map_values(|e: (u32, Seq<char>)| (e.1, e.0))) by {
        assert forall|i: int| 0 <= i < m1@.len() implies #[trigger] notation_keys(m1@)[i] == cn.map_values(
            |e: (u32, Seq<char>)| (e.1, e.0),
        )[i] by {
            assert(m1@[i].0 == cn[i].0 && m1@[i].1@ == cn[i].1);
        }
    }
    let ghost items = notation_keys(m1@);
    assert(group_by(items) == row_sets(coords@));
    // every row notation's sorted columns must fit the notation
    let sg = sorted_notation_groups(&m1);
    let mut i: usize = 0;
    while i < sg.len()
        invariant
            i <= sg@.len(),
            items == notation_keys(m1@),
            group_by(items) == row_sets(coords@),
            sg@.len() == group_by(items).len(),
            forall|m: int|
                0 <= m < sg@.len() ==> (#[trigger] sg@[m]).1@ == sort_spec(group_by(items)[m].1),
            forall|m: int| 0 <= m < i ==> deltas_fit(sort_spec(#[trigger] row_sets(coords@)[m].1)),
        decreases sg.len() - i,
    {
        proof {
            lemma_sort_spec(group_by(items)[i as int].1);
            assert(sg@[i as int].1@ == sort_spec(row_sets(coords@)[i as int].1));
        }
        if !deltas_fit_exec(sg[i].1.as_slice()) {
            return None;
        }
        i = i + 1;
    }
    assert(notations_fit(coords@));
    proof {
        lemma_distinct_columns_bounded(coords@, width, height);
        lemma_group_sizes(items);
        assert forall|i: int| 0 <= i < group_by(items).len() implies deltas_fit(
            sort_spec(#[trigger] group_by(items)[i].1),
        ) by {
            assert(group_by(items)[i] == row_sets(coords@)[i]);
        }
    }
    let m2 = group_by_key(m1);
    assert(m2@.map_values(|e: (Vec<char>, Vec<char>)| (e.0@, e.1@)) =~= dict_entries(coords@));
    assert(m2@.map_values(|e: (Vec<char>, Vec<char>)| entry_text((e.0@, e.1@))) =~= dict_entries(
        coords@,
    ).map_values(|e: (Seq<char>, Seq<char>)| entry_text(e)));
    let d = dict_text(&m2);
    let l = list_text(coords);
    let mut out = color_text(c);
    let dl = d.len() as u128 + 2 * (m2.len() as u128);
    let ll = l.len() as u128 + 2 * (coords.len() as u128);
    if dl > ll {
        append_chars(&mut out, &l);
    } else {
        append_chars(&mut out, &d);
    }
    Some(out)
}


/// The index of the largest group, the last one among equally large ones
/// (what `max_by_key` picks).
pub open spec fn max_group<K, V>(g: Seq<(K, Seq<V>)>) -> int
    decreases g.len(),
{
    if g.len() <= 1 {
        0
    } else {
        let b = max_group(g.drop_last());
        if g.last().1.len() >= g[b].1.len() {
            g.len() - 1
        } else {
            b
        }
    }
}

/// The chunks of the groups before `n`, except the background's.
pub open spec fn chunks_spec(g: Seq<(Rgba, Seq<(u32, u32)>)>, bg: int, n: int) -> Seq<char>
    decreases n,
{
    if n <= 0 {
        Seq::<char>::empty()
    } else if n - 1 == bg {
        chunks_spec(g, bg, n - 1)
    } else {
        chunks_spec(g, bg, n - 1) + chunk_spec(g[n - 1].0, g[n - 1].1)
    }
}

/// The text of an image before pattern compression:
/// `width%height%background%` and the chunks of the other colors.
pub open spec fn image_text_spec(grid: Seq<Seq<Rgba>>, width: u32, height: u32) -> Seq<char> {
    let g = group_by(pixel_items(grid));
    let b = max_group(g);
    decimal(width as nat) + seq!['%'] + decimal(height as nat) + seq!['%'] + color_text_spec(
        background_spec(grid),
    ) + seq!['%'] + chunks_spec(g, b, g.len() as int)
}

/// The background of an image: the color of its largest color group.
pub open spec fn background_spec(grid: Seq<Seq<Rgba>>) -> Rgba {
    let g = group_by(pixel_items(grid));
    g[max_group(g)].0
}

/// The largest group is at least as large as every group.
pub proof fn lemma_max_group_largest<K, V>(g: Seq<(K, Seq<V>)>)
    ensures
        forall|i: int| 0 <= i < g.len() ==> (#[trigger] g[i]).1.len() <= g[max_group(g)].1.len(),
    decreases g.len(),
{
    if g.len() > 1 {
        let g0 = g.drop_last();
        lemma_max_group_largest(g0);
        lemma_max_group(g0);
        let b = max_group(g0);
        assert(g0[b] == g[b]);
        assert forall|i: int| 0 <= i < g.len() implies (#[trigger] g[i]).1.len() <= g[max_group(g)].1.len() by {
            if i < g.len() - 1 {
                assert(g0[i] == g[i]);
            }
        }
    }
}

/// The background is a most frequent color: no color covers more of the
/// image's pixels.
pub proof fn law_background_most_frequent(grid: Seq<Seq<Rgba>>, c: Rgba)
    requires
        pixel_items(grid).len() >= 1,
    ensures
        key_count(pixel_items(grid), c) <= key_count(pixel_items(grid), background_spec(grid)),
{
    let items = pixel_items(grid);
    let g = group_by(items);
    lemma_group_nonempty(items);
    lemma_max_group(g);
    lemma_max_group_largest(g);
    lemma_group_count(items);
    lemma_find_key(g, c);
    let i = find_key(g, c);
    if i >= 0 {
        assert(g[i].1.len() == key_count(items, c));
    }
}

pub proof fn lemma_max_group<K, V>(g: Seq<(K, Seq<V>)>)
    ensures
        g.len() > 0 ==> 0 <= max_group(g) < g.len(),
    decreases g.len(),
{
    if g.len() > 1 {
        lemma_max_group(g.drop_last());
    }
}

/// The notations of every color but the background's can be written (see
/// `notations_fit`).
pub open spec fn image_fits(grid: Seq<Seq<Rgba>>) -> bool {
    let g = group_by(pixel_items(grid));
    forall|i: int| 0 <= i < g.len() && i != max_group(g) ==> notations_fit(#[trigger] g[i].1)
}

/// The color groups of an image: their pixels lie inside it in scan order,
/// and, where the image fits, each group but the background's is fit for
/// its chunk.
pub proof fn lemma_groups_ok(grid: Seq<Seq<Rgba>>, width: u32, height: u32)
    requires
        grid.len() == height,
        forall|y: int| 0 <= y < grid.len() ==> (#[trigger] grid[y]).len() == width,
    ensures
        forall|i: int|
            0 <= i < group_by(pixel_items(grid)).len() ==> chunk_coords_in(
                (#[trigger] group_by(pixel_items(grid))[i]).1,
                width,
                height,
            ),
        image_fits(grid) ==> forall|i: int|
            0 <= i < group_by(pixel_items(grid)).len() && i != max_group(group_by(pixel_items(grid)))
                ==> chunk_coords_ok((#[trigger] group_by(pixel_items(grid))[i]).1, width, height),
{
    let items = pixel_items(grid);
    let g = group_by(items);
    lemma_pixel_items(grid, width as int);
    let sb = |a: (u32, u32), b: (u32, u32)| scan_before(a, b);
    assert forall|j1: int, j2: int| 0 <= j1 < j2 < items.len() && items[j1].0 == items[j2].0 implies sb(
        #[trigger] items[j1].1,
        #[trigger] items[j2].1,
    ) by {}
    lemma_group_ordered(items, sb);
    lemma_group_members(items);
    lemma_group_keys_distinct(items);
    assert forall|i: int| 0 <= i < g.len() implies chunk_coords_in((#[trigger] g[i]).1, width, height) by {
        let cs = g[i].1;
        assert forall|t: int| 0 <= t < cs.len() implies (#[trigger] cs[t]).0 < width && cs[t].1 < height by {
            let j = choose|j: int| 0 <= j < items.len() && #[trigger] items[j] == (g[i].0, g[i].1[t]);
            assert(items[j].1 == cs[t]);
        }
        assert forall|t1: int, t2: int| 0 <= t1 < t2 < cs.len() implies scan_before(
            #[trigger] cs[t1],
            #[trigger] cs[t2],
        ) by {
            assert(sb(g[i].1[t1], g[i].1[t2]));
        }
    }
}

/// The text of an image before pattern compression (see
/// `image_text_spec`); the image has at least one pixel. `None` where a
/// color's notation has a run longer than `i32::MAX` (see `image_fits`).
pub fn image_text(img: &Image) -> (res: Option<Vec<char>>)
    requires
        img.wf(),
        img.width >= 1,
        img.height >= 1,
    ensures
        match res {
            Some(t) => image_fits(img.grid()) && t@ == image_text_spec(img.grid(), img.width, img.height),
            None => !image_fits(img.grid()),
        },
{
    let groups = color_groups(img);
    let ghost g = group_by(pixel_items(img.grid()));
    proof {
        assert forall|y: int| 0 <= y < img.grid().len() implies (#[trigger] img.grid()[y]).len() == img.width by {
            assert(img.grid()[y] == img.rows@[y]@);
        }
        lemma_groups_ok(img.grid(), img.width, img.height);
        // at least one pixel, so at least one group
        let row0 = img.grid()[0];
        assert(row0.len() >= 1);
        assert(img.grid().len() >= 1);
        lemma_pixel_items_nonempty(img.grid());
        lemma_group_nonempty(pixel_items(img.grid()));
        lemma_max_group(g);
    }
    assert(groups_view(groups@) == g);
    // the largest group is the background
    let mut b: usize = 0;
    let mut i: usize = 1;
    while i < groups.len()
        invariant
            1 <= i <= groups@.len(),
            groups_view(groups@) == g,
            b == max_group(g.take(i as int)),
            0 <= b < i,
        decreases groups.len() - i,
    {
        proof {
            lemma_max_group(g.take(i as int));
            assert(g.take(i + 1).drop_last() =~= g.take(i as int));
            assert(g.take(i + 1)[b as int] == g[b as int]);
            assert(g[i as int].1.len() == groups@[i as int].1@.len());
            assert(g[b as int].1.len() == groups@[b as int].1@.len());
        }
        if groups[i].1.len() >= groups[b].1.len() {
            b = i;
        }
        i = i + 1;
    }
    assert(g.take(groups@.len() as int) =~= g);
    let mut out: Vec<char> = Vec::new();
    push_decimal(&mut out, img.width);
    out.push('%');
    push_decimal(&mut out, img.height);
    out.push('%');
    let bg = color_text(groups[b].0);
    append_chars(&mut out, &bg);
    out.push('%');
    let ghost head = out@;
    let mut k: usize = 0;
    while k < groups.len()
        invariant
            0 <= k <= groups@.len(),
            groups_view(groups@) == g,
            0 <= b < groups@.len(),
            b == max_group(g),
            g == group_by(pixel_items(img.grid())),
            forall|m: int| 0 <= m < g.len() ==> chunk_coords_in((#[trigger] g[m]).1, img.width, img.height),
            forall|m: int| 0 <= m < k && m != b ==> notations_fit((#[trigger] g[m]).1),
            out@ == head + chunks_spec(g, b as int, k as int),
        decreases groups.len() - k,
    {
        if k != b {
            assert(groups@[k as int].1@ == g[k as int].1);
            let chunk = match chunk_text(groups[k].0, &groups[k].1, img.width, img.height) {
                Some(t) => t,
                None => {
                    assert(!notations_fit(g[k as int].1));
                    return None;
                },
            };
            append_chars(&mut out, &chunk);
        }
        k = k + 1;
    }
    Some(out)
}

pub proof fn lemma_pixel_items_nonempty(grid: Seq<Seq<Rgba>>)
    requires
        grid.len() >= 1,
        grid[0].len() >= 1,
    ensures
        pixel_items(grid).len() >= 1,
    decreases grid.len(),
{
    if grid.len() > 1 {
        lemma_pixel_items_nonempty(grid.drop_last());
    } else {
        assert(grid.drop_last().len() == 0);
    }
}

pub proof fn lemma_group_nonempty<K, V>(items: Seq<(K, V)>)
    requires
        items.len() >= 1,
    ensures
        group_by(items).len() >= 1,
    decreases items.len(),
{
    let g = group_by(items.drop_last());
    lemma_find_key(g, items.last().0);
}


/// The text `convert` writes for an image (before the optional byte
/// compression): the image text, pattern-compressed with patterns of 2 to 4
/// characters; `None` where the program cannot go on: no pixel, a notation
/// whose run counter would overflow, or no worthy pattern. (The text is
/// ASCII and short enough to be held in memory.)
pub open spec fn encode_text_spec(grid: Seq<Seq<Rgba>>, width: u32, height: u32) -> Option<Seq<char>> {
    if width == 0 || height == 0 || !image_fits(grid) {
        None
    } else {
        let t = image_text_spec(grid, width, height);
        if !all_ascii(t) || t.len() < 4 || t.len() >= 0x1000_0000_0000_0000 || worthy(t, 2, 4).len() == 0 {
            None
        } else {
            Some(remove_dup_spec(t, 2, 4))
        }
    }
}

/// The PCF text of an image (see `encode_text_spec`).
pub fn encode_text(img: &Image) -> (res: Option<String>)
    requires
        img.wf(),
    ensures
        match res {
            Some(s) => encode_text_spec(img.grid(), img.width, img.height) == Some(s@),
            None => encode_text_spec(img.grid(), img.width, img.height) is None,
        },
{
    if img.width == 0 || img.height == 0 {
        return None;
    }
    let t = match image_text(img) {
        Some(t) => t,
        None => return None,
    };
    if !is_all_ascii(t.as_slice()) || t.len() < 4 || t.len() as u64 >= 0x1000_0000_0000_0000 {
        return None;
    }
    proof {
        lemma_savings_fit(t@, 2, 4);
    }
    match remove_dup_chars(t.as_slice(), 2, 4) {
        None => None,
        Some(out) => Some(string_of(&out)),
    }
}

} // verus!
