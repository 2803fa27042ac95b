//! Reducing the colours of an image to a palette.

use vstd::prelude::*;

use crate::image_format::{rgb565_to_rgb888, rgb888};
use crate::order::sort_distinct;

verus! {

/// A part of a colour scaled from 0 to 255 down to 0 to `max`, rounded to the nearest.
pub open spec fn scaled(part: u8, max: int) -> int {
    (part * max + 127) / 255
}

/// The 5-6-5 bit colour nearest to a 24-bit colour.
pub open spec fn rgb565(c: [u8; 3]) -> u16 {
    (scaled(c[0], 31) * 0x800 + scaled(c[1], 63) * 0x20 + scaled(c[2], 31)) as u16
}

/// Reduces a 24-bit colour to 5-6-5 bits.
pub fn rgb888_to_rgb565(c: [u8; 3]) -> (r: u16)
    ensures
        r == rgb565(c),
{
    let r5 = (c[0] as u16 * 31 + 127) / 255;
    let g6 = (c[1] as u16 * 63 + 127) / 255;
    let b5 = (c[2] as u16 * 31 + 127) / 255;
    assert((r5 << 11) | (g6 << 5) | b5 == r5 * 0x800 + g6 * 0x20 + b5) by (bit_vector)
        requires
            r5 <= 31,
            g6 <= 63,
            b5 <= 31,
    ;
    (r5 << 11) | (g6 << 5) | b5
}

/// Scaling a part of five bits up, rounded down, and down again, rounded to the nearest.
proof fn lemma_five_bits_back(q: int, v: int)
    requires
        0 <= q <= 31,
        v == q * 255 / 31,
    ensures
        0 <= v <= 255,
        (v * 31 + 127) / 255 == q,
{
    assert(31 * v <= 255 * q < 31 * v + 31);
}

/// The same for a part of six bits.
proof fn lemma_six_bits_back(q: int, v: int)
    requires
        0 <= q <= 63,
        v == q * 255 / 63,
    ensures
        0 <= v <= 255,
        (v * 63 + 127) / 255 == q,
{
    assert(63 * v <= 255 * q < 63 * v + 63);
}

/// A colour of 5-6-5 bits is its three parts side by side.
proof fn lemma_parts(c: int)
    requires
        0 <= c <= 0xffff,
    ensures
        0 <= c / 0x800 <= 31,
        0 <= c / 0x20 % 0x40 <= 63,
        0 <= c % 0x20 <= 31,
        c == c / 0x800 * 0x800 + c / 0x20 % 0x40 * 0x20 + c % 0x20,
{
    let high = c / 0x20;
    assert(c == high * 0x20 + c % 0x20);
    assert(high == high / 0x40 * 0x40 + high % 0x40);
    assert(high / 0x40 == c / 0x800);
}

/// Three parts side by side can be told apart.
proof fn lemma_parts_of(r: int, g: int, b: int)
    requires
        0 <= r <= 31,
        0 <= g <= 63,
        0 <= b <= 31,
    ensures
        0 <= r * 0x800 + g * 0x20 + b <= 0xffff,
        (r * 0x800 + g * 0x20 + b) / 0x800 == r,
        (r * 0x800 + g * 0x20 + b) / 0x20 % 0x40 == g,
        (r * 0x800 + g * 0x20 + b) % 0x20 == b,
{
    let c = r * 0x800 + g * 0x20 + b;
    assert(c / 0x20 == r * 0x40 + g);
}

/// A colour of 5-6-5 bits is not changed by expanding and reducing it.
pub proof fn colours_survive_expansion(c: u16)
    ensures
        rgb565(rgb888(c)) == c,
{
    let r5 = c as int / 0x800;
    let g6 = c as int / 0x20 % 0x40;
    let b5 = c as int % 0x20;
    lemma_parts(c as int);
    lemma_five_bits_back(r5, r5 * 255 / 31);
    lemma_six_bits_back(g6, g6 * 255 / 63);
    lemma_five_bits_back(b5, b5 * 255 / 31);
    let x = rgb888(c);
    assert(x[0] == r5 * 255 / 31 && x[1] == g6 * 255 / 63 && x[2] == b5 * 255 / 31);
    assert(scaled(x[0], 31) == r5);
    assert(scaled(x[1], 63) == g6);
    assert(scaled(x[2], 31) == b5);
}

/// The square of the distance of two colours.
pub open spec fn distance(a: [u8; 3], b: [u8; 3]) -> int {
    (a[0] - b[0]) * (a[0] - b[0]) + (a[1] - b[1]) * (a[1] - b[1]) + (a[2] - b[2]) * (a[2] - b[2])
}

proof fn lemma_distance(a: [u8; 3], b: [u8; 3])
    ensures
        0 <= distance(a, b) <= 195_075,
        distance(a, b) == 0 <==> a == b,
{
    let (x, y, z) = (a[0] - b[0], a[1] - b[1], a[2] - b[2]);
    lemma_square(x);
    lemma_square(y);
    lemma_square(z);
    if distance(a, b) == 0 {
        assert(a =~= b);
    }
}

proof fn lemma_square(x: int)
    requires
        -255 <= x <= 255,
    ensures
        0 <= x * x <= 65_025,
        x * x == 0 <==> x == 0,
{
    assert(0 <= x * x <= 65_025 && (x * x == 0 <==> x == 0)) by (nonlinear_arith)
        requires
            -255 <= x <= 255,
    ;
}

/// The square of the distance of two colours.
pub fn color_distance_sq(a: [u8; 3], b: [u8; 3]) -> (r: u32)
    ensures
        r == distance(a, b),
{
    proof {
        lemma_square(a[0] - b[0]);
        lemma_square(a[1] - b[1]);
        lemma_square(a[2] - b[2]);
    }
    let dr = a[0] as i32 - b[0] as i32;
    let dg = a[1] as i32 - b[1] as i32;
    let db = a[2] as i32 - b[2] as i32;
    (dr * dr + dg * dg + db * db) as u32
}

/// The colours of `pixels`, reduced to 5-6-5 bits.
pub open spec fn colors_of(pixels: Seq<[u8; 3]>) -> Seq<u16> {
    Seq::new(pixels.len(), |i: int| rgb565(pixels[i]))
}

/// How often `c` occurs in `colors`.
pub open spec fn occurrences(colors: Seq<u16>, c: u16) -> nat
    decreases colors.len(),
{
    if colors.len() == 0 {
        0
    } else {
        occurrences(colors.drop_last(), c) + if colors.last() == c {
            1nat
        } else {
            0
        }
    }
}

/// Whether `a` comes before `b` in a palette: it is the more frequent colour, or as frequent
/// and the smaller number.
pub open spec fn ranks_before(colors: Seq<u16>, a: u16, b: u16) -> bool {
    ||| occurrences(colors, a) > occurrences(colors, b)
    ||| occurrences(colors, a) == occurrences(colors, b) && a < b
}

/// `ranked` holds each of the colours once, in the order in which they enter a palette.
pub open spec fn is_ranking(ranked: Seq<u16>, colors: Seq<u16>) -> bool {
    &&& forall|i: int, j: int|
        0 <= i < j < ranked.len() ==> ranks_before(
            colors,
            #[trigger] ranked[i],
            #[trigger] ranked[j],
        )
    &&& forall|i: int| 0 <= i < ranked.len() ==> colors.contains(#[trigger] ranked[i])
    &&& forall|i: int| 0 <= i < colors.len() ==> ranked.contains(#[trigger] colors[i])
}

/// The colours in the order in which they enter a palette.
pub open spec fn ranking(colors: Seq<u16>) -> Seq<u16> {
    choose|ranked: Seq<u16>| is_ranking(ranked, colors)
}

/// The palette of `entries` colours: the first ones of the ranking, then zeros.
pub open spec fn palette_of(colors: Seq<u16>, entries: nat) -> Seq<u16> {
    let ranked = ranking(colors);
    Seq::new(
        entries,
        |k: int|
            if k < ranked.len() {
                ranked[k]
            } else {
                0
            },
    )
}

/// `k` is the first of the palette's entries that are nearest to the colour `c`.
pub open spec fn is_nearest(palette: Seq<u16>, c: u16, k: int) -> bool {
    &&& 0 <= k < palette.len()
    &&& forall|j: int|
        0 <= j < palette.len() ==> distance(rgb888(c), rgb888(palette[k])) <= distance(
            rgb888(c),
            rgb888(#[trigger] palette[j]),
        )
    &&& forall|j: int|
        0 <= j < k ==> distance(rgb888(c), rgb888(palette[k])) < distance(
            rgb888(c),
            rgb888(#[trigger] palette[j]),
        )
}

/// The entry of the palette that stands for the colour `c`.
pub open spec fn nearest(palette: Seq<u16>, c: u16) -> int {
    choose|k: int| is_nearest(palette, c, k)
}

/// The index that stands for the colour `c`: the number of its entry, as a byte.
pub open spec fn index_of(palette: Seq<u16>, c: u16) -> u8 {
    if palette.len() == 0 {
        0
    } else {
        (nearest(palette, c) % 0x100) as u8
    }
}

/// The indices that stand for `colors`.
pub open spec fn indices_of(palette: Seq<u16>, colors: Seq<u16>) -> Seq<u8> {
    Seq::new(colors.len(), |i: int| index_of(palette, colors[i]))
}

proof fn lemma_occurs(colors: Seq<u16>, c: u16)
    ensures
        occurrences(colors, c) > 0 <==> colors.contains(c),
        occurrences(colors, c) <= colors.len(),
    decreases colors.len(),
{
    if colors.len() > 0 {
        let shorter = colors.drop_last();
        lemma_occurs(shorter, c);
        assert(colors[colors.len() - 1] == colors.last());
        if shorter.contains(c) {
            let i = choose|i: int| 0 <= i < shorter.len() && shorter[i] == c;
            assert(colors[i] == c);
        }
        if colors.contains(c) && colors.last() != c {
            let i = choose|i: int| 0 <= i < colors.len() && colors[i] == c;
            assert(shorter[i] == c);
        }
    }
}

proof fn lemma_rankings_agree(a: Seq<u16>, b: Seq<u16>, colors: Seq<u16>, n: int)
    requires
        is_ranking(a, colors),
        is_ranking(b, colors),
        0 <= n <= a.len(),
    ensures
        n <= b.len(),
        forall|i: int| 0 <= i < n ==> a[i] == b[i],
    decreases n,
{
    if n > 0 {
        let i = n - 1;
        lemma_rankings_agree(a, b, colors, i);
        lemma_member(a, b, colors, i);
        let j = choose|j: int| 0 <= j < b.len() && b[j] == a[i];
        assert(i <= j) by {
            if j < i {
                assert(a[j] == a[i]);
            }
        }
        lemma_member(b, a, colors, i);
        let k = choose|k: int| 0 <= k < a.len() && a[k] == b[i];
        assert(i <= k) by {
            if k < i {
                assert(b[k] == b[i]);
            }
        }
        if i < j && i < k {
            assert(ranks_before(colors, b[i], b[j]));
            assert(ranks_before(colors, a[i], a[k]));
        }
    }
}

proof fn lemma_member(a: Seq<u16>, b: Seq<u16>, colors: Seq<u16>, i: int)
    requires
        is_ranking(a, colors),
        is_ranking(b, colors),
        0 <= i < a.len(),
    ensures
        b.contains(a[i]),
{
    assert(colors.contains(a[i]));
    let k = choose|k: int| 0 <= k < colors.len() && colors[k] == a[i];
    assert(b.contains(colors[k]));
}

/// There is one ranking at most.
pub proof fn ranking_is_unique(ranked: Seq<u16>, colors: Seq<u16>)
    requires
        is_ranking(ranked, colors),
    ensures
        ranked == ranking(colors),
{
    let other = ranking(colors);
    lemma_rankings_agree(ranked, other, colors, ranked.len() as int);
    lemma_rankings_agree(other, ranked, colors, other.len() as int);
    assert(ranked =~= other);
}

proof fn lemma_nearest_unique(palette: Seq<u16>, c: u16, k: int)
    requires
        is_nearest(palette, c, k),
    ensures
        k == nearest(palette, c),
{
    let n = nearest(palette, c);
    assert(is_nearest(palette, c, n));
    let from = |j: int| distance(rgb888(c), rgb888(palette[j]));
    assert(from(k) <= from(n) && from(n) <= from(k));
    if k < n {
        assert(from(n) < from(k));
    } else if n < k {
        assert(from(k) < from(n));
    }
}

/// Counts how often each colour occurs.
fn count_colors(colors: &[u16]) -> (r: Vec<usize>)
    ensures
        r@.len() == 0x1_0000,
        forall|c: u16| (#[trigger] r@[c as int]) == occurrences(colors@, c),
{
    let mut counts: Vec<usize> = vec![0usize; 0x1_0000];
    let mut i: usize = 0;
    let size = colors.len();
    assert(colors@.take(0) =~= Seq::empty());
    while i < size
        invariant
            size == colors@.len(),
            i <= size,
            counts@.len() == 0x1_0000,
            forall|c: u16|
                (#[trigger] counts@[c as int]) == occurrences(colors@.take(i as int), c),
        decreases size - i,
    {
        let color = colors[i];
        proof {
            assert(colors@.take(i + 1).drop_last() =~= colors@.take(i as int));
            lemma_occurs(colors@.take(i as int), color);
        }
        let count = counts[color as usize];
        assert(count == counts@[color as int]);
        counts.set(color as usize, count + 1);
        i += 1;
    }
    assert(colors@.take(i as int) =~= colors@);
    counts
}

/// A number that grows from one colour of the ranking to the next.
spec fn rank_key(count: int, c: int) -> int {
    (usize::MAX - count) * 0x1_0000 + c
}

/// The colours in the order in which they enter a palette.
fn rank_colors(colors: &[u16]) -> (r: Vec<u16>)
    ensures
        is_ranking(r@, colors@),
{
    let counts = count_colors(colors);
    let mut keys: Vec<u128> = Vec::new();
    let mut c: u32 = 0;
    while c < 0x1_0000
        invariant
            c <= 0x1_0000,
            counts@.len() == 0x1_0000,
            forall|k: int|
                0 <= k < keys@.len() ==> {
                    let d = (#[trigger] keys@[k]) as int % 0x1_0000;
                    d < c && counts@[d] > 0 && keys@[k] == rank_key(counts@[d] as int, d)
                },
            forall|d: int|
                0 <= d < c && (#[trigger] counts@[d]) > 0 ==> keys@.contains(
                    rank_key(counts@[d] as int, d) as u128,
                ),
            forall|i: int, j: int|
                0 <= i < j < keys@.len() ==> (#[trigger] keys@[i]) as int % 0x1_0000 < (
                #[trigger] keys@[j]) as int % 0x1_0000,
        decreases 0x1_0000 - c,
    {
        let count = counts[c as usize];
        let ghost before = keys@;
        if count > 0 {
            let key = (usize::MAX - count) as u128 * 0x1_0000 + c as u128;
            keys.push(key);
            assert(key == rank_key(count as int, c as int));
            assert(keys@.last() == key);
        }
        proof {
            assert forall|d: int| 0 <= d < c + 1 && (#[trigger] counts@[d]) > 0 implies keys@.contains(
                rank_key(counts@[d] as int, d) as u128,
            ) by {
                if d < c {
                    let key = rank_key(counts@[d] as int, d) as u128;
                    let k = choose|k: int| 0 <= k < before.len() && before[k] == key;
                    assert(keys@[k] == key);
                } else {
                    assert(keys@[before.len() as int] == keys@.last());
                }
            }
        }
        c += 1;
    }
    proof {
        assert forall|i: int, j: int| 0 <= i < keys@.len() && 0 <= j < keys@.len() && i != j implies
            keys@[i] != keys@[j] by {
            if i < j {
                assert(keys@[i] as int % 0x1_0000 < keys@[j] as int % 0x1_0000);
            } else {
                assert(keys@[j] as int % 0x1_0000 < keys@[i] as int % 0x1_0000);
            }
        }
    }
    let sorted = sort_distinct(keys.as_slice());
    let mut ranked: Vec<u16> = Vec::new();
    let mut n: usize = 0;
    while n < sorted.len()
        invariant
            n <= sorted@.len(),
            ranked@.len() == n,
            forall|k: int|
                0 <= k < n ==> (#[trigger] ranked@[k]) == sorted@[k] as int % 0x1_0000,
        decreases sorted@.len() - n,
    {
        ranked.push((sorted[n] % 0x1_0000) as u16);
        n += 1;
    }
    proof {
        assert forall|k: int| 0 <= k < ranked@.len() implies sorted@[k] == rank_key(
            occurrences(colors@, #[trigger] ranked@[k]) as int,
            ranked@[k] as int,
        ) && occurrences(colors@, ranked@[k]) > 0 by {
            assert(keys@.contains(sorted@[k]));
            let m = choose|m: int| 0 <= m < keys@.len() && keys@[m] == sorted@[k];
            let d = keys@[m] as int % 0x1_0000;
            assert(counts@[d] == counts@[ranked@[k] as int]);
        }
        assert forall|i: int, j: int| 0 <= i < j < ranked@.len() implies ranks_before(
            colors@,
            #[trigger] ranked@[i],
            #[trigger] ranked@[j],
        ) by {
            assert(sorted@[i] < sorted@[j]);
        }
        assert forall|i: int| 0 <= i < ranked@.len() implies colors@.contains(
            #[trigger] ranked@[i],
        ) by {
            lemma_occurs(colors@, ranked@[i]);
        }
        assert forall|i: int| 0 <= i < colors@.len() implies ranked@.contains(
            #[trigger] colors@[i],
        ) by {
            let color = colors@[i];
            lemma_occurs(colors@, color);
            let key = rank_key(counts@[color as int] as int, color as int) as u128;
            assert(keys@.contains(key));
            let m = choose|m: int| 0 <= m < keys@.len() && keys@[m] == key;
            assert(sorted@.contains(keys@[m]));
            let k = choose|k: int| 0 <= k < sorted@.len() && sorted@[k] == key;
            assert(ranked@[k] == color);
        }
    }
    ranked
}

/// The index that stands for the colour `c`.
fn find_index(palette: &Vec<u16>, palette_rgb: &Vec<[u8; 3]>, c: u16) -> (r: u8)
    requires
        palette_rgb@.len() == palette@.len(),
        forall|k: int|
            0 <= k < palette@.len() ==> #[trigger] palette_rgb@[k] == rgb888(palette@[k]),
    ensures
        r == index_of(palette@, c),
{
    let px = rgb565_to_rgb888(c);
    let mut best_idx: u8 = 0;
    let mut best_dist: u32 = u32::MAX;
    let ghost mut best: int = 0;
    let mut idx: usize = 0;
    while idx < palette_rgb.len()
        invariant
            px == rgb888(c),
            palette_rgb@.len() == palette@.len(),
            forall|k: int|
                0 <= k < palette@.len() ==> #[trigger] palette_rgb@[k] == rgb888(palette@[k]),
            idx <= palette@.len(),
            idx == 0 ==> best_dist == u32::MAX,
            idx == 0 ==> best_idx == 0,
            idx > 0 ==> 0 <= best < idx,
            idx > 0 ==> best_dist == distance(rgb888(c), rgb888(palette@[best])),
            best_idx == best % 0x100,
            forall|j: int|
                0 <= j < idx ==> best_dist <= distance(rgb888(c), rgb888(#[trigger] palette@[j])),
            forall|j: int|
                0 <= j < best ==> best_dist < distance(rgb888(c), rgb888(#[trigger] palette@[j])),
        decreases palette@.len() - idx,
    {
        let dist = color_distance_sq(px, palette_rgb[idx]);
        proof {
            lemma_distance(px, palette_rgb@[idx as int]);
        }
        if dist < best_dist {
            best_dist = dist;
            best_idx = (idx % 0x100) as u8;
            proof {
                best = idx as int;
            }
        }
        idx += 1;
    }
    proof {
        if palette@.len() > 0 {
            assert(is_nearest(palette@, c, best));
            lemma_nearest_unique(palette@, c, best);
        }
    }
    best_idx
}

/// Makes a palette of `palette_entries` colours for `pixels`, and gives the index of each pixel
/// in it.
pub fn build_palette(pixels: &[[u8; 3]], palette_entries: usize) -> (r: (Vec<u16>, Vec<u8>))
    ensures
        r.0@ == palette_of(colors_of(pixels@), palette_entries as nat),
        r.1@ == indices_of(r.0@, colors_of(pixels@)),
{
    let size = pixels.len();
    let mut colors: Vec<u16> = Vec::new();
    let mut i: usize = 0;
    while i < size
        invariant
            size == pixels@.len(),
            i <= size,
            colors@.len() == i,
            forall|k: int| 0 <= k < i ==> #[trigger] colors@[k] == rgb565(pixels@[k]),
        decreases size - i,
    {
        colors.push(rgb888_to_rgb565(pixels[i]));
        i += 1;
    }
    assert(colors@ =~= colors_of(pixels@));
    let ranked = rank_colors(colors.as_slice());
    proof {
        ranking_is_unique(ranked@, colors@);
    }
    let mut palette: Vec<u16> = Vec::new();
    let mut palette_rgb: Vec<[u8; 3]> = Vec::new();
    let mut k: usize = 0;
    while k < palette_entries
        invariant
            ranked@ == ranking(colors@),
            k <= palette_entries,
            palette@ == palette_of(colors@, k as nat),
            palette_rgb@.len() == k,
            forall|j: int| 0 <= j < k ==> #[trigger] palette_rgb@[j] == rgb888(palette@[j]),
        decreases palette_entries - k,
    {
        let color = if k < ranked.len() {
            ranked[k]
        } else {
            0
        };
        palette.push(color);
        palette_rgb.push(rgb565_to_rgb888(color));
        k += 1;
        assert(palette@ =~= palette_of(colors@, k as nat));
    }
    let mut indices: Vec<u8> = Vec::new();
    let mut n: usize = 0;
    while n < colors.len()
        invariant
            n <= colors@.len(),
            palette_rgb@.len() == palette@.len(),
            forall|j: int|
                0 <= j < palette@.len() ==> #[trigger] palette_rgb@[j] == rgb888(palette@[j]),
            indices@.len() == n,
            forall|j: int|
                0 <= j < n ==> #[trigger] indices@[j] == index_of(palette@, colors@[j]),
        decreases colors@.len() - n,
    {
        indices.push(find_index(&palette, &palette_rgb, colors[n]));
        n += 1;
    }
    assert(indices@ =~= indices_of(palette@, colors@));
    (palette, indices)
}

/// Whether each of the colours comes before those after it.
spec fn in_rank_order(t: Seq<u16>, colors: Seq<u16>) -> bool {
    forall|i: int, j: int|
        0 <= i < j < t.len() ==> ranks_before(colors, #[trigger] t[i], #[trigger] t[j])
}

proof fn lemma_rank_in(t: Seq<u16>, colors: Seq<u16>, x: u16) -> (r: Seq<u16>)
    requires
        in_rank_order(t, colors),
        !t.contains(x),
    ensures
        in_rank_order(r, colors),
        forall|c: u16| #[trigger] r.contains(c) <==> t.contains(c) || c == x,
    decreases t.len(),
{
    if t.len() == 0 {
        let r = seq![x];
        assert(r[0] == x);
        r
    } else {
        let last = t.last();
        let shorter = t.drop_last();
        assert(t[t.len() - 1] == last);
        if ranks_before(colors, last, x) {
            let r = t.push(x);
            assert(r[t.len() as int] == x);
            assert forall|c: u16| #[trigger] r.contains(c) implies t.contains(c) || c == x by {
                let k = choose|k: int| 0 <= k < r.len() && r[k] == c;
                assert(k < t.len() ==> t[k] == c);
            }
            assert forall|c: u16| t.contains(c) || c == x implies #[trigger] r.contains(c) by {
                if c != x {
                    let k = choose|k: int| 0 <= k < t.len() && t[k] == c;
                    assert(r[k] == c);
                }
            }
            r
        } else {
            assert forall|k: int| 0 <= k < shorter.len() implies shorter[k] != x by {
                assert(t[k] == shorter[k]);
            }
            let rest = lemma_rank_in(shorter, colors, x);
            let r = rest.push(last);
            assert(r[rest.len() as int] == last);
            assert forall|k: int| 0 <= k < rest.len() implies ranks_before(
                colors,
                #[trigger] rest[k],
                last,
            ) by {
                assert(rest.contains(rest[k]));
                if rest[k] != x {
                    let m = choose|m: int| 0 <= m < shorter.len() && shorter[m] == rest[k];
                    assert(ranks_before(colors, t[m], t[t.len() - 1]));
                }
            }
            assert forall|c: u16| #[trigger] r.contains(c) implies t.contains(c) || c == x by {
                let k = choose|k: int| 0 <= k < r.len() && r[k] == c;
                if k < rest.len() {
                    assert(rest.contains(rest[k]));
                    if c != x {
                        let m = choose|m: int| 0 <= m < shorter.len() && shorter[m] == c;
                        assert(t[m] == c);
                    }
                }
            }
            assert forall|c: u16| t.contains(c) || c == x implies #[trigger] r.contains(c) by {
                if c != last {
                    if c != x {
                        let m = choose|m: int| 0 <= m < t.len() && t[m] == c;
                        assert(shorter[m] == c);
                    }
                    assert(rest.contains(c));
                    let k = choose|k: int| 0 <= k < rest.len() && rest[k] == c;
                    assert(r[k] == c);
                }
            }
            r
        }
    }
}

proof fn lemma_rank_all(members: Seq<u16>, colors: Seq<u16>) -> (r: Seq<u16>)
    ensures
        in_rank_order(r, colors),
        forall|c: u16| #[trigger] r.contains(c) <==> members.contains(c),
    decreases members.len(),
{
    if members.len() == 0 {
        Seq::empty()
    } else {
        let last = members.last();
        let shorter = members.drop_last();
        let t = lemma_rank_all(shorter, colors);
        let r = if t.contains(last) {
            t
        } else {
            lemma_rank_in(t, colors, last)
        };
        assert(members =~= shorter.push(last));
        assert forall|c: u16| #[trigger] members.contains(c) <==> shorter.contains(c) || c
            == last by {
            if members.contains(c) {
                let k = choose|k: int| 0 <= k < members.len() && members[k] == c;
                assert(k < shorter.len() ==> shorter[k] == c);
            }
            if shorter.contains(c) {
                let k = choose|k: int| 0 <= k < shorter.len() && shorter[k] == c;
                assert(members[k] == c);
            }
            assert(members[members.len() - 1] == last);
        }
        r
    }
}

/// There is a ranking of any colours.
pub proof fn colours_can_be_ranked(colors: Seq<u16>)
    ensures
        is_ranking(ranking(colors), colors),
{
    let r = lemma_rank_all(colors, colors);
    assert forall|i: int| 0 <= i < r.len() implies colors.contains(#[trigger] r[i]) by {
        assert(r.contains(r[i]));
    }
    assert forall|i: int| 0 <= i < colors.len() implies r.contains(#[trigger] colors[i]) by {
        assert(colors.contains(colors[i]));
    }
    assert(is_ranking(r, colors));
}

/// Every colour has a nearest entry in a palette that is not empty.
pub proof fn nearest_is_closest(palette: Seq<u16>, c: u16)
    requires
        palette.len() > 0,
    ensures
        is_nearest(palette, c, nearest(palette, c)),
{
    let k = lemma_nearest_in(palette, c, palette.len() as int);
    assert(is_nearest(palette, c, k));
}

/// The index of a colour is the number of its nearest entry, if the palette is not too large.
pub proof fn indices_point_into_the_palette(palette: Seq<u16>, c: u16)
    requires
        0 < palette.len() <= 0x100,
    ensures
        index_of(palette, c) == nearest(palette, c),
        0 <= nearest(palette, c) < palette.len(),
{
    nearest_is_closest(palette, c);
}

proof fn lemma_nearest_in(palette: Seq<u16>, c: u16, n: int) -> (k: int)
    requires
        0 < n <= palette.len(),
    ensures
        0 <= k < n,
        forall|j: int|
            0 <= j < n ==> distance(rgb888(c), rgb888(palette[k])) <= distance(
                rgb888(c),
                rgb888(#[trigger] palette[j]),
            ),
        forall|j: int|
            0 <= j < k ==> distance(rgb888(c), rgb888(palette[k])) < distance(
                rgb888(c),
                rgb888(#[trigger] palette[j]),
            ),
    decreases n,
{
    if n == 1 {
        0
    } else {
        let k = lemma_nearest_in(palette, c, n - 1);
        if distance(rgb888(c), rgb888(palette[n - 1])) < distance(rgb888(c), rgb888(palette[k])) {
            n - 1
        } else {
            k
        }
    }
}

/// A colour of the palette stands for itself.
pub proof fn palette_colours_are_exact(palette: Seq<u16>, c: u16)
    requires
        palette.contains(c),
    ensures
        0 <= nearest(palette, c) < palette.len(),
        palette[nearest(palette, c)] == c,
{
    nearest_is_closest(palette, c);
    let j = choose|j: int| 0 <= j < palette.len() && palette[j] == c;
    let found = palette[nearest(palette, c)];
    lemma_distance(rgb888(c), rgb888(palette[j]));
    lemma_distance(rgb888(c), rgb888(found));
    colours_survive_expansion(c);
    colours_survive_expansion(found);
}

/// Where the colours are not more than the palette has entries, each is in the palette.
pub proof fn few_colours_are_all_kept(colors: Seq<u16>, some: Seq<u16>, entries: nat, i: int)
    requires
        some.len() <= entries,
        forall|k: int| 0 <= k < colors.len() ==> some.contains(#[trigger] colors[k]),
        0 <= i < colors.len(),
    ensures
        palette_of(colors, entries).contains(colors[i]),
{
    colours_can_be_ranked(colors);
    let ranked = ranking(colors);
    assert(ranked.no_duplicates());
    ranked.unique_seq_to_set();
    some.lemma_cardinality_of_set();
    assert forall|c: u16| ranked.to_set().contains(c) implies some.to_set().contains(c) by {
        let k = choose|k: int| 0 <= k < ranked.len() && ranked[k] == c;
        assert(colors.contains(ranked[k]));
        let m = choose|m: int| 0 <= m < colors.len() && colors[m] == c;
        assert(some.contains(colors[m]));
    }
    vstd::set_lib::lemma_len_subset(ranked.to_set(), some.to_set());
    assert(ranked.contains(colors[i]));
    let k = choose|k: int| 0 <= k < ranked.len() && ranked[k] == colors[i];
    assert(palette_of(colors, entries)[k] == colors[i]);
}

/// The count of a colour is the number of places at which it stands, however many these are.
pub proof fn every_place_counts(colors: Seq<u16>, c: u16)
    ensures
        occurrences(colors, c) == colors.to_multiset().count(c),
    decreases colors.len(),
{
    colors.to_multiset_ensures();
    if colors.len() > 0 {
        let shorter = colors.drop_last();
        every_place_counts(shorter, c);
        shorter.to_multiset_ensures();
        assert(shorter.push(colors.last()) =~= colors);
        assert(colors.to_multiset() =~= shorter.to_multiset().insert(colors.last()));
    }
}

/// Where an entry of the palette stands, every colour of the picture that stands at more places,
/// or at as many and is the smaller number, stands before it.
pub proof fn frequent_colours_come_first(colors: Seq<u16>, entries: nat, a: u16, k: int)
    requires
        colors.contains(a),
        0 <= k < entries,
        ({
            let b = palette_of(colors, entries)[k];
            ||| colors.to_multiset().count(a) > colors.to_multiset().count(b)
            ||| colors.to_multiset().count(a) == colors.to_multiset().count(b) && a < b
        }),
    ensures
        palette_of(colors, entries).take(k).contains(a),
{
    let palette = palette_of(colors, entries);
    let ranked = ranking(colors);
    let b = palette[k];
    colours_can_be_ranked(colors);
    every_place_counts(colors, a);
    every_place_counts(colors, b);
    let i = choose|i: int| 0 <= i < colors.len() && colors[i] == a;
    assert(ranked.contains(colors[i]));
    let m = choose|m: int| 0 <= m < ranked.len() && ranked[m] == a;
    if k < ranked.len() {
        assert(ranked[k] == b);
        if k < m {
            assert(ranks_before(colors, ranked[k], ranked[m]));
        }
        assert(m < k);
    }
    assert(palette.take(k)[m] == a);
}

/// A palette has as many entries as asked for. Each is a colour of the picture that stands nowhere
/// before it in the palette, or a zero behind all the colours of the picture.
pub proof fn palettes_hold_each_colour_once(colors: Seq<u16>, entries: nat, k: int)
    requires
        0 <= k < entries,
    ensures
        palette_of(colors, entries).len() == entries,
        ({
            let palette = palette_of(colors, entries);
            ||| colors.contains(palette[k]) && !palette.take(k).contains(palette[k])
            ||| palette[k] == 0 && forall|i: int|
                0 <= i < colors.len() ==> palette.take(k).contains(#[trigger] colors[i])
        }),
{
    let palette = palette_of(colors, entries);
    let ranked = ranking(colors);
    let front = palette.take(k);
    colours_can_be_ranked(colors);
    if k < ranked.len() {
        assert(colors.contains(ranked[k]));
        if front.contains(palette[k]) {
            let m = choose|m: int| 0 <= m < k && front[m] == palette[k];
            assert(ranks_before(colors, ranked[m], ranked[k]));
        }
    } else {
        assert forall|i: int| 0 <= i < colors.len() implies front.contains(
            #[trigger] colors[i],
        ) by {
            assert(ranked.contains(colors[i]));
            let m = choose|m: int| 0 <= m < ranked.len() && ranked[m] == colors[i];
            assert(front[m] == colors[i]);
        }
    }
}

/// No entry of the palette is nearer to a colour than the one that stands for it, and none before
/// that one is as near.
pub proof fn no_entry_is_nearer(palette: Seq<u16>, c: u16, j: int)
    requires
        0 < palette.len() <= 0x100,
        0 <= j < palette.len(),
    ensures
        index_of(palette, c) < palette.len(),
        ({
            let x = rgb888(c);
            let p = rgb888(palette[index_of(palette, c) as int]);
            let q = rgb888(palette[j]);
            let (pr, pg, pb) = (x[0] - p[0], x[1] - p[1], x[2] - p[2]);
            let (qr, qg, qb) = (x[0] - q[0], x[1] - q[1], x[2] - q[2]);
            &&& pr * pr + pg * pg + pb * pb <= qr * qr + qg * qg + qb * qb
            &&& j < index_of(palette, c) ==> pr * pr + pg * pg + pb * pb < qr * qr + qg * qg + qb
                * qb
        }),
{
    indices_point_into_the_palette(palette, c);
    nearest_is_closest(palette, c);
    assert(palette[j] == palette[j]);
    let k = nearest(palette, c);
    assert(distance(rgb888(c), rgb888(palette[k])) <= distance(rgb888(c), rgb888(palette[j])));
}

/// Reducing a part of a colour errs by less than half a step either way, and the parts stand side
/// by side in the reduced colour.
pub proof fn reduced_colours_are_nearest(c: [u8; 3])
    ensures
        ({
            let red = rgb565(c) as int / 0x800;
            let green = rgb565(c) as int / 0x20 % 0x40;
            let blue = rgb565(c) as int % 0x20;
            &&& -127 <= 255 * red - 31 * c[0] <= 127
            &&& -127 <= 255 * green - 63 * c[1] <= 127
            &&& -127 <= 255 * blue - 31 * c[2] <= 127
        }),
{
    let (r, g, b) = (scaled(c[0], 31), scaled(c[1], 63), scaled(c[2], 31));
    assert(0 <= r <= 31 && 0 <= g <= 63 && 0 <= b <= 31);
    lemma_parts_of(r, g, b);
    assert(rgb565(c) == r * 0x800 + g * 0x20 + b);
    assert(255 * r <= 31 * c[0] + 127 < 255 * r + 255);
    assert(255 * g <= 63 * c[1] + 127 < 255 * g + 255);
    assert(255 * b <= 31 * c[2] + 127 < 255 * b + 255);
}

} // verus!
