//! Popularity-based palette reduction: count exact-color frequencies, keep
//! the most frequent `k` colors (fewer when the image has fewer distinct
//! colors), and map every pixel to the palette color at minimal squared RGB
//! distance, the first such color winning ties.

use vstd::prelude::*;
use crate::algorithms::{PopularityParameters, QuantizeError};
use crate::image::{Image, Rgba};

verus! {

/// How many pixels of the buffer have exactly the color `c`.
pub open spec fn count_of(pixels: Seq<Rgba>, c: Rgba) -> nat
    decreases pixels.len(),
{
    if pixels.len() == 0 {
        0
    } else {
        count_of(pixels.drop_last(), c) + if pixels.last() == c {
            1nat
        } else {
            0nat
        }
    }
}

/// A color occurs at most as often as there are pixels.
pub proof fn lemma_count_le_len(pixels: Seq<Rgba>, c: Rgba)
    ensures
        count_of(pixels, c) <= pixels.len(),
    decreases pixels.len(),
{
    if pixels.len() > 0 {
        lemma_count_le_len(pixels.drop_last(), c);
    }
}

/// A color occurs at all exactly when some pixel has it.
pub proof fn lemma_count_pos_iff_contains(pixels: Seq<Rgba>, c: Rgba)
    ensures
        count_of(pixels, c) > 0 <==> pixels.contains(c),
    decreases pixels.len(),
{
    if pixels.len() > 0 {
        lemma_count_pos_iff_contains(pixels.drop_last(), c);
        if pixels.last() == c {
            assert(pixels[pixels.len() - 1] == c);
        } else if count_of(pixels, c) > 0 {
            let i = choose|i: int| 0 <= i < pixels.drop_last().len() && pixels.drop_last()[i] == c;
            assert(pixels[i] == c);
        } else if pixels.contains(c) {
            let i = choose|i: int| 0 <= i < pixels.len() && pixels[i] == c;
            assert(pixels.drop_last()[i] == c);
        }
    }
}

/// The squared Euclidean distance between two colors; alpha is ignored.
pub open spec fn color_dist(x: Rgba, y: Rgba) -> int {
    (x.r - y.r) * (x.r - y.r) + (x.g - y.g) * (x.g - y.g) + (x.b - y.b) * (x.b - y.b)
}

/// A color packed into a single integer, used only to break frequency ties
/// deterministically.
pub open spec fn color_code(c: Rgba) -> int {
    c.r * 0x1000000 + c.g * 0x10000 + c.b * 0x100 + c.a
}

/// Frequency order on (color, count) entries: higher counts first, lower
/// color codes first among equal counts.
pub open spec fn entry_precedes(x: (Rgba, usize), y: (Rgba, usize)) -> bool {
    x.1 > y.1 || (x.1 == y.1 && color_code(x.0) <= color_code(y.0))
}

/// The palette color nearest to `px`: a front-to-back scan keeping the
/// earlier color unless a strictly closer one appears, so the first minimum
/// wins.
pub open spec fn closest_in(colors: Seq<Rgba>, px: Rgba) -> Rgba
    recommends
        colors.len() >= 1,
    decreases colors.len(),
{
    if colors.len() <= 1 {
        colors[0]
    } else {
        let prev = closest_in(colors.drop_last(), px);
        if color_dist(px, colors.last()) < color_dist(px, prev) {
            colors.last()
        } else {
            prev
        }
    }
}

/// The nearest palette color is in the palette, at minimal distance.
pub proof fn lemma_closest_in_characterization(colors: Seq<Rgba>, px: Rgba)
    requires
        colors.len() >= 1,
    ensures
        colors.contains(closest_in(colors, px)),
        forall|j: int| 0 <= j < colors.len()
            ==> color_dist(px, closest_in(colors, px)) <= color_dist(px, #[trigger] colors[j]),
    decreases colors.len(),
{
    if colors.len() > 1 {
        lemma_closest_in_characterization(colors.drop_last(), px);
        let prev = closest_in(colors.drop_last(), px);
        let i = choose|i: int|
            0 <= i < colors.drop_last().len() && colors.drop_last()[i] == prev;
        assert(colors[i] == prev);
        assert forall|j: int| 0 <= j < colors.len()
            implies color_dist(px, closest_in(colors, px)) <= color_dist(px, #[trigger] colors[j]) by {
            if j < colors.len() - 1 {
                assert(colors.drop_last()[j] == colors[j]);
            }
        }
    }
}

/// Every pixel replaced by its nearest palette color.
pub open spec fn popularity_map(colors: Seq<Rgba>, pixels: Seq<Rgba>) -> Seq<Rgba> {
    Seq::new(pixels.len(), |i: int| closest_in(colors, pixels[i]))
}

/// What `find_most_popular_k_colors` returns: at most `k` distinct colors of
/// the image, ordered by descending frequency, covering every color when
/// fewer than `k` are distinct, and each kept color at least as frequent as
/// every color left out.
pub open spec fn is_palette(pixels: Seq<Rgba>, k: int, pal: Seq<Rgba>) -> bool {
    &&& pal.no_duplicates()
    &&& forall|a: int| 0 <= a < pal.len() ==> pixels.contains(#[trigger] pal[a])
    &&& pal.len() <= k
    &&& pixels.len() >= 1 && k >= 1 ==> pal.len() >= 1
    &&& pal.len() < k ==> forall|j: int| 0 <= j < pixels.len() ==> pal.contains(#[trigger] pixels[j])
    &&& forall|a: int, b: int| 0 <= a <= b < pal.len()
        ==> count_of(pixels, #[trigger] pal[a]) >= count_of(pixels, #[trigger] pal[b])
    &&& forall|a: int, c: Rgba|
        #![trigger pal[a], count_of(pixels, c)]
        0 <= a < pal.len() && pixels.contains(c) && !pal.contains(c)
            ==> count_of(pixels, pal[a]) >= count_of(pixels, c)
}

/// With `k == 1`, popularity quantization maps every pixel of a non-empty
/// image to the single most frequent color, whenever one color is strictly
/// more frequent than every other.
pub proof fn lemma_popularity_single_color(
    pixels: Seq<Rgba>,
    pal: Seq<Rgba>,
    out: Seq<Rgba>,
    c: Rgba,
)
    requires
        pixels.len() >= 1,
        is_palette(pixels, 1, pal),
        out == popularity_map(pal, pixels),
        pixels.contains(c),
        forall|d: Rgba| pixels.contains(d) && d != c
            ==> #[trigger] count_of(pixels, d) < count_of(pixels, c),
    ensures
        forall|i: int| 0 <= i < out.len() ==> out[i] == c,
{
    assert(pal.len() == 1);
    assert(pal[0] == c) by {
        if pal[0] != c {
            assert(pixels.contains(pal[0]));
            if pal.contains(c) {
                let t = choose|t: int| 0 <= t < pal.len() && pal[t] == c;
                assert(pal[0] == c);
            } else {
                assert(count_of(pixels, pal[0]) >= count_of(pixels, c));
                assert(count_of(pixels, pal[0]) < count_of(pixels, c));
            }
        }
    }
    assert forall|i: int| 0 <= i < out.len() implies out[i] == c by {
        assert(out[i] == closest_in(pal, pixels[i]));
        assert(closest_in(pal, pixels[i]) == pal[0]);
    }
}

/// The color's packed code, in exec form.
fn color_code_exec(c: Rgba) -> (r: u32)
    ensures
        r as int == color_code(c),
{
    (c.r as u32) * 0x1000000 + (c.g as u32) * 0x10000 + (c.b as u32) * 0x100 + (c.a as u32)
}

/// Whether `x` comes no later than `y` in frequency order.
fn entry_precedes_exec(x: &(Rgba, usize), y: &(Rgba, usize)) -> (r: bool)
    ensures
        r == entry_precedes(*x, *y),
{
    if x.1 > y.1 {
        true
    } else if x.1 == y.1 {
        color_code_exec(x.0) <= color_code_exec(y.0)
    } else {
        false
    }
}

/// Some entry of the list carries exactly this color.
pub open spec fn has_color_entry(entries: Seq<(Rgba, usize)>, c: Rgba) -> bool {
    exists|a: int| 0 <= a < entries.len() && (#[trigger] entries[a]).0 == c
}

/// Counts how often each distinct color occurs; the order of the entries is
/// the order of first occurrence.
fn count_colors(pixels: &Vec<Rgba>) -> (r: Vec<(Rgba, usize)>)
    ensures
        forall|a: int, b: int| 0 <= a < b < r@.len() ==> (#[trigger] r@[a]).0 != (#[trigger] r@[b]).0,
        forall|a: int| 0 <= a < r@.len()
            ==> (#[trigger] r@[a]).1 == count_of(pixels@, r@[a].0) && r@[a].1 >= 1,
        forall|j: int| 0 <= j < pixels@.len() ==> has_color_entry(r@, #[trigger] pixels@[j]),
{
    let n = pixels.len();
    let mut r: Vec<(Rgba, usize)> = Vec::new();
    let mut i: usize = 0;
    while i < n
        invariant
            n == pixels@.len(),
            0 <= i <= n,
            forall|a: int, b: int| 0 <= a < b < r@.len()
                ==> (#[trigger] r@[a]).0 != (#[trigger] r@[b]).0,
            forall|a: int| 0 <= a < r@.len()
                ==> (#[trigger] r@[a]).1 == count_of(pixels@.take(i as int), r@[a].0)
                    && r@[a].1 >= 1,
            forall|j: int| 0 <= j < i ==> has_color_entry(r@, #[trigger] pixels@[j]),
        decreases n - i,
    {
        let ghost prefix = pixels@.take(i as int);
        let ghost prefix1 = pixels@.take(i as int + 1);
        proof {
            assert(prefix1.drop_last() =~= prefix);
            assert(prefix1.last() == pixels@[i as int]);
        }
        let px = pixels[i];
        let ghost r_before = r@;
        // Scan for an existing entry of this color.
        let mut found: Option<usize> = None;
        let mut a: usize = 0;
        while a < r.len()
            invariant
                0 <= a <= r@.len(),
                match found {
                    Some(idx) => 0 <= idx < r@.len() && r@[idx as int].0 == px,
                    None => forall|t: int| 0 <= t < a ==> (#[trigger] r@[t]).0 != px,
                },
            decreases r@.len() - a,
        {
            if matches!(found, None) {
                if r[a].0 == px {
                    found = Some(a);
                }
            }
            a = a + 1;
        }
        match found {
            Some(idx) => {
                let (c, cnt) = r[idx];
                proof {
                    lemma_count_le_len(prefix, c);
                }
                r.set(idx, (c, cnt + 1));
                proof {
                    assert((r@[idx as int]).0 == px);
                    assert forall|t: int| 0 <= t < r@.len()
                        implies (#[trigger] r@[t]).1 == count_of(prefix1, r@[t].0)
                            && r@[t].1 >= 1 by {
                        if t == idx {
                            assert(count_of(prefix1, c) == count_of(prefix, c) + 1);
                        } else {
                            assert(r@[t].0 != px);
                            assert(count_of(prefix1, r@[t].0) == count_of(prefix, r@[t].0));
                        }
                    }
                }
            },
            None => {
                proof {
                    // The color is new: it cannot occur in the prefix, or an
                    // entry would exist for it.
                    lemma_count_pos_iff_contains(prefix, px);
                    if prefix.contains(px) {
                        let j = choose|j: int| 0 <= j < prefix.len() && prefix[j] == px;
                        assert(pixels@[j] == px);
                        assert(has_color_entry(r@, px));
                        let t = choose|t: int| 0 <= t < r@.len() && (#[trigger] r@[t]).0 == px;
                        assert(false);
                    }
                    assert(count_of(prefix, px) == 0);
                    assert(count_of(prefix1, px) == 1);
                }
                r.push((px, 1));
                proof {
                    assert((r@[r@.len() - 1]).0 == px);
                    assert forall|t: int| 0 <= t < r@.len()
                        implies (#[trigger] r@[t]).1 == count_of(prefix1, r@[t].0)
                            && r@[t].1 >= 1 by {
                        if t < r@.len() - 1 {
                            assert(r@[t].0 != px);
                            assert(count_of(prefix1, r@[t].0) == count_of(prefix, r@[t].0));
                        }
                    }
                }
            },
        }
        proof {
            assert(forall|t: int| 0 <= t < r_before.len()
                ==> (#[trigger] r@[t]).0 == r_before[t].0);
            assert forall|j: int| 0 <= j < i + 1
                implies has_color_entry(r@, #[trigger] pixels@[j]) by {
                if j < i {
                    assert(has_color_entry(r_before, pixels@[j]));
                    let t = choose|t: int|
                        0 <= t < r_before.len() && (#[trigger] r_before[t]).0 == pixels@[j];
                    assert((r@[t]).0 == pixels@[j]);
                } else {
                    assert(pixels@[j] == px);
                }
            }
        }
        i = i + 1;
    }
    proof {
        assert(pixels@.take(n as int) =~= pixels@);
    }
    r
}

/// Sorted by frequency order.
pub open spec fn entries_sorted(s: Seq<(Rgba, usize)>) -> bool {
    forall|a: int, b: int| 0 <= a <= b < s.len() ==> entry_precedes(#[trigger] s[a], #[trigger] s[b])
}

/// Sorts entries by descending count, ascending color code among equal
/// counts, by repeatedly extracting the front of the frequency order.
fn sort_entries(v: Vec<(Rgba, usize)>) -> (r: Vec<(Rgba, usize)>)
    ensures
        r@.to_multiset() == v@.to_multiset(),
        r@.len() == v@.len(),
        entries_sorted(r@),
{
    broadcast use vstd::seq_lib::group_to_multiset_ensures;
    broadcast use vstd::multiset::group_multiset_axioms;

    let ghost orig = v@;
    let mut rest = v;
    let mut out: Vec<(Rgba, usize)> = Vec::new();
    while rest.len() > 0
        invariant
            out@.to_multiset().add(rest@.to_multiset()) == orig.to_multiset(),
            out@.len() + rest@.len() == orig.len(),
            entries_sorted(out@),
            forall|a: int, b: int| 0 <= a < out@.len() && 0 <= b < rest@.len()
                ==> entry_precedes(#[trigger] out@[a], #[trigger] rest@[b]),
        decreases rest@.len(),
    {
        let mut best: usize = 0;
        let mut j: usize = 1;
        while j < rest.len()
            invariant
                rest@.len() >= 1,
                0 <= best < j <= rest@.len(),
                forall|t: int| 0 <= t < j ==> entry_precedes(rest@[best as int], #[trigger] rest@[t]),
            decreases rest@.len() - j,
        {
            if !entry_precedes_exec(&rest[best], &rest[j]) {
                best = j;
            }
            j = j + 1;
        }
        let ghost rest_before = rest@;
        let ghost out_before = out@;
        let e = rest.remove(best);
        out.push(e);
        proof {
            vstd::seq_lib::to_multiset_remove(rest_before, best as int);
            vstd::seq_lib::to_multiset_build(out_before, e);
            vstd::seq_lib::to_multiset_contains(rest_before, e);
            assert(rest@.to_multiset() == rest_before.to_multiset().remove(e));
            assert(out@.to_multiset() == out_before.to_multiset().insert(e));
            assert(rest_before.contains(e));
            assert(rest_before.to_multiset().count(e) > 0);
            assert(out@.to_multiset().add(rest@.to_multiset()) =~= orig.to_multiset());
            assert forall|a: int, b: int| 0 <= a < out@.len() && 0 <= b < rest@.len()
                implies entry_precedes(#[trigger] out@[a], #[trigger] rest@[b]) by {
                if b < best {
                    assert(rest@[b] == rest_before[b]);
                } else {
                    assert(rest@[b] == rest_before[b + 1]);
                }
                if a < out@.len() - 1 {
                } else {
                    assert(out@[a] == e);
                }
            }
            assert forall|a: int, b: int| 0 <= a <= b < out@.len()
                implies entry_precedes(#[trigger] out@[a], #[trigger] out@[b]) by {
                if b == out@.len() - 1 && a < b {
                    assert(entry_precedes(out@[a], rest_before[best as int]));
                }
            }
        }
    }
    out
}

/// The popularity-based strategy.
pub struct PopularityAlgorithmColorQuantizer;

impl PopularityAlgorithmColorQuantizer {
    /// The squared RGB distance between two colors.
    pub fn colors_distance(lhs: Rgba, rhs: Rgba) -> (r: u32)
        ensures
            r as int == color_dist(lhs, rhs),
    {
        let rd: i32 = lhs.r as i32 - rhs.r as i32;
        let gd: i32 = lhs.g as i32 - rhs.g as i32;
        let bd: i32 = lhs.b as i32 - rhs.b as i32;
        proof {
            assert(0 <= rd * rd <= 65025 && 0 <= gd * gd <= 65025 && 0 <= bd * bd <= 65025)
                by (nonlinear_arith)
                requires
                    -255 <= rd <= 255,
                    -255 <= gd <= 255,
                    -255 <= bd <= 255,
            ;
        }
        (rd * rd) as u32 + (gd * gd) as u32 + (bd * bd) as u32
    }

    /// The palette color at minimal squared distance from `pixel`; the first
    /// such color in the palette wins ties.
    pub fn find_closest_color(pixel: Rgba, colors: &Vec<Rgba>) -> (r: Rgba)
        requires
            colors@.len() >= 1,
        ensures
            r == closest_in(colors@, pixel),
    {
        let mut best = colors[0];
        let mut a: usize = 1;
        while a < colors.len()
            invariant
                colors@.len() >= 1,
                1 <= a <= colors@.len(),
                best == closest_in(colors@.take(a as int), pixel),
            decreases colors@.len() - a,
        {
            proof {
                assert(colors@.take(a as int + 1).drop_last() =~= colors@.take(a as int));
                assert(colors@.take(a as int + 1).last() == colors@[a as int]);
            }
            let cand = colors[a];
            if Self::colors_distance(pixel, cand) < Self::colors_distance(pixel, best) {
                best = cand;
            }
            a = a + 1;
        }
        proof {
            assert(colors@.take(colors@.len() as int) =~= colors@);
        }
        best
    }

    /// The `k` most frequent colors of the image (all distinct colors when
    /// fewer), most frequent first, frequency ties going to the lower packed
    /// color code.
    pub fn find_most_popular_k_colors(initial_image: &Image, k: usize) -> (colors: Vec<Rgba>)
        requires
            k >= 1,
            initial_image.pixels@.len() >= 1,
        ensures
            is_palette(initial_image.pixels@, k as int, colors@),
    {
        broadcast use vstd::seq_lib::group_to_multiset_ensures;

        let ghost pixels = initial_image.pixels@;
        let entries = count_colors(&initial_image.pixels);
        let ghost entries0 = entries@;
        let sorted = sort_entries(entries);
        proof {
            // Entries survive sorting: same multiset, so same membership and
            // no duplicate pairs.
            assert(entries0.no_duplicates()) by {
                assert forall|a: int, b: int|
                    0 <= a < entries0.len() && 0 <= b < entries0.len() && a != b
                    implies entries0[a] != entries0[b] by {
                    if a < b {
                        assert(entries0[a].0 != entries0[b].0);
                    } else {
                        assert(entries0[b].0 != entries0[a].0);
                    }
                }
            }
            entries0.lemma_multiset_has_no_duplicates();
            assert forall|x: (Rgba, usize)| sorted@.to_multiset().contains(x)
                implies sorted@.to_multiset().count(x) == 1 by {
                assert(entries0.to_multiset().contains(x));
            }
            sorted@.lemma_multiset_has_no_duplicates_conv();
            assert forall|a: int| 0 <= a < sorted@.len()
                implies entries0.contains(#[trigger] sorted@[a]) by {
                vstd::seq_lib::to_multiset_contains(sorted@, sorted@[a]);
                vstd::seq_lib::to_multiset_contains(entries0, sorted@[a]);
                assert(sorted@.contains(sorted@[a]));
                assert(sorted@.to_multiset().count(sorted@[a]) > 0);
            }
            assert forall|a: int, b: int| 0 <= a < b < sorted@.len()
                implies (#[trigger] sorted@[a]).0 != (#[trigger] sorted@[b]).0 by {
                let ea = choose|t: int| 0 <= t < entries0.len() && entries0[t] == sorted@[a];
                let eb = choose|t: int| 0 <= t < entries0.len() && entries0[t] == sorted@[b];
                assert(sorted@[a] != sorted@[b]);
                if ea < eb {
                    assert(entries0[ea].0 != entries0[eb].0);
                } else if eb < ea {
                    assert(entries0[eb].0 != entries0[ea].0);
                }
            }
            assert forall|j: int| 0 <= j < pixels.len()
                implies has_color_entry(sorted@, #[trigger] pixels[j]) by {
                assert(has_color_entry(entries0, pixels[j]));
                let t0 = choose|t: int| 0 <= t < entries0.len()
                    && (#[trigger] entries0[t]).0 == pixels[j];
                vstd::seq_lib::to_multiset_contains(entries0, entries0[t0]);
                vstd::seq_lib::to_multiset_contains(sorted@, entries0[t0]);
                assert(entries0.contains(entries0[t0]));
                assert(entries0.to_multiset().count(entries0[t0]) > 0);
                assert(sorted@.contains(entries0[t0]));
                let t = choose|t: int| 0 <= t < sorted@.len() && sorted@[t] == entries0[t0];
                assert((sorted@[t]).0 == pixels[j]);
            }
            assert(sorted@.len() >= 1) by {
                assert(has_color_entry(sorted@, pixels[0]));
                let t = choose|t: int|
                    0 <= t < sorted@.len() && (#[trigger] sorted@[t]).0 == pixels[0];
            }
        }
        let take_n: usize = if k < sorted.len() {
            k
        } else {
            sorted.len()
        };
        let mut colors: Vec<Rgba> = Vec::new();
        let mut a: usize = 0;
        while a < take_n
            invariant
                take_n <= sorted@.len(),
                0 <= a <= take_n,
                colors@.len() == a,
                forall|t: int| 0 <= t < a ==> #[trigger] colors@[t] == sorted@[t].0,
            decreases take_n - a,
        {
            colors.push(sorted[a].0);
            a = a + 1;
        }
        proof {
            lemma_palette_from_sorted(pixels, entries0, sorted@, colors@, k as int, take_n as int);
        }
        colors
    }

    /// Quantizes the image: builds the palette, then maps every pixel to its
    /// nearest palette color. Fails exactly on an image with no pixels, whose
    /// palette would be empty.
    pub fn generate_output_image(params: PopularityParameters, initial_image: &Image) -> (r: Result<
        Image,
        QuantizeError,
    >)
        requires
            params.k >= 1,
            initial_image.wf(),
        ensures
            match r {
                Ok(img) => {
                    &&& initial_image.pixels@.len() >= 1
                    &&& img.wf()
                    &&& img.width == initial_image.width
                    &&& img.height == initial_image.height
                    &&& exists|pal: Seq<Rgba>|
                        is_palette(initial_image.pixels@, params.k as int, pal)
                            && img.pixels@ == popularity_map(pal, initial_image.pixels@)
                },
                Err(e) => e == QuantizeError::EmptyPalette && initial_image.pixels@.len() == 0,
            },
    {
        if initial_image.pixels.len() == 0 {
            return Err(QuantizeError::EmptyPalette);
        }
        let colors = Self::find_most_popular_k_colors(initial_image, params.k);
        let n = initial_image.pixels.len();
        let mut out: Vec<Rgba> = Vec::new();
        let mut i: usize = 0;
        while i < n
            invariant
                initial_image.wf(),
                n == initial_image.pixels@.len(),
                n >= 1,
                colors@.len() >= 1,
                is_palette(initial_image.pixels@, params.k as int, colors@),
                0 <= i <= n,
                out@.len() == i,
                forall|j: int| 0 <= j < i
                    ==> #[trigger] out@[j] == closest_in(colors@, initial_image.pixels@[j]),
            decreases n - i,
        {
            let px = initial_image.pixels[i];
            out.push(Self::find_closest_color(px, &colors));
            i = i + 1;
        }
        proof {
            assert(out@ =~= popularity_map(colors@, initial_image.pixels@));
        }
        Ok(Image { width: initial_image.width, height: initial_image.height, pixels: out })
    }
}

/// The prefix of the sorted frequency entries is a palette in the sense of
/// `is_palette`.
proof fn lemma_palette_from_sorted(
    pixels: Seq<Rgba>,
    entries: Seq<(Rgba, usize)>,
    sorted: Seq<(Rgba, usize)>,
    pal: Seq<Rgba>,
    k: int,
    take_n: int,
)
    requires
        pixels.len() >= 1,
        k >= 1,
        sorted.len() >= 1,
        take_n == if k < sorted.len() { k } else { sorted.len() as int },
        // facts about the sorted entry list
        entries_sorted(sorted),
        forall|a: int, b: int| 0 <= a < b < sorted.len()
            ==> (#[trigger] sorted[a]).0 != (#[trigger] sorted[b]).0,
        forall|a: int| 0 <= a < sorted.len() ==> entries.contains(#[trigger] sorted[a]),
        forall|a: int| 0 <= a < entries.len()
            ==> (#[trigger] entries[a]).1 == count_of(pixels, entries[a].0) && entries[a].1 >= 1,
        forall|j: int| 0 <= j < pixels.len() ==> has_color_entry(sorted, #[trigger] pixels[j]),
        // the palette is the prefix of the colors
        pal.len() == take_n,
        forall|t: int| 0 <= t < take_n ==> #[trigger] pal[t] == sorted[t].0,
    ensures
        is_palette(pixels, k, pal),
{
    // Every sorted entry carries the true count of its color.
    assert forall|a: int| 0 <= a < sorted.len()
        implies (#[trigger] sorted[a]).1 == count_of(pixels, sorted[a].0) && sorted[a].1 >= 1 by {
        let t = choose|t: int| 0 <= t < entries.len() && entries[t] == sorted[a];
        assert(entries[t].1 == count_of(pixels, entries[t].0));
    }
    // Palette colors occur in the image.
    assert forall|a: int| 0 <= a < pal.len() implies pixels.contains(#[trigger] pal[a]) by {
        assert(count_of(pixels, sorted[a].0) >= 1);
        lemma_count_pos_iff_contains(pixels, sorted[a].0);
    }
    // No duplicate palette colors.
    assert(pal.no_duplicates()) by {
        assert forall|a: int, b: int| 0 <= a < pal.len() && 0 <= b < pal.len() && a != b
            implies pal[a] != pal[b] by {
            if a < b {
                assert(sorted[a].0 != sorted[b].0);
            } else {
                assert(sorted[b].0 != sorted[a].0);
            }
        }
    }
    // When the palette is shorter than k it holds every color of the image.
    if pal.len() < k {
        assert forall|j: int| 0 <= j < pixels.len() implies pal.contains(#[trigger] pixels[j]) by {
            assert(has_color_entry(sorted, pixels[j]));
            let t = choose|t: int| 0 <= t < sorted.len() && (#[trigger] sorted[t]).0 == pixels[j];
            assert(take_n == sorted.len());
            assert(pal[t] == pixels[j]);
        }
    }
    // Counts are ordered along the palette.
    assert forall|a: int, b: int| 0 <= a <= b < pal.len()
        implies count_of(pixels, #[trigger] pal[a]) >= count_of(pixels, #[trigger] pal[b]) by {
        assert(entry_precedes(sorted[a], sorted[b]));
    }
    // Every color left out is at most as frequent as every palette color.
    assert forall|a: int, c: Rgba|
        #![trigger pal[a], count_of(pixels, c)]
        0 <= a < pal.len() && pixels.contains(c) && !pal.contains(c)
            implies count_of(pixels, pal[a]) >= count_of(pixels, c) by {
        let j = choose|j: int| 0 <= j < pixels.len() && pixels[j] == c;
        assert(has_color_entry(sorted, pixels[j]));
        let t = choose|t: int| 0 <= t < sorted.len() && (#[trigger] sorted[t]).0 == pixels[j];
        if t < take_n {
            assert(pal[t] == c);
        } else {
            assert(entry_precedes(sorted[a], sorted[t]));
        }
    }
}

} // verus!
