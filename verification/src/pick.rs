//! The eight-color palette of an image: decoding and resampling it,
//! median-cut quantization of its pixels, the cache record of a palette, its
//! published `#rrggbb` list, and the cache key.

use vstd::prelude::*;
use crate::text::{hex2, hex_fixed, push_hex2, string_from_chars};

verus! {

/// A pixel, as red, green and blue bytes.
pub type Px = [u8; 3];

/// The smallest value of channel `c` in `b` (255 for no pixel).
pub open spec fn chan_lo(b: Seq<Px>, c: int) -> int
    decreases b.len(),
{
    if b.len() == 0 {
        255
    } else {
        let m = chan_lo(b.drop_last(), c);
        if (b.last()[c] as int) < m {
            b.last()[c] as int
        } else {
            m
        }
    }
}

/// The largest value of channel `c` in `b` (0 for no pixel).
pub open spec fn chan_hi(b: Seq<Px>, c: int) -> int
    decreases b.len(),
{
    if b.len() == 0 {
        0
    } else {
        let m = chan_hi(b.drop_last(), c);
        if (b.last()[c] as int) > m {
            b.last()[c] as int
        } else {
            m
        }
    }
}

/// The spread of channel `c` over a box; boxes of fewer than two pixels are
/// never split and count as 0.
pub open spec fn box_range(b: Seq<Px>, c: int) -> int {
    if b.len() < 2 {
        0
    } else {
        chan_hi(b, c) - chan_lo(b, c)
    }
}

/// The widest spread among the first `k` (box, channel) pairs in order
/// (box by box, channels 0 to 2), and the first pair that has it, if the
/// spread is positive.
pub open spec fn widest(boxes: Seq<Seq<Px>>, k: int) -> (int, Option<(int, int)>)
    decreases k,
{
    if k <= 0 {
        (0, None)
    } else {
        let prev = widest(boxes, k - 1);
        let r = box_range(boxes[(k - 1) / 3], (k - 1) % 3);
        if r > prev.0 {
            (r, Some(((k - 1) / 3, (k - 1) % 3)))
        } else {
            prev
        }
    }
}

/// The pixels of `b` whose channel `c` is `v`, in order.
pub open spec fn bucket(b: Seq<Px>, c: int, v: int) -> Seq<Px>
    decreases b.len(),
{
    if b.len() == 0 {
        Seq::empty()
    } else if b.last()[c] as int == v {
        bucket(b.drop_last(), c, v).push(b.last())
    } else {
        bucket(b.drop_last(), c, v)
    }
}

/// The pixels of `b` whose channel `c` is below `v`, by that channel and
/// then in their order in `b`.
pub open spec fn sorted_below(b: Seq<Px>, c: int, v: int) -> Seq<Px>
    decreases v,
{
    if v <= 0 {
        Seq::empty()
    } else {
        sorted_below(b, c, v - 1) + bucket(b, c, v - 1)
    }
}

/// `b` stably sorted by channel `c`.
pub open spec fn sort_by_channel(b: Seq<Px>, c: int) -> Seq<Px> {
    sorted_below(b, c, 256)
}

/// One median cut: the first box with the widest spread is sorted by that
/// channel and cut in two halves; the lower half stays in place and the upper
/// half goes last. `None` when no box has a positive spread.
pub open spec fn split_step(boxes: Seq<Seq<Px>>) -> Option<Seq<Seq<Px>>> {
    match widest(boxes, 3 * boxes.len() as int).1 {
        None => None,
        Some((i, c)) => {
            let s = sort_by_channel(boxes[i], c);
            let mid = s.len() / 2;
            Some(boxes.update(i, s.take(mid as int)).push(s.skip(mid as int)))
        },
    }
}

/// The widest channel found among the first `k` (box, channel) pairs is one
/// of them, with its range; no range found means zero.
pub proof fn lemma_widest_bounds(boxes: Seq<Seq<Px>>, k: int)
    requires
        k <= 3 * boxes.len(),
    ensures
        widest(boxes, k).1 matches Some((i, c)) ==> 0 <= i < boxes.len() && 0 <= c < 3 && 3 * i
            + c < k && widest(boxes, k).0 == box_range(boxes[i], c),
        widest(boxes, k).0 >= 0,
        widest(boxes, k).1 is None ==> widest(boxes, k).0 == 0,
    decreases k,
{
    if k > 0 {
        lemma_widest_bounds(boxes, k - 1);
    }
}

/// A cut adds one box.
pub proof fn lemma_split_step_len(boxes: Seq<Seq<Px>>)
    ensures
        split_step(boxes) matches Some(nb) ==> nb.len() == boxes.len() + 1,
{
    lemma_widest_bounds(boxes, 3 * boxes.len() as int);
}

/// Cuts until there are eight boxes or no box can be cut.
pub open spec fn cut_boxes(boxes: Seq<Seq<Px>>) -> Seq<Seq<Px>>
    decreases 8 - boxes.len(),
{
    if boxes.len() >= 8 {
        boxes
    } else {
        match split_step(boxes) {
            None => boxes,
            Some(nb) => {
                proof {
                    lemma_split_step_len(boxes);
                }
                cut_boxes(nb)
            },
        }
    }
}

/// The sum of channel `c` over `b`.
pub open spec fn chan_sum(b: Seq<Px>, c: int) -> nat
    decreases b.len(),
{
    if b.len() == 0 {
        0
    } else {
        chan_sum(b.drop_last(), c) + b.last()[c] as nat
    }
}

/// The average color of a box (black for an empty box), rounded down.
pub open spec fn box_average(b: Seq<Px>) -> Px {
    let n = if b.len() == 0 {
        1
    } else {
        b.len()
    };
    [(chan_sum(b, 0) / n) as u8, (chan_sum(b, 1) / n) as u8, (chan_sum(b, 2) / n) as u8]
}

/// The index of the first of the largest sizes.
pub open spec fn first_largest(sizes: Seq<nat>) -> int
    decreases sizes.len(),
{
    if sizes.len() <= 1 {
        0
    } else {
        let k = first_largest(sizes.drop_last());
        if sizes.last() > sizes[k] {
            sizes.len() - 1
        } else {
            k
        }
    }
}

/// The first largest size is at an index of the sizes.
pub proof fn lemma_first_largest_bounds(sizes: Seq<nat>)
    ensures
        sizes.len() > 0 ==> 0 <= first_largest(sizes) < sizes.len(),
    decreases sizes.len(),
{
    if sizes.len() > 1 {
        lemma_first_largest_bounds(sizes.drop_last());
    }
}

/// The boxes, largest first; among equal sizes, in their order.
pub open spec fn by_size(boxes: Seq<Seq<Px>>) -> Seq<Seq<Px>>
    decreases boxes.len(),
{
    if boxes.len() == 0 {
        Seq::empty()
    } else {
        let k = first_largest(boxes.map_values(|b: Seq<Px>| b.len()));
        proof {
            lemma_first_largest_bounds(boxes.map_values(|b: Seq<Px>| b.len()));
        }
        seq![boxes[k]] + by_size(boxes.remove(k))
    }
}

/// Exactly eight colors: the first eight, or all of them with the last
/// repeated (black where there is none).
pub open spec fn eight(colors: Seq<Px>) -> Seq<Px> {
    if colors.len() >= 8 {
        colors.take(8)
    } else {
        let fill = if colors.len() == 0 {
            [0u8, 0u8, 0u8]
        } else {
            colors.last()
        };
        colors + Seq::new((8 - colors.len()) as nat, |i: int| fill)
    }
}

/// The palette of a list of pixels: the averages of the median-cut boxes,
/// largest box first, made exactly eight.
pub open spec fn median_cut_palette(pixels: Seq<Px>) -> Seq<Px> {
    eight(by_size(cut_boxes(seq![pixels])).map_values(|b: Seq<Px>| box_average(b)))
}

/// Channel bounds are bytes, the lowest no greater than the highest.
pub proof fn lemma_chan_bounds(b: Seq<Px>, c: int)
    requires
        0 <= c < 3,
    ensures
        b.len() > 0 ==> 0 <= chan_lo(b, c) <= chan_hi(b, c) <= 255,
        0 <= chan_lo(b, c) <= 255,
        0 <= chan_hi(b, c) <= 255,
    decreases b.len(),
{
    if b.len() > 0 {
        lemma_chan_bounds(b.drop_last(), c);
    }
}

/// The smallest and largest value of channel `c` in `b`.
fn channel_bounds(b: &Vec<Px>, c: usize) -> (r: (u8, u8))
    requires
        c < 3,
    ensures
        r.0 == chan_lo(b@, c as int),
        r.1 == chan_hi(b@, c as int),
{
    let mut lo: u8 = 255;
    let mut hi: u8 = 0;
    let mut k: usize = 0;
    assert(b@.take(0) =~= Seq::<Px>::empty());
    while k < b.len()
        invariant
            k <= b@.len(),
            c < 3,
            lo == chan_lo(b@.take(k as int), c as int),
            hi == chan_hi(b@.take(k as int), c as int),
        decreases b@.len() - k,
    {
        assert(b@.take(k + 1).drop_last() =~= b@.take(k as int));
        assert(b@.take(k + 1).last() == b@[k as int]);
        let v = b[k][c];
        if v < lo {
            lo = v;
        }
        if v > hi {
            hi = v;
        }
        k += 1;
    }
    assert(b@.take(b@.len() as int) =~= b@);
    (lo, hi)
}

/// The boxes as pixel sequences.
pub open spec fn boxes_view(v: Seq<Vec<Px>>) -> Seq<Seq<Px>> {
    v.map_values(|b: Vec<Px>| b@)
}

/// The first (box, channel) with the widest positive spread.
fn find_widest(boxes: &Vec<Vec<Px>>) -> (r: Option<(usize, usize)>)
    ensures
        match (r, widest(boxes_view(boxes@), 3 * boxes@.len() as int).1) {
            (Some(x), Some(y)) => x.0 == y.0 && x.1 == y.1,
            (None, None) => true,
            _ => false,
        },
{
    let ghost bv = boxes_view(boxes@);
    let mut best: Option<(usize, usize)> = None;
    let mut best_range: u16 = 0;
    let mut i: usize = 0;
    while i < boxes.len()
        invariant
            i <= boxes@.len(),
            bv == boxes_view(boxes@),
            bv.len() == boxes@.len(),
            best_range == widest(bv, 3 * i).0,
            match (best, widest(bv, 3 * i).1) {
                (Some(x), Some(y)) => x.0 == y.0 && x.1 == y.1,
                (None, None) => true,
                _ => false,
            },
        decreases boxes@.len() - i,
    {
        let b = &boxes[i];
        assert(bv[i as int] == b@);
        let mut c: usize = 0;
        while c < 3
            invariant
                i < boxes@.len(),
                bv == boxes_view(boxes@),
                bv.len() == boxes@.len(),
                bv[i as int] == b@,
                c <= 3,
                best_range == widest(bv, 3 * i + c).0,
                match (best, widest(bv, 3 * i + c).1) {
                    (Some(x), Some(y)) => x.0 == y.0 && x.1 == y.1,
                    (None, None) => true,
                    _ => false,
                },
            decreases 3 - c,
        {
            let ghost k = 3 * i + c + 1;
            assert((k - 1) / 3 == i as int && (k - 1) % 3 == c as int);
            proof {
                lemma_widest_bounds(bv, 3 * i + c);
            }
            if b.len() >= 2 {
                let (lo, hi) = channel_bounds(b, c);
                proof {
                    lemma_chan_bounds(b@, c as int);
                }
                let range = hi as u16 - lo as u16;
                if range > best_range {
                    best_range = range;
                    best = Some((i, c));
                }
            }
            c += 1;
        }
        i += 1;
    }
    best
}

/// `b` stably sorted by channel `c`.
fn sort_channel(b: &Vec<Px>, c: usize) -> (s: Vec<Px>)
    requires
        c < 3,
    ensures
        s@ == sort_by_channel(b@, c as int),
{
    let mut s: Vec<Px> = Vec::new();
    let mut v: u16 = 0;
    while v < 256
        invariant
            v <= 256,
            c < 3,
            s@ == sorted_below(b@, c as int, v as int),
        decreases 256 - v,
    {
        let ghost s0 = s@;
        let mut k: usize = 0;
        assert(b@.take(0) =~= Seq::<Px>::empty());
        assert(s@ =~= s0 + bucket(b@.take(0), c as int, v as int));
        while k < b.len()
            invariant
                k <= b@.len(),
                v < 256,
                c < 3,
                s@ == s0 + bucket(b@.take(k as int), c as int, v as int),
            decreases b@.len() - k,
        {
            assert(b@.take(k + 1).drop_last() =~= b@.take(k as int));
            assert(b@.take(k + 1).last() == b@[k as int]);
            if b[k][c] as u16 == v {
                s.push(b[k]);
            }
            k += 1;
        }
        assert(b@.take(b@.len() as int) =~= b@);
        v += 1;
    }
    s
}

/// The average color of a box.
fn average(b: &Vec<Px>) -> (a: Px)
    ensures
        a == box_average(b@),
{
    let mut sums: [u128; 3] = [0, 0, 0];
    let mut k: usize = 0;
    assert(b@.take(0) =~= Seq::<Px>::empty());
    while k < b.len()
        invariant
            k <= b@.len(),
            sums[0] == chan_sum(b@.take(k as int), 0) && sums[0] <= 255 * k,
            sums[1] == chan_sum(b@.take(k as int), 1) && sums[1] <= 255 * k,
            sums[2] == chan_sum(b@.take(k as int), 2) && sums[2] <= 255 * k,
        decreases b@.len() - k,
    {
        assert(b@.take(k + 1).drop_last() =~= b@.take(k as int));
        assert(b@.take(k + 1).last() == b@[k as int]);
        let p = b[k];
        sums = [sums[0] + p[0] as u128, sums[1] + p[1] as u128, sums[2] + p[2] as u128];
        k += 1;
    }
    assert(b@.take(b@.len() as int) =~= b@);
    let n: u128 = if b.len() == 0 {
        1
    } else {
        b.len() as u128
    };
    assert(sums[0] / n <= 255) by (nonlinear_arith)
        requires
            sums[0] <= 255 * n,
            n >= 1,
    ;
    assert(sums[1] / n <= 255) by (nonlinear_arith)
        requires
            sums[1] <= 255 * n,
            n >= 1,
    ;
    assert(sums[2] / n <= 255) by (nonlinear_arith)
        requires
            sums[2] <= 255 * n,
            n >= 1,
    ;
    [(sums[0] / n) as u8, (sums[1] / n) as u8, (sums[2] / n) as u8]
}

/// The index of the first of the largest boxes.
fn first_largest_box(boxes: &Vec<Vec<Px>>) -> (k: usize)
    requires
        boxes@.len() > 0,
    ensures
        k == first_largest(boxes_view(boxes@).map_values(|b: Seq<Px>| b.len())),
        k < boxes@.len(),
{
    let ghost sizes = boxes_view(boxes@).map_values(|b: Seq<Px>| b.len());
    let mut best: usize = 0;
    let mut k: usize = 1;
    assert(sizes.take(1).len() == 1);
    while k < boxes.len()
        invariant
            1 <= k <= boxes@.len(),
            sizes == boxes_view(boxes@).map_values(|b: Seq<Px>| b.len()),
            sizes.len() == boxes@.len(),
            best < k,
            best == first_largest(sizes.take(k as int)),
        decreases boxes@.len() - k,
    {
        assert(sizes.take(k + 1).drop_last() =~= sizes.take(k as int));
        assert(sizes.take(k + 1).last() == sizes[k as int]);
        assert(sizes[k as int] == boxes@[k as int]@.len());
        assert(sizes.take(k + 1)[best as int] == sizes[best as int]);
        assert(sizes[best as int] == boxes@[best as int]@.len());
        if boxes[k].len() > boxes[best].len() {
            best = k;
        }
        k += 1;
    }
    assert(sizes.take(boxes@.len() as int) =~= sizes);
    best
}

/// The palette of an image's (downscaled) pixels: eight colors, by median
/// cut. The pixels are cut into up to eight boxes, each time halving the
/// first box with the widest channel spread along that channel; the boxes'
/// average colors, largest box first, make the palette, the last color
/// repeated where there are fewer than eight boxes.
pub fn median_cut(pixels: &[Px]) -> (colors: Vec<Px>)
    requires
        pixels@.len() <= 16_843_009,
    ensures
        colors@ == median_cut_palette(pixels@),
        colors@.len() == 8,
{
    let mut boxes: Vec<Vec<Px>> = Vec::new();
    boxes.push(vstd::slice::slice_to_vec(pixels));
    let ghost target = cut_boxes(seq![pixels@]);
    assert(boxes_view(boxes@) =~= seq![pixels@]);
    loop
        invariant
            cut_boxes(boxes_view(boxes@)) == target,
            target == cut_boxes(seq![pixels@]),
        ensures
            boxes_view(boxes@) == target,
        decreases 8 - boxes@.len(),
    {
        if boxes.len() >= 8 {
            break;
        }
        let ghost bv = boxes_view(boxes@);
        proof {
            lemma_widest_bounds(bv, 3 * bv.len() as int);
        }
        match find_widest(&boxes) {
            None => {
                break;
            },
            Some((i, c)) => {
                let mut sorted = sort_channel(&boxes[i], c);
                assert(bv[i as int] == boxes@[i as int]@);
                let mid = sorted.len() / 2;
                let upper = sorted.split_off(mid);
                let ghost lower_v = sorted@;
                let ghost upper_v = upper@;
                boxes.set(i, sorted);
                boxes.push(upper);
                assert(boxes_view(boxes@) =~= bv.update(i as int, lower_v).push(upper_v));
                proof {
                    lemma_split_step_len(bv);
                }
            },
        }
    }
    let ghost all = boxes_view(boxes@);
    let mut colors: Vec<Px> = Vec::new();
    assert(colors@ + by_size(boxes_view(boxes@)).map_values(|b: Seq<Px>| box_average(b))
        =~= by_size(all).map_values(|b: Seq<Px>| box_average(b)));
    while boxes.len() > 0
        invariant
            colors@ + by_size(boxes_view(boxes@)).map_values(|b: Seq<Px>| box_average(b))
                == by_size(all).map_values(|b: Seq<Px>| box_average(b)),
        decreases boxes@.len(),
    {
        let ghost bv = boxes_view(boxes@);
        let k = first_largest_box(&boxes);
        let b = boxes.remove(k);
        assert(boxes_view(boxes@) =~= bv.remove(k as int));
        assert(bv[k as int] == b@);
        let a = average(&b);
        let ghost c0 = colors@;
        colors.push(a);
        let ghost rest = by_size(bv.remove(k as int));
        assert(by_size(bv) == seq![bv[k as int]] + rest);
        assert((seq![bv[k as int]] + rest).map_values(|b: Seq<Px>| box_average(b)) =~= seq![
            box_average(bv[k as int]),
        ] + rest.map_values(|b: Seq<Px>| box_average(b)));
        assert(colors@ + rest.map_values(|b: Seq<Px>| box_average(b)) =~= c0 + by_size(bv).map_values(
            |b: Seq<Px>| box_average(b),
        ));
    }
    assert(by_size(boxes_view(boxes@)) =~= Seq::<Seq<Px>>::empty());
    assert(colors@ =~= by_size(all).map_values(|b: Seq<Px>| box_average(b)));
    let ghost cs = colors@;
    if colors.len() >= 8 {
        colors.truncate(8);
    } else {
        let fill = if colors.len() == 0 {
            [0u8, 0u8, 0u8]
        } else {
            colors[colors.len() - 1]
        };
        let n0 = colors.len();
        while colors.len() < 8
            invariant
                n0 <= colors@.len() <= 8,
                n0 == cs.len(),
                colors@ == cs + Seq::new((colors@.len() - n0) as nat, |i: int| fill),
            decreases 8 - colors@.len(),
        {
            colors.push(fill);
            assert(colors@ =~= cs + Seq::new((colors@.len() - n0) as nat, |i: int| fill));
        }
    }
    assert(colors@ =~= eight(cs));
    colors
}

/// What the image crate decodes an encoded image to (its format guessed from
/// its first bytes): width, height and the pixels row by row as RGB; `None`
/// where the format is unknown or the bytes do not decode.
pub uninterp spec fn decoded_rgb8(bytes: Seq<u8>) -> Option<(u32, u32, Seq<Px>)>;

/// What the image crate's `imageops::resize` with the triangle filter makes
/// of a `w` by `h` RGB image: the pixels of the `sw` by `sh` result, row by
/// row.
pub uninterp spec fn resampled_rgb8(w: u32, h: u32, px: Seq<Px>, sw: u32, sh: u32) -> Seq<Px>;

/// Decodes an encoded image with the image crate: `image::guess_format`,
/// then `image::load_from_memory_with_format`, then `DynamicImage::to_rgb8`,
/// its pixels collected in row order. Trusted: the result is named
/// `decoded_rgb8` of the bytes, and a decoded image has `w * h` pixels (its
/// buffer holds `3 * w * h` bytes, which `pixels` walks three at a time).
#[verifier::external_body]
fn decode_rgb8(bytes: &[u8]) -> (r: Option<(u32, u32, Vec<Px>)>)
    ensures
        match r {
            Some((w, h, px)) => decoded_rgb8(bytes@) == Some((w, h, px@)) && px@.len() == w * h,
            None => decoded_rgb8(bytes@) is None,
        },
{
    let format = image::guess_format(bytes).ok()?;
    let img = image::load_from_memory_with_format(bytes, format).ok()?.to_rgb8();
    let px: Vec<Px> = img.pixels().map(|p| p.0).collect();
    Some((img.width(), img.height(), px))
}

/// Resamples a `w` by `h` RGB image to `sw` by `sh` with the image crate:
/// `ImageBuffer::from_raw` (which accepts a buffer of `3 * w * h` bytes),
/// then `imageops::resize` with `FilterType::Triangle`, its pixels collected
/// in row order. Trusted: the result is named `resampled_rgb8` of the
/// arguments, and has `sw * sh` pixels (`resize` returns an `sw` by `sh`
/// buffer). The target is kept small enough that its buffer length fits.
#[verifier::external_body]
fn resample_rgb8(w: u32, h: u32, px: &[Px], sw: u32, sh: u32) -> (out: Vec<Px>)
    requires
        px@.len() == w * h,
        sw >= 1,
        sh >= 1,
        sw * sh <= 16_843_009,
    ensures
        out@ == resampled_rgb8(w, h, px@, sw, sh),
        out@.len() == sw * sh,
{
    let raw: Vec<u8> = px.iter().flat_map(|p| p.iter().copied()).collect();
    let img = image::RgbImage::from_raw(w, h, raw).unwrap();
    let small = image::imageops::resize(&img, sw, sh, image::imageops::FilterType::Triangle);
    small.pixels().map(|p| p.0).collect()
}

/// Decodes an encoded image (PNG, JPEG, WebP, GIF or BMP, told apart by its
/// first bytes) into its width, height and RGB pixels, row by row; `None`
/// where it does not decode.
pub fn decode_image(bytes: &[u8]) -> (r: Option<(u32, u32, Vec<Px>)>)
    ensures
        match r {
            Some((w, h, px)) => decoded_rgb8(bytes@) == Some((w, h, px@)) && px@.len() == w * h,
            None => decoded_rgb8(bytes@) is None,
        },
{
    decode_rgb8(bytes)
}

/// The palette of a decoded `w` by `h` image: its pixels as they are, or
/// first resampled to `sw` by `sh` where a `target` size is given, then
/// reduced to eight colors by `median_cut`.
pub fn sample_palette(w: u32, h: u32, px: &[Px], target: Option<(u32, u32)>) -> (colors: Vec<Px>)
    requires
        match target {
            Some((sw, sh)) => px@.len() == w * h && sw >= 1 && sh >= 1 && sw * sh <= 16_843_009,
            None => px@.len() <= 16_843_009,
        },
    ensures
        colors@ == median_cut_palette(
            match target {
                Some((sw, sh)) => resampled_rgb8(w, h, px@, sw, sh),
                None => px@,
            },
        ),
        colors@.len() == 8,
{
    match target {
        Some((sw, sh)) => {
            let small = resample_rgb8(w, h, px, sw, sh);
            median_cut(small.as_slice())
        },
        None => median_cut(px),
    }
}

/// The cache record of a palette: the channels of its first eight colors,
/// zeros where there are fewer.
pub open spec fn palette_record(colors: Seq<Px>) -> Seq<u8> {
    Seq::new(
        24,
        |k: int|
            if k / 3 < colors.len() {
                colors[k / 3][k % 3]
            } else {
                0u8
            },
    )
}

/// The palette a cache record holds: eight colors of three bytes; `None`
/// for a record that is not 24 bytes long.
pub open spec fn record_palette(bytes: Seq<u8>) -> Option<Seq<Px>> {
    if bytes.len() != 24 {
        None
    } else {
        Some(Seq::new(8, |i: int| [bytes[3 * i], bytes[3 * i + 1], bytes[3 * i + 2]]))
    }
}

/// The cache record of a palette.
pub fn palette_bytes(colors: &[Px]) -> (out: Vec<u8>)
    ensures
        out@ == palette_record(colors@),
{
    let mut out: Vec<u8> = Vec::new();
    let mut k: usize = 0;
    while k < 24
        invariant
            k <= 24,
            out@.len() == k,
            forall|j: int| 0 <= j < k ==> #[trigger] out@[j] == palette_record(colors@)[j],
        decreases 24 - k,
    {
        let i = k / 3;
        let v = if i < colors.len() {
            colors[i][k % 3]
        } else {
            0u8
        };
        out.push(v);
        k += 1;
    }
    assert(out@ =~= palette_record(colors@));
    out
}

/// Why a cache record was refused.
#[derive(Debug, Clone, Copy, PartialEq, Eq)]
pub enum CacheError {
    /// Not 24 bytes long.
    BadLength,
}

/// Reads a cache record back into its palette.
pub fn decode_palette(bytes: &[u8]) -> (res: Result<Vec<Px>, CacheError>)
    ensures
        match (res, record_palette(bytes@)) {
            (Ok(v), Some(p)) => v@ == p,
            (Err(_), None) => true,
            _ => false,
        },
{
    if bytes.len() != 24 {
        return Err(CacheError::BadLength);
    }
    let mut out: Vec<Px> = Vec::new();
    let mut i: usize = 0;
    while i < 8
        invariant
            i <= 8,
            bytes@.len() == 24,
            out@.len() == i,
            forall|j: int|
                0 <= j < i ==> #[trigger] out@[j] == [bytes@[3 * j], bytes@[3 * j + 1], bytes@[3 * j
                    + 2]],
        decreases 8 - i,
    {
        out.push([bytes[3 * i], bytes[3 * i + 1], bytes[3 * i + 2]]);
        i += 1;
    }
    assert(out@ =~= record_palette(bytes@)->0);
    Ok(out)
}

/// A color as `#rrggbb` (lower case).
pub open spec fn hex_line(c: Px) -> Seq<char> {
    "#"@ + hex2(c[0], false) + hex2(c[1], false) + hex2(c[2], false)
}

/// The colors as `#rrggbb` lines joined by newlines.
pub open spec fn hex_lines(colors: Seq<Px>) -> Seq<char>
    decreases colors.len(),
{
    if colors.len() == 0 {
        Seq::empty()
    } else if colors.len() == 1 {
        hex_line(colors[0])
    } else {
        hex_lines(colors.drop_last()) + "\n"@ + hex_line(colors.last())
    }
}

/// The published color list: one `#rrggbb` per line.
pub fn render_hex(colors: &[Px]) -> (s: String)
    ensures
        s@ == hex_lines(colors@),
{
    let mut out: Vec<char> = Vec::new();
    let mut k: usize = 0;
    assert(colors@.take(0) =~= Seq::<Px>::empty());
    while k < colors.len()
        invariant
            k <= colors@.len(),
            out@ == hex_lines(colors@.take(k as int)),
        decreases colors@.len() - k,
    {
        assert(colors@.take(k + 1).drop_last() =~= colors@.take(k as int));
        assert(colors@.take(k + 1).last() == colors@[k as int]);
        if k > 0 {
            crate::text::push_str(&mut out, "\n");
        }
        let ghost before = out@;
        let c = colors[k];
        crate::text::push_str(&mut out, "#");
        push_hex2(&mut out, c[0], false);
        push_hex2(&mut out, c[1], false);
        push_hex2(&mut out, c[2], false);
        assert(out@ =~= before + hex_line(c));
        proof {
            if k == 0 {
                assert(colors@.take(1)[0] == c);
                assert(before =~= Seq::<char>::empty());
            }
        }
        assert(out@ =~= hex_lines(colors@.take(k + 1)));
        k += 1;
    }
    assert(colors@.take(colors@.len() as int) =~= colors@);
    string_from_chars(out.as_slice())
}

/// Appends the lowest `width` hexadecimal digits of `n` (lower case).
fn push_hex_fixed(out: &mut Vec<char>, n: u64, width: u8)
    ensures
        final(out)@ == old(out)@ + hex_fixed(n as nat, width as nat, false),
    decreases width,
{
    if width > 0 {
        push_hex_fixed(out, n / 16, width - 1);
        out.push(crate::text::hex_digit_char((n % 16) as u8, false));
        assert(final(out)@ =~= old(out)@ + hex_fixed(n as nat, width as nat, false));
    }
}

/// A cache key: the 16 lower-case hexadecimal digits of a hash.
pub fn cache_key_from_hash(h: u64) -> (s: String)
    ensures
        s@ == hex_fixed(h as nat, 16, false),
{
    let mut out: Vec<char> = Vec::new();
    push_hex_fixed(&mut out, h, 16);
    string_from_chars(out.as_slice())
}

/// The hash of an image's path, size and modification time that names its
/// cached palette, from the standard library's `DefaultHasher` (SipHash with
/// fixed keys) fed a version tag, the path's bytes, the size and the time.
/// Nothing is stated of the value: it is whatever the hasher gives.
#[verifier::external_body]
fn cache_hash(path: &[u8], size: u64, mtime: u64) -> u64 {
    let mut h = std::collections::hash_map::DefaultHasher::new();
    std::hash::Hash::hash("bnchroma-pick-v2", &mut h);
    std::hash::Hash::hash(path, &mut h);
    std::hash::Hash::hash(&size, &mut h);
    std::hash::Hash::hash(&mtime, &mut h);
    std::hash::Hasher::finish(&h)
}

/// The name of an image's cached palette, from the bytes of its path, its
/// size and its modification time (seconds since the epoch): 16 lower-case
/// hexadecimal digits.
pub fn compute_cache_key(path: &[u8], size: u64, mtime: u64) -> (key: String)
    ensures
        exists|h: u64| key@ == hex_fixed(h as nat, 16, false),
{
    let h = cache_hash(path, size, mtime);
    cache_key_from_hash(h)
}

/// Law: a palette of eight colors survives the cache: reading back its
/// record gives the same eight colors.
pub proof fn law_palette_record_roundtrip(colors: Seq<Px>)
    requires
        colors.len() == 8,
    ensures
        record_palette(palette_record(colors)) == Some(colors),
{
    let r = palette_record(colors);
    let back = record_palette(r)->0;
    assert forall|i: int| 0 <= i < 8 implies #[trigger] back[i] == colors[i] by {
        assert((3 * i) / 3 == i && (3 * i) % 3 == 0);
        assert((3 * i + 1) / 3 == i && (3 * i + 1) % 3 == 1);
        assert((3 * i + 2) / 3 == i && (3 * i + 2) % 3 == 2);
        assert(back[i] =~= colors[i]);
    }
    assert(back =~= colors);
}

/// Law: a cache record of 24 bytes is exactly the record of the palette it
/// holds.
pub proof fn law_record_palette_roundtrip(bytes: Seq<u8>)
    requires
        bytes.len() == 24,
    ensures
        palette_record(record_palette(bytes)->0) == bytes,
{
    let p = record_palette(bytes)->0;
    assert forall|k: int| 0 <= k < 24 implies #[trigger] palette_record(p)[k] == bytes[k] by {
        let i = k / 3;
        assert(0 <= i < 8);
        assert(k == 3 * i + k % 3);
    }
    assert(palette_record(p) =~= bytes);
}

/// How often `x` occurs in `s`.
pub open spec fn count(s: Seq<Px>, x: Px) -> nat
    decreases s.len(),
{
    if s.len() == 0 {
        0
    } else {
        count(s.drop_last(), x) + if s.last() == x {
            1nat
        } else {
            0nat
        }
    }
}

/// How often `x` occurs over all boxes.
pub open spec fn boxes_count(boxes: Seq<Seq<Px>>, x: Px) -> nat
    decreases boxes.len(),
{
    if boxes.len() == 0 {
        0
    } else {
        boxes_count(boxes.drop_last(), x) + count(boxes.last(), x)
    }
}

/// Occurrences in two runs of pixels add up.
pub proof fn lemma_count_concat(a: Seq<Px>, b: Seq<Px>, x: Px)
    ensures
        count(a + b, x) == count(a, x) + count(b, x),
    decreases b.len(),
{
    if b.len() == 0 {
        assert(a + b =~= a);
    } else {
        lemma_count_concat(a, b.drop_last(), x);
        assert((a + b).drop_last() =~= a + b.drop_last());
        assert((a + b).last() == b.last());
    }
}

/// A bucket holds exactly the occurrences of the pixels with that channel
/// value.
pub proof fn lemma_count_bucket(b: Seq<Px>, c: int, v: int, x: Px)
    ensures
        count(bucket(b, c, v), x) == if x[c] as int == v {
            count(b, x)
        } else {
            0
        },
    decreases b.len(),
{
    if b.len() > 0 {
        lemma_count_bucket(b.drop_last(), c, v, x);
        let p = b.last();
        if p[c] as int == v {
            let bb = bucket(b.drop_last(), c, v).push(p);
            assert(bb.drop_last() =~= bucket(b.drop_last(), c, v));
        }
    }
}

/// The buckets below `v` hold exactly the occurrences of the pixels whose
/// channel is below `v`.
pub proof fn lemma_count_sorted_below(b: Seq<Px>, c: int, v: int, x: Px)
    requires
        0 <= v,
    ensures
        count(sorted_below(b, c, v), x) == if (x[c] as int) < v {
            count(b, x)
        } else {
            0
        },
    decreases v,
{
    if v > 0 {
        lemma_count_sorted_below(b, c, v - 1, x);
        lemma_count_concat(sorted_below(b, c, v - 1), bucket(b, c, v - 1), x);
        lemma_count_bucket(b, c, v - 1, x);
    }
}

/// Sorting by a channel keeps every pixel as often as it occurs.
pub proof fn lemma_count_sort(b: Seq<Px>, c: int, x: Px)
    requires
        0 <= c < 3,
    ensures
        count(sort_by_channel(b, c), x) == count(b, x),
{
    lemma_count_sorted_below(b, c, 256, x);
}

/// Replacing one box changes the occurrences by those of the two boxes.
pub proof fn lemma_boxes_count_update(boxes: Seq<Seq<Px>>, i: int, y: Seq<Px>, x: Px)
    requires
        0 <= i < boxes.len(),
    ensures
        boxes_count(boxes.update(i, y), x) + count(boxes[i], x) == boxes_count(boxes, x) + count(y, x),
    decreases boxes.len(),
{
    let u = boxes.update(i, y);
    assert(u.drop_last() =~= if i == boxes.len() - 1 {
        boxes.drop_last()
    } else {
        boxes.drop_last().update(i, y)
    });
    if i < boxes.len() - 1 {
        lemma_boxes_count_update(boxes.drop_last(), i, y, x);
    }
}

/// One cut keeps every pixel as often as it occurs.
pub proof fn lemma_split_step_count(boxes: Seq<Seq<Px>>, x: Px)
    ensures
        split_step(boxes) matches Some(nb) ==> boxes_count(nb, x) == boxes_count(boxes, x),
{
    lemma_widest_bounds(boxes, 3 * boxes.len() as int);
    if let Some((i, c)) = widest(boxes, 3 * boxes.len() as int).1 {
        let s = sort_by_channel(boxes[i], c);
        let mid = s.len() / 2;
        let lo = s.take(mid as int);
        let hi = s.skip(mid as int);
        let nb = boxes.update(i, lo).push(hi);
        assert(nb.drop_last() =~= boxes.update(i, lo));
        lemma_boxes_count_update(boxes, i, lo, x);
        assert(lo + hi =~= s);
        lemma_count_concat(lo, hi, x);
        lemma_count_sort(boxes[i], c, x);
    }
}

/// Cutting keeps every pixel as often as it occurs.
pub proof fn lemma_cut_boxes_count(boxes: Seq<Seq<Px>>, x: Px)
    ensures
        boxes_count(cut_boxes(boxes), x) == boxes_count(boxes, x),
    decreases 8 - boxes.len(),
{
    if boxes.len() < 8 {
        if let Some(nb) = split_step(boxes) {
            lemma_split_step_len(boxes);
            lemma_split_step_count(boxes, x);
            lemma_cut_boxes_count(nb, x);
        }
    }
}

/// Law: the median-cut boxes split the pixels: every pixel lies in the boxes
/// exactly as often as it occurs in the image, and there are one to eight
/// boxes.
pub proof fn law_cut_partitions_pixels(pixels: Seq<Px>, x: Px)
    ensures
        boxes_count(cut_boxes(seq![pixels]), x) == count(pixels, x),
        1 <= cut_boxes(seq![pixels]).len() <= 8,
{
    lemma_cut_boxes_count(seq![pixels], x);
    let one = seq![pixels];
    assert(one.drop_last() =~= Seq::<Seq<Px>>::empty());
    assert(boxes_count(one.drop_last(), x) == 0);
    assert(one.last() == pixels);
    assert(boxes_count(one, x) == count(pixels, x));
    lemma_cut_boxes_len(one);
}

/// Cutting keeps between one and eight boxes.
pub proof fn lemma_cut_boxes_len(boxes: Seq<Seq<Px>>)
    requires
        1 <= boxes.len() <= 8,
    ensures
        1 <= cut_boxes(boxes).len() <= 8,
    decreases 8 - boxes.len(),
{
    if boxes.len() < 8 {
        if let Some(nb) = split_step(boxes) {
            lemma_split_step_len(boxes);
            lemma_cut_boxes_len(nb);
        }
    }
}

/// Law: each published `#rrggbb` line reads back as its color.
pub proof fn law_hex_line_parses(c: Px)
    ensures
        crate::utils::parse_hex(vstd::utf8::encode_utf8(hex_line(c))) == Ok::<
            crate::utils::Rgb,
            crate::utils::HexError,
        >((c[0], c[1], c[2])),
{
    let body = hex2(c[0], false) + hex2(c[1], false) + hex2(c[2], false);
    let t = hex_line(c);
    reveal_strlit("#");
    assert(t =~= seq!['#'] + body);
    assert(vstd::utf8::is_ascii_chars(t));
    vstd::utf8::is_ascii_chars_encode_utf8(t);
    let b = vstd::utf8::encode_utf8(t);
    crate::utils::lemma_channel_of_hex2(c[0], false);
    crate::utils::lemma_channel_of_hex2(c[1], false);
    crate::utils::lemma_channel_of_hex2(c[2], false);
    assert(b.len() == 7);
    assert(b[0] == 35u8);
    assert(b.drop_first()[0] == b[1]);
    assert(crate::utils::strip_hashes(b.drop_first()) == b.drop_first());
    assert(crate::utils::strip_hashes(b) == b.drop_first());
    assert(b[1] == body[0] as u8 && b[2] == body[1] as u8);
    assert(b[3] == body[2] as u8 && b[4] == body[3] as u8);
    assert(b[5] == body[4] as u8 && b[6] == body[5] as u8);
}

/// The first largest size is no smaller than any size, and larger than every
/// size before it.
pub proof fn lemma_first_largest_max(sizes: Seq<nat>)
    requires
        sizes.len() > 0,
    ensures
        forall|j: int| 0 <= j < sizes.len() ==> #[trigger] sizes[j] <= sizes[first_largest(sizes)],
        forall|j: int|
            0 <= j < first_largest(sizes) ==> #[trigger] sizes[j] < sizes[first_largest(sizes)],
    decreases sizes.len(),
{
    if sizes.len() > 1 {
        let d = sizes.drop_last();
        lemma_first_largest_max(d);
        lemma_first_largest_bounds(d);
        let k = first_largest(d);
        assert(forall|j: int| 0 <= j < d.len() ==> d[j] == sizes[j]);
    }
}

/// Law: ordering boxes by size keeps every box as often as it occurs, puts
/// larger boxes before smaller ones, and starts with the first of the largest
/// boxes.
pub proof fn law_by_size_sorted(boxes: Seq<Seq<Px>>)
    ensures
        by_size(boxes).len() == boxes.len(),
        by_size(boxes).to_multiset() == boxes.to_multiset(),
        forall|i: int, j: int|
            0 <= i < j < boxes.len() ==> (#[trigger] by_size(boxes)[i]).len() >= (
            #[trigger] by_size(boxes)[j]).len(),
        boxes.len() > 0 ==> exists|k: int|
            0 <= k < boxes.len() && by_size(boxes)[0] == boxes[k] && (forall|j: int|
                0 <= j < boxes.len() ==> (#[trigger] boxes[j]).len() <= boxes[k].len()) && (
            forall|j: int| 0 <= j < k ==> (#[trigger] boxes[j]).len() < boxes[k].len()),
    decreases boxes.len(),
{
    broadcast use vstd::seq_lib::group_to_multiset_ensures;
    broadcast use vstd::multiset::group_multiset_axioms;

    if boxes.len() == 0 {
        assert(by_size(boxes) =~= boxes);
    } else {
        let sizes = boxes.map_values(|b: Seq<Px>| b.len());
        let k = first_largest(sizes);
        lemma_first_largest_bounds(sizes);
        lemma_first_largest_max(sizes);
        let r = boxes.remove(k);
        law_by_size_sorted(r);
        let rest = by_size(r);
        let bs = by_size(boxes);
        assert(bs == seq![boxes[k]] + rest);
        assert(bs =~= rest.insert(0, boxes[k]));
        assert(bs.to_multiset() == rest.to_multiset().insert(boxes[k]));
        assert(r.to_multiset() == boxes.to_multiset().remove(boxes[k]));
        assert(boxes.to_multiset().count(boxes[k]) > 0);
        assert(bs.to_multiset() =~= boxes.to_multiset());
        assert forall|j: int| 0 <= j < boxes.len() implies (#[trigger] boxes[j]).len()
            <= boxes[k].len() by {
            assert(sizes[j] == boxes[j].len());
        }
        assert forall|j: int| 0 <= j < k implies (#[trigger] boxes[j]).len() < boxes[k].len() by {
            assert(sizes[j] == boxes[j].len());
        }
        assert forall|i: int, j: int| 0 <= i < j < boxes.len() implies (#[trigger] bs[i]).len() >= (
        #[trigger] bs[j]).len() by {
            if i == 0 {
                let x = bs[j];
                assert(x == rest[j - 1]);
                assert(rest.contains(x));
                assert(rest.to_multiset().count(x) > 0);
                assert(r.contains(x));
                let m = choose|m: int| 0 <= m < r.len() && r[m] == x;
                if m < k {
                    assert(r[m] == boxes[m]);
                } else {
                    assert(r[m] == boxes[m + 1]);
                }
            } else {
                assert(bs[i] == rest[i - 1] && bs[j] == rest[j - 1]);
            }
        }
        assert(bs[0] == boxes[k]);
    }
}

/// Law: the palette is ordered by box size: its colors are the averages of
/// the median-cut boxes, largest box first (so the first color, the default
/// gradient source, is the average of a largest box).
pub proof fn law_palette_largest_first(pixels: Seq<Px>)
    ensures
        ({
            let boxes = cut_boxes(seq![pixels]);
            let bs = by_size(boxes);
            &&& bs.to_multiset() == boxes.to_multiset()
            &&& forall|i: int, j: int|
                0 <= i < j < bs.len() ==> (#[trigger] bs[i]).len() >= (#[trigger] bs[j]).len()
            &&& forall|i: int|
                0 <= i < bs.len() ==> #[trigger] median_cut_palette(pixels)[i] == box_average(bs[i])
            &&& exists|k: int|
                0 <= k < boxes.len() && median_cut_palette(pixels)[0] == box_average(boxes[k])
                    && forall|j: int| 0 <= j < boxes.len() ==> (#[trigger] boxes[j]).len()
                    <= boxes[k].len()
        }),
{
    let boxes = cut_boxes(seq![pixels]);
    lemma_cut_boxes_len(seq![pixels]);
    law_by_size_sorted(boxes);
    let bs = by_size(boxes);
    let colors = bs.map_values(|b: Seq<Px>| box_average(b));
    assert(colors.len() == bs.len());
    assert(1 <= colors.len() <= 8);
    let pal = median_cut_palette(pixels);
    assert(pal == eight(colors));
    assert forall|i: int| 0 <= i < bs.len() implies #[trigger] pal[i] == box_average(bs[i]) by {
        if colors.len() < 8 {
            assert(eight(colors)[i] == colors[i]);
        } else {
            assert(eight(colors)[i] == colors.take(8)[i]);
        }
    }
    assert(pal[0] == box_average(bs[0]));
}

} // verus!
